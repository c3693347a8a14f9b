//! Exercises on vectors and strings: the modes of a list of integers, and
//! pig-latin conversion of a word.

use vstd::prelude::*;
use vstd::string::StrSliceExecFns;
use vstd::string::StringExecFns;

use crate::text::ascii_letter;
use crate::text::is_ascii_letter;
use crate::text::push_char;

verus! {

/// How many times `v` occurs in `s`.
pub open spec fn occ(s: Seq<i32>, v: i32) -> nat
    decreases s.len(),
{
    if s.len() == 0 {
        0
    } else {
        occ(s.drop_last(), v) + (if s.last() == v {
            1nat
        } else {
            0nat
        })
    }
}

/// The greatest number of times any value occurs in `s`.
pub open spec fn max_occ(s: Seq<i32>) -> nat
    decreases s.len(),
{
    if s.len() == 0 {
        0
    } else {
        let m = max_occ(s.drop_last());
        let o = occ(s, s.last());
        if o > m {
            o
        } else {
            m
        }
    }
}

/// No value occurs more often than `max_occ` says.
pub proof fn lemma_occ_le_max(s: Seq<i32>, v: i32)
    ensures
        occ(s, v) <= max_occ(s),
    decreases s.len(),
{
    if s.len() > 0 {
        lemma_occ_le_max(s.drop_last(), v);
    }
}

/// Some element of a nonempty list occurs exactly `max_occ` times.
pub proof fn lemma_max_occ_achieved(s: Seq<i32>)
    requires
        s.len() > 0,
    ensures
        exists|k: int| 0 <= k < s.len() && occ(s, #[trigger] s[k]) == max_occ(s),
    decreases s.len(),
{
    let d = s.drop_last();
    if occ(s, s.last()) >= max_occ(d) {
        assert(s[s.len() - 1] == s.last());
        assert(occ(s, s[s.len() - 1]) == max_occ(s));
    } else {
        lemma_max_occ_achieved(d);
        let k = choose|k: int| 0 <= k < d.len() && occ(d, #[trigger] d[k]) == max_occ(d);
        let v = d[k];
        lemma_occ_le_max(s, v);
        if v == s.last() {
            assert(occ(s, v) == occ(d, v) + 1);
        }
        assert(occ(s, s[k]) == max_occ(s));
    }
}

/// Occurrences of `v` in the first `i` elements, counted left to right.
fn count(list: &Vec<i32>, v: i32) -> (c: usize)
    ensures
        c == occ(list@, v),
{
    let mut c: usize = 0;
    for i in 0..list.len()
        invariant
            c == occ(list@.take(i as int), v),
            c <= i,
    {
        proof {
            assert(list@.take(i + 1).drop_last() =~= list@.take(i as int));
            assert(list@.take(i + 1).last() == list@[i as int]);
        }
        if list[i] == v {
            c = c + 1;
        }
    }
    proof {
        assert(list@.take(list@.len() as int) =~= list@);
    }
    c
}

/// The elements of `s` are strictly increasing.
pub open spec fn sorted_strict(s: Seq<i32>) -> bool {
    forall|a: int, b: int| 0 <= a < b < s.len() ==> s[a] < s[b]
}

/// Puts `x` into a strictly sorted vector, keeping it sorted and without
/// duplicates; a value already present is left alone.
fn insert_sorted(r: &mut Vec<i32>, x: i32)
    requires
        sorted_strict(old(r)@),
    ensures
        sorted_strict(final(r)@),
        forall|v: i32| final(r)@.contains(v) <==> (old(r)@.contains(v) || v == x),
{
    let ghost r0 = r@;
    let mut p: usize = 0;
    while p < r.len() && r[p] < x
        invariant
            r@ == r0,
            p <= r@.len(),
            forall|k: int| 0 <= k < p ==> r@[k] < x,
        decreases r@.len() - p,
    {
        p = p + 1;
    }
    if p < r.len() {
        if *(&r[p]) == x {
            proof {
                assert(r@[p as int] == x);
                assert(r@.contains(x));
            }
            return;
        }
    }
    proof {
        if p < r0.len() {
            assert(r0[p as int] > x);
        }
    }
    r.insert(p, x);
    proof {
        let rn = r@;
        assert(rn == r0.insert(p as int, x));
        assert forall|a: int, b: int| 0 <= a < b < rn.len() implies rn[a] < rn[b] by {
            assert(rn[p as int] == x);
            if a < p {
                assert(rn[a] == r0[a]);
            }
            if b < p {
                assert(rn[b] == r0[b]);
            }
            if a > p {
                assert(rn[a] == r0[a - 1]);
                assert(r0[p as int] <= r0[a - 1]);
            }
            if b > p {
                assert(rn[b] == r0[b - 1]);
                assert(p < r0.len());
                if p as int <= b - 1 && p < r0.len() && p as int != b - 1 {
                    assert(r0[p as int] < r0[b - 1]);
                }
            }
        }
        assert forall|v: i32| rn.contains(v) <==> (r0.contains(v) || v == x) by {
            if rn.contains(v) {
                let j = choose|j: int| 0 <= j < rn.len() && rn[j] == v;
                if j < p {
                    assert(r0[j] == v);
                    assert(r0.contains(v));
                } else if j == p {
                } else {
                    assert(r0[j - 1] == v);
                    assert(r0.contains(v));
                }
            }
            if r0.contains(v) {
                let j = choose|j: int| 0 <= j < r0.len() && r0[j] == v;
                if j < p {
                    assert(rn[j] == v);
                } else {
                    assert(rn[j + 1] == v);
                }
                assert(rn.contains(v));
            }
            if v == x {
                assert(rn[p as int] == x);
                assert(rn.contains(v));
            }
        }
    }
}

/// The modes of the list: the values that occur most often, each once, in
/// increasing order. An empty list has no mode.
pub fn mode(list: &Vec<i32>) -> (r: Vec<i32>)
    ensures
        list@.len() == 0 ==> r@.len() == 0,
        list@.len() > 0 ==> r@.len() > 0,
        sorted_strict(r@),
        forall|j: int| 0 <= j < r@.len() ==> occ(list@, #[trigger] r@[j]) == max_occ(list@),
        forall|v: i32|
            list@.contains(v) && #[trigger] occ(list@, v) == max_occ(list@) ==> r@.contains(v),
{
    let mut r: Vec<i32> = Vec::new();
    if list.len() == 0 {
        return r;
    }
    // Find the greatest occurrence count among the elements.
    let mut max: usize = 0;
    for i in 0..list.len()
        invariant
            list@.len() > 0,
            i > 0 ==> exists|k: int| 0 <= k < i && occ(list@, #[trigger] list@[k]) == max,
            forall|k: int| 0 <= k < i ==> occ(list@, #[trigger] list@[k]) <= max,
            i == 0 ==> max == 0,
    {
        let c = count(list, list[i]);
        if c > max {
            max = c;
        } else {
            proof {
                if i == 0 {
                    assert(occ(list@, list@[0]) >= 1) by {
                        lemma_occ_elem(list@, 0);
                    }
                }
            }
        }
    }
    proof {
        lemma_max_occ_achieved(list@);
        let k1 = choose|k: int| 0 <= k < list@.len() && occ(list@, #[trigger] list@[k]) == max_occ(
            list@,
        );
        assert(occ(list@, list@[k1]) <= max);
        let k0 = choose|k: int| 0 <= k < list@.len() && occ(list@, #[trigger] list@[k]) == max;
        lemma_occ_le_max(list@, list@[k0]);
        assert(max == max_occ(list@));
    }
    // Collect, in order and without repetition, every value that reaches it.
    for i in 0..list.len()
        invariant
            max == max_occ(list@),
            sorted_strict(r@),
            forall|j: int| 0 <= j < r@.len() ==> occ(list@, #[trigger] r@[j]) == max_occ(list@),
            forall|k: int|
                0 <= k < i && occ(list@, #[trigger] list@[k]) == max_occ(list@) ==> r@.contains(
                    list@[k],
                ),
    {
        let x = list[i];
        let c = count(list, x);
        if c == max {
            let ghost rprev = r@;
            insert_sorted(&mut r, x);
            proof {
                assert forall|j: int|
                    0 <= j < r@.len() implies occ(list@, #[trigger] r@[j]) == max_occ(list@) by {
                    assert(r@.contains(r@[j]));
                    if r@[j] != x {
                        assert(rprev.contains(r@[j]));
                        let m = choose|m: int| 0 <= m < rprev.len() && rprev[m] == r@[j];
                        assert(occ(list@, rprev[m]) == max_occ(list@));
                    }
                }
            }
        }
    }
    proof {
        lemma_max_occ_achieved(list@);
        let k = choose|k: int| 0 <= k < list@.len() && occ(list@, #[trigger] list@[k]) == max_occ(
            list@,
        );
        assert(r@.contains(list@[k]));
        assert(r@.len() > 0);
        assert forall|v: i32|
            list@.contains(v) && #[trigger] occ(list@, v) == max_occ(list@) implies r@.contains(
            v,
        ) by {
            let k = choose|k: int| 0 <= k < list@.len() && list@[k] == v;
            assert(occ(list@, list@[k]) == max_occ(list@));
        }
    }
    r
}

/// An element occurs at least once.
proof fn lemma_occ_elem(s: Seq<i32>, k: int)
    requires
        0 <= k < s.len(),
    ensures
        occ(s, s[k]) >= 1,
    decreases s.len(),
{
    if k == s.len() - 1 {
    } else {
        lemma_occ_elem(s.drop_last(), k);
        assert(s.drop_last()[k] == s[k]);
    }
}

/// The lowercase vowels, as the conversion recognises them.
pub open spec fn is_vowel(c: char) -> bool {
    c == 'a' || c == 'e' || c == 'i' || c == 'o' || c == 'u'
}

/// What pig-latin conversion turns a word into: a word led by a vowel gains
/// `-hay`; one led by another ASCII letter loses it and gains it back behind
/// a dash, followed by `ay`; any other word is left alone.
pub open spec fn pig_latin(s: Seq<char>) -> Seq<char> {
    if s.len() == 0 {
        s
    } else if is_vowel(s[0]) {
        s + seq!['-', 'h', 'a', 'y']
    } else if is_ascii_letter(s[0]) {
        s.skip(1) + seq!['-', s[0], 'a', 'y']
    } else {
        s
    }
}

/// Rewrites the word in place as its pig-latin form.
pub fn convert_to_pig_latin(s: &mut String)
    ensures
        final(s)@ == pig_latin(old(s)@),
{
    let len = s.as_str().unicode_len();
    if len == 0 {
        return;
    }
    let first = s.as_str().get_char(0);
    if first == 'a' || first == 'e' || first == 'i' || first == 'o' || first == 'u' {
        push_char(s, '-');
        push_char(s, 'h');
        push_char(s, 'a');
        push_char(s, 'y');
        proof {
            assert(s@ =~= old(s)@ + seq!['-', 'h', 'a', 'y']);
        }
    } else if ascii_letter(first) {
        let rest = s.as_str().substring_char(1, len);
        let mut t = String::from_str(rest);
        push_char(&mut t, '-');
        push_char(&mut t, first);
        push_char(&mut t, 'a');
        push_char(&mut t, 'y');
        proof {
            assert(t@ =~= old(s)@.skip(1) + seq!['-', old(s)@[0], 'a', 'y']);
        }
        *s = t;
    }
}

} // verus!
