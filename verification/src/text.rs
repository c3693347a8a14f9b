//! Character-level utilities shared by the text-processing modules:
//! equality and substring tests on `&str`, scanning for a character, and
//! lowercasing.

use vstd::prelude::*;
use vstd::string::StrSliceExecFns;

verus! {

/// The characters of `s` lowercased, as `str::to_lowercase` maps them; a
/// function of the characters of `s` alone.
pub uninterp spec fn lower_of(s: Seq<char>) -> Seq<char>;

/// Relies on `str::to_lowercase`: returns the lowercase equivalent of the
/// string, determined by its characters alone.
#[verifier::external_body]
pub(crate) fn lowercase(s: &str) -> (r: String)
    ensures
        r@ == lower_of(s@),
{
    s.to_lowercase()
}

/// Relies on `String::push`: appends the given character to the end of the
/// string.
#[verifier::external_body]
pub(crate) fn push_char(s: &mut String, c: char)
    ensures
        final(s)@ == old(s)@.push(c),
{
    s.push(c)
}

/// Whether the strings hold the same characters.
pub fn str_eq(a: &str, b: &str) -> (r: bool)
    ensures
        r == (a@ == b@),
{
    let alen = a.unicode_len();
    let blen = b.unicode_len();
    if alen != blen {
        return false;
    }
    for i in 0..alen
        invariant
            alen == a@.len(),
            blen == b@.len(),
            alen == blen,
            forall|k: int| 0 <= k < i ==> a@[k] == b@[k],
    {
        if a.get_char(i) != b.get_char(i) {
            return false;
        }
    }
    proof {
        assert(a@ =~= b@);
    }
    true
}

/// `q` occurs in `s` starting at position `i`.
pub open spec fn is_match_at(s: Seq<char>, q: Seq<char>, i: int) -> bool {
    0 <= i && i + q.len() <= s.len() && s.subrange(i, i + q.len()) == q
}

/// `q` occurs somewhere in `s` as a contiguous run of characters.
pub open spec fn has_substring(s: Seq<char>, q: Seq<char>) -> bool {
    exists|i: int| is_match_at(s, q, i)
}

/// Whether `q` occurs in `s` starting at position `i`.
pub(crate) fn match_at(s: &str, q: &str, i: usize) -> (r: bool)
    requires
        i + q@.len() <= s@.len(),
    ensures
        r == is_match_at(s@, q@, i as int),
{
    let slen = s.unicode_len();
    let qlen = q.unicode_len();
    for j in 0..qlen
        invariant
            i + qlen <= slen,
            slen == s@.len(),
            qlen == q@.len(),
            forall|k: int| 0 <= k < j ==> s@[i + k] == q@[k],
    {
        if s.get_char(i + j) != q.get_char(j) {
            proof {
                assert(s@.subrange(i as int, i + q@.len())[j as int] != q@[j as int]);
            }
            return false;
        }
    }
    proof {
        assert(s@.subrange(i as int, i + q@.len()) =~= q@);
    }
    true
}

/// Whether `q` occurs somewhere in `s`, as `str::contains` decides it.
pub fn str_contains(s: &str, q: &str) -> (r: bool)
    ensures
        r == has_substring(s@, q@),
{
    let slen = s.unicode_len();
    let qlen = q.unicode_len();
    if qlen > slen {
        proof {
            assert(forall|i: int| !is_match_at(s@, q@, i));
        }
        return false;
    }
    if qlen == 0 {
        proof {
            assert(s@.subrange(0, 0) =~= q@);
            assert(is_match_at(s@, q@, 0));
        }
        return true;
    }
    let mut i: usize = 0;
    while i <= slen - qlen
        invariant
            0 < qlen <= slen,
            slen == s@.len(),
            qlen == q@.len(),
            i <= slen - qlen + 1,
            forall|k: int| 0 <= k < i ==> !is_match_at(s@, q@, k),
        decreases slen - qlen - i + 1,
    {
        if match_at(s, q, i) {
            return true;
        }
        i = i + 1;
    }
    proof {
        assert(forall|k: int| i <= k ==> !is_match_at(s@, q@, k));
    }
    false
}

/// The position of the first occurrence of `c` in `s`, or the length of `s`
/// when `c` does not occur.
pub open spec fn first_index_of(s: Seq<char>, c: char) -> nat
    decreases s.len(),
{
    if s.len() == 0 {
        0
    } else if s[0] == c {
        0
    } else {
        1 + first_index_of(s.drop_first(), c)
    }
}

/// What `first_index_of` finds: the first position holding `c`, or the
/// length of the string when no position does.
pub proof fn lemma_first_index_of(s: Seq<char>, c: char)
    ensures
        first_index_of(s, c) <= s.len(),
        first_index_of(s, c) < s.len() ==> s[first_index_of(s, c) as int] == c,
        forall|j: int| 0 <= j < first_index_of(s, c) ==> s[j] != c,
    decreases s.len(),
{
    if s.len() > 0 && s[0] != c {
        lemma_first_index_of(s.drop_first(), c);
        assert forall|j: int| 0 <= j < first_index_of(s, c) implies s[j] != c by {
            if j > 0 {
                assert(s.drop_first()[j - 1] == s[j]);
            }
        }
    }
}

/// Finds the first occurrence of `c` at or after position `from`.
pub fn scan_for(s: &str, from: usize, c: char) -> (r: usize)
    requires
        from <= s@.len(),
    ensures
        r == from + first_index_of(s@.skip(from as int), c),
        r <= s@.len(),
{
    let len = s.unicode_len();
    let mut i = from;
    while i < len
        invariant
            from <= i <= len,
            len == s@.len(),
            first_index_of(s@.skip(from as int), c) == (i - from)
                + first_index_of(s@.skip(i as int), c),
            forall|j: int| from <= j < i ==> s@[j] != c,
        decreases len - i,
    {
        if s.get_char(i) == c {
            proof {
                assert(s@.skip(i as int)[0] == c);
            }
            return i;
        }
        proof {
            assert(s@.skip(i as int)[0] != c);
            assert(s@.skip(i as int).drop_first() =~= s@.skip(i + 1));
        }
        i = i + 1;
    }
    proof {
        assert(s@.skip(i as int).len() == 0);
    }
    i
}

/// An ASCII letter.
pub open spec fn is_ascii_letter(c: char) -> bool {
    ('a' as u32 <= c as u32 && c as u32 <= 'z' as u32) || ('A' as u32 <= c as u32 && c as u32
        <= 'Z' as u32)
}

/// Whether `c` is an ASCII letter.
pub(crate) fn ascii_letter(c: char) -> (r: bool)
    ensures
        r == is_ascii_letter(c),
{
    let u = c as u32;
    (97 <= u && u <= 122) || (65 <= u && u <= 90)
}

/// The length of the longest prefix of `s` made of ASCII letters.
pub open spec fn alpha_run_len(s: Seq<char>) -> nat
    decreases s.len(),
{
    if s.len() == 0 {
        0
    } else if !is_ascii_letter(s[0]) {
        0
    } else {
        1 + alpha_run_len(s.drop_first())
    }
}

/// Finds the end of the run of ASCII letters that starts at `from`.
pub(crate) fn alpha_run_end(s: &str, from: usize) -> (r: usize)
    requires
        from <= s@.len(),
    ensures
        r == from + alpha_run_len(s@.skip(from as int)),
        r <= s@.len(),
{
    let len = s.unicode_len();
    let mut i = from;
    while i < len
        invariant
            from <= i <= len,
            len == s@.len(),
            alpha_run_len(s@.skip(from as int)) == (i - from) + alpha_run_len(s@.skip(i as int)),
        decreases len - i,
    {
        if !ascii_letter(s.get_char(i)) {
            proof {
                assert(s@.skip(i as int)[0] == s@[i as int]);
            }
            return i;
        }
        proof {
            assert(s@.skip(i as int)[0] == s@[i as int]);
            assert(s@.skip(i as int).drop_first() =~= s@.skip(i + 1));
        }
        i = i + 1;
    }
    proof {
        assert(s@.skip(i as int).len() == 0);
    }
    i
}

} // verus!
