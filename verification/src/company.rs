//! The company directory exercise: a tiny command language for adding
//! employees to departments and listing them.
//!
//! A command is one line of input. `Add NAME to DEPT` records a member,
//! `List DEPT` asks for a department's roster, and anything else ends the
//! session. Names and departments are runs of ASCII letters, read greedily;
//! trailing text after them is ignored.

use vstd::prelude::*;
use vstd::string::StrSliceExecFns;
use vstd::string::StringExecFns;

use crate::text::alpha_run_end;
use crate::text::lower_of;
use crate::text::lowercase;
use crate::text::str_eq;
use crate::text::alpha_run_len;
use crate::text::match_at;

verus! {

/// One parsed line of input.
pub enum Command {
    /// `Add NAME to DEPT`: the name and the department, as written.
    Add(String, String),
    /// `List DEPT`: the department, as written.
    List(String),
    /// Anything else.
    Other,
}

/// The name and department of an `Add` command: after the word `Add `, a
/// nonempty run of ASCII letters, then ` to `, then another nonempty run.
pub open spec fn add_parts(s: Seq<char>) -> Option<(Seq<char>, Seq<char>)> {
    if s.len() >= 4 && s.take(4) == "Add "@ {
        let nl = alpha_run_len(s.skip(4)) as int;
        if nl > 0 {
            let rest = s.skip(4 + nl);
            if rest.len() >= 4 && rest.take(4) == " to "@ {
                let dl = alpha_run_len(rest.skip(4)) as int;
                if dl > 0 {
                    Some((s.skip(4).take(nl), rest.skip(4).take(dl)))
                } else {
                    None
                }
            } else {
                None
            }
        } else {
            None
        }
    } else {
        None
    }
}

/// The department of a `List` command: after the word `List `, a nonempty
/// run of ASCII letters.
pub open spec fn list_part(s: Seq<char>) -> Option<Seq<char>> {
    if s.len() >= 5 && s.take(5) == "List "@ {
        let dl = alpha_run_len(s.skip(5)) as int;
        if dl > 0 {
            Some(s.skip(5).take(dl))
        } else {
            None
        }
    } else {
        None
    }
}

/// Reads one line of input as a command. An `Add` line wins over a `List`
/// line (no line is both); a line that is neither is `Other`.
pub fn parse_command(input: &str) -> (c: Command)
    ensures
        match c {
            Command::Add(name, dept) => add_parts(input@) == Some((name@, dept@)),
            Command::List(dept) => add_parts(input@) is None && list_part(input@) == Some(
                dept@,
            ),
            Command::Other => add_parts(input@) is None && list_part(input@) is None,
        },
{
    let len = input.unicode_len();
    proof {
        reveal_strlit("Add ");
        reveal_strlit(" to ");
        reveal_strlit("List ");
    }
    if len >= 4 && match_at(input, "Add ", 0) {
        proof {
            assert(input@.take(4) =~= input@.subrange(0, 4));
        }
        let nend = alpha_run_end(input, 4);
        if nend > 4 {
            if nend <= len - 4 && match_at(input, " to ", nend) {
                let dstart = nend + 4;
                let ghost rest = input@.skip(nend as int);
                proof {
                    assert(rest.take(4) =~= input@.subrange(nend as int, nend + 4));
                    assert(rest.skip(4) =~= input@.skip(dstart as int));
                }
                let dend = alpha_run_end(input, dstart);
                if dend > dstart {
                    let name = String::from_str(input.substring_char(4, nend));
                    let dept = String::from_str(input.substring_char(dstart, dend));
                    proof {
                        assert(name@ =~= input@.skip(4).take(nend - 4));
                        assert(dept@ =~= rest.skip(4).take(dend - dstart));
                    }
                    return Command::Add(name, dept);
                }
                // An empty department run: the line is no command at all,
                // and cannot start with the word `List` either.
                proof {
                    assert(list_part(input@) is None) by {
                        if input@.len() >= 5 {
                            assert(input@.take(5)[0] == input@[0]);
                            assert(input@.take(4)[0] == input@[0]);
                        }
                    }
                }
                return Command::Other;
            }
            proof {
                let rest = input@.skip(nend as int);
                if rest.len() >= 4 {
                    assert(rest.take(4) =~= input@.subrange(nend as int, nend + 4));
                }
                assert(add_parts(input@) is None);
                assert(list_part(input@) is None) by {
                    if input@.len() >= 5 {
                        assert(input@.take(5)[0] == input@[0]);
                        assert(input@.take(4)[0] == input@[0]);
                    }
                }
            }
            return Command::Other;
        }
        proof {
            assert(add_parts(input@) is None);
            assert(list_part(input@) is None) by {
                if input@.len() >= 5 {
                    assert(input@.take(5)[0] == input@[0]);
                    assert(input@.take(4)[0] == input@[0]);
                }
            }
        }
        return Command::Other;
    }
    proof {
        if input@.len() >= 4 {
            assert(input@.take(4) =~= input@.subrange(0, 4));
        }
        assert(add_parts(input@) is None);
    }
    if len >= 5 && match_at(input, "List ", 0) {
        proof {
            assert(input@.take(5) =~= input@.subrange(0, 5));
        }
        let dend = alpha_run_end(input, 5);
        if dend > 5 {
            let dept = String::from_str(input.substring_char(5, dend));
            proof {
                assert(dept@ =~= input@.skip(5).take(dend - 5));
            }
            return Command::List(dept);
        }
        return Command::Other;
    }
    proof {
        if input@.len() >= 5 {
            assert(input@.take(5) =~= input@.subrange(0, 5));
        }
        assert(list_part(input@) is None);
    }
    Command::Other
}

/// Lexicographic order on character sequences, by code point.
pub open spec fn lex_le(a: Seq<char>, b: Seq<char>) -> bool
    decreases a.len(),
{
    if a.len() == 0 {
        true
    } else if b.len() == 0 {
        false
    } else if (a[0] as u32) < (b[0] as u32) {
        true
    } else if (a[0] as u32) > (b[0] as u32) {
        false
    } else {
        lex_le(a.drop_first(), b.drop_first())
    }
}

/// Any two strings are ordered one way or the other.
pub proof fn lemma_lex_total(a: Seq<char>, b: Seq<char>)
    ensures
        lex_le(a, b) || lex_le(b, a),
    decreases a.len(),
{
    if a.len() > 0 && b.len() > 0 && a[0] as u32 == b[0] as u32 {
        lemma_lex_total(a.drop_first(), b.drop_first());
    }
}

/// The order is transitive.
pub proof fn lemma_lex_trans(a: Seq<char>, b: Seq<char>, c: Seq<char>)
    requires
        lex_le(a, b),
        lex_le(b, c),
    ensures
        lex_le(a, c),
    decreases a.len(),
{
    if a.len() > 0 && b.len() > 0 && c.len() > 0 && a[0] as u32 == b[0] as u32 && b[0] as u32
        == c[0] as u32 {
        lemma_lex_trans(a.drop_first(), b.drop_first(), c.drop_first());
    }
}

/// Decides the order on two strings.
pub fn str_le(a: &str, b: &str) -> (r: bool)
    ensures
        r == lex_le(a@, b@),
{
    let alen = a.unicode_len();
    let blen = b.unicode_len();
    let mut i: usize = 0;
    proof {
        assert(a@.skip(0) =~= a@);
        assert(b@.skip(0) =~= b@);
    }
    while i < alen && i < blen
        invariant
            i <= alen,
            i <= blen,
            alen == a@.len(),
            blen == b@.len(),
            lex_le(a@, b@) == lex_le(a@.skip(i as int), b@.skip(i as int)),
        decreases alen - i,
    {
        let ca = a.get_char(i);
        let cb = b.get_char(i);
        proof {
            assert(a@.skip(i as int)[0] == ca);
            assert(b@.skip(i as int)[0] == cb);
        }
        if (ca as u32) < (cb as u32) {
            return true;
        }
        if (ca as u32) > (cb as u32) {
            return false;
        }
        proof {
            assert(a@.skip(i as int).drop_first() =~= a@.skip(i + 1));
            assert(b@.skip(i as int).drop_first() =~= b@.skip(i + 1));
        }
        i = i + 1;
    }
    if i == alen {
        proof {
            assert(a@.skip(i as int).len() == 0);
        }
        true
    } else {
        proof {
            assert(a@.skip(i as int).len() > 0);
            assert(b@.skip(i as int).len() == 0);
        }
        false
    }
}

/// Where a stable sort puts a newly pushed string: after every member the
/// order puts at or before it, before the first one it does not.
pub open spec fn insert_lex(ms: Seq<Seq<char>>, x: Seq<char>) -> Seq<Seq<char>>
    decreases ms.len(),
{
    if ms.len() == 0 {
        seq![x]
    } else if lex_le(ms[0], x) {
        seq![ms[0]] + insert_lex(ms.drop_first(), x)
    } else {
        seq![x] + ms
    }
}

/// `insert_lex` splits the list at the first member that does not come at
/// or before `x`.
proof fn lemma_insert_lex_at(ms: Seq<Seq<char>>, x: Seq<char>, p: int)
    requires
        0 <= p <= ms.len(),
        forall|k: int| 0 <= k < p ==> lex_le(#[trigger] ms[k], x),
        p < ms.len() ==> !lex_le(ms[p], x),
    ensures
        insert_lex(ms, x) == ms.take(p) + seq![x] + ms.skip(p),
    decreases p,
{
    if p == 0 {
        assert(insert_lex(ms, x) =~= ms.take(0) + seq![x] + ms.skip(0));
    } else {
        let d = ms.drop_first();
        assert forall|k: int| 0 <= k < p - 1 implies lex_le(#[trigger] d[k], x) by {
            assert(d[k] == ms[k + 1]);
        }
        assert(p - 1 < d.len() ==> !lex_le(d[p - 1], x));
        lemma_insert_lex_at(d, x, p - 1);
        assert(insert_lex(ms, x) =~= ms.take(p) + seq![x] + ms.skip(p));
    }
}

/// The members are in order.
pub open spec fn sorted_lex(ms: Seq<Seq<char>>) -> bool {
    forall|a: int, b: int| 0 <= a < b < ms.len() ==> lex_le(#[trigger] ms[a], #[trigger] ms[b])
}

/// One department: its lowercased name and its members, kept sorted.
pub struct Department {
    pub name: String,
    pub members: Vec<String>,
}

/// The directory: departments under distinct lowercased names, each with a
/// sorted member list.
pub struct Directory {
    pub departments: Vec<Department>,
}

/// The position of the department named `key`, or the number of
/// departments when none bears it.
pub open spec fn dept_index(ds: Seq<Department>, key: Seq<char>) -> nat
    decreases ds.len(),
{
    if ds.len() == 0 {
        0
    } else if ds[0].name@ == key {
        0
    } else {
        1 + dept_index(ds.drop_first(), key)
    }
}

/// What `dept_index` finds: the first department with the name, or the
/// count when no department bears it.
pub proof fn lemma_dept_index(ds: Seq<Department>, key: Seq<char>)
    ensures
        dept_index(ds, key) <= ds.len(),
        dept_index(ds, key) < ds.len() ==> ds[dept_index(ds, key) as int].name@ == key,
        forall|j: int| 0 <= j < dept_index(ds, key) ==> ds[j].name@ != key,
    decreases ds.len(),
{
    if ds.len() > 0 && ds[0].name@ != key {
        lemma_dept_index(ds.drop_first(), key);
        assert forall|j: int| 0 <= j < dept_index(ds, key) implies ds[j].name@ != key by {
            if j > 0 {
                assert(ds.drop_first()[j - 1] == ds[j]);
            }
        }
    }
}

impl Directory {
    /// Every department name appears once and every member list is sorted.
    pub open spec fn wf(self) -> bool {
        &&& forall|i: int, j: int|
            0 <= i < j < self.departments@.len() ==> (#[trigger] self.departments@[i]).name@ != (
            #[trigger] self.departments@[j]).name@
        &&& forall|i: int|
            0 <= i < self.departments@.len() ==> sorted_lex(
                (#[trigger] self.departments@[i]).members.deep_view(),
            )
    }

    /// An empty directory.
    pub fn new() -> (d: Directory)
        ensures
            d.wf(),
            d.departments@.len() == 0,
    {
        Directory { departments: Vec::new() }
    }

    /// The position of the department named `key`.
    fn find_index(&self, key: &str) -> (r: usize)
        ensures
            r == dept_index(self.departments@, key@),
            r <= self.departments@.len(),
    {
        let ghost ds = self.departments@;
        let n = self.departments.len();
        let mut i: usize = 0;
        proof {
            assert(ds.skip(0) =~= ds);
        }
        while i < n
            invariant
                i <= n,
                n == ds.len(),
                ds == self.departments@,
                dept_index(ds, key@) == i + dept_index(ds.skip(i as int), key@),
            decreases n - i,
        {
            proof {
                assert(ds.skip(i as int)[0] == ds[i as int]);
            }
            if str_eq(self.departments[i].name.as_str(), key) {
                return i;
            }
            proof {
                assert(ds.skip(i as int).drop_first() =~= ds.skip(i + 1));
            }
            i = i + 1;
        }
        proof {
            assert(ds.skip(i as int).len() == 0);
        }
        i
    }

    /// Records `name` as a member of `dept`. The department is keyed by its
    /// lowercased name; an unknown one is opened at the end of the
    /// directory, and the member enters its list where a stable sort of the
    /// extended list would put it.
    pub fn add(&mut self, name: String, dept: &str)
        requires
            old(self).wf(),
        ensures
            final(self).wf(),
            ({
                let ds0 = old(self).departments@;
                let key = lower_of(dept@);
                let i = dept_index(ds0, key) as int;
                if i < ds0.len() {
                    &&& final(self).departments@.len() == ds0.len()
                    &&& (forall|j: int|
                        0 <= j < ds0.len() && j != i ==> final(self).departments@[j] == ds0[j])
                    &&& final(self).departments@[i].name@ == key
                    &&& final(self).departments@[i].members.deep_view() == insert_lex(
                        ds0[i].members.deep_view(),
                        name@,
                    )
                } else {
                    &&& final(self).departments@.len() == ds0.len() + 1
                    &&& (forall|j: int|
                        0 <= j < ds0.len() ==> final(self).departments@[j] == ds0[j])
                    &&& final(self).departments@[i].name@ == key
                    &&& final(self).departments@[i].members.deep_view() == seq![name@]
                }
            }),
    {
        let ghost ds0 = self.departments@;
        let key = lowercase(dept);
        let idx = self.find_index(key.as_str());
        proof {
            lemma_dept_index(ds0, key@);
        }
        if idx < self.departments.len() {
            let mut d = self.departments.remove(idx);
            let ghost mv0 = d.members.deep_view();
            let mut p: usize = 0;
            while p < d.members.len() && str_le(d.members[p].as_str(), name.as_str())
                invariant
                    p <= d.members@.len(),
                    mv0 == d.members.deep_view(),
                    forall|k: int| 0 <= k < p ==> lex_le(#[trigger] mv0[k], name@),
                decreases d.members@.len() - p,
            {
                proof {
                    assert(mv0[p as int] == d.members@[p as int]@);
                }
                p = p + 1;
            }
            proof {
                if p < d.members@.len() {
                    assert(mv0[p as int] == d.members@[p as int]@);
                }
                lemma_insert_lex_at(mv0, name@, p as int);
            }
            d.members.insert(p, name);
            proof {
                assert(d.members.deep_view() =~= mv0.take(p as int) + seq![name@] + mv0.skip(
                    p as int,
                ));
                assert(d.members.deep_view() == insert_lex(mv0, name@));
                assert forall|a: int, b: int|
                    0 <= a < b < d.members.deep_view().len() implies lex_le(
                    #[trigger] d.members.deep_view()[a],
                    #[trigger] d.members.deep_view()[b],
                ) by {
                    let mv = d.members.deep_view();
                    if b < p {
                        assert(mv[a] == mv0[a] && mv[b] == mv0[b]);
                    } else if a > p {
                        assert(mv[a] == mv0[a - 1] && mv[b] == mv0[b - 1]);
                    } else if a < p && b == p {
                        assert(mv[a] == mv0[a]);
                        assert(lex_le(mv0[a], name@));
                    } else if a < p && b > p {
                        assert(mv[a] == mv0[a] && mv[b] == mv0[b - 1]);
                    } else if a == p {
                        assert(mv[b] == mv0[b - 1]);
                        if p < mv0.len() {
                            lemma_lex_total(mv0[p as int], name@);
                            assert(lex_le(name@, mv0[p as int]));
                            if b - 1 > p {
                                assert(lex_le(mv0[p as int], mv0[b - 1]));
                                lemma_lex_trans(name@, mv0[p as int], mv0[b - 1]);
                            }
                        }
                    }
                }
            }
            self.departments.insert(idx, d);
            proof {
                assert(self.departments@ =~= ds0.update(
                    idx as int,
                    self.departments@[idx as int],
                ));
            }
        } else {
            let mut members: Vec<String> = Vec::new();
            members.push(name);
            let d = Department { name: key, members };
            self.departments.push(d);
            proof {
                assert(self.departments@[ds0.len() as int].members.deep_view() =~= seq![name@]);
            }
        }
    }

    /// The member list of the department keyed by the lowercased `dept`,
    /// or nothing when the directory has no such department.
    pub fn list(&self, dept: &str) -> (r: Option<&Vec<String>>)
        ensures
            ({
                let ds = self.departments@;
                let i = dept_index(ds, lower_of(dept@)) as int;
                match r {
                    Option::Some(m) => i < ds.len() && *m == ds[i].members,
                    Option::None => i == ds.len(),
                }
            }),
    {
        let key = lowercase(dept);
        let idx = self.find_index(key.as_str());
        if idx < self.departments.len() {
            Some(&self.departments[idx].members)
        } else {
            None
        }
    }
}

} // verus!
