//! Line-oriented text search and its command-line configuration.
//!
//! `search` returns the lines of a text that contain a query; the
//! case-insensitive variant compares lowercased copies. `Config::build`
//! parses `key=value` arguments into a search configuration.

use vstd::prelude::*;
use vstd::string::StrSliceExecFns;
use vstd::string::StringExecFns;

use crate::text::first_index_of;
use crate::text::has_substring;
use crate::text::lemma_first_index_of;
use crate::text::lower_of;
use crate::text::lowercase;
use crate::text::scan_for;
use crate::text::str_contains;
use crate::text::str_eq;

verus! {

/// A search configuration: the file to search, the query, and whether case
/// is ignored.
pub struct Config {
    pub file_path: String,
    pub query: String,
    pub ignore_case: bool,
}

/// Why a sequence of command-line arguments yields no configuration.
#[derive(Debug, PartialEq, Eq, Structural, Clone, Copy)]
pub enum ConfigError {
    /// An argument is not `key=value` with exactly one `=`, or its key is
    /// not a known one.
    InvalidArgument,
    /// A key appears twice.
    DuplicateArgument,
    /// No `file` argument was given.
    MissingFilePath,
    /// No `query` argument was given.
    MissingQuery,
}

/// Splits `key=value` at its `=`, provided the argument holds exactly one.
pub open spec fn split_arg(a: Seq<char>) -> Option<(Seq<char>, Seq<char>)> {
    let i = first_index_of(a, '=') as int;
    if i < a.len() && first_index_of(a.skip(i + 1), '=') == a.skip(i + 1).len() {
        Some((a.take(i), a.skip(i + 1)))
    } else {
        None
    }
}

/// Folds the arguments left to right into the three settings, stopping at
/// the first malformed, unknown or repeated one.
pub open spec fn parse_args(
    args: Seq<Seq<char>>,
    q: Option<Seq<char>>,
    f: Option<Seq<char>>,
    ic: bool,
) -> Result<(Option<Seq<char>>, Option<Seq<char>>, bool), ConfigError>
    decreases args.len(),
{
    if args.len() == 0 {
        Ok((q, f, ic))
    } else {
        match split_arg(args[0]) {
            Option::None => Err(ConfigError::InvalidArgument),
            Option::Some(kv) => {
                if kv.0 == "query"@ {
                    if q is Some {
                        Err(ConfigError::DuplicateArgument)
                    } else {
                        parse_args(args.drop_first(), Some(kv.1), f, ic)
                    }
                } else if kv.0 == "file"@ {
                    if f is Some {
                        Err(ConfigError::DuplicateArgument)
                    } else {
                        parse_args(args.drop_first(), q, Some(kv.1), ic)
                    }
                } else if kv.0 == "ignore_case"@ {
                    if ic {
                        Err(ConfigError::DuplicateArgument)
                    } else {
                        parse_args(args.drop_first(), q, f, true)
                    }
                } else {
                    Err(ConfigError::InvalidArgument)
                }
            },
        }
    }
}

/// The configuration the arguments describe: file path, query, and whether
/// case is ignored, which an environment flag may also switch on.
pub open spec fn spec_config(args: Seq<Seq<char>>, env_ignore_case: bool) -> Result<
    (Seq<char>, Seq<char>, bool),
    ConfigError,
> {
    match parse_args(args, None, None, false) {
        Result::Err(e) => Err(e),
        Result::Ok(t) => {
            if t.1 is None {
                Err(ConfigError::MissingFilePath)
            } else if t.0 is None {
                Err(ConfigError::MissingQuery)
            } else {
                Ok((t.1->0, t.0->0, t.2 || env_ignore_case))
            }
        },
    }
}

/// The characters behind an optional string.
pub open spec fn opt_view(o: Option<String>) -> Option<Seq<char>> {
    match o {
        Option::Some(s) => Some(s@),
        Option::None => None,
    }
}

/// Splits one argument at its single `=` into key and value.
fn split_eq(a: &str) -> (r: Option<(String, String)>)
    ensures
        match r {
            Option::Some(kv) => split_arg(a@) == Some((kv.0@, kv.1@)),
            Option::None => split_arg(a@) is None,
        },
{
    let len = a.unicode_len();
    proof {
        assert(a@.skip(0) =~= a@);
    }
    let e1 = scan_for(a, 0, '=');
    if e1 == len {
        proof {
            lemma_first_index_of(a@, '=');
        }
        return None;
    }
    let e2 = scan_for(a, e1 + 1, '=');
    if e2 < len {
        proof {
            lemma_first_index_of(a@.skip(e1 + 1), '=');
        }
        return None;
    }
    let k = a.substring_char(0, e1);
    let v = a.substring_char(e1 + 1, len);
    proof {
        assert(k@ =~= a@.take(e1 as int));
        assert(v@ =~= a@.skip(e1 + 1));
    }
    Some((String::from_str(k), String::from_str(v)))
}

impl Config {
    /// Reads the configuration from `key=value` arguments. The recognised
    /// keys are `query`, `file` and `ignore_case`; anything else, a missing
    /// `=` or a repeated key is an error, as is the absence of `file` or
    /// `query`. Case is ignored when the `ignore_case` key appears or
    /// `env_ignore_case` is set, which stands for the environment flag of
    /// the same name.
    pub fn build(args: &Vec<String>, env_ignore_case: bool) -> (r: Result<Config, ConfigError>)
        ensures
            match r {
                Result::Ok(c) => spec_config(args.deep_view(), env_ignore_case)
                    == Ok::<(Seq<char>, Seq<char>, bool), ConfigError>(
                    (c.file_path@, c.query@, c.ignore_case),
                ),
                Result::Err(e) => spec_config(args.deep_view(), env_ignore_case)
                    == Err::<(Seq<char>, Seq<char>, bool), ConfigError>(e),
            },
    {
        let ghost all = args.deep_view();
        let mut q: Option<String> = None;
        let mut f: Option<String> = None;
        let mut ic = false;
        proof {
            assert(all.skip(0) =~= all);
        }
        for i in 0..args.len()
            invariant
                all == args.deep_view(),
                parse_args(all, None, None, false) == parse_args(
                    all.skip(i as int),
                    opt_view(q),
                    opt_view(f),
                    ic,
                ),
        {
            let arg = &args[i];
            proof {
                assert(all.skip(i as int)[0] == arg@);
                assert(all.skip(i as int).drop_first() =~= all.skip(i + 1));
            }
            match split_eq(arg.as_str()) {
                None => {
                    return Err(ConfigError::InvalidArgument);
                },
                Some(kv) => {
                    let (k, v) = kv;
                    if str_eq(k.as_str(), "query") {
                        if q.is_some() {
                            return Err(ConfigError::DuplicateArgument);
                        }
                        q = Some(v);
                    } else if str_eq(k.as_str(), "file") {
                        if f.is_some() {
                            return Err(ConfigError::DuplicateArgument);
                        }
                        f = Some(v);
                    } else if str_eq(k.as_str(), "ignore_case") {
                        if ic {
                            return Err(ConfigError::DuplicateArgument);
                        }
                        ic = true;
                    } else {
                        return Err(ConfigError::InvalidArgument);
                    }
                },
            }
        }
        proof {
            assert(all.skip(all.len() as int).len() == 0);
        }
        let file_path = match f {
            Some(p) => p,
            None => {
                return Err(ConfigError::MissingFilePath);
            },
        };
        let query = match q {
            Some(s) => s,
            None => {
                return Err(ConfigError::MissingQuery);
            },
        };
        Ok(Config { file_path, query, ignore_case: ic || env_ignore_case })
    }
}

/// A line as `str::lines` yields it: one trailing carriage return is
/// dropped from a line that a line feed terminated.
pub open spec fn strip_cr(l: Seq<char>) -> Seq<char> {
    if l.len() > 0 && l.last() == '\r' {
        l.drop_last()
    } else {
        l
    }
}

/// The lines of `s`, split at each line feed. The terminator is not part of
/// the line, a final terminator opens no empty last line, and a carriage
/// return just before a line feed is dropped.
pub open spec fn spec_lines(s: Seq<char>) -> Seq<Seq<char>>
    decreases s.len(),
{
    if s.len() == 0 {
        Seq::empty()
    } else {
        let k = first_index_of(s, '\n');
        if k < s.len() {
            seq![strip_cr(s.take(k as int))] + spec_lines(s.skip(k + 1 as int))
        } else {
            seq![s]
        }
    }
}

/// Splits a text into its lines, each borrowed from the text.
pub fn split_lines<'a>(contents: &'a str) -> (r: Vec<&'a str>)
    ensures
        r.deep_view() == spec_lines(contents@),
{
    let len = contents.unicode_len();
    let mut r: Vec<&'a str> = Vec::new();
    let mut pos: usize = 0;
    proof {
        assert(contents@.skip(0) =~= contents@);
        assert(r.deep_view() + spec_lines(contents@) =~= spec_lines(contents@));
    }
    while pos < len
        invariant
            pos <= len,
            len == contents@.len(),
            spec_lines(contents@) == r.deep_view() + spec_lines(contents@.skip(pos as int)),
        decreases len - pos,
    {
        let ghost rem = contents@.skip(pos as int);
        let ghost k = first_index_of(rem, '\n');
        proof {
            lemma_first_index_of(rem, '\n');
        }
        let nl = scan_for(contents, pos, '\n');
        let ghost r0 = r.deep_view();
        if nl == len {
            // No further line feed: the rest is the last line, kept whole.
            let line = contents.substring_char(pos, len);
            r.push(line);
            proof {
                assert(line@ =~= rem);
                assert(r.deep_view() =~= r0.push(rem));
                assert(spec_lines(rem) =~= seq![rem]);
                assert(r0 + spec_lines(rem) =~= r.deep_view() + Seq::<Seq<char>>::empty());
                assert(contents@.skip(len as int).len() == 0);
            }
            pos = len;
        } else {
            // A terminated line: drop one carriage return just before the
            // line feed, then continue after the terminator.
            let end = if nl > pos && contents.get_char(nl - 1) == '\r' {
                nl - 1
            } else {
                nl
            };
            let line = contents.substring_char(pos, end);
            r.push(line);
            proof {
                assert(rem.take(k as int) =~= contents@.subrange(pos as int, nl as int));
                if k > 0 && rem.take(k as int).last() == '\r' {
                    assert(strip_cr(rem.take(k as int)) =~= contents@.subrange(
                        pos as int,
                        nl - 1,
                    ));
                    assert(contents@[nl - 1] == '\r');
                } else {
                    assert(strip_cr(rem.take(k as int)) =~= contents@.subrange(
                        pos as int,
                        nl as int,
                    ));
                }
                assert(line@ == strip_cr(rem.take(k as int)));
                assert(rem.skip(k + 1 as int) =~= contents@.skip(nl + 1));
                assert(spec_lines(rem) =~= seq![strip_cr(rem.take(k as int))] + spec_lines(
                    contents@.skip(nl + 1),
                ));
                assert(r.deep_view() =~= r0.push(line@));
                assert(r0 + spec_lines(rem) =~= r.deep_view() + spec_lines(
                    contents@.skip(nl + 1),
                ));
            }
            pos = nl + 1;
        }
    }
    proof {
        assert(contents@.skip(pos as int).len() == 0);
        assert(spec_lines(contents@.skip(pos as int)) =~= Seq::<Seq<char>>::empty());
        assert(r.deep_view() + Seq::<Seq<char>>::empty() =~= r.deep_view());
    }
    r
}

/// A line matches a case-sensitive search when it holds the query as a
/// substring, and a case-insensitive one when its lowercased form holds the
/// lowercased query.
pub open spec fn line_matches(l: Seq<char>, query: Seq<char>, fold_case: bool) -> bool {
    if fold_case {
        has_substring(lower_of(l), lower_of(query))
    } else {
        has_substring(l, query)
    }
}

/// The subsequence of `lines` whose members match `query`, in order.
pub open spec fn matching_lines(lines: Seq<Seq<char>>, query: Seq<char>, fold_case: bool) -> Seq<
    Seq<char>,
>
    decreases lines.len(),
{
    if lines.len() == 0 {
        Seq::empty()
    } else {
        matching_lines(lines.drop_last(), query, fold_case) + if line_matches(
            lines.last(),
            query,
            fold_case,
        ) {
            seq![lines.last()]
        } else {
            Seq::empty()
        }
    }
}

/// The lines of `contents` that contain `query`, in order.
pub fn search<'a>(query: &str, contents: &'a str) -> (r: Vec<&'a str>)
    ensures
        r.deep_view() == matching_lines(spec_lines(contents@), query@, false),
{
    let lines = split_lines(contents);
    let ghost all = spec_lines(contents@);
    let mut r: Vec<&'a str> = Vec::new();
    proof {
        assert(all.take(0) =~= Seq::<Seq<char>>::empty());
        assert(r.deep_view() =~= matching_lines(all.take(0), query@, false));
    }
    for i in 0..lines.len()
        invariant
            lines.deep_view() == all,
            r.deep_view() == matching_lines(all.take(i as int), query@, false),
    {
        let ghost r0 = r.deep_view();
        let line = lines[i];
        let keep = str_contains(line, query);
        if keep {
            r.push(line);
        }
        proof {
            assert(lines.deep_view()[i as int] == line@);
            assert(all.take(i + 1).drop_last() =~= all.take(i as int));
            assert(all.take(i + 1).last() == line@);
            if keep {
                assert(r.deep_view() =~= r0.push(line@));
                assert(matching_lines(all.take(i + 1), query@, false) =~= matching_lines(
                    all.take(i as int),
                    query@,
                    false,
                ).push(line@));
            } else {
                assert(matching_lines(all.take(i + 1), query@, false) =~= matching_lines(
                    all.take(i as int),
                    query@,
                    false,
                ));
            }
        }
    }
    proof {
        assert(all.take(lines.deep_view().len() as int) =~= all);
    }
    r
}

/// The lines of `contents` that contain `query` without regard to case, in
/// order; each line is returned in its original spelling.
pub fn search_case_insensitive<'a>(query: &str, contents: &'a str) -> (r: Vec<&'a str>)
    ensures
        r.deep_view() == matching_lines(spec_lines(contents@), query@, true),
{
    let query_lower = lowercase(query);
    let lines = split_lines(contents);
    let ghost all = spec_lines(contents@);
    let mut r: Vec<&'a str> = Vec::new();
    proof {
        assert(all.take(0) =~= Seq::<Seq<char>>::empty());
        assert(r.deep_view() =~= matching_lines(all.take(0), query@, true));
    }
    for i in 0..lines.len()
        invariant
            lines.deep_view() == all,
            query_lower@ == lower_of(query@),
            r.deep_view() == matching_lines(all.take(i as int), query@, true),
    {
        let ghost r0 = r.deep_view();
        let line = lines[i];
        let line_lower = lowercase(line);
        let keep = str_contains(line_lower.as_str(), query_lower.as_str());
        if keep {
            r.push(line);
        }
        proof {
            assert(lines.deep_view()[i as int] == line@);
            assert(keep == line_matches(line@, query@, true));
            assert(all.take(i + 1).drop_last() =~= all.take(i as int));
            assert(all.take(i + 1).last() == line@);
            if keep {
                assert(r.deep_view() =~= r0.push(line@));
                assert(matching_lines(all.take(i + 1), query@, true) =~= matching_lines(
                    all.take(i as int),
                    query@,
                    true,
                ).push(line@));
            } else {
                assert(matching_lines(all.take(i + 1), query@, true) =~= matching_lines(
                    all.take(i as int),
                    query@,
                    true,
                ));
            }
        }
    }
    proof {
        assert(all.take(lines.deep_view().len() as int) =~= all);
    }
    r
}

/// The search that a run of the tool performs for a configuration:
/// case-insensitive exactly when the configuration says so.
pub fn run_search<'a>(config: &Config, contents: &'a str) -> (r: Vec<&'a str>)
    ensures
        r.deep_view() == matching_lines(spec_lines(contents@), config.query@, config.ignore_case),
{
    if config.ignore_case {
        search_case_insensitive(config.query.as_str(), contents)
    } else {
        search(config.query.as_str(), contents)
    }
}

} // verus!
