//! Verified line searching: collect the lines of a text that contain a
//! pattern, case-sensitively or after case folding, and the configuration of
//! the line-search command.

use crate::text::contains_seq;
use crate::text::contains_str;
use crate::text::lines_of;
use crate::text::split_lines;
use vstd::prelude::*;

verus! {

/// The members of `ls` that contain `p`, in order.
pub open spec fn matching_lines(ls: Seq<Seq<char>>, p: Seq<char>) -> Seq<Seq<char>>
    decreases ls.len(),
{
    if ls.len() == 0 {
        Seq::empty()
    } else if contains_seq(ls.last(), p) {
        matching_lines(ls.drop_last(), p).push(ls.last())
    } else {
        matching_lines(ls.drop_last(), p)
    }
}

/// The members of `ls` whose case-folded text contains the case-folded `p`,
/// in order (each kept exactly as it stands in `ls`).
pub open spec fn matching_lines_folded(ls: Seq<Seq<char>>, p: Seq<char>) -> Seq<Seq<char>>
    decreases ls.len(),
{
    if ls.len() == 0 {
        Seq::empty()
    } else if contains_seq(lower_of(ls.last()), lower_of(p)) {
        matching_lines_folded(ls.drop_last(), p).push(ls.last())
    } else {
        matching_lines_folded(ls.drop_last(), p)
    }
}

/// The matched lines rendered for output: each followed by a line feed.
pub open spec fn render_lines(ls: Seq<Seq<char>>) -> Seq<char>
    decreases ls.len(),
{
    if ls.len() == 0 {
        Seq::empty()
    } else {
        render_lines(ls.drop_last()) + ls.last().push('\n')
    }
}

/// What case folding turns a piece of text into.
pub uninterp spec fn lower_of(s: Seq<char>) -> Seq<char>;

/// Relies on str::to_lowercase: its result is a function of the input's
/// characters alone.
#[verifier::external_body]
fn lowercase(s: &str) -> (r: String)
    ensures
        r@ == lower_of(s@),
        s@.len() == 0 ==> r@.len() == 0,
{
    s.to_lowercase()
}

/// Writes out every line of `content` that contains `pattern`, each followed
/// by a line feed.
pub fn find_matches(content: &str, pattern: &str) -> (out: String)
    ensures
        out@ == render_lines(matching_lines(lines_of(content@), pattern@)),
{
    let lines = split_lines(content);
    let ghost dv = lines.deep_view();
    let mut out = String::new();
    let mut i: usize = 0;
    proof {
        assert(dv.take(0) =~= Seq::<Seq<char>>::empty());
    }
    while i < lines.len()
        invariant
            0 <= i <= lines.len(),
            dv == lines.deep_view(),
            dv == lines_of(content@),
            dv.len() == lines.len(),
            out@ == render_lines(matching_lines(dv.take(i as int), pattern@)),
        decreases lines.len() - i,
    {
        let line = lines[i];
        proof {
            assert(line@ == dv[i as int]);
            assert(dv.take(i + 1).drop_last() =~= dv.take(i as int));
            assert(dv.take(i + 1).last() == dv[i as int]);
        }
        if contains_str(line, pattern) {
            let ghost matched = matching_lines(dv.take(i as int), pattern@);
            out.append(line);
            out.append("\n");
            proof {
                reveal_strlit("\n");
                assert("\n"@ =~= seq!['\n']);
                assert(matched.push(line@).drop_last() =~= matched);
                assert(render_lines(matched.push(line@)) == render_lines(matched)
                    + line@.push('\n'));
                assert((render_lines(matched) + line@) + "\n"@ =~= render_lines(matched)
                    + line@.push('\n'));
            }
        }
        i = i + 1;
    }
    proof {
        assert(dv.take(lines.len() as int) =~= dv);
    }
    out
}

/// Collects the lines of `contents` that contain `query`, in order,
/// borrowing from `contents`.
pub fn search<'a>(query: &str, contents: &'a str) -> (r: Vec<&'a str>)
    ensures
        r.deep_view() == matching_lines(lines_of(contents@), query@),
{
    let lines = split_lines(contents);
    let ghost dv = lines.deep_view();
    let mut r: Vec<&'a str> = Vec::new();
    let mut i: usize = 0;
    proof {
        assert(dv.take(0) =~= Seq::<Seq<char>>::empty());
        assert(r.deep_view() =~= Seq::<Seq<char>>::empty());
    }
    while i < lines.len()
        invariant
            0 <= i <= lines.len(),
            dv == lines.deep_view(),
            dv == lines_of(contents@),
            dv.len() == lines.len(),
            r.deep_view() == matching_lines(dv.take(i as int), query@),
        decreases lines.len() - i,
    {
        let line = lines[i];
        proof {
            assert(line@ == dv[i as int]);
            assert(dv.take(i + 1).drop_last() =~= dv.take(i as int));
            assert(dv.take(i + 1).last() == dv[i as int]);
        }
        if contains_str(line, query) {
            let ghost before = r.deep_view();
            r.push(line);
            proof {
                assert(r.deep_view() =~= before.push(line@));
            }
        }
        i = i + 1;
    }
    proof {
        assert(dv.take(lines.len() as int) =~= dv);
    }
    r
}

/// Collects the lines of `contents` whose case-folded text contains the
/// case-folded `query`, in order, borrowing from `contents`.
pub fn search_case_insensitive<'a>(query: &str, contents: &'a str) -> (r: Vec<&'a str>)
    ensures
        r.deep_view() == matching_lines_folded(lines_of(contents@), query@),
{
    let folded_query = lowercase(query);
    let lines = split_lines(contents);
    let ghost dv = lines.deep_view();
    let mut r: Vec<&'a str> = Vec::new();
    let mut i: usize = 0;
    proof {
        assert(dv.take(0) =~= Seq::<Seq<char>>::empty());
        assert(r.deep_view() =~= Seq::<Seq<char>>::empty());
    }
    while i < lines.len()
        invariant
            0 <= i <= lines.len(),
            dv == lines.deep_view(),
            dv == lines_of(contents@),
            dv.len() == lines.len(),
            folded_query@ == lower_of(query@),
            r.deep_view() == matching_lines_folded(dv.take(i as int), query@),
        decreases lines.len() - i,
    {
        let line = lines[i];
        let folded_line = lowercase(line);
        proof {
            assert(line@ == dv[i as int]);
            assert(dv.take(i + 1).drop_last() =~= dv.take(i as int));
            assert(dv.take(i + 1).last() == dv[i as int]);
        }
        if contains_str(folded_line.as_str(), folded_query.as_str()) {
            let ghost before = r.deep_view();
            r.push(line);
            proof {
                assert(r.deep_view() =~= before.push(line@));
            }
        }
        i = i + 1;
    }
    proof {
        assert(dv.take(lines.len() as int) =~= dv);
    }
    r
}

/// What the line-search command was asked to do: the pattern, the file, and
/// whether the case-folding environment switch was absent.
#[derive(Debug)]
pub struct Config {
    pub query: String,
    pub filename: String,
    pub case_insensitive: bool,
}

impl Config {
    /// Reads the command's arguments: the pattern and then the file name,
    /// after the leading program name. The `case_insensitive` field starts
    /// `true` (the environment switch absent); a caller that reads the
    /// environment sets it afterwards.
    pub fn new(args: &[String]) -> (r: Result<Config, &'static str>)
        ensures
            args@.len() < 3 ==> (r matches Err(e) && e@ == "not enough arguments"@),
            args@.len() >= 3 ==> (r matches Ok(c) && c.query@ == args@[1]@ && c.filename@
                == args@[2]@ && c.case_insensitive),
    {
        if args.len() < 3 {
            return Err("not enough arguments");
        }
        let query = args[1].clone();
        let filename = args[2].clone();
        Ok(Config { query, filename, case_insensitive: true })
    }
}

/// The search the line-search command runs for `config`: case-sensitive
/// exactly when `case_insensitive` is set (the flag records that the
/// environment switch was absent, and the dispatch keeps that inversion).
pub fn grep_lines<'a>(config: &Config, contents: &'a str) -> (r: Vec<&'a str>)
    ensures
        config.case_insensitive ==> r.deep_view() == matching_lines(
            lines_of(contents@),
            config.query@,
        ),
        !config.case_insensitive ==> r.deep_view() == matching_lines_folded(
            lines_of(contents@),
            config.query@,
        ),
{
    if config.case_insensitive {
        search(config.query.as_str(), contents)
    } else {
        search_case_insensitive(config.query.as_str(), contents)
    }
}

} // verus!
