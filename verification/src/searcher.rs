//! The search configuration, the line matcher and the content searcher: the
//! query is looked for in every trimmed line of a text, either verbatim or
//! after folding letter case.

use vstd::prelude::*;
use vstd::string::*;

use crate::casefold::{lower_of, lowercase};
use crate::text::{
    chars_of, contains_chars, has_substring, lemma_first_nl_at, split_lines, trim_spec, trim_str,
};

verus! {

/// The immutable bundle shared by every search job of one run: the query,
/// the files to search and the case policy.  No job mutates it.
pub struct Config {
    pub query: String,
    pub file_paths: Vec<String>,
    pub ignore_case: bool,
}

impl Config {
    /// Builds a configuration from the raw command-line words (program name
    /// first) and the case policy.  The first word after the program name is
    /// the query, the second is a file path that is searched last, and any
    /// further words are searched before it, in order.
    pub fn build(args: Vec<String>, ignore_case: bool) -> (r: Result<Config, &'static str>)
        ensures
            args@.len() < 2 ==> (r matches Err(m) && m@ == "Specify a query string"@),
            args@.len() == 2 ==> (r matches Err(m) && m@ == "Specify at least one file path."@),
            args@.len() >= 3 ==> (r matches Ok(c) && {
                &&& c.query == args@[1]
                &&& c.ignore_case == ignore_case
                &&& c.file_paths@ == args@.subrange(3, args@.len() as int).push(args@[2])
            }),
    {
        if args.len() < 2 {
            return Err("Specify a query string");
        }
        if args.len() < 3 {
            return Err("Specify at least one file path.");
        }
        let query = args[1].clone();
        let mut file_paths: Vec<String> = Vec::new();
        let mut i: usize = 3;
        while i < args.len()
            invariant
                3 <= i <= args@.len(),
                file_paths@.len() == i - 3,
                forall|k: int| 0 <= k < i - 3 ==> file_paths@[k] == args@[k + 3],
            decreases args@.len() - i,
        {
            file_paths.push(args[i].clone());
            i = i + 1;
        }
        file_paths.push(args[2].clone());
        proof {
            assert(file_paths@ =~= args@.subrange(3, args@.len() as int).push(args@[2]));
        }
        Ok(Config { query, file_paths, ignore_case })
    }
}

/// The line matcher: whether one trimmed line matches the query under the
/// given case policy.  Under the case-insensitive policy both sides are
/// compared after lowercase folding; an empty query matches every line.
pub open spec fn line_matches(query: Seq<char>, line: Seq<char>, ignore_case: bool) -> bool {
    if ignore_case {
        has_substring(lower_of(line), lower_of(query))
    } else {
        has_substring(line, query)
    }
}

/// The trimmed lines among `lines` that match the query, in order.
pub open spec fn matching_lines(query: Seq<char>, lines: Seq<Seq<char>>, ignore_case: bool) -> Seq<
    Seq<char>,
>
    decreases lines.len(),
{
    if lines.len() == 0 {
        Seq::empty()
    } else {
        let t = trim_spec(lines[0]);
        let rest = matching_lines(query, lines.drop_first(), ignore_case);
        if line_matches(query, t, ignore_case) {
            seq![t] + rest
        } else {
            rest
        }
    }
}

/// The content searcher's result: the ordered sequence of trimmed lines of
/// `contents` that match the query under the given case policy.
pub open spec fn search_spec(query: Seq<char>, contents: Seq<char>, ignore_case: bool) -> Seq<
    Seq<char>,
> {
    matching_lines(query, split_lines(contents), ignore_case)
}

fn find_newline(s: &str, from: usize) -> (j: usize)
    requires
        from <= s@.len(),
    ensures
        from <= j <= s@.len(),
        forall|k: int| from <= k < j ==> s@[k] != '\n',
        j < s@.len() ==> s@[j as int] == '\n',
{
    let n = s.unicode_len();
    let mut j: usize = from;
    loop
        invariant
            n == s@.len(),
            from <= j <= n,
            forall|k: int| from <= k < j ==> s@[k] != '\n',
        ensures
            n == s@.len(),
            from <= j <= n,
            forall|k: int| from <= k < j ==> s@[k] != '\n',
            j < n ==> s@[j as int] == '\n',
        decreases n - j,
    {
        if j == n {
            break ;
        }
        if s.get_char(j) == '\n' {
            break ;
        }
        j = j + 1;
    }
    j
}

fn search_impl(query: &str, contents: &str, ignore_case: bool) -> (r: Vec<String>)
    ensures
        r.deep_view() == search_spec(query@, contents@, ignore_case),
{
    let folded_query: String = if ignore_case {
        lowercase(query)
    } else {
        query.to_owned()
    };
    let q_chars = chars_of(folded_query.as_str());
    let n = contents.unicode_len();
    let mut out: Vec<String> = Vec::new();
    let mut start: usize = 0;
    proof {
        assert(contents@.subrange(0, n as int) =~= contents@);
        assert(out.deep_view() =~= Seq::<Seq<char>>::empty());
        assert(out.deep_view() + search_spec(query@, contents@, ignore_case) =~~= search_spec(
            query@,
            contents@,
            ignore_case,
        ));
    }
    while start < n
        invariant
            n == contents@.len(),
            0 <= start <= n,
            q_chars@ == (if ignore_case {
                lower_of(query@)
            } else {
                query@
            }),
            out.deep_view() + matching_lines(
                query@,
                split_lines(contents@.subrange(start as int, n as int)),
                ignore_case,
            ) == search_spec(query@, contents@, ignore_case),
        decreases n - start,
    {
        let ghost rem = contents@.subrange(start as int, n as int);
        let j = find_newline(contents, start);
        let line = contents.substring_char(start, j);
        let t = trim_str(line);
        proof {
            assert(forall|k: int| 0 <= k < j - start ==> #[trigger] rem[k] != '\n');
            lemma_first_nl_at(rem, j - start);
        }
        let matched: bool;
        if ignore_case {
            let lt = lowercase(t);
            let l_chars = chars_of(lt.as_str());
            matched = contains_chars(&l_chars, &q_chars);
        } else {
            let l_chars = chars_of(t);
            matched = contains_chars(&l_chars, &q_chars);
        }
        let ghost old_dv = out.deep_view();
        if matched {
            out.push(t.to_owned());
            proof {
                assert(out.deep_view() =~~= old_dv.push(t@));
            }
        }
        let new_start: usize = if j < n {
            j + 1
        } else {
            n
        };
        proof {
            let new_rem = contents@.subrange(new_start as int, n as int);
            let lines = split_lines(rem);
            if j < n {
                assert(rem.subrange(0, j - start) =~= line@);
                assert(rem.subrange(j - start + 1, rem.len() as int) =~= new_rem);
                assert(lines == seq![line@] + split_lines(new_rem));
            } else {
                assert(rem =~= line@);
                assert(new_rem =~= Seq::<char>::empty());
                assert(lines =~~= seq![line@] + split_lines(new_rem));
            }
            assert(lines[0] == line@);
            assert(lines.drop_first() =~~= split_lines(new_rem));
            assert(matched == line_matches(query@, t@, ignore_case));
            assert(matching_lines(query@, lines, ignore_case) == (if matched {
                seq![t@] + matching_lines(query@, split_lines(new_rem), ignore_case)
            } else {
                matching_lines(query@, split_lines(new_rem), ignore_case)
            }));
            if matched {
                assert(out.deep_view() + matching_lines(
                    query@,
                    split_lines(new_rem),
                    ignore_case,
                ) =~~= old_dv + matching_lines(query@, lines, ignore_case));
            }
        }
        start = new_start;
    }
    proof {
        assert(contents@.subrange(n as int, n as int) =~= Seq::<char>::empty());
        assert(out.deep_view() + Seq::<Seq<char>>::empty() =~~= out.deep_view());
    }
    out
}

/// The content searcher under the case-sensitive policy: the trimmed lines
/// of `contents` that contain `query` verbatim, in file order.
pub fn search(query: &str, contents: &str) -> (r: Vec<String>)
    ensures
        r.deep_view() == search_spec(query@, contents@, false),
{
    search_impl(query, contents, false)
}

/// The content searcher under the case-insensitive policy: the trimmed lines
/// of `contents` whose lowercase folding contains the folded query, in file
/// order.  The returned lines keep their original case.
pub fn search_case_insensitive(query: &str, contents: &str) -> (r: Vec<String>)
    ensures
        r.deep_view() == search_spec(query@, contents@, true),
{
    search_impl(query, contents, true)
}

/// `a` is a subsequence of `b`: every entry of `a` occurs in `b`, and in the
/// same order.
pub open spec fn is_subsequence(a: Seq<Seq<char>>, b: Seq<Seq<char>>) -> bool
    decreases a.len() + b.len(),
{
    if a.len() == 0 {
        true
    } else if b.len() == 0 {
        false
    } else {
        (a[0] == b[0] && is_subsequence(a.drop_first(), b.drop_first())) || is_subsequence(
            a,
            b.drop_first(),
        )
    }
}

proof fn lemma_matching_lines_shape(query: Seq<char>, lines: Seq<Seq<char>>, ignore_case: bool)
    ensures
        matching_lines(query, lines, ignore_case).len() <= lines.len(),
        is_subsequence(
            matching_lines(query, lines, ignore_case),
            lines.map_values(|l: Seq<char>| trim_spec(l)),
        ),
        forall|i: int|
            0 <= i < matching_lines(query, lines, ignore_case).len() ==> line_matches(
                query,
                #[trigger] matching_lines(query, lines, ignore_case)[i],
                ignore_case,
            ),
    decreases lines.len(),
{
    let m = matching_lines(query, lines, ignore_case);
    let mapped = lines.map_values(|l: Seq<char>| trim_spec(l));
    if lines.len() == 0 {
        assert(m.len() == 0);
        assert(is_subsequence(m, mapped));
    } else {
        lemma_matching_lines_shape(query, lines.drop_first(), ignore_case);
        let mrest = matching_lines(query, lines.drop_first(), ignore_case);
        let t = trim_spec(lines[0]);
        assert(mapped[0] == t);
        assert(mapped.drop_first() =~= lines.drop_first().map_values(
            |l: Seq<char>| trim_spec(l),
        ));
        if line_matches(query, t, ignore_case) {
            assert(m == seq![t] + mrest);
            assert(m[0] == t);
            assert(m.drop_first() =~= mrest);
            assert(is_subsequence(m, mapped));
            assert(forall|i: int| 1 <= i < m.len() ==> m[i] == mrest[i - 1]);
        } else {
            assert(m == mrest);
            if m.len() == 0 {
                assert(is_subsequence(m, mapped));
            } else {
                assert(is_subsequence(m, mapped.drop_first()));
                assert(is_subsequence(m, mapped));
            }
        }
    }
}

/// Law: the searcher returns at most one entry per line of the content;
/// every entry is a trimmed line that matches the query, and the entries
/// keep the content's line order.
pub proof fn lemma_search_within_lines(query: Seq<char>, contents: Seq<char>, ignore_case: bool)
    ensures
        search_spec(query, contents, ignore_case).len() <= split_lines(contents).len(),
        is_subsequence(
            search_spec(query, contents, ignore_case),
            split_lines(contents).map_values(|l: Seq<char>| trim_spec(l)),
        ),
        forall|i: int|
            0 <= i < search_spec(query, contents, ignore_case).len() ==> line_matches(
                query,
                #[trigger] search_spec(query, contents, ignore_case)[i],
                ignore_case,
            ),
{
    lemma_matching_lines_shape(query, split_lines(contents), ignore_case);
}

proof fn lemma_matching_empty_query(lines: Seq<Seq<char>>)
    ensures
        matching_lines(Seq::<char>::empty(), lines, false) == lines.map_values(
            |l: Seq<char>| trim_spec(l),
        ),
    decreases lines.len(),
{
    let mapped = lines.map_values(|l: Seq<char>| trim_spec(l));
    if lines.len() == 0 {
        assert(matching_lines(Seq::<char>::empty(), lines, false) =~= mapped);
    } else {
        lemma_matching_empty_query(lines.drop_first());
        let t = trim_spec(lines[0]);
        assert(has_substring(t, Seq::<char>::empty())) by {
            assert(t.subrange(0, 0) =~= Seq::<char>::empty());
            assert(crate::text::contains_at(t, Seq::<char>::empty(), 0));
        }
        assert(mapped.drop_first() =~= lines.drop_first().map_values(
            |l: Seq<char>| trim_spec(l),
        ));
        assert(matching_lines(Seq::<char>::empty(), lines, false) == seq![t]
            + lines.drop_first().map_values(|l: Seq<char>| trim_spec(l)));
        assert(seq![t] + lines.drop_first().map_values(|l: Seq<char>| trim_spec(l)) =~= mapped);
    }
}

/// Law: under the case-sensitive policy an empty query matches every line,
/// so the searcher returns exactly the trimmed lines of the content.
pub proof fn lemma_empty_query_returns_every_line(contents: Seq<char>)
    ensures
        search_spec(Seq::<char>::empty(), contents, false) == split_lines(contents).map_values(
            |l: Seq<char>| trim_spec(l),
        ),
{
    lemma_matching_empty_query(split_lines(contents));
}

/// Law: case-insensitive matching depends only on the lowercase folding of
/// the query and of the line; any rewriting of either side that folds to
/// the same characters leaves the answer unchanged.
pub proof fn lemma_ci_match_depends_on_folded(
    q1: Seq<char>,
    q2: Seq<char>,
    l1: Seq<char>,
    l2: Seq<char>,
)
    requires
        lower_of(q1) == lower_of(q2),
        lower_of(l1) == lower_of(l2),
    ensures
        line_matches(q1, l1, true) == line_matches(q2, l2, true),
{
}

/// Law: the search is deterministic — two results obtained from identical
/// queries, contents and case policy are identical, entry for entry and in
/// the same order.
pub proof fn lemma_search_idempotent(
    r1: Seq<Seq<char>>,
    r2: Seq<Seq<char>>,
    query: Seq<char>,
    contents: Seq<char>,
    ignore_case: bool,
)
    requires
        r1 == search_spec(query, contents, ignore_case),
        r2 == search_spec(query, contents, ignore_case),
    ensures
        r1 == r2,
{
}

/// Runs the search that the configuration's case policy calls for.
pub fn run_search(config: &Config, contents: &str) -> (r: Vec<String>)
    ensures
        r.deep_view() == search_spec(config.query@, contents@, config.ignore_case),
{
    if config.ignore_case {
        search_case_insensitive(config.query.as_str(), contents)
    } else {
        search(config.query.as_str(), contents)
    }
}

} // verus!
