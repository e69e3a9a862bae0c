//! The search job and the dispatcher's join-and-emit phase.
//!
//! A search job binds one file's read outcome to the shared configuration
//! and produces a labeled result; the dispatcher renders the results of a
//! run into one output text, in target-submission order, each target's block
//! uninterrupted.  Reading the files — and, with several targets, running
//! the jobs on parallel workers — is the surrounding program's part; the
//! library only ever sees each target's read outcome as a value, so the
//! order in which workers finish cannot reach the output.

use vstd::prelude::*;
use vstd::string::*;

use crate::searcher::{run_search, search_spec, Config};

verus! {

/// One target's labeled outcome: the searched path together with either the
/// matching lines or the cause of the failed read.
pub struct SearchResult {
    pub path: String,
    pub outcome: Result<Vec<String>, String>,
}

/// How one run can fail as a whole: no targets were supplied, or the run's
/// single target could not be read.
#[derive(Debug)]
pub enum RunError {
    NoTargets,
    FatalRead(String),
}

/// The search job: given one target's read outcome, either search the
/// contents under the shared configuration or record the failure cause.
pub fn execute(path: String, read: Result<String, String>, config: &Config) -> (r: SearchResult)
    ensures
        r.path == path,
        match read {
            Ok(contents) => (r.outcome matches Ok(lines) && lines.deep_view() == search_spec(
                config.query@,
                contents@,
                config.ignore_case,
            )),
            Err(cause) => r.outcome == Result::<Vec<String>, String>::Err(cause),
        },
{
    match read {
        Ok(contents) => {
            let lines = run_search(config, contents.as_str());
            SearchResult { path, outcome: Ok(lines) }
        },
        Err(cause) => SearchResult { path, outcome: Err(cause) },
    }
}

/// The lines of one target's output: each line followed by a newline.
pub open spec fn rendered_lines(lines: Seq<Seq<char>>) -> Seq<char>
    decreases lines.len(),
{
    if lines.len() == 0 {
        Seq::empty()
    } else {
        lines[0] + seq!['\n'] + rendered_lines(lines.drop_first())
    }
}

/// One target's uninterrupted output block: a blank line and a header naming
/// the path, then the matching lines; for a failed read, a message naming
/// the path and the cause instead of the lines.
pub open spec fn rendered_block(r: SearchResult) -> Seq<char> {
    match r.outcome {
        Ok(lines) => "\n["@ + r.path@ + "]: \n"@ + rendered_lines(lines.deep_view()),
        Err(cause) => "\nError when reading '"@ + r.path@ + "': "@ + cause@ + seq!['\n'],
    }
}

/// The output of a whole fan-out run: the targets' blocks, in the order the
/// results are handed in.
pub open spec fn rendered_blocks(rs: Seq<SearchResult>) -> Seq<char>
    decreases rs.len(),
{
    if rs.len() == 0 {
        Seq::empty()
    } else {
        rendered_block(rs[0]) + rendered_blocks(rs.drop_first())
    }
}

proof fn lemma_rendered_lines_push(lines: Seq<Seq<char>>, l: Seq<char>)
    ensures
        rendered_lines(lines.push(l)) == rendered_lines(lines) + l + seq!['\n'],
    decreases lines.len(),
{
    let s = lines.push(l);
    assert(rendered_lines(Seq::<Seq<char>>::empty()) == Seq::<char>::empty());
    if lines.len() == 0 {
        assert(s.drop_first() =~= Seq::<Seq<char>>::empty());
        assert(s[0] == l);
        assert(rendered_lines(s) == l + seq!['\n'] + Seq::<char>::empty());
        assert(l + seq!['\n'] + Seq::<char>::empty() =~= rendered_lines(lines) + l + seq!['\n']);
    } else {
        assert(s.drop_first() =~= lines.drop_first().push(l));
        lemma_rendered_lines_push(lines.drop_first(), l);
        assert(s[0] == lines[0]);
        assert(rendered_lines(s) == lines[0] + seq!['\n'] + (rendered_lines(lines.drop_first()) + l
            + seq!['\n']));
        assert(rendered_lines(lines) == lines[0] + seq!['\n'] + rendered_lines(
            lines.drop_first(),
        ));
        assert(lines[0] + seq!['\n'] + (rendered_lines(lines.drop_first()) + l + seq!['\n']) =~= (
        lines[0] + seq!['\n'] + rendered_lines(lines.drop_first())) + l + seq!['\n']);
    }
}

proof fn lemma_rendered_blocks_push(rs: Seq<SearchResult>, r: SearchResult)
    ensures
        rendered_blocks(rs.push(r)) == rendered_blocks(rs) + rendered_block(r),
    decreases rs.len(),
{
    let s = rs.push(r);
    assert(rendered_blocks(Seq::<SearchResult>::empty()) == Seq::<char>::empty());
    if rs.len() == 0 {
        assert(s.drop_first() =~= Seq::<SearchResult>::empty());
        assert(s[0] == r);
        assert(rendered_blocks(s) == rendered_block(r) + Seq::<char>::empty());
        assert(rendered_block(r) + Seq::<char>::empty() =~= rendered_blocks(rs) + rendered_block(
            r,
        ));
    } else {
        assert(s.drop_first() =~= rs.drop_first().push(r));
        lemma_rendered_blocks_push(rs.drop_first(), r);
        assert(s[0] == rs[0]);
        assert(rendered_blocks(s) == rendered_block(rs[0]) + (rendered_blocks(rs.drop_first())
            + rendered_block(r)));
        assert(rendered_blocks(rs) == rendered_block(rs[0]) + rendered_blocks(rs.drop_first()));
        assert(rendered_block(rs[0]) + (rendered_blocks(rs.drop_first()) + rendered_block(r)) =~= (
        rendered_block(rs[0]) + rendered_blocks(rs.drop_first())) + rendered_block(r));
    }
}

/// Renders the matching lines of a single-target run: the lines one per
/// output line, no header, no decoration.
pub fn render_single(lines: &Vec<String>) -> (out: String)
    ensures
        out@ == rendered_lines(lines.deep_view()),
{
    let mut out = String::new();
    let mut i: usize = 0;
    proof {
        assert(lines.deep_view().subrange(0, 0) =~= Seq::<Seq<char>>::empty());
    }
    while i < lines.len()
        invariant
            0 <= i <= lines@.len(),
            out@ == rendered_lines(lines.deep_view().subrange(0, i as int)),
        decreases lines@.len() - i,
    {
        let ghost prefix = lines.deep_view().subrange(0, i as int);
        out.append(lines[i].as_str());
        out.append("\n");
        proof {
            reveal_strlit("\n");
            assert("\n"@ =~= seq!['\n']);
            assert(lines.deep_view()[i as int] == lines@[i as int]@);
            lemma_rendered_lines_push(prefix, lines.deep_view()[i as int]);
            assert(prefix.push(lines.deep_view()[i as int]) =~= lines.deep_view().subrange(
                0,
                i + 1,
            ));
            assert(out@ =~= rendered_lines(lines.deep_view().subrange(0, i + 1)));
        }
        i = i + 1;
    }
    proof {
        assert(lines.deep_view().subrange(0, lines@.len() as int) =~= lines.deep_view());
    }
    out
}

/// Renders one target's output block.
pub fn render_block(r: &SearchResult) -> (out: String)
    ensures
        out@ == rendered_block(*r),
{
    let mut out = String::new();
    match &r.outcome {
        Ok(lines) => {
            out.append("\n[");
            out.append(r.path.as_str());
            out.append("]: \n");
            let body = render_single(lines);
            out.append(body.as_str());
            proof {
                assert(out@ =~= rendered_block(*r));
            }
        },
        Err(cause) => {
            out.append("\nError when reading '");
            out.append(r.path.as_str());
            out.append("': ");
            out.append(cause.as_str());
            out.append("\n");
            proof {
                reveal_strlit("\n");
                assert("\n"@ =~= seq!['\n']);
                assert(out@ =~= rendered_block(*r));
            }
        },
    }
    out
}

/// The dispatcher's emission phase for a fan-out run: every target's block,
/// in the order the results stand in, each block complete before the next
/// begins.
pub fn emit_fan_out(results: &Vec<SearchResult>) -> (out: String)
    ensures
        out@ == rendered_blocks(results@),
{
    let mut out = String::new();
    let mut i: usize = 0;
    proof {
        assert(results@.subrange(0, 0) =~= Seq::<SearchResult>::empty());
    }
    while i < results.len()
        invariant
            0 <= i <= results@.len(),
            out@ == rendered_blocks(results@.subrange(0, i as int)),
        decreases results@.len() - i,
    {
        let ghost prefix = results@.subrange(0, i as int);
        let block = render_block(&results[i]);
        out.append(block.as_str());
        proof {
            lemma_rendered_blocks_push(prefix, results@[i as int]);
            assert(prefix.push(results@[i as int]) =~= results@.subrange(0, i + 1));
        }
        i = i + 1;
    }
    proof {
        assert(results@.subrange(0, results@.len() as int) =~= results@);
    }
    out
}

/// The block that one target contributes to a fan-out run's output, as a
/// function of that target's path and read outcome alone.
pub open spec fn block_of(config: Config, path: String, read: Result<String, String>) -> Seq<
    char,
> {
    match read {
        Ok(contents) => "\n["@ + path@ + "]: \n"@ + rendered_lines(
            search_spec(config.query@, contents@, config.ignore_case),
        ),
        Err(cause) => "\nError when reading '"@ + path@ + "': "@ + cause@ + seq!['\n'],
    }
}

/// The output of a fan-out run over the given targets and their read
/// outcomes, in target-submission order.
pub open spec fn blocks_of(
    config: Config,
    paths: Seq<String>,
    reads: Seq<Result<String, String>>,
) -> Seq<char>
    decreases paths.len(),
{
    if paths.len() == 0 {
        Seq::empty()
    } else {
        block_of(config, paths[0], reads[0]) + blocks_of(
            config,
            paths.drop_first(),
            reads.drop_first(),
        )
    }
}

proof fn lemma_blocks_pointwise(
    config: Config,
    rs: Seq<SearchResult>,
    paths: Seq<String>,
    reads: Seq<Result<String, String>>,
)
    requires
        rs.len() == paths.len(),
        reads.len() == paths.len(),
        forall|k: int|
            0 <= k < rs.len() ==> rendered_block(rs[k]) == block_of(config, paths[k], reads[k]),
    ensures
        rendered_blocks(rs) == blocks_of(config, paths, reads),
    decreases rs.len(),
{
    if rs.len() > 0 {
        assert(forall|k: int|
            0 <= k < rs.len() - 1 ==> rendered_block(#[trigger] rs.drop_first()[k]) == block_of(
                config,
                paths.drop_first()[k],
                reads.drop_first()[k],
            )) by {
            assert(forall|k: int| 0 <= k < rs.len() - 1 ==> rs.drop_first()[k] == rs[k + 1]);
        }
        lemma_blocks_pointwise(config, rs.drop_first(), paths.drop_first(), reads.drop_first());
    }
}

/// The dispatcher's whole-run policy, as a function of the targets' read
/// outcomes, handed in target-submission order.  With no target the run is
/// a configuration error; with exactly one target a failed read is fatal
/// and a successful one yields the bare matching lines; with two or more
/// targets every read failure is reported in place and the run as a whole
/// still succeeds.
pub fn dispatch(config: &Config, reads: Vec<Result<String, String>>) -> (r: Result<
    String,
    RunError,
>)
    requires
        reads@.len() == config.file_paths@.len(),
    ensures
        config.file_paths@.len() == 0 ==> r == Result::<String, RunError>::Err(
            RunError::NoTargets,
        ),
        config.file_paths@.len() == 1 ==> (match reads@[0] {
            Ok(contents) => (r matches Ok(out) && out@ == rendered_lines(
                search_spec(config.query@, contents@, config.ignore_case),
            )),
            Err(cause) => r == Result::<String, RunError>::Err(RunError::FatalRead(cause)),
        }),
        config.file_paths@.len() >= 2 ==> (r matches Ok(out) && out@ == blocks_of(
            *config,
            config.file_paths@,
            reads@,
        )),
{
    let n = config.file_paths.len();
    if n == 0 {
        return Err(RunError::NoTargets);
    }
    if n == 1 {
        match &reads[0] {
            Ok(contents) => {
                let lines = run_search(config, contents.as_str());
                return Ok(render_single(&lines));
            },
            Err(cause) => {
                return Err(RunError::FatalRead(cause.clone()));
            },
        }
    }
    let mut results: Vec<SearchResult> = Vec::new();
    let mut i: usize = 0;
    while i < n
        invariant
            n == config.file_paths@.len(),
            reads@.len() == n,
            0 <= i <= n,
            results@.len() == i,
            forall|k: int|
                0 <= k < i ==> rendered_block(#[trigger] results@[k]) == block_of(
                    *config,
                    config.file_paths@[k],
                    reads@[k],
                ),
        decreases n - i,
    {
        let path = config.file_paths[i].clone();
        let read_i: Result<String, String> = match &reads[i] {
            Ok(contents) => Ok(contents.clone()),
            Err(cause) => Err(cause.clone()),
        };
        proof {
            assert(read_i == reads@[i as int]);
        }
        let res = execute(path, read_i, config);
        results.push(res);
        i = i + 1;
    }
    let out = emit_fan_out(&results);
    proof {
        lemma_blocks_pointwise(*config, results@, config.file_paths@, reads@);
    }
    Ok(out)
}

/// Law (ordering): the output of a fan-out run over three targets is
/// exactly the first target's block, then the second's, then the third's —
/// emission order is the order the results are handed in, which the
/// dispatcher keeps as target-submission order whatever order the workers
/// finish in.
pub proof fn lemma_blocks_in_submission_order(a: SearchResult, b: SearchResult, c: SearchResult)
    ensures
        rendered_blocks(seq![a, b, c]) == rendered_block(a) + rendered_block(b) + rendered_block(
            c,
        ),
{
    let s = seq![a, b, c];
    assert(s.drop_first() =~= seq![b, c]);
    assert(seq![b, c].drop_first() =~= seq![c]);
    assert(seq![c].drop_first() =~= Seq::<SearchResult>::empty());
    assert(rendered_blocks(Seq::<SearchResult>::empty()) == Seq::<char>::empty());
    assert(rendered_blocks(seq![c]) == rendered_block(c) + Seq::<char>::empty());
    assert(rendered_blocks(seq![b, c]) == rendered_block(b) + (rendered_block(c)
        + Seq::<char>::empty()));
    assert(rendered_blocks(s) == rendered_block(a) + (rendered_block(b) + (rendered_block(c)
        + Seq::<char>::empty())));
    assert(rendered_block(a) + (rendered_block(b) + (rendered_block(c) + Seq::<char>::empty()))
        =~= rendered_block(a) + rendered_block(b) + rendered_block(c));
}

/// Law (isolation): in a fan-out run, one target's block is a function of
/// that target's own path and read outcome alone, and the run's output
/// splits around it into the unchanged blocks of the targets before and
/// after it.  A failed read therefore reaches nothing but its own block.
pub proof fn lemma_target_isolation(
    config: Config,
    paths: Seq<String>,
    reads: Seq<Result<String, String>>,
    j: int,
)
    requires
        paths.len() == reads.len(),
        0 <= j < paths.len(),
    ensures
        blocks_of(config, paths, reads) == blocks_of(
            config,
            paths.subrange(0, j),
            reads.subrange(0, j),
        ) + block_of(config, paths[j], reads[j]) + blocks_of(
            config,
            paths.subrange(j + 1, paths.len() as int),
            reads.subrange(j + 1, reads.len() as int),
        ),
    decreases j,
{
    if j == 0 {
        assert(paths.subrange(0, 0) =~= Seq::<String>::empty());
        assert(blocks_of(config, paths.subrange(0, 0), reads.subrange(0, 0))
            == Seq::<char>::empty());
        assert(paths.subrange(1, paths.len() as int) =~= paths.drop_first());
        assert(reads.subrange(1, reads.len() as int) =~= reads.drop_first());
        assert(blocks_of(config, paths, reads) =~= (Seq::<char>::empty() + block_of(
            config,
            paths[0],
            reads[0],
        )) + blocks_of(
            config,
            paths.subrange(1, paths.len() as int),
            reads.subrange(1, reads.len() as int),
        ));
    } else {
        lemma_target_isolation(config, paths.drop_first(), reads.drop_first(), j - 1);
        let pd = paths.drop_first();
        let rd = reads.drop_first();
        assert(pd.subrange(0, j - 1) =~= paths.subrange(1, j));
        assert(rd.subrange(0, j - 1) =~= reads.subrange(1, j));
        assert(pd.subrange(j, pd.len() as int) =~= paths.subrange(j + 1, paths.len() as int));
        assert(rd.subrange(j, rd.len() as int) =~= reads.subrange(j + 1, reads.len() as int));
        assert(pd[j - 1] == paths[j]);
        assert(rd[j - 1] == reads[j]);
        assert(paths.subrange(0, j).drop_first() =~= paths.subrange(1, j));
        assert(reads.subrange(0, j).drop_first() =~= reads.subrange(1, j));
        assert(paths.subrange(0, j)[0] == paths[0]);
        assert(blocks_of(config, paths.subrange(0, j), reads.subrange(0, j)) == block_of(
            config,
            paths[0],
            reads[0],
        ) + blocks_of(config, paths.subrange(1, j), reads.subrange(1, j)));
        assert(blocks_of(config, paths, reads) =~= (block_of(config, paths[0], reads[0])
            + blocks_of(config, paths.subrange(1, j), reads.subrange(1, j))) + block_of(
            config,
            paths[j],
            reads[j],
        ) + blocks_of(
            config,
            paths.subrange(j + 1, paths.len() as int),
            reads.subrange(j + 1, reads.len() as int),
        ));
    }
}

} // verus!
