//! A script: a whole input line, jobs separated by `&`, `;` or a newline.

use vstd::prelude::*;
use crate::job::{Job, JobView, job_parsable, job_pipelines};
use crate::shell::ShellCore;
use crate::split::{
    cut_separators, drop_cuts, find_literals, interleave, lemma_kept_cuts_are_separators,
    lemma_merge_reassembles, lemma_split_keeping_by_merge, lemma_split_reassembles, literal_views,
    merge_at, split_by_literals, split_keeping, split_on_separators,
};

verus! {

/// The separators between the jobs of a script.
pub open spec fn job_separators() -> Seq<Seq<char>> {
    seq!["&"@, ";"@, "\n"@]
}

/// The job texts of a line: it is cut at each `&`, `;` and newline, except
/// that `&&` joins two pipelines of one job and is not cut at.
pub open spec fn script_pieces(line: Seq<char>) -> Seq<Seq<char>> {
    split_keeping(line, job_separators(), "&&"@)
}

/// All the separators the regex looks for, `&&` first.
pub open spec fn script_literals() -> Seq<Seq<char>> {
    seq!["&&"@] + job_separators()
}

/// The job separators a line is cut at, in order.
pub open spec fn script_cuts(line: Seq<char>) -> Seq<Seq<char>> {
    drop_cuts(cut_separators(line, script_literals()), "&&"@)
}

/// The job that a text is read as.
pub open spec fn job_of(text: Seq<char>) -> JobView {
    JobView { pipelines: job_pipelines(text), text }
}

/// The jobs of a line.
pub open spec fn script_jobs(line: Seq<char>) -> Seq<JobView> {
    script_pieces(line).map_values(|p: Seq<char>| job_of(p))
}

/// Whether a line can be read as a script: every command text in it, at
/// every level of the grammar, holds at least one word.
pub open spec fn script_parsable(line: Seq<char>) -> bool {
    forall|i: int| 0 <= i < script_pieces(line).len() ==> job_parsable(#[trigger] script_pieces(line)[i])
}

pub(crate) fn job_literals() -> (lits: Vec<&'static str>)
    ensures
        literal_views(lits@) == script_literals(),
        1 <= lits@.len() <= 8,
        forall|i: int| 0 <= i < lits@.len() ==> 1 <= (#[trigger] lits@[i])@.len() <= 8,
{
    let lits = vec!["&&", "&", ";", "\n"];
    proof {
        reveal_strlit("&&");
        reveal_strlit("&");
        reveal_strlit(";");
        reveal_strlit("\n");
        assert(literal_views(lits@) =~= script_literals());
    }
    lits
}

/// The job texts of `line`: the regex cuts at every `&&`, `&`, `;` and
/// newline, then the pieces on both sides of each `&&` are joined again.
fn job_texts(line: &str) -> (texts: Vec<String>)
    ensures
        texts@.map_values(|t: String| t@) == script_pieces(line@),
{
    let lits = job_literals();
    let pieces = split_by_literals(line, &lits);
    let cuts = find_literals(line, &lits);
    proof {
        reveal_strlit("&&");
        lemma_split_reassembles(line@, script_literals());
        lemma_split_keeping_by_merge(line@, job_separators(), "&&"@);
        assert(pieces@.map_values(|p: String| p@).len() == pieces@.len());
        assert(cuts@.map_values(|p: String| p@).len() == cuts@.len());
    }
    merge_at(&pieces, &cuts, "&&")
}

/// A script and the line it was read from.
pub struct Script {
    jobs: Vec<Job>,
    text: String,
}

/// A script as values: its jobs and its text.
pub struct ScriptView {
    pub jobs: Seq<JobView>,
    pub text: Seq<char>,
}

impl View for Script {
    type V = ScriptView;

    closed spec fn view(&self) -> ScriptView {
        ScriptView { jobs: self.jobs@.map_values(|j: Job| j@), text: self.text@ }
    }
}

impl Script {
    /// Reads a script from `line`: cut at each `&`, `;` and newline into jobs
    /// (an `&` of `&&` stays in its job), each job at `||` and `&&` into
    /// pipelines, each pipeline at `|` into
    /// commands, each command into its words. It always gives a script.
    pub fn parse(line: &str, core: &ShellCore) -> (script: Option<Script>)
        requires
            script_parsable(line@),
        ensures
            script matches Some(s) && s@.jobs == script_jobs(line@) && s@.text == line@,
    {
        let pieces = job_texts(line);
        let ghost spec_pieces = script_pieces(line@);
        let mut jobs: Vec<Job> = Vec::new();
        let n = pieces.len();
        let mut i: usize = 0;
        while i < n
            invariant
                n == pieces@.len(),
                i <= n,
                pieces@.map_values(|p: String| p@) == spec_pieces,
                spec_pieces == script_pieces(line@),
                script_parsable(line@),
                jobs@.map_values(|j: Job| j@) == spec_pieces.take(i as int).map_values(
                    |p: Seq<char>| job_of(p),
                ),
            decreases n - i,
        {
            proof {
                assert(spec_pieces[i as int] == pieces@[i as int]@);
                assert(job_parsable(spec_pieces[i as int]));
            }
            let job = Job::parse(pieces[i].as_str(), core);
            let ghost before = jobs@;
            jobs.push(job);
            proof {
                assert(spec_pieces.take(i + 1) =~= spec_pieces.take(i as int).push(spec_pieces[i as int]));
                assert(jobs@.map_values(|j: Job| j@) =~= before.map_values(|j: Job| j@).push(
                    job_of(spec_pieces[i as int]),
                ));
                assert(spec_pieces.take(i + 1).map_values(|p: Seq<char>| job_of(p)) =~= spec_pieces.take(
                    i as int,
                ).map_values(|p: Seq<char>| job_of(p)).push(job_of(spec_pieces[i as int])));
            }
            i = i + 1;
        }
        proof {
            assert(spec_pieces.take(n as int) =~= spec_pieces);
        }
        Some(Script { jobs, text: line.to_string() })
    }

    /// Whether `line` can be read as a script; `parse` requires it.
    pub fn can_parse(line: &str) -> (r: bool)
        ensures
            r == script_parsable(line@),
    {
        let pieces = job_texts(line);
        let ghost spec_pieces = script_pieces(line@);
        let n = pieces.len();
        let mut i: usize = 0;
        while i < n
            invariant
                n == pieces@.len(),
                i <= n,
                pieces@.map_values(|p: String| p@) == spec_pieces,
                spec_pieces == script_pieces(line@),
                forall|k: int| 0 <= k < i ==> job_parsable(#[trigger] spec_pieces[k]),
            decreases n - i,
        {
            proof {
                assert(spec_pieces[i as int] == pieces@[i as int]@);
            }
            if !Job::can_parse(pieces[i].as_str()) {
                return false;
            }
            i = i + 1;
        }
        true
    }

    /// The jobs of the script, in order.
    pub fn jobs(&self) -> (jobs: &Vec<Job>)
        ensures
            jobs@.map_values(|j: Job| j@) == self@.jobs,
    {
        &self.jobs
    }

    /// The line the script was read from.
    pub fn text(&self) -> (text: &String)
        ensures
            text@ == self@.text,
    {
        &self.text
    }
}

} // verus!

verus! {

/// The job texts of a line, put back together with the separators they
/// were cut at, give the line; every such separator is an `&`, `;` or
/// newline, never the `&&` of a job.
pub proof fn lemma_script_reassembles(line: Seq<char>)
    ensures
        script_jobs(line).len() == script_cuts(line).len() + 1,
        interleave(script_jobs(line).map_values(|j: JobView| j.text), script_cuts(line)) == line,
        forall|i: int|
            0 <= i < script_cuts(line).len() ==> job_separators().contains(
                #[trigger] script_cuts(line)[i],
            ),
{
    reveal_strlit("&&");
    let all = script_literals();
    let p = split_on_separators(line, all);
    let c = cut_separators(line, all);
    lemma_split_reassembles(line, all);
    lemma_split_keeping_by_merge(line, job_separators(), "&&"@);
    lemma_merge_reassembles(p, c, "&&"@);
    assert(script_jobs(line).map_values(|j: JobView| j.text) =~= script_pieces(line));
    lemma_kept_cuts_are_separators(line, all, "&&"@);
    assert forall|i: int| 0 <= i < script_cuts(line).len() implies job_separators().contains(
        #[trigger] script_cuts(line)[i],
    ) by {
        let x = script_cuts(line)[i];
        assert(all.contains(x));
        let k = choose|k: int| 0 <= k < all.len() && all[k] == x;
        assert(k != 0);
        assert(job_separators()[k - 1] == x);
    }
}

} // verus!
