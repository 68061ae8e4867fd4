//! A job: pipelines joined by `||` or `&&`.

use vstd::prelude::*;
use crate::pipeline::{Pipeline, PipelineView, pipeline_commands, pipeline_parsable};
use crate::shell::ShellCore;
use crate::split::{
    cut_separators, interleave, lemma_split_reassembles, literal_views, split_by_literals,
    split_on_separators,
};

verus! {

/// The separators between the pipelines of a job, in the order they are tried.
pub open spec fn and_or_separators() -> Seq<Seq<char>> {
    seq!["||"@, "&&"@]
}

/// The pipeline texts of a job line.
pub open spec fn job_pieces(line: Seq<char>) -> Seq<Seq<char>> {
    split_on_separators(line, and_or_separators())
}

/// The pipeline that a text is read as.
pub open spec fn pipeline_of(text: Seq<char>) -> PipelineView {
    PipelineView { commands: pipeline_commands(text), text }
}

/// The pipelines of a job line.
pub open spec fn job_pipelines(line: Seq<char>) -> Seq<PipelineView> {
    job_pieces(line).map_values(|p: Seq<char>| pipeline_of(p))
}

/// Whether every pipeline text of the line can be read.
pub open spec fn job_parsable(line: Seq<char>) -> bool {
    forall|i: int| 0 <= i < job_pieces(line).len() ==> pipeline_parsable(#[trigger] job_pieces(line)[i])
}

pub(crate) fn and_or_literals() -> (lits: Vec<&'static str>)
    ensures
        literal_views(lits@) == and_or_separators(),
        1 <= lits@.len() <= 8,
        forall|i: int| 0 <= i < lits@.len() ==> 1 <= (#[trigger] lits@[i])@.len() <= 8,
{
    let lits = vec!["||", "&&"];
    proof {
        reveal_strlit("||");
        reveal_strlit("&&");
        assert(literal_views(lits@) =~= and_or_separators());
    }
    lits
}

/// A job and the text it was read from.
pub struct Job {
    pipelines: Vec<Pipeline>,
    text: String,
}

/// A job as values: its pipelines and its text.
pub struct JobView {
    pub pipelines: Seq<PipelineView>,
    pub text: Seq<char>,
}

impl View for Job {
    type V = JobView;

    closed spec fn view(&self) -> JobView {
        JobView { pipelines: self.pipelines@.map_values(|p: Pipeline| p@), text: self.text@ }
    }
}

impl Job {
    /// Reads a job from `line`, cutting it at each `||` and `&&`.
    pub fn parse(line: &str, core: &ShellCore) -> (job: Job)
        requires
            job_parsable(line@),
        ensures
            job@.pipelines == job_pipelines(line@),
            job@.text == line@,
    {
        let lits = and_or_literals();
        let pieces = split_by_literals(line, &lits);
        let ghost spec_pieces = job_pieces(line@);
        let mut pipelines: Vec<Pipeline> = Vec::new();
        let n = pieces.len();
        let mut i: usize = 0;
        while i < n
            invariant
                n == pieces@.len(),
                i <= n,
                pieces@.map_values(|p: String| p@) == spec_pieces,
                spec_pieces == job_pieces(line@),
                job_parsable(line@),
                pipelines@.map_values(|p: Pipeline| p@) == spec_pieces.take(i as int).map_values(
                    |p: Seq<char>| pipeline_of(p),
                ),
            decreases n - i,
        {
            proof {
                assert(spec_pieces[i as int] == pieces@[i as int]@);
                assert(pipeline_parsable(spec_pieces[i as int]));
            }
            let pipeline = Pipeline::parse(pieces[i].as_str(), core);
            let ghost before = pipelines@;
            pipelines.push(pipeline);
            proof {
                assert(spec_pieces.take(i + 1) =~= spec_pieces.take(i as int).push(spec_pieces[i as int]));
                assert(pipelines@.map_values(|p: Pipeline| p@) =~= before.map_values(|p: Pipeline| p@).push(
                    pipeline_of(spec_pieces[i as int]),
                ));
                assert(spec_pieces.take(i + 1).map_values(|p: Seq<char>| pipeline_of(p)) =~= spec_pieces.take(
                    i as int,
                ).map_values(|p: Seq<char>| pipeline_of(p)).push(pipeline_of(spec_pieces[i as int])));
            }
            i = i + 1;
        }
        proof {
            assert(spec_pieces.take(n as int) =~= spec_pieces);
        }
        Job { pipelines, text: line.to_string() }
    }

    /// Whether `line` can be read as a job.
    pub fn can_parse(line: &str) -> (r: bool)
        ensures
            r == job_parsable(line@),
    {
        let lits = and_or_literals();
        let pieces = split_by_literals(line, &lits);
        let ghost spec_pieces = job_pieces(line@);
        let n = pieces.len();
        let mut i: usize = 0;
        while i < n
            invariant
                n == pieces@.len(),
                i <= n,
                pieces@.map_values(|p: String| p@) == spec_pieces,
                spec_pieces == job_pieces(line@),
                forall|k: int| 0 <= k < i ==> pipeline_parsable(#[trigger] spec_pieces[k]),
            decreases n - i,
        {
            proof {
                assert(spec_pieces[i as int] == pieces@[i as int]@);
            }
            if !Pipeline::can_parse(pieces[i].as_str()) {
                return false;
            }
            i = i + 1;
        }
        true
    }

    /// The pipelines of the job, in order.
    pub fn pipelines(&self) -> (pipelines: &Vec<Pipeline>)
        ensures
            pipelines@.map_values(|p: Pipeline| p@) == self@.pipelines,
    {
        &self.pipelines
    }

    /// The text the job was read from.
    pub fn text(&self) -> (text: &String)
        ensures
            text@ == self@.text,
    {
        &self.text
    }
}

} // verus!

verus! {

/// The pipeline texts of a job, put back together with the `||` and `&&`
/// they were cut at, give the line.
pub proof fn lemma_job_reassembles(line: Seq<char>)
    ensures
        job_pipelines(line).len() == cut_separators(line, and_or_separators()).len() + 1,
        interleave(
            job_pipelines(line).map_values(|p: PipelineView| p.text),
            cut_separators(line, and_or_separators()),
        ) == line,
{
    lemma_split_reassembles(line, and_or_separators());
    assert(job_pipelines(line).map_values(|p: PipelineView| p.text) =~= job_pieces(line));
}

} // verus!
