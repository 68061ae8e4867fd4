//! A pipeline: commands joined by `|`, each reading what the one before it
//! writes.

use vstd::prelude::*;
use crate::command::{Command, command_parsable};
use crate::shell::ShellCore;
use crate::split::{join_with, literal_views, split_by_literals, split_on_separators};
use crate::text::words;

verus! {

/// The separator between the commands of a pipeline.
pub open spec fn pipe_separators() -> Seq<Seq<char>> {
    seq!["|"@]
}

/// The command texts of a pipeline line.
pub open spec fn pipeline_pieces(line: Seq<char>) -> Seq<Seq<char>> {
    split_on_separators(line, pipe_separators())
}

/// The commands of a pipeline line, each as its words.
pub open spec fn pipeline_commands(line: Seq<char>) -> Seq<Seq<Seq<char>>> {
    pipeline_pieces(line).map_values(|p: Seq<char>| words(p))
}

/// Whether every command text of the line holds a command.
pub open spec fn pipeline_parsable(line: Seq<char>) -> bool {
    forall|i: int|
        0 <= i < pipeline_pieces(line).len() ==> command_parsable(#[trigger] pipeline_pieces(line)[i])
}

/// The separator literals, for `split_by_literals`.
pub(crate) fn pipe_literals() -> (lits: Vec<&'static str>)
    ensures
        literal_views(lits@) == pipe_separators(),
        1 <= lits@.len() <= 8,
        forall|i: int| 0 <= i < lits@.len() ==> 1 <= (#[trigger] lits@[i])@.len() <= 8,
{
    let lits = vec!["|"];
    proof {
        reveal_strlit("|");
        assert(literal_views(lits@) =~= pipe_separators());
    }
    lits
}

/// A pipeline and the text it was read from.
pub struct Pipeline {
    commands: Vec<Command>,
    text: String,
}

/// A pipeline as values: its commands, each as its words, and its text.
pub struct PipelineView {
    pub commands: Seq<Seq<Seq<char>>>,
    pub text: Seq<char>,
}

impl View for Pipeline {
    type V = PipelineView;

    closed spec fn view(&self) -> PipelineView {
        PipelineView {
            commands: self.commands@.map_values(|c: Command| c@),
            text: self.text@,
        }
    }
}

impl Pipeline {
    /// Reads a pipeline from `line`, cutting it at each `|`.
    pub fn parse(line: &str, core: &ShellCore) -> (pipeline: Pipeline)
        requires
            pipeline_parsable(line@),
        ensures
            pipeline@.commands == pipeline_commands(line@),
            pipeline@.text == line@,
    {
        let lits = pipe_literals();
        let pieces = split_by_literals(line, &lits);
        let ghost spec_pieces = pipeline_pieces(line@);
        proof {
            assert(pieces@.map_values(|p: String| p@) == spec_pieces);
        }
        let mut commands: Vec<Command> = Vec::new();
        let n = pieces.len();
        let mut i: usize = 0;
        while i < n
            invariant
                n == pieces@.len(),
                i <= n,
                pieces@.map_values(|p: String| p@) == spec_pieces,
                spec_pieces == pipeline_pieces(line@),
                pipeline_parsable(line@),
                commands@.map_values(|c: Command| c@) == spec_pieces.take(i as int).map_values(
                    |p: Seq<char>| words(p),
                ),
            decreases n - i,
        {
            proof {
                assert(spec_pieces[i as int] == pieces@[i as int]@);
                assert(command_parsable(spec_pieces[i as int]));
            }
            let command = Command::parse(pieces[i].as_str(), core);
            let ghost before = commands@;
            commands.push(command);
            proof {
                assert(spec_pieces.take(i + 1) =~= spec_pieces.take(i as int).push(spec_pieces[i as int]));
                assert(commands@.map_values(|c: Command| c@) =~= before.map_values(|c: Command| c@).push(
                    words(spec_pieces[i as int]),
                ));
                assert(spec_pieces.take(i + 1).map_values(|p: Seq<char>| words(p)) =~= spec_pieces.take(
                    i as int,
                ).map_values(|p: Seq<char>| words(p)).push(words(spec_pieces[i as int])));
            }
            i = i + 1;
        }
        proof {
            assert(spec_pieces.take(n as int) =~= spec_pieces);
        }
        Pipeline { commands, text: line.to_string() }
    }

    /// Whether `line` can be read as a pipeline: every text between two `|`
    /// holds at least one word and no NUL character.
    pub fn can_parse(line: &str) -> (r: bool)
        ensures
            r == pipeline_parsable(line@),
    {
        let lits = pipe_literals();
        let pieces = split_by_literals(line, &lits);
        let ghost spec_pieces = pipeline_pieces(line@);
        let n = pieces.len();
        let mut i: usize = 0;
        while i < n
            invariant
                n == pieces@.len(),
                i <= n,
                pieces@.map_values(|p: String| p@) == spec_pieces,
                spec_pieces == pipeline_pieces(line@),
                forall|k: int| 0 <= k < i ==> command_parsable(#[trigger] spec_pieces[k]),
            decreases n - i,
        {
            let w = crate::text::words_of(pieces[i].as_str());
            proof {
                assert(spec_pieces[i as int] == pieces@[i as int]@);
                assert(w@.map_values(|s: String| s@).len() == w@.len());
            }
            if w.len() == 0 || !crate::text::is_nul_free(pieces[i].as_str()) {
                return false;
            }
            i = i + 1;
        }
        true
    }

    /// The commands of the pipeline, in order.
    pub fn commands(&self) -> (commands: &Vec<Command>)
        ensures
            commands@.map_values(|c: Command| c@) == self@.commands,
    {
        &self.commands
    }

    /// The text the pipeline was read from.
    pub fn text(&self) -> (text: &String)
        ensures
            text@ == self@.text,
    {
        &self.text
    }
}

/// Where a command of a pipeline reads from.
#[derive(PartialEq, Eq, Structural, Clone, Copy, Debug)]
pub enum Source {
    /// The shell's own standard input.
    Stdin,
    /// The reading end of the pipe with this index.
    PipeRead(usize),
}

/// Where a command of a pipeline writes to.
#[derive(PartialEq, Eq, Structural, Clone, Copy, Debug)]
pub enum Sink {
    /// The shell's own standard output.
    Stdout,
    /// The writing end of the pipe with this index.
    PipeWrite(usize),
}

/// The number of pipes a pipeline of `n` commands needs: one between each two.
pub open spec fn pipe_count_spec(n: nat) -> nat {
    if n == 0 {
        0
    } else {
        (n - 1) as nat
    }
}

/// Where command `index` of `n` reads from: the first reads the shell's input,
/// any other the pipe before it.
pub open spec fn source_of(index: usize) -> Source {
    if index == 0 {
        Source::Stdin
    } else {
        Source::PipeRead((index - 1) as usize)
    }
}

/// Where command `index` of `n` writes to: the last writes the shell's
/// output, any other the pipe after it.
pub open spec fn sink_of(n: usize, index: usize) -> Sink {
    if index == n - 1 {
        Sink::Stdout
    } else {
        Sink::PipeWrite(index)
    }
}

/// The number of pipes that a pipeline of `n` commands opens.
pub fn pipe_count(n: usize) -> (count: usize)
    requires
        n >= 1,
    ensures
        count == pipe_count_spec(n as nat),
{
    n - 1
}

/// Where command `index` of a pipeline of `n` commands reads from and writes to.
pub fn endpoints(n: usize, index: usize) -> (ends: (Source, Sink))
    requires
        index < n,
    ensures
        ends.0 == source_of(index),
        ends.1 == sink_of(n, index),
{
    let source = if index == 0 {
        Source::Stdin
    } else {
        Source::PipeRead(index - 1)
    };
    let sink = if index == n - 1 {
        Sink::Stdout
    } else {
        Sink::PipeWrite(index)
    };
    (source, sink)
}

/// Every pipe a pipeline opens is written by exactly one command and read by
/// the next one; the first command reads the shell's input and the last
/// writes the shell's output.
pub proof fn lemma_pipeline_connected(n: usize)
    requires
        n >= 1,
    ensures
        source_of(0) == Source::Stdin,
        sink_of(n, (n - 1) as usize) == Sink::Stdout,
        forall|k: usize|
            k < n - 1 ==> #[trigger] sink_of(n, k) == Sink::PipeWrite(k) && source_of(
                (k + 1) as usize,
            ) == Source::PipeRead(k),
        forall|i: usize|
            i < n ==> match #[trigger] sink_of(n, i) {
                Sink::Stdout => i == n - 1,
                Sink::PipeWrite(k) => k == i && i < n - 1,
            },
        forall|i: usize|
            i < n ==> match #[trigger] source_of(i) {
                Source::Stdin => i == 0,
                Source::PipeRead(k) => k == i - 1 && i > 0,
            },
{
}

} // verus!

verus! {

/// The command texts of a pipeline, joined again with `|`, give the line,
/// and none of them holds a `|`.
pub proof fn lemma_pipeline_rejoins(line: Seq<char>)
    ensures
        join_with(pipeline_pieces(line), "|"@) == line,
        forall|i: int, j: int|
            0 <= i < pipeline_pieces(line).len() && 0 <= j < pipeline_pieces(line)[i].len()
                ==> #[trigger] pipeline_pieces(line)[i][j] != '|',
{
    crate::split::lemma_split_join_single(line, "|"@);
    reveal_strlit("|");
    let seps = pipe_separators();
    assert(seps[0] == seq!['|']);
    crate::split::lemma_single_char_pieces(line, seps);
    assert forall|i: int, j: int|
        0 <= i < pipeline_pieces(line).len() && 0 <= j < pipeline_pieces(line)[i].len()
        implies #[trigger] pipeline_pieces(line)[i][j] != '|' by {
        assert(pipeline_pieces(line)[i][j] != seps[0][0]);
    }
}

} // verus!

verus! {

/// A pipeline of `n` commands opens exactly the pipes its commands use:
/// every pipe that a command reads or writes is among the `pipe_count`
/// pipes opened, and each opened pipe is written by one command and read by
/// the next.
pub proof fn lemma_pipes_opened_are_pipes_used(n: usize)
    requires
        n >= 1,
    ensures
        forall|i: usize|
            i < n ==> match #[trigger] sink_of(n, i) {
                Sink::PipeWrite(k) => k < pipe_count_spec(n as nat),
                Sink::Stdout => true,
            },
        forall|i: usize|
            i < n ==> match #[trigger] source_of(i) {
                Source::PipeRead(k) => k < pipe_count_spec(n as nat),
                Source::Stdin => true,
            },
        forall|k: usize|
            k < pipe_count_spec(n as nat) ==> #[trigger] sink_of(n, k) == Sink::PipeWrite(k)
                && source_of((k + 1) as usize) == Source::PipeRead(k),
        n >= 2 ==> pipe_count_spec(n as nat) >= 1,
        pipe_count_spec(n as nat) + 1 == n,
{
}

} // verus!
