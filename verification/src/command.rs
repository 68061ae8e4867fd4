//! A simple command: a name and its arguments, read from the words of a line.

use vstd::prelude::*;
use crate::shell::{Builtin, ShellCore, builtin_named};
use crate::text::{nul_free, words, words_of};

verus! {

/// A simple command. Its first word is the command's name; all its words,
/// the name included, are its arguments.
pub struct Command {
    name: String,
    args: Vec<String>,
}

impl View for Command {
    type V = Seq<Seq<char>>;

    closed spec fn view(&self) -> Seq<Seq<char>> {
        self.args@.map_values(|a: String| a@)
    }
}

/// Whether a line holds a command: at least one word, and no NUL character,
/// since each word must become a C string for `execvp`.
pub open spec fn command_parsable(line: Seq<char>) -> bool {
    words(line).len() > 0 && nul_free(line)
}

impl Command {
    #[verifier::type_invariant]
    closed spec fn well_formed(self) -> bool {
        &&& self.args@.len() > 0
        &&& self.name@ == self.args@[0]@
    }

    /// Reads a command from the words of `line`.
    pub fn parse(line: &str, _core: &ShellCore) -> (command: Command)
        requires
            command_parsable(line@),
        ensures
            command@ == words(line@),
    {
        let args = words_of(line);
        proof {
            assert(args@.map_values(|a: String| a@)[0] == args@[0]@);
        }
        let name = args[0].clone();
        Command { name, args }
    }

    /// The command's name, its first word.
    pub fn name(&self) -> (name: &String)
        ensures
            self@.len() > 0,
            name@ == self@[0],
    {
        proof {
            use_type_invariant(self);
        }
        &self.name
    }

    /// All words of the command, the name first.
    pub fn args(&self) -> (args: &Vec<String>)
        ensures
            args@.map_values(|a: String| a@) == self@,
            self@.len() > 0,
    {
        proof {
            use_type_invariant(self);
        }
        &self.args
    }

    /// The built-in this command runs, if its name is one; otherwise the
    /// command is a program to run in a child process.
    pub fn builtin(&self, core: &ShellCore) -> (b: Option<Builtin>)
        ensures
            self@.len() > 0,
            b == builtin_named(self@[0]),
    {
        proof {
            use_type_invariant(self);
        }
        core.builtin_for(self.name.as_str())
    }
}

/// Why a child could not start its program.
#[derive(PartialEq, Eq, Structural, Clone, Copy, Debug)]
pub enum ExecFailure {
    /// The program is not executable by the user.
    PermissionDenied,
    /// No program of that name was found.
    NotFound,
    /// Any other failure to start it.
    Other,
}

/// The status a child exits with when its program cannot start: 126 when
/// permission is denied, 127 otherwise.
pub open spec fn failure_status_spec(failure: ExecFailure) -> i32 {
    match failure {
        ExecFailure::PermissionDenied => 126,
        _ => 127,
    }
}

/// Computes `failure_status_spec`.
pub fn failure_status(failure: ExecFailure) -> (status: i32)
    ensures
        status == failure_status_spec(failure),
{
    match failure {
        ExecFailure::PermissionDenied => 126,
        ExecFailure::NotFound => 127,
        ExecFailure::Other => 127,
    }
}

} // verus!

verus! {

/// A command text is accepted exactly when it has a word and holds no NUL;
/// every other character is allowed.
pub proof fn lemma_command_parsable_exactly(line: Seq<char>)
    ensures
        command_parsable(line) <==> words(line).len() > 0 && !line.contains('\0'),
{
    crate::text::lemma_nul_free_is_no_nul(line);
}

} // verus!
