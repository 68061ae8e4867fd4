//! What the shell makes of an input line before it parses it, and the prompt
//! it shows.

use vstd::prelude::*;
use crate::command::{ExecFailure, failure_status_spec};
use crate::shell::{ChildExit, ShellCore, child_status, child_status_fits};
use crate::text::{trim, trimmed};

verus! {

/// The face in the prompt: a smiling face after a command that succeeded
/// (status 0), a face with a halo after one that failed.
pub open spec fn prompt_face(status: i32) -> Seq<char> {
    if status == 0 {
        "\u{1F60A}"@
    } else {
        "\u{1F607}"@
    }
}

/// The prompt: `ToySh`, the face, then `>`.
pub open spec fn prompt_text(status: i32) -> Seq<char> {
    "ToySh "@ + prompt_face(status) + " > "@
}

/// The prompt for the shell's current state.
pub fn generate_prompt(core: &ShellCore) -> (prompt: String)
    ensures
        prompt@ == prompt_text(core@.pre_status),
{
    let face = if core.pre_status() == 0 {
        "\u{1F60A}"
    } else {
        "\u{1F607}"
    };
    "ToySh ".to_string().concat(face).concat(" > ")
}

/// A line read from the user, trimmed; `None` when nothing but white space
/// was entered, which the shell skips.
pub fn accept_line(line: &str) -> (accepted: Option<String>)
    ensures
        accepted is Some == (trim(line@).len() > 0),
        accepted matches Some(t) ==> t@ == trim(line@),
{
    let t = trimmed(line);
    if t.unicode_len() == 0 {
        None
    } else {
        Some(t.to_string())
    }
}

} // verus!

verus! {

/// Once a child has been waited for, the prompt smiles exactly when the
/// child exited with status 0; a child ended by a signal brings the halo.
pub proof fn lemma_prompt_after_child(exit: ChildExit)
    requires
        child_status_fits(exit),
    ensures
        prompt_face(child_status(exit) as i32) == (if child_status(exit) == 0 {
            "\u{1F60A}"@
        } else {
            "\u{1F607}"@
        }),
        exit == ChildExit::Exited(0) ==> prompt_face(child_status(exit) as i32) == "\u{1F60A}"@,
        (exit matches ChildExit::Signaled(s) && s > 0) ==> prompt_face(child_status(exit) as i32)
            == "\u{1F607}"@,
{
}

/// A command that could not start leaves a status other than 0, so the
/// prompt shows the halo.
pub proof fn lemma_prompt_after_failed_start(failure: ExecFailure)
    ensures
        prompt_face(failure_status_spec(failure)) == "\u{1F607}"@,
{
}

} // verus!
