//! The state of the shell: the status of the previous command, the table of
//! built-in commands and the shell's own variables.

use vstd::prelude::*;
use crate::text::same_text;

verus! {

/// The built-in commands.
#[derive(PartialEq, Eq, Structural, Clone, Copy, Debug)]
pub enum Builtin {
    Exit,
    Cd,
    Toyenv,
}

/// The built-in that the shell registers under `name`, if any.
pub open spec fn builtin_named(name: Seq<char>) -> Option<Builtin> {
    if name == "exit"@ {
        Some(Builtin::Exit)
    } else if name == "cd"@ {
        Some(Builtin::Cd)
    } else if name == "toyenv"@ {
        Some(Builtin::Toyenv)
    } else {
        None
    }
}

/// The table of built-ins in the order the shell registers them.
pub open spec fn builtin_table() -> Seq<(Seq<char>, Builtin)> {
    seq![("exit"@, Builtin::Exit), ("cd"@, Builtin::Cd), ("toyenv"@, Builtin::Toyenv)]
}

/// Variable entries as character sequences.
pub open spec fn entry_views(entries: Seq<(String, String)>) -> Seq<(Seq<char>, Seq<char>)> {
    entries.map_values(|e: (String, String)| (e.0@, e.1@))
}

/// The variables that a list of entries defines; a later entry for a name
/// overrides an earlier one.
pub open spec fn var_map(entries: Seq<(Seq<char>, Seq<char>)>) -> Map<Seq<char>, Seq<char>>
    decreases entries.len(),
{
    if entries.len() == 0 {
        Map::empty()
    } else {
        var_map(entries.drop_last()).insert(entries.last().0, entries.last().1)
    }
}

/// No name has two entries.
pub open spec fn names_distinct(entries: Seq<(Seq<char>, Seq<char>)>) -> bool {
    forall|i: int, j: int|
        0 <= i < entries.len() && 0 <= j < entries.len() && i != j ==> #[trigger] entries[i].0
            != #[trigger] entries[j].0
}

/// Whether `name` has an entry.
pub open spec fn has_entry(entries: Seq<(Seq<char>, Seq<char>)>, name: Seq<char>) -> bool {
    exists|i: int| 0 <= i < entries.len() && #[trigger] entries[i].0 == name
}

/// The entries after setting `name` to `value`: the entry of `name` takes the
/// new value where it stands, or a new entry comes last.
pub open spec fn set_entry(
    entries: Seq<(Seq<char>, Seq<char>)>,
    name: Seq<char>,
    value: Seq<char>,
) -> Seq<(Seq<char>, Seq<char>)> {
    if has_entry(entries, name) {
        let i = choose|i: int| 0 <= i < entries.len() && #[trigger] entries[i].0 == name;
        entries.update(i, (name, value))
    } else {
        entries.push((name, value))
    }
}

pub proof fn lemma_var_map_lookup(entries: Seq<(Seq<char>, Seq<char>)>, name: Seq<char>)
    requires
        names_distinct(entries),
    ensures
        var_map(entries).contains_key(name) == has_entry(entries, name),
        forall|i: int|
            0 <= i < entries.len() && #[trigger] entries[i].0 == name ==> var_map(entries)[name]
                == entries[i].1,
    decreases entries.len(),
{
    if entries.len() > 0 {
        let init = entries.drop_last();
        assert(names_distinct(init)) by {
            assert forall|i: int, j: int|
                0 <= i < init.len() && 0 <= j < init.len() && i != j implies #[trigger] init[i].0
                != #[trigger] init[j].0 by {
                assert(init[i] == entries[i] && init[j] == entries[j]);
            }
        }
        lemma_var_map_lookup(init, name);
        let last = entries.len() - 1;
        if entries[last].0 == name {
            assert(has_entry(entries, name));
            assert forall|i: int| 0 <= i < entries.len() && #[trigger] entries[i].0 == name implies var_map(
                entries,
            )[name] == entries[i].1 by {
                if i != last {
                    assert(entries[i].0 != entries[last].0);
                }
            }
        } else {
            if has_entry(entries, name) {
                let i = choose|i: int| 0 <= i < entries.len() && #[trigger] entries[i].0 == name;
                assert(init[i].0 == name);
            }
            if has_entry(init, name) {
                let i = choose|i: int| 0 <= i < init.len() && #[trigger] init[i].0 == name;
                assert(entries[i].0 == name);
            }
            assert forall|i: int| 0 <= i < entries.len() && #[trigger] entries[i].0 == name implies var_map(
                entries,
            )[name] == entries[i].1 by {
                assert(init[i] == entries[i]);
            }
        }
    }
}

pub proof fn lemma_set_entry(
    entries: Seq<(Seq<char>, Seq<char>)>,
    name: Seq<char>,
    value: Seq<char>,
)
    requires
        names_distinct(entries),
    ensures
        names_distinct(set_entry(entries, name, value)),
        var_map(set_entry(entries, name, value)) == var_map(entries).insert(name, value),
{
    if has_entry(entries, name) {
        let i = choose|i: int| 0 <= i < entries.len() && #[trigger] entries[i].0 == name;
        lemma_update_entry(entries, i, value);
    } else {
        let n = entries.push((name, value));
        assert(n.drop_last() =~= entries);
        assert forall|i: int, j: int|
            0 <= i < n.len() && 0 <= j < n.len() && i != j implies #[trigger] n[i].0
            != #[trigger] n[j].0 by {
            if i == entries.len() {
                assert(n[j] == entries[j]);
                assert(!(entries[j].0 == name));
            } else if j == entries.len() {
                assert(n[i] == entries[i]);
                assert(!(entries[i].0 == name));
            } else {
                assert(n[i] == entries[i] && n[j] == entries[j]);
            }
        }
    }
}

proof fn lemma_update_entry(entries: Seq<(Seq<char>, Seq<char>)>, i: int, value: Seq<char>)
    requires
        names_distinct(entries),
        0 <= i < entries.len(),
    ensures
        names_distinct(entries.update(i, (entries[i].0, value))),
        var_map(entries.update(i, (entries[i].0, value))) == var_map(entries).insert(
            entries[i].0,
            value,
        ),
    decreases entries.len(),
{
    let name = entries[i].0;
    let u = entries.update(i, (name, value));
    assert forall|a: int, b: int|
        0 <= a < u.len() && 0 <= b < u.len() && a != b implies #[trigger] u[a].0
        != #[trigger] u[b].0 by {
        assert(u[a].0 == entries[a].0 && u[b].0 == entries[b].0);
    }
    let last = entries.len() - 1;
    let init = entries.drop_last();
    assert(names_distinct(init)) by {
        assert forall|a: int, b: int|
            0 <= a < init.len() && 0 <= b < init.len() && a != b implies #[trigger] init[a].0
            != #[trigger] init[b].0 by {
            assert(init[a] == entries[a] && init[b] == entries[b]);
        }
    }
    if i == last {
        assert(u.drop_last() =~= init);
        assert(var_map(u) =~= var_map(entries).insert(name, value));
    } else {
        lemma_update_entry(init, i, value);
        assert(u.drop_last() =~= init.update(i, (name, value)));
        assert(entries[last].0 != name);
        assert(var_map(u) =~= var_map(entries).insert(name, value));
    }
}

/// How a waited-for child ended.
#[derive(PartialEq, Eq, Structural, Clone, Copy, Debug)]
pub enum ChildExit {
    /// It exited with this status.
    Exited(i32),
    /// A signal with this number ended it.
    Signaled(i32),
    /// Any other state that the wait reported.
    Unsupported,
}

/// The status the shell records for a child: its exit status, 128 plus the
/// number of the signal that ended it, or 1 for anything else.
pub open spec fn child_status(exit: ChildExit) -> int {
    match exit {
        ChildExit::Exited(status) => status as int,
        ChildExit::Signaled(signal) => 128 + signal,
        ChildExit::Unsupported => 1,
    }
}

/// Whether `child_status` fits in an `i32`.
pub open spec fn child_status_fits(exit: ChildExit) -> bool {
    match exit {
        ChildExit::Signaled(signal) => signal <= i32::MAX - 128,
        _ => true,
    }
}

/// Computes `child_status`.
pub fn status_of_child(exit: ChildExit) -> (status: i32)
    requires
        child_status_fits(exit),
    ensures
        status == child_status(exit),
{
    match exit {
        ChildExit::Exited(status) => status,
        ChildExit::Signaled(signal) => 128 + signal,
        ChildExit::Unsupported => 1,
    }
}

/// How one command of a pipeline ended.
#[derive(PartialEq, Eq, Structural, Clone, Copy, Debug)]
pub enum CommandOutcome {
    /// A built-in ran in the shell and gave this status.
    Builtin(i32),
    /// A child ran the command and was waited for.
    Child(ChildExit),
}

/// The status a command leaves.
pub open spec fn outcome_status(outcome: CommandOutcome) -> int {
    match outcome {
        CommandOutcome::Builtin(status) => status as int,
        CommandOutcome::Child(exit) => child_status(exit),
    }
}

/// Whether `outcome_status` fits in an `i32`.
pub open spec fn outcome_fits(outcome: CommandOutcome) -> bool {
    match outcome {
        CommandOutcome::Builtin(_) => true,
        CommandOutcome::Child(exit) => child_status_fits(exit),
    }
}

/// The state of the shell.
pub struct ShellCore {
    pre_status: i32,
    builtins: Vec<(String, Builtin)>,
    vars: Vec<(String, String)>,
}

/// The shell's state as values: the previous status and the variable entries
/// in the order they were first set.
pub struct ShellCoreView {
    pub pre_status: i32,
    pub vars: Seq<(Seq<char>, Seq<char>)>,
}

impl View for ShellCore {
    type V = ShellCoreView;

    closed spec fn view(&self) -> ShellCoreView {
        ShellCoreView { pre_status: self.pre_status, vars: entry_views(self.vars@) }
    }
}

impl ShellCoreView {
    /// The shell's variables.
    pub open spec fn var_map(self) -> Map<Seq<char>, Seq<char>> {
        var_map(self.vars)
    }
}

impl ShellCore {
    #[verifier::type_invariant]
    closed spec fn well_formed(self) -> bool {
        &&& self.builtins@.map_values(|e: (String, Builtin)| (e.0@, e.1)) == builtin_table()
        &&& names_distinct(entry_views(self.vars@))
    }

    /// A fresh shell state: status 0, the built-ins `exit`, `cd` and `toyenv`,
    /// and the variables of `initial_vars`.
    pub fn new(current_dir: Option<String>) -> (core: ShellCore)
        ensures
            core@.pre_status == 0,
            core@.vars == initial_vars(opt_view(current_dir)),
    {
        let mut builtins: Vec<(String, Builtin)> = Vec::new();
        builtins.push(("exit".to_string(), Builtin::Exit));
        builtins.push(("cd".to_string(), Builtin::Cd));
        builtins.push(("toyenv".to_string(), Builtin::Toyenv));
        proof {
            assert(builtins@.map_values(|e: (String, Builtin)| (e.0@, e.1)) =~= builtin_table());
        }
        let mut core = ShellCore { pre_status: 0, builtins, vars: Vec::new() };
        proof {
            lemma_starting_vars_from_empty(opt_view(current_dir));
            assert(core@.vars =~= Seq::<(Seq<char>, Seq<char>)>::empty());
        }
        core.setting_vars(current_dir);
        core
    }

    /// Sets the variables the shell starts with, over whatever is set:
    /// `TOYSH_HOME`, `HISTORY_FILE`, `OLDPWD` and, when the current directory
    /// is known, `PWD`.
    fn setting_vars(&mut self, current_dir: Option<String>)
        ensures
            final(self)@.vars == starting_vars(old(self)@.vars, opt_view(current_dir)),
            final(self)@.pre_status == old(self)@.pre_status,
    {
        self.set_var("TOYSH_HOME".to_string(), ".toysh".to_string());
        self.set_var("HISTORY_FILE".to_string(), "history".to_string());
        self.set_var("OLDPWD".to_string(), "".to_string());
        match current_dir {
            Some(d) => self.set_var("PWD".to_string(), d),
            None => {},
        }
    }

    /// Records the status of the command that just finished.
    pub fn set_status(&mut self, status: i32)
        ensures
            final(self)@.pre_status == status,
            final(self)@.vars == old(self)@.vars,
    {
        proof {
            use_type_invariant(&*self);
        }
        self.pre_status = status;
    }

    /// The status of the previous command.
    pub fn pre_status(&self) -> (status: i32)
        ensures
            status == self@.pre_status,
    {
        self.pre_status
    }

    /// The variable entries in the order they were first set.
    pub fn vars(&self) -> (vars: &Vec<(String, String)>)
        ensures
            entry_views(vars@) == self@.vars,
            names_distinct(self@.vars),
    {
        proof {
            use_type_invariant(self);
        }
        &self.vars
    }

    /// The value of the variable `name`, if it is set.
    pub fn get_var(&self, name: &str) -> (value: Option<String>)
        ensures
            value is Some == self@.var_map().contains_key(name@),
            value matches Some(v) ==> v@ == self@.var_map()[name@],
    {
        proof {
            use_type_invariant(self);
            lemma_var_map_lookup(entry_views(self.vars@), name@);
        }
        let n = self.vars.len();
        let mut i: usize = 0;
        while i < n
            invariant
                n == self.vars@.len(),
                i <= n,
                forall|k: int| 0 <= k < i ==> (#[trigger] self.vars@[k]).0@ != name@,
            decreases n - i,
        {
            if same_text(self.vars[i].0.as_str(), name) {
                proof {
                    use_type_invariant(self);
                    lemma_var_map_lookup(entry_views(self.vars@), name@);
                    assert(entry_views(self.vars@)[i as int].0 == name@);
                }
                return Some(self.vars[i].1.clone());
            }
            i = i + 1;
        }
        proof {
            use_type_invariant(self);
            lemma_var_map_lookup(entry_views(self.vars@), name@);
            if has_entry(entry_views(self.vars@), name@) {
                let k = choose|k: int|
                    0 <= k < entry_views(self.vars@).len() && #[trigger] entry_views(
                        self.vars@,
                    )[k].0 == name@;
                assert(self.vars@[k].0@ == name@);
            }
        }
        None
    }

    /// Sets the variable `name` to `value`.
    pub fn set_var(&mut self, name: String, value: String)
        ensures
            final(self)@.vars == set_entry(old(self)@.vars, name@, value@),
            final(self)@.var_map() == old(self)@.var_map().insert(name@, value@),
            final(self)@.pre_status == old(self)@.pre_status,
    {
        proof {
            use_type_invariant(&*self);
            lemma_set_entry(entry_views(self.vars@), name@, value@);
        }
        let ghost old_views = entry_views(self.vars@);
        let n = self.vars.len();
        let mut i: usize = 0;
        while i < n
            invariant
                n == self.vars@.len(),
                i <= n,
                old_views == entry_views(self.vars@),
                old_views == entry_views(old(self).vars@),
                self.pre_status == old(self).pre_status,
                names_distinct(old_views),
                var_map(set_entry(old_views, name@, value@)) == var_map(old_views).insert(name@, value@),
                forall|k: int| 0 <= k < i ==> (#[trigger] self.vars@[k]).0@ != name@,
            decreases n - i,
        {
            if same_text(self.vars[i].0.as_str(), name.as_str()) {
                proof {
                    assert(old_views[i as int].0 == name@);
                    assert(has_entry(old_views, name@));
                    let j = choose|j: int| 0 <= j < old_views.len() && #[trigger] old_views[j].0 == name@;
                    if j != i {
                        assert(old_views[j].0 != old_views[i as int].0);
                    }
                    assert(set_entry(old_views, name@, value@) == old_views.update(
                        i as int,
                        (name@, value@),
                    ));
                    assert(entry_views(self.vars@.update(i as int, (name, value))) =~= old_views.update(
                        i as int,
                        (name@, value@),
                    ));
                    use_type_invariant(&*self);
                }
                let mut vars: Vec<(String, String)> = Vec::new();
                std::mem::swap(&mut vars, &mut self.vars);
                vars.set(i, (name, value));
                self.vars = vars;
                return;
            }
            i = i + 1;
        }
        proof {
            if has_entry(old_views, name@) {
                let k = choose|k: int| 0 <= k < old_views.len() && #[trigger] old_views[k].0 == name@;
                assert(self.vars@[k].0@ == name@);
            }
            assert(entry_views(self.vars@.push((name, value))) =~= old_views.push((name@, value@)));
            use_type_invariant(&*self);
        }
        let mut vars: Vec<(String, String)> = Vec::new();
        std::mem::swap(&mut vars, &mut self.vars);
        vars.push((name, value));
        self.vars = vars;
    }

    /// The built-in registered under `name`, if any.
    pub fn builtin_for(&self, name: &str) -> (b: Option<Builtin>)
        ensures
            b == builtin_named(name@),
    {
        proof {
            use_type_invariant(self);
        }
        let ghost table = self.builtins@.map_values(|e: (String, Builtin)| (e.0@, e.1));
        let n = self.builtins.len();
        let mut i: usize = 0;
        while i < n
            invariant
                n == self.builtins@.len(),
                i <= n,
                table == builtin_table(),
                table == self.builtins@.map_values(|e: (String, Builtin)| (e.0@, e.1)),
                table.len() == n,
                forall|k: int| 0 <= k < i ==> (#[trigger] table[k]).0 != name@,
            decreases n - i,
        {
            if same_text(self.builtins[i].0.as_str(), name) {
                proof {
                    assert(table[i as int].0 == name@);
                    assert(table[0].0 == "exit"@);
                    assert(table[1].0 == "cd"@);
                    assert(table[2].0 == "toyenv"@);
                    lemma_builtin_names_differ();
                    assert(table[i as int].1 == self.builtins@[i as int].1);
                    if i == 0 {
                        assert(builtin_named(name@) == Some(Builtin::Exit));
                    } else if i == 1 {
                        assert(builtin_named(name@) == Some(Builtin::Cd));
                    } else {
                        assert(builtin_named(name@) == Some(Builtin::Toyenv));
                    }
                }
                return Some(self.builtins[i].1);
            }
            i = i + 1;
        }
        proof {
            assert(table[0].0 != name@);
            assert(table[1].0 != name@);
            assert(table[2].0 != name@);
        }
        None
    }

    /// Whether a built-in is registered under `name`.
    pub fn is_builtin(&self, name: &str) -> (r: bool)
        ensures
            r == (builtin_named(name@) is Some),
    {
        self.builtin_for(name).is_some()
    }

    /// Records the status of a pipeline once all its commands have ended:
    /// the status of its last command. With no outcome the status stays.
    pub fn finish_pipeline(&mut self, outcomes: &Vec<CommandOutcome>)
        requires
            forall|i: int| 0 <= i < outcomes@.len() ==> outcome_fits(#[trigger] outcomes@[i]),
        ensures
            final(self)@.pre_status == (if outcomes@.len() > 0 {
                outcome_status(outcomes@.last())
            } else {
                old(self)@.pre_status as int
            }),
            final(self)@.vars == old(self)@.vars,
    {
        let n = outcomes.len();
        if n > 0 {
            proof {
                assert(outcome_fits(outcomes@[n - 1]));
            }
            match outcomes[n - 1] {
                CommandOutcome::Builtin(status) => self.set_status(status),
                CommandOutcome::Child(exit) => self.wait_child(exit),
            }
        }
    }

    /// Records the status of a child that has been waited for.
    pub fn wait_child(&mut self, exit: ChildExit)
        requires
            child_status_fits(exit),
        ensures
            final(self)@.pre_status == child_status(exit),
            final(self)@.vars == old(self)@.vars,
    {
        let status = status_of_child(exit);
        self.set_status(status);
    }
}

/// The variables the shell starts with, in order: `TOYSH_HOME` is
/// `.toysh`, `HISTORY_FILE` is `history`, `OLDPWD` is empty and, when the
/// current directory is known, `PWD` is it.
pub open spec fn initial_vars(current_dir: Option<Seq<char>>) -> Seq<(Seq<char>, Seq<char>)> {
    let base = seq![
        ("TOYSH_HOME"@, ".toysh"@),
        ("HISTORY_FILE"@, "history"@),
        ("OLDPWD"@, ""@),
    ];
    match current_dir {
        Some(d) => base.push(("PWD"@, d)),
        None => base,
    }
}

/// The entries after the shell sets its starting variables over `vars`.
pub open spec fn starting_vars(
    vars: Seq<(Seq<char>, Seq<char>)>,
    current_dir: Option<Seq<char>>,
) -> Seq<(Seq<char>, Seq<char>)> {
    let v1 = set_entry(vars, "TOYSH_HOME"@, ".toysh"@);
    let v2 = set_entry(v1, "HISTORY_FILE"@, "history"@);
    let v3 = set_entry(v2, "OLDPWD"@, ""@);
    match current_dir {
        Some(d) => set_entry(v3, "PWD"@, d),
        None => v3,
    }
}

proof fn lemma_starting_vars_from_empty(current_dir: Option<Seq<char>>)
    ensures
        starting_vars(Seq::empty(), current_dir) == initial_vars(current_dir),
{
    lemma_var_names_differ();
    let e0 = Seq::<(Seq<char>, Seq<char>)>::empty();
    let e1 = set_entry(e0, "TOYSH_HOME"@, ".toysh"@);
    assert(!has_entry(e0, "TOYSH_HOME"@));
    assert(e1 =~= seq![("TOYSH_HOME"@, ".toysh"@)]);
    let e2 = set_entry(e1, "HISTORY_FILE"@, "history"@);
    assert(!has_entry(e1, "HISTORY_FILE"@)) by {
        assert(e1[0].0 != "HISTORY_FILE"@);
    }
    let e3 = set_entry(e2, "OLDPWD"@, ""@);
    assert(!has_entry(e2, "OLDPWD"@)) by {
        assert(e2[0].0 != "OLDPWD"@);
        assert(e2[1].0 != "OLDPWD"@);
    }
    assert(e3 =~= seq![
        ("TOYSH_HOME"@, ".toysh"@),
        ("HISTORY_FILE"@, "history"@),
        ("OLDPWD"@, ""@),
    ]);
    assert(!has_entry(e3, "PWD"@)) by {
        assert(e3[0].0 != "PWD"@);
        assert(e3[1].0 != "PWD"@);
        assert(e3[2].0 != "PWD"@);
    }
}

/// The directory as a character sequence.
pub open spec fn opt_view(s: Option<String>) -> Option<Seq<char>> {
    match s {
        Some(d) => Some(d@),
        None => None,
    }
}

proof fn lemma_var_names_differ()
    ensures
        "TOYSH_HOME"@ != "HISTORY_FILE"@,
        "TOYSH_HOME"@ != "OLDPWD"@,
        "TOYSH_HOME"@ != "PWD"@,
        "HISTORY_FILE"@ != "OLDPWD"@,
        "HISTORY_FILE"@ != "PWD"@,
        "OLDPWD"@ != "PWD"@,
{
    reveal_strlit("TOYSH_HOME");
    reveal_strlit("HISTORY_FILE");
    reveal_strlit("OLDPWD");
    reveal_strlit("PWD");
    assert("TOYSH_HOME"@.len() == 10);
    assert("HISTORY_FILE"@.len() == 12);
    assert("OLDPWD"@.len() == 6);
    assert("PWD"@.len() == 3);
}

proof fn lemma_builtin_names_differ()
    ensures
        "exit"@ != "cd"@,
        "exit"@ != "toyenv"@,
        "cd"@ != "toyenv"@,
{
    reveal_strlit("exit");
    reveal_strlit("cd");
    reveal_strlit("toyenv");
    assert("exit"@.len() != "cd"@.len());
    assert("cd"@.len() != "toyenv"@.len());
    assert("exit"@.len() != "toyenv"@.len());
}

} // verus!

verus! {

/// Reading a variable after setting it gives the value written, and every
/// other variable reads as before.
pub proof fn lemma_set_then_get(
    entries: Seq<(Seq<char>, Seq<char>)>,
    name: Seq<char>,
    value: Seq<char>,
    other: Seq<char>,
)
    requires
        names_distinct(entries),
    ensures
        var_map(set_entry(entries, name, value)).contains_key(name),
        var_map(set_entry(entries, name, value))[name] == value,
        other != name ==> var_map(set_entry(entries, name, value)).contains_key(other)
            == var_map(entries).contains_key(other),
        other != name ==> var_map(set_entry(entries, name, value))[other] == var_map(
            entries,
        )[other],
        names_distinct(set_entry(entries, name, value)),
{
    lemma_set_entry(entries, name, value);
}

} // verus!

verus! {

/// The status recorded for a child is the one it exited with; a child that
/// exited with a non-zero status, or was ended by a signal, or ended in any
/// other way, never leaves status 0.
pub proof fn lemma_child_status_faithful(exit: ChildExit)
    ensures
        forall|s: i32| #[trigger] child_status(ChildExit::Exited(s)) == s,
        exit matches ChildExit::Exited(s) ==> (child_status(exit) == 0 <==> s == 0),
        exit matches ChildExit::Signaled(g) && g > 0 ==> child_status(exit) > 128,
        exit is Unsupported ==> child_status(exit) != 0,
{
}

/// A name is a built-in exactly when the shell's table registers it, and
/// then it is the built-in registered under that name; the names are
/// `exit`, `cd` and `toyenv` and no others.
pub proof fn lemma_builtins_are_the_table(name: Seq<char>)
    ensures
        builtin_named(name) is Some <==> exists|i: int|
            0 <= i < builtin_table().len() && #[trigger] builtin_table()[i].0 == name,
        forall|i: int|
            0 <= i < builtin_table().len() && #[trigger] builtin_table()[i].0 == name
                ==> builtin_named(name) == Some(builtin_table()[i].1),
        builtin_named(name) is Some <==> (name == "exit"@ || name == "cd"@ || name == "toyenv"@),
        builtin_table().len() == 3,
{
    lemma_builtin_names_differ();
    let t = builtin_table();
    if name == "exit"@ {
        assert(t[0].0 == name);
    } else if name == "cd"@ {
        assert(t[1].0 == name);
    } else if name == "toyenv"@ {
        assert(t[2].0 == name);
    }
    assert forall|i: int| 0 <= i < t.len() && #[trigger] t[i].0 == name implies builtin_named(name)
        == Some(t[i].1) by {
        if i == 0 {
        } else if i == 1 {
        } else {
            assert(i == 2);
        }
    }
}

} // verus!
