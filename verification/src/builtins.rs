//! The built-in commands `exit`, `cd` and `toyenv`: what each decides from
//! its arguments and the shell's state. Leaving the process, changing the
//! directory and printing are left to the caller.

use vstd::prelude::*;
use crate::shell::{ShellCore, lemma_set_then_get, names_distinct, set_entry, var_map};
use crate::text::{parse_i32, parse_i32_of, same_text};

verus! {

/// The remainder of `n` divided by 256 as Rust's `%` computes it: it takes
/// the sign of `n`.
pub open spec fn rem_256(n: i32) -> int {
    if n >= 0 {
        (n as int) % 256
    } else {
        -((-(n as int)) % 256)
    }
}

/// What `exit` does: the status the shell leaves with, and the argument it
/// could not read as a number, if any.
pub struct ExitRequest {
    pub status: i32,
    pub bad_argument: Option<String>,
}

/// The status `exit` leaves with: 0 when it has no argument, its first
/// argument modulo 256 when that is a number, and 2 otherwise.
pub open spec fn exit_status(args: Seq<Seq<char>>) -> int {
    if args.len() <= 1 {
        0
    } else {
        match parse_i32(args[1]) {
            Some(n) => rem_256(n),
            None => 2,
        }
    }
}

/// Whether `exit` reports its first argument as not numeric.
pub open spec fn exit_rejects(args: Seq<Seq<char>>) -> bool {
    args.len() > 1 && parse_i32(args[1]) is None
}

/// The `exit` built-in: decides the status the shell leaves with. `args`
/// holds the command's words, its name first.
pub fn exit(_core: &ShellCore, args: &Vec<String>) -> (request: ExitRequest)
    requires
        args@.len() >= 1,
    ensures
        request.status == exit_status(args@.map_values(|a: String| a@)),
        request.bad_argument is Some == exit_rejects(args@.map_values(|a: String| a@)),
        request.bad_argument matches Some(a) ==> a@ == args@[1]@,
{
    let ghost views = args@.map_values(|a: String| a@);
    if args.len() == 1 {
        return ExitRequest { status: 0, bad_argument: None };
    }
    proof {
        assert(views[1] == args@[1]@);
    }
    match parse_i32_of(args[1].as_str()) {
        Some(n) => {
            let status = if n >= 0 {
                n % 256
            } else {
                let m: i64 = -(n as i64);
                -((m % 256) as i32)
            };
            ExitRequest { status, bad_argument: None }
        },
        None => ExitRequest { status: 2, bad_argument: Some(args[1].clone()) },
    }
}

/// Why `cd` did not try to change directory.
#[derive(PartialEq, Eq, Structural, Clone, Copy, Debug)]
pub enum CdError {
    /// More than two arguments after the name.
    TooManyArguments,
    /// No argument, and the home directory is unknown.
    HomeNotSet,
    /// The argument `-`, and `OLDPWD` is not set.
    OldPwdNotSet,
}

/// The directory `cd` goes to: home when it has no argument, the previous
/// directory (`OLDPWD`) for `-`, otherwise its argument; with two arguments
/// the target is empty, which no directory matches.
pub open spec fn cd_target_spec(
    vars: Map<Seq<char>, Seq<char>>,
    args: Seq<Seq<char>>,
    home: Option<Seq<char>>,
) -> Result<Seq<char>, CdError> {
    if args.len() > 3 {
        Err(CdError::TooManyArguments)
    } else if args.len() == 1 {
        match home {
            Some(h) => Ok(h),
            None => Err(CdError::HomeNotSet),
        }
    } else if args.len() == 2 {
        if args[1] == "-"@ {
            if vars.contains_key("OLDPWD"@) {
                Ok(vars["OLDPWD"@])
            } else {
                Err(CdError::OldPwdNotSet)
            }
        } else {
            Ok(args[1])
        }
    } else {
        Ok(Seq::<char>::empty())
    }
}

/// The `cd` built-in, first part: the directory to change to. `home` is the
/// value of the `HOME` environment variable, if set.
pub fn cd_target(core: &ShellCore, args: &Vec<String>, home: Option<String>) -> (target: Result<
    String,
    CdError,
>)
    ensures
        match (target, cd_target_spec(core@.var_map(), args@.map_values(|a: String| a@), crate::shell::opt_view(home))) {
            (Ok(t), Ok(s)) => t@ == s,
            (Err(e), Err(f)) => e == f,
            _ => false,
        },
{
    let ghost views = args@.map_values(|a: String| a@);
    if args.len() > 3 {
        return Err(CdError::TooManyArguments);
    }
    if args.len() == 1 {
        return match home {
            Some(h) => Ok(h),
            None => Err(CdError::HomeNotSet),
        };
    }
    if args.len() == 2 {
        proof {
            assert(views[1] == args@[1]@);
        }
        if same_text(args[1].as_str(), "-") {
            return match core.get_var("OLDPWD") {
                Some(old) => Ok(old),
                None => Err(CdError::OldPwdNotSet),
            };
        }
        return Ok(args[1].clone());
    }
    Ok(String::new())
}

/// How the attempt to change directory went.
pub enum DirChange {
    /// The directory could not be changed.
    Failed,
    /// It was changed; with the canonical path of the new directory when that
    /// could be found.
    Changed(Option<String>),
}

/// The variables after `cd`: `OLDPWD` becomes the directory before the
/// change when that was known, and `PWD` the canonical new directory when
/// the change succeeded and that path was found.
pub open spec fn cd_vars(
    vars: Seq<(Seq<char>, Seq<char>)>,
    previous_dir: Option<Seq<char>>,
    new_dir: Option<Seq<char>>,
) -> Seq<(Seq<char>, Seq<char>)> {
    let after_old = match previous_dir {
        Some(p) => set_entry(vars, "OLDPWD"@, p),
        None => vars,
    };
    match new_dir {
        Some(d) => set_entry(after_old, "PWD"@, d),
        None => after_old,
    }
}

/// The canonical new directory that a change reports, if any.
pub open spec fn new_dir_of(change: DirChange) -> Option<Seq<char>> {
    match change {
        DirChange::Changed(Some(d)) => Some(d@),
        _ => None,
    }
}

/// How `cd` went once its target was known.
pub enum CdAttempt {
    /// `cd_target` refused; the directory was not touched.
    Refused(CdError),
    /// The change to the target was tried. `previous_dir` is the current
    /// directory read before the change, if it could be read.
    Tried { previous_dir: Option<String>, change: DirChange },
}

/// The `cd` built-in, second part: records the directories and returns the
/// status. A refused `cd` leaves the variables alone and gives 1; a tried one
/// sets `OLDPWD` and `PWD` as `cd_vars` says and gives 0 when the directory
/// changed, 1 when it did not.
pub fn cd(core: &mut ShellCore, attempt: CdAttempt) -> (status: i32)
    ensures
        final(core)@.pre_status == old(core)@.pre_status,
        match attempt {
            CdAttempt::Refused(_) => final(core)@.vars == old(core)@.vars && status == 1,
            CdAttempt::Tried { previous_dir, change } => {
                &&& final(core)@.vars == cd_vars(
                    old(core)@.vars,
                    crate::shell::opt_view(previous_dir),
                    new_dir_of(change),
                )
                &&& status == (if change is Changed {
                    0i32
                } else {
                    1i32
                })
            },
        },
{
    match attempt {
        CdAttempt::Refused(_) => 1,
        CdAttempt::Tried { previous_dir, change } => {
            match previous_dir {
                Some(p) => core.set_var("OLDPWD".to_string(), p),
                None => {},
            }
            match change {
                DirChange::Changed(full) => {
                    match full {
                        Some(d) => core.set_var("PWD".to_string(), d),
                        None => {},
                    }
                    0
                },
                DirChange::Failed => 1,
            }
        },
    }
}

/// What `toyenv` prints: each pair as `name=value` on a line of its own, in
/// order, then the undefined name it stopped at, if any, on the error output.
pub struct ToyenvOutput {
    pub lines: Vec<(String, String)>,
    pub undefined: Option<String>,
    pub status: i32,
}

/// The pairs for `names` looked up in order, up to the first name that is
/// not set, and that name.
pub open spec fn lookups(vars: Map<Seq<char>, Seq<char>>, names: Seq<Seq<char>>) -> (
    Seq<(Seq<char>, Seq<char>)>,
    Option<Seq<char>>,
)
    decreases names.len(),
{
    if names.len() == 0 {
        (Seq::empty(), None)
    } else if vars.contains_key(names[0]) {
        let rest = lookups(vars, names.drop_first());
        (seq![(names[0], vars[names[0]])] + rest.0, rest.1)
    } else {
        (Seq::empty(), Some(names[0]))
    }
}

/// The `toyenv` built-in: with no argument it prints every variable; then it
/// prints each named variable in turn, and stops with status 1 at the first
/// one that is not set. `args` holds the command's words, its name first.
pub fn toyenv(core: &ShellCore, args: &Vec<String>) -> (out: ToyenvOutput)
    requires
        args@.len() >= 1,
    ensures
        ({
            let names = args@.map_values(|a: String| a@).drop_first();
            let all = if args@.len() == 1 {
                core@.vars
            } else {
                Seq::empty()
            };
            let looked_up = lookups(core@.var_map(), names);
            &&& out.lines@.map_values(|e: (String, String)| (e.0@, e.1@)) == all + looked_up.0
            &&& out.undefined is Some == looked_up.1 is Some
            &&& out.undefined matches Some(u) ==> Some(u@) == looked_up.1
            &&& out.status == (if looked_up.1 is Some {
                1i32
            } else {
                0i32
            })
        }),
{
    let ghost names = args@.map_values(|a: String| a@).drop_first();
    let ghost vars = core@.var_map();
    let mut lines: Vec<(String, String)> = Vec::new();
    if args.len() == 1 {
        let entries = core.vars();
        let m = entries.len();
        let mut j: usize = 0;
        while j < m
            invariant
                m == entries@.len(),
                j <= m,
                lines@.map_values(|e: (String, String)| (e.0@, e.1@)) == crate::shell::entry_views(
                    entries@,
                ).take(j as int),
            decreases m - j,
        {
            let ghost before = lines@;
            let name = entries[j].0.clone();
            let value = entries[j].1.clone();
            lines.push((name, value));
            proof {
                assert(lines@ == before.push((entries@[j as int].0, entries@[j as int].1)));
                assert(crate::shell::entry_views(entries@).take(j + 1) =~= crate::shell::entry_views(
                    entries@,
                ).take(j as int).push(crate::shell::entry_views(entries@)[j as int]));
                assert(lines@.map_values(|e: (String, String)| (e.0@, e.1@)) =~= crate::shell::entry_views(
                    entries@,
                ).take(j + 1));
            }
            j = j + 1;
        }
        proof {
            assert(crate::shell::entry_views(entries@).take(m as int) =~= core@.vars);
        }
    } else {
        proof {
            assert(lines@.map_values(|e: (String, String)| (e.0@, e.1@)) =~= Seq::<
                (Seq<char>, Seq<char>),
            >::empty());
        }
    }
    let ghost prefix = lines@.map_values(|e: (String, String)| (e.0@, e.1@));
    let n = args.len();
    let mut i: usize = 1;
    proof {
        assert(names.skip(0) =~= names);
        assert(prefix + Seq::<(Seq<char>, Seq<char>)>::empty() =~= prefix);
    }
    while i < n
        invariant
            n == args@.len(),
            1 <= i <= n,
            names == args@.map_values(|a: String| a@).drop_first(),
            vars == core@.var_map(),
            lookups(vars, names).1 == lookups(vars, names.skip(i - 1)).1,
            lookups(vars, names).0 == lines@.map_values(|e: (String, String)| (e.0@, e.1@)).skip(
                prefix.len() as int,
            ) + lookups(vars, names.skip(i - 1)).0,
            lines@.map_values(|e: (String, String)| (e.0@, e.1@)).take(prefix.len() as int)
                == prefix,
            prefix.len() <= lines@.len(),
            prefix == (if n == 1 {
                core@.vars
            } else {
                Seq::<(Seq<char>, Seq<char>)>::empty()
            }),
        decreases n - i,
    {
        let ghost rest = names.skip(i - 1);
        proof {
            assert(rest[0] == args@[i as int]@);
            assert(rest.drop_first() =~= names.skip(i as int));
        }
        match core.get_var(args[i].as_str()) {
            Some(value) => {
                let ghost before = lines@.map_values(|e: (String, String)| (e.0@, e.1@));
                lines.push((args[i].clone(), value));
                proof {
                    let now = lines@.map_values(|e: (String, String)| (e.0@, e.1@));
                    assert(now =~= before.push((rest[0], vars[rest[0]])));
                    assert(now.take(prefix.len() as int) =~= before.take(prefix.len() as int));
                    assert(now.skip(prefix.len() as int) =~= before.skip(prefix.len() as int).push(
                        (rest[0], vars[rest[0]]),
                    ));
                    assert(lookups(vars, rest).0 == seq![(rest[0], vars[rest[0]])] + lookups(
                        vars,
                        names.skip(i as int),
                    ).0);
                    assert(lookups(vars, names).0 =~= now.skip(prefix.len() as int) + lookups(
                        vars,
                        names.skip(i as int),
                    ).0);
                }
            },
            None => {
                proof {
                    let now = lines@.map_values(|e: (String, String)| (e.0@, e.1@));
                    assert(lookups(vars, rest).0 == Seq::<(Seq<char>, Seq<char>)>::empty());
                    assert(now =~= now.take(prefix.len() as int) + now.skip(prefix.len() as int));
                }
                return ToyenvOutput { lines, undefined: Some(args[i].clone()), status: 1 };
            },
        }
        i = i + 1;
    }
    proof {
        let now = lines@.map_values(|e: (String, String)| (e.0@, e.1@));
        assert(names.skip(n - 1) =~= Seq::<Seq<char>>::empty());
        assert(now =~= now.take(prefix.len() as int) + now.skip(prefix.len() as int));
    }
    ToyenvOutput { lines, undefined: None, status: 0 }
}

} // verus!

verus! {

/// After `cd` has recorded the directory it left, `cd -` goes back to it.
pub proof fn lemma_cd_dash_returns(
    vars: Seq<(Seq<char>, Seq<char>)>,
    previous_dir: Seq<char>,
    new_dir: Option<Seq<char>>,
    name: Seq<char>,
    home: Option<Seq<char>>,
)
    requires
        names_distinct(vars),
    ensures
        cd_target_spec(
            var_map(cd_vars(vars, Some(previous_dir), new_dir)),
            seq![name, "-"@],
            home,
        ) == Ok::<Seq<char>, CdError>(previous_dir),
{
    let after_old = set_entry(vars, "OLDPWD"@, previous_dir);
    lemma_set_then_get(vars, "OLDPWD"@, previous_dir, "PWD"@);
    reveal_strlit("OLDPWD");
    reveal_strlit("PWD");
    assert("OLDPWD"@.len() != "PWD"@.len());
    match new_dir {
        Some(d) => {
            lemma_set_then_get(after_old, "PWD"@, d, "OLDPWD"@);
        },
        None => {},
    }
}

} // verus!

verus! {

proof fn lemma_lookups_stops(vars: Map<Seq<char>, Seq<char>>, names: Seq<Seq<char>>)
    ensures
        lookups(vars, names).1 is Some <==> exists|i: int|
            0 <= i < names.len() && !vars.contains_key(#[trigger] names[i]),
    decreases names.len(),
{
    if names.len() > 0 {
        let rest = names.drop_first();
        lemma_lookups_stops(vars, rest);
        if vars.contains_key(names[0]) {
            if lookups(vars, rest).1 is Some {
                let i = choose|i: int| 0 <= i < rest.len() && !vars.contains_key(#[trigger] rest[i]);
                assert(names[i + 1] == rest[i]);
            }
            if exists|i: int| 0 <= i < names.len() && !vars.contains_key(#[trigger] names[i]) {
                let i = choose|i: int| 0 <= i < names.len() && !vars.contains_key(#[trigger] names[i]);
                assert(rest[i - 1] == names[i]);
            }
        } else {
            assert(!vars.contains_key(names[0]));
        }
    }
}

proof fn lemma_lookups_first_undefined(
    vars: Map<Seq<char>, Seq<char>>,
    names: Seq<Seq<char>>,
    k: int,
)
    requires
        0 <= k < names.len(),
        !vars.contains_key(names[k]),
        forall|j: int| 0 <= j < k ==> vars.contains_key(#[trigger] names[j]),
    ensures
        lookups(vars, names).1 == Some(names[k]),
        lookups(vars, names).0 == names.take(k).map_values(|n: Seq<char>| (n, vars[n])),
    decreases k,
{
    if k == 0 {
        assert(names.take(0).map_values(|n: Seq<char>| (n, vars[n])) =~= Seq::<
            (Seq<char>, Seq<char>),
        >::empty());
    } else {
        let rest = names.drop_first();
        assert(vars.contains_key(names[0]));
        assert(rest[k - 1] == names[k]);
        assert forall|j: int| 0 <= j < k - 1 implies vars.contains_key(#[trigger] rest[j]) by {
            assert(rest[j] == names[j + 1]);
        }
        lemma_lookups_first_undefined(vars, rest, k - 1);
        assert(names.take(k).map_values(|n: Seq<char>| (n, vars[n])) =~= seq![
            (names[0], vars[names[0]]),
        ] + rest.take(k - 1).map_values(|n: Seq<char>| (n, vars[n])));
    }
}

proof fn lemma_lookups_all_defined(vars: Map<Seq<char>, Seq<char>>, names: Seq<Seq<char>>)
    requires
        forall|j: int| 0 <= j < names.len() ==> vars.contains_key(#[trigger] names[j]),
    ensures
        lookups(vars, names).0 == names.map_values(|n: Seq<char>| (n, vars[n])),
        lookups(vars, names).1 is None,
    decreases names.len(),
{
    if names.len() == 0 {
        assert(names.map_values(|n: Seq<char>| (n, vars[n])) =~= Seq::<(Seq<char>, Seq<char>)>::empty());
    } else {
        let rest = names.drop_first();
        assert(vars.contains_key(names[0]));
        assert forall|j: int| 0 <= j < rest.len() implies vars.contains_key(#[trigger] rest[j]) by {
            assert(rest[j] == names[j + 1]);
        }
        lemma_lookups_all_defined(vars, rest);
        assert(names.map_values(|n: Seq<char>| (n, vars[n])) =~= seq![(names[0], vars[names[0]])]
            + rest.map_values(|n: Seq<char>| (n, vars[n])));
    }
}

/// What `toyenv` reports for the names it is given: the undefined name it
/// stops at is the first name that is not a variable, wherever it stands
/// (and there is one exactly when some name is not a variable); the pairs
/// before it are each name with its value, in order; when every name is a
/// variable, every name is printed with its value.
pub proof fn lemma_toyenv_reports_first_undefined(
    vars: Map<Seq<char>, Seq<char>>,
    names: Seq<Seq<char>>,
)
    ensures
        lookups(vars, names).1 is Some <==> exists|i: int|
            0 <= i < names.len() && !vars.contains_key(#[trigger] names[i]),
        forall|k: int|
            0 <= k < names.len() && !vars.contains_key(#[trigger] names[k]) && (forall|j: int|
                0 <= j < k ==> vars.contains_key(names[j])) ==> lookups(vars, names).1 == Some(
                names[k],
            ) && lookups(vars, names).0 == names.take(k).map_values(
                |n: Seq<char>| (n, vars[n]),
            ),
        (forall|j: int| 0 <= j < names.len() ==> vars.contains_key(#[trigger] names[j]))
            ==> lookups(vars, names).0 == names.map_values(|n: Seq<char>| (n, vars[n])),
{
    lemma_lookups_stops(vars, names);
    assert forall|k: int|
        0 <= k < names.len() && !vars.contains_key(#[trigger] names[k]) && (forall|j: int|
            0 <= j < k ==> vars.contains_key(names[j])) implies lookups(vars, names).1 == Some(
        names[k],
    ) && lookups(vars, names).0 == names.take(k).map_values(|n: Seq<char>| (n, vars[n])) by {
        lemma_lookups_first_undefined(vars, names, k);
    }
    if forall|j: int| 0 <= j < names.len() ==> vars.contains_key(#[trigger] names[j]) {
        lemma_lookups_all_defined(vars, names);
    }
}

} // verus!
