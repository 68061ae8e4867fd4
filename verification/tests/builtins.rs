use toysh::builtins::{cd, cd_target, exit, toyenv, CdAttempt, CdError, DirChange};
use toysh::command::{failure_status, ExecFailure};
use toysh::shell::ShellCore;

fn args(v: &[&str]) -> Vec<String> {
    v.iter().map(|s| s.to_string()).collect()
}

#[test]
fn exit_without_argument_is_status_0() {
    let mut core = ShellCore::new(None);
    core.set_status(3);
    let r = exit(&core, &args(&["exit"]));
    assert_eq!(r.status, 0);
    assert_eq!(r.bad_argument, None);
}

#[test]
fn exit_with_number_takes_it_modulo_256() {
    let core = ShellCore::new(None);
    assert_eq!(exit(&core, &args(&["exit", "2"])).status, 2);
    assert_eq!(exit(&core, &args(&["exit", "300"])).status, 44);
    assert_eq!(exit(&core, &args(&["exit", "256"])).status, 0);
    assert_eq!(exit(&core, &args(&["exit", "+7"])).status, 7);
    assert_eq!(exit(&core, &args(&["exit", "-1"])).status, -1);
    assert_eq!(exit(&core, &args(&["exit", "-257"])).status, -1);
    assert_eq!(exit(&core, &args(&["exit", "2147483647"])).status, 255);
    assert_eq!(exit(&core, &args(&["exit", "-2147483648"])).status, 0);
    assert_eq!(exit(&core, &args(&["exit", "5", "6"])).status, 5);
}

#[test]
fn exit_with_non_numeric_argument_is_status_2() {
    let core = ShellCore::new(None);
    for bad in ["abc", "", "-", "+", "12a", "2147483648", "-2147483649", "1.5", " 1"] {
        let r = exit(&core, &args(&["exit", bad]));
        assert_eq!(r.status, 2, "{:?}", bad);
        assert_eq!(r.bad_argument, Some(bad.to_string()));
    }
}

#[test]
fn cd_target_choices() {
    let mut core = ShellCore::new(Some("/start".to_string()));
    assert_eq!(cd_target(&core, &args(&["cd"]), Some("/home/u".to_string())), Ok("/home/u".to_string()));
    assert_eq!(cd_target(&core, &args(&["cd"]), None), Err(CdError::HomeNotSet));
    assert_eq!(cd_target(&core, &args(&["cd", "src"]), None), Ok("src".to_string()));
    assert_eq!(cd_target(&core, &args(&["cd", "-"]), None), Ok(String::new()));
    core.set_var("OLDPWD".to_string(), "/prev".to_string());
    assert_eq!(cd_target(&core, &args(&["cd", "-"]), None), Ok("/prev".to_string()));
    assert_eq!(cd_target(&core, &args(&["cd", "a", "b"]), None), Ok(String::new()));
    assert_eq!(
        cd_target(&core, &args(&["cd", "a", "b", "c"]), None),
        Err(CdError::TooManyArguments)
    );
}

#[test]
fn cd_records_directories() {
    let mut core = ShellCore::new(Some("/start".to_string()));
    let status = cd(
        &mut core,
        CdAttempt::Tried {
            previous_dir: Some("/start".to_string()),
            change: DirChange::Changed(Some("/tmp".to_string())),
        },
    );
    assert_eq!(status, 0);
    assert_eq!(core.get_var("OLDPWD"), Some("/start".to_string()));
    assert_eq!(core.get_var("PWD"), Some("/tmp".to_string()));
    // `cd -` then goes back.
    assert_eq!(cd_target(&core, &args(&["cd", "-"]), None), Ok("/start".to_string()));
}

#[test]
fn cd_failure_still_records_old_directory() {
    let mut core = ShellCore::new(Some("/start".to_string()));
    let status = cd(
        &mut core,
        CdAttempt::Tried { previous_dir: Some("/here".to_string()), change: DirChange::Failed },
    );
    assert_eq!(status, 1);
    assert_eq!(core.get_var("OLDPWD"), Some("/here".to_string()));
    assert_eq!(core.get_var("PWD"), Some("/start".to_string()));
}

#[test]
fn cd_without_canonical_path_keeps_pwd() {
    let mut core = ShellCore::new(None);
    let status = cd(
        &mut core,
        CdAttempt::Tried { previous_dir: None, change: DirChange::Changed(None) },
    );
    assert_eq!(status, 0);
    assert_eq!(core.get_var("OLDPWD"), Some(String::new()));
    assert_eq!(core.get_var("PWD"), None);
}

#[test]
fn cd_refused_is_status_1_and_changes_nothing() {
    let mut core = ShellCore::new(Some("/start".to_string()));
    let before = core.vars().clone();
    for e in [CdError::TooManyArguments, CdError::HomeNotSet, CdError::OldPwdNotSet] {
        assert_eq!(cd(&mut core, CdAttempt::Refused(e)), 1);
        assert_eq!(core.vars(), &before);
    }
}

#[test]
fn toyenv_without_arguments_lists_every_variable() {
    let core = ShellCore::new(Some("/w".to_string()));
    let out = toyenv(&core, &args(&["toyenv"]));
    assert_eq!(out.status, 0);
    assert_eq!(out.undefined, None);
    assert_eq!(out.lines, core.vars().clone());
}

#[test]
fn toyenv_prints_named_variables_until_an_undefined_one() {
    let core = ShellCore::new(Some("/w".to_string()));
    let out = toyenv(&core, &args(&["toyenv", "PWD", "TOYSH_HOME"]));
    assert_eq!(out.status, 0);
    assert_eq!(
        out.lines,
        vec![
            ("PWD".to_string(), "/w".to_string()),
            ("TOYSH_HOME".to_string(), ".toysh".to_string())
        ]
    );
    let out = toyenv(&core, &args(&["toyenv", "PWD", "NOPE", "TOYSH_HOME"]));
    assert_eq!(out.status, 1);
    assert_eq!(out.undefined, Some("NOPE".to_string()));
    assert_eq!(out.lines, vec![("PWD".to_string(), "/w".to_string())]);
}

#[test]
fn toyenv_shows_a_variable_after_it_is_set() {
    let mut core = ShellCore::new(None);
    core.set_var("X".to_string(), "1".to_string());
    let out = toyenv(&core, &args(&["toyenv", "X"]));
    assert_eq!(out.lines, vec![("X".to_string(), "1".to_string())]);
}

#[test]
fn exec_failure_statuses() {
    assert_eq!(failure_status(ExecFailure::PermissionDenied), 126);
    assert_eq!(failure_status(ExecFailure::NotFound), 127);
    assert_eq!(failure_status(ExecFailure::Other), 127);
}
