use toysh::shell::{status_of_child, Builtin, ChildExit, CommandOutcome, ShellCore};

#[test]
fn new_core_has_the_starting_variables() {
    let core = ShellCore::new(Some("/home/user".to_string()));
    assert_eq!(core.pre_status(), 0);
    let vars: Vec<(String, String)> = core.vars().clone();
    assert_eq!(
        vars,
        vec![
            ("TOYSH_HOME".to_string(), ".toysh".to_string()),
            ("HISTORY_FILE".to_string(), "history".to_string()),
            ("OLDPWD".to_string(), "".to_string()),
            ("PWD".to_string(), "/home/user".to_string()),
        ]
    );
}

#[test]
fn new_core_without_current_dir_has_no_pwd() {
    let core = ShellCore::new(None);
    assert_eq!(core.vars().len(), 3);
    assert_eq!(core.get_var("PWD"), None);
    assert_eq!(core.get_var("OLDPWD"), Some(String::new()));
}

#[test]
fn set_status_is_read_back() {
    let mut core = ShellCore::new(None);
    core.set_status(127);
    assert_eq!(core.pre_status(), 127);
    core.set_status(0);
    assert_eq!(core.pre_status(), 0);
}

#[test]
fn set_var_then_get_var() {
    let mut core = ShellCore::new(None);
    core.set_var("FOO".to_string(), "bar".to_string());
    assert_eq!(core.get_var("FOO"), Some("bar".to_string()));
    core.set_var("FOO".to_string(), "baz".to_string());
    assert_eq!(core.get_var("FOO"), Some("baz".to_string()));
    assert_eq!(core.get_var("TOYSH_HOME"), Some(".toysh".to_string()));
    assert_eq!(core.get_var("foo"), None);
    // Overwriting keeps the entry where it stood.
    let names: Vec<String> = core.vars().iter().map(|e| e.0.clone()).collect();
    assert_eq!(names, vec!["TOYSH_HOME", "HISTORY_FILE", "OLDPWD", "FOO"]);
}

#[test]
fn builtins_are_exit_cd_toyenv() {
    let core = ShellCore::new(None);
    assert_eq!(core.builtin_for("exit"), Some(Builtin::Exit));
    assert_eq!(core.builtin_for("cd"), Some(Builtin::Cd));
    assert_eq!(core.builtin_for("toyenv"), Some(Builtin::Toyenv));
    assert_eq!(core.builtin_for("ls"), None);
    assert_eq!(core.builtin_for("Exit"), None);
    assert!(core.is_builtin("cd"));
    assert!(!core.is_builtin("cdx"));
}

#[test]
fn child_status_values() {
    assert_eq!(status_of_child(ChildExit::Exited(3)), 3);
    assert_eq!(status_of_child(ChildExit::Exited(0)), 0);
    assert_eq!(status_of_child(ChildExit::Signaled(9)), 137);
    assert_eq!(status_of_child(ChildExit::Signaled(2)), 130);
    assert_eq!(status_of_child(ChildExit::Unsupported), 1);
}

#[test]
fn wait_child_records_status() {
    let mut core = ShellCore::new(None);
    core.wait_child(ChildExit::Signaled(15));
    assert_eq!(core.pre_status(), 143);
    core.wait_child(ChildExit::Exited(0));
    assert_eq!(core.pre_status(), 0);
}

#[test]
fn pipeline_status_is_its_last_command() {
    let mut core = ShellCore::new(None);
    core.finish_pipeline(&vec![
        CommandOutcome::Child(ChildExit::Exited(1)),
        CommandOutcome::Child(ChildExit::Exited(0)),
    ]);
    assert_eq!(core.pre_status(), 0);
    core.finish_pipeline(&vec![
        CommandOutcome::Child(ChildExit::Exited(0)),
        CommandOutcome::Builtin(1),
    ]);
    assert_eq!(core.pre_status(), 1);
    core.finish_pipeline(&vec![CommandOutcome::Child(ChildExit::Signaled(9))]);
    assert_eq!(core.pre_status(), 137);
    core.finish_pipeline(&vec![]);
    assert_eq!(core.pre_status(), 137);
}
