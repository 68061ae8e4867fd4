use toysh::command::Command;
use toysh::job::Job;
use toysh::pipeline::Pipeline;
use toysh::script::Script;
use toysh::shell::ShellCore;

fn words(c: &Command) -> Vec<String> {
    c.args().clone()
}

#[test]
fn command_parse_takes_the_words() {
    let core = ShellCore::new(None);
    let c = Command::parse("  ls \t -la   /tmp  ", &core);
    assert_eq!(c.name(), "ls");
    assert_eq!(words(&c), vec!["ls", "-la", "/tmp"]);
}

#[test]
fn command_parse_unicode_space_separates_words() {
    let core = ShellCore::new(None);
    let c = Command::parse("echo\u{3000}hi\u{a0}there", &core);
    assert_eq!(words(&c), vec!["echo", "hi", "there"]);
}

#[test]
fn pipeline_parse_cuts_at_each_pipe() {
    let core = ShellCore::new(None);
    let p = Pipeline::parse("ls -la | cat -n | grep .git", &core);
    let cmds: Vec<Vec<String>> = p.commands().iter().map(words).collect();
    assert_eq!(
        cmds,
        vec![vec!["ls", "-la"], vec!["cat", "-n"], vec!["grep", ".git"]]
    );
    assert_eq!(p.text(), "ls -la | cat -n | grep .git");
}

#[test]
fn pipeline_of_one_command() {
    let core = ShellCore::new(None);
    let p = Pipeline::parse("pwd", &core);
    assert_eq!(p.commands().len(), 1);
    assert_eq!(p.commands()[0].name(), "pwd");
}

#[test]
fn pipeline_rejects_empty_command() {
    assert!(!Pipeline::can_parse("ls |"));
    assert!(!Pipeline::can_parse("| ls"));
    assert!(!Pipeline::can_parse("ls || cat"));
    assert!(!Pipeline::can_parse("   "));
    assert!(Pipeline::can_parse("ls | cat"));
}

#[test]
fn job_parse_cuts_at_and_or() {
    let core = ShellCore::new(None);
    let j = Job::parse("true || ls | wc && echo done", &core);
    let texts: Vec<String> = j.pipelines().iter().map(|p| p.text().clone()).collect();
    assert_eq!(texts, vec!["true ", " ls | wc ", " echo done"]);
    assert_eq!(j.pipelines()[1].commands().len(), 2);
    assert_eq!(j.text(), "true || ls | wc && echo done");
}

#[test]
fn job_prefers_double_bar_over_pipe() {
    // "a |||b": the first two bars are one "||"; "|b" is left, whose first
    // command is empty.
    assert!(!Job::can_parse("a |||b"));
    assert!(Job::can_parse("a || b"));
}

#[test]
fn script_parse_cuts_at_job_separators() {
    let core = ShellCore::new(None);
    let s = Script::parse("cd /tmp; ls -a & sleep 1\npwd", &core).unwrap();
    let texts: Vec<String> = s.jobs().iter().map(|j| j.text().clone()).collect();
    assert_eq!(texts, vec!["cd /tmp", " ls -a ", " sleep 1", "pwd"]);
    assert_eq!(s.text(), "cd /tmp; ls -a & sleep 1\npwd");
}

#[test]
fn script_single_command() {
    let core = ShellCore::new(None);
    let s = Script::parse("ls -la", &core).unwrap();
    assert_eq!(s.jobs().len(), 1);
    let j = &s.jobs()[0];
    assert_eq!(j.pipelines().len(), 1);
    let p = &j.pipelines()[0];
    assert_eq!(words(&p.commands()[0]), vec!["ls", "-la"]);
}

#[test]
fn script_keeps_double_ampersand_inside_a_job() {
    let core = ShellCore::new(None);
    let s = Script::parse("ls && pwd", &core).unwrap();
    assert_eq!(s.jobs().len(), 1);
    let texts: Vec<String> = s.jobs()[0].pipelines().iter().map(|p| p.text().clone()).collect();
    assert_eq!(texts, vec!["ls ", " pwd"]);
    assert!(Script::can_parse("a && b"));
    assert!(Script::can_parse("a || b"));
    assert!(!Script::can_parse("ls;"));
    assert!(!Script::can_parse(""));
    assert!(Script::can_parse("ls; pwd"));
}

#[test]
fn script_single_ampersand_still_separates_jobs() {
    let core = ShellCore::new(None);
    let s = Script::parse("sleep 1 & ls && pwd & echo x", &core).unwrap();
    let texts: Vec<String> = s.jobs().iter().map(|j| j.text().clone()).collect();
    assert_eq!(texts, vec!["sleep 1 ", " ls && pwd ", " echo x"]);
    assert_eq!(s.jobs()[1].pipelines().len(), 2);
    // "&&&": the first two are "&&", the third separates; "a &&" has an
    // empty second pipeline.
    assert!(!Script::can_parse("a &&& b"));
}

#[test]
fn nul_in_a_word_is_refused() {
    assert!(!Pipeline::can_parse("ls\0x"));
    assert!(!Script::can_parse("echo a\0b"));
    assert!(Script::can_parse("echo ab"));
}

#[test]
fn script_texts_reassemble_the_line() {
    let core = ShellCore::new(None);
    let line = "a;b&c\nd && e";
    let s = Script::parse(line, &core).unwrap();
    let texts: Vec<String> = s.jobs().iter().map(|j| j.text().clone()).collect();
    assert_eq!(texts, vec!["a", "b", "c", "d && e"]);
    let cuts = [";", "&", "\n"];
    let mut rebuilt = texts[0].clone();
    for (t, c) in texts[1..].iter().zip(cuts.iter()) {
        rebuilt.push_str(c);
        rebuilt.push_str(t);
    }
    assert_eq!(rebuilt, line);
    for t in &texts {
        assert!(!t.contains(';') && !t.contains('\n'));
        assert_eq!(t.matches('&').count(), 2 * t.matches("&&").count());
    }
}

#[test]
fn pipeline_commands_are_the_words_between_bars() {
    let core = ShellCore::new(None);
    let line = " ls  |cat -n| wc ";
    let p = Pipeline::parse(line, &core);
    let got: Vec<Vec<String>> = p.commands().iter().map(words).collect();
    assert_eq!(got, vec![vec!["ls"], vec!["cat", "-n"], vec!["wc"]]);
}
