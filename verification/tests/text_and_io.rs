use toysh::feeder::{accept_line, generate_prompt};
use toysh::pipeline::{endpoints, pipe_count, Sink, Source};
use toysh::shell::ShellCore;
use toysh::text::{parse_i32_of, same_text, trimmed, white_space, words_of};

#[test]
fn words_split_at_white_space() {
    assert_eq!(words_of("  a  bb\tc\n"), vec!["a", "bb", "c"]);
    assert_eq!(words_of(""), Vec::<String>::new());
    assert_eq!(words_of(" \t "), Vec::<String>::new());
    assert_eq!(words_of("x"), vec!["x"]);
    let s = "p\u{2003}q\u{85}r";
    assert_eq!(words_of(s), s.split_whitespace().collect::<Vec<_>>());
}

#[test]
fn white_space_matches_std() {
    for c in ['\t', '\n', '\u{b}', '\u{c}', '\r', ' ', '\u{85}', '\u{a0}', '\u{1680}', '\u{2000}', '\u{200a}', '\u{2028}', '\u{2029}', '\u{202f}', '\u{205f}', '\u{3000}', 'a', '\u{200b}', '\u{180e}', '\u{feff}', '0'] {
        assert_eq!(white_space(c), c.is_whitespace(), "{:?}", c);
    }
}

#[test]
fn trimming() {
    assert_eq!(trimmed("  ls -a \n"), "ls -a");
    assert_eq!(trimmed("   "), "");
    assert_eq!(trimmed(""), "");
    let once = trimmed(" \u{3000}x y\t");
    assert_eq!(trimmed(once), once);
    // Trimming does not change the words.
    assert_eq!(words_of(trimmed("  a b  ")), words_of("  a b  "));
}

#[test]
fn integers_as_std_reads_them() {
    for s in ["0", "42", "-7", "+5", "007", "2147483647", "-2147483648", "2147483648", "-2147483649", "", "-", "+", "1a", " 1", "99999999999999999999", "--1", "+-1"] {
        assert_eq!(parse_i32_of(s), s.parse::<i32>().ok(), "{:?}", s);
    }
}

#[test]
fn same_text_compares_characters() {
    assert!(same_text("cd", "cd"));
    assert!(!same_text("cd", "c"));
    assert!(!same_text("cd", "cD"));
    assert!(same_text("", ""));
}

#[test]
fn accepted_lines_are_trimmed() {
    assert_eq!(accept_line("  ls -la  \n"), Some("ls -la".to_string()));
    assert_eq!(accept_line(" \t \n"), None);
    assert_eq!(accept_line(""), None);
    let a = accept_line(" x ").unwrap();
    assert_eq!(accept_line(&a), Some(a.clone()));
}

#[test]
fn prompt_shows_status() {
    let mut core = ShellCore::new(None);
    assert_eq!(generate_prompt(&core), "ToySh \u{1F60A} > ");
    core.set_status(1);
    assert_eq!(generate_prompt(&core), "ToySh \u{1F607} > ");
    core.set_status(0);
    assert_eq!(generate_prompt(&core), "ToySh \u{1F60A} > ");
}

#[test]
fn pipeline_endpoints_connect_neighbours() {
    assert_eq!(pipe_count(3), 2);
    assert_eq!(pipe_count(1), 0);
    assert_eq!(endpoints(1, 0), (Source::Stdin, Sink::Stdout));
    assert_eq!(endpoints(3, 0), (Source::Stdin, Sink::PipeWrite(0)));
    assert_eq!(endpoints(3, 1), (Source::PipeRead(0), Sink::PipeWrite(1)));
    assert_eq!(endpoints(3, 2), (Source::PipeRead(1), Sink::Stdout));
    for n in 1..6usize {
        for i in 0..n - 1 {
            assert_eq!(endpoints(n, i).1, Sink::PipeWrite(i));
            assert_eq!(endpoints(n, i + 1).0, Source::PipeRead(i));
        }
    }
}
