//! What is read from a terminal or a pipe, and what the reading commands print.

use keyjar::commands::{identity_created, notice, stored, unchanged};
use keyjar::consent::{seek, Consent};
use keyjar::edit::{
    edit_outcome, editor_command, editor_of, workspace_base, EditOutcome, Editor,
};
use keyjar::name::Name;
use keyjar::output::{get_output, get_refusal, ls_output, needs_final_newline, show_output};
use keyjar::text::{decimal_of, is_white_space, split_words};
use keyjar::tty::{confirmed, read_plain, secret_prompt, strip_one_line, without_echo};

fn name(value: &str) -> Name {
    value.parse().unwrap()
}

#[test]
fn get_refuses_a_tty_without_force() {
    assert!(get_refusal(true, false).is_some());
    assert!(get_refusal(true, true).is_none());
    assert!(get_refusal(false, false).is_none());
    assert!(get_refusal(false, true).is_none());
}

#[test]
fn show_adds_a_newline_only_when_missing() {
    assert!(needs_final_newline(b"value"));
    assert!(!needs_final_newline(b"line\n"));
    assert!(needs_final_newline(b""));
}

#[test]
fn a_single_line_read_strips_the_newline_variants() {
    assert_eq!(strip_one_line(b"secret\n".to_vec()), b"secret");
    assert_eq!(strip_one_line(b"secret\r\n".to_vec()), b"secret");
    assert_eq!(strip_one_line(b"secret".to_vec()), b"secret");
    assert_eq!(strip_one_line(b"".to_vec()), b"");
}

// A pipe can hold more than one line; single-line mode must take only
// the first, multiline must take everything.
#[test]
fn plain_reads_honor_the_multiline_switch() {
    let input = b"first\nsecond\n";
    assert_eq!(read_plain(&input[..], false), b"first");
    assert_eq!(read_plain(&input[..], true), input);
}

#[test]
fn the_echo_transform_clears_echo_and_nothing_else() {
    let modes = libc::ECHO | libc::ICANON | libc::ISIG;
    let hidden = without_echo(u64::from(modes), u64::from(libc::ECHO));
    assert_eq!(hidden & u64::from(libc::ECHO), 0);
    assert_ne!(hidden & u64::from(libc::ICANON), 0);
    assert_ne!(hidden & u64::from(libc::ISIG), 0);
}

#[test]
fn a_lone_return_is_part_of_the_secret() {
    assert_eq!(strip_one_line(b"secret\r".to_vec()), b"secret\r");
    assert_eq!(strip_one_line(b"\r\n".to_vec()), b"");
    assert_eq!(strip_one_line(b"\n\n".to_vec()), b"\n");
    assert_eq!(read_plain(b"", false), b"");
    assert_eq!(read_plain(b"a\r\nb", false), b"a");
}

#[test]
fn only_yes_means_yes() {
    for yes in ["y", "Y", "yes", "YES", "yEs", " y \n", "\tyes\r\n", "\u{3000}y"] {
        assert!(confirmed(yes), "{yes:?}");
    }
    for no in ["", "n", "no", "ye", "yess", "y e s", "\n", "ja"] {
        assert!(!confirmed(no), "{no:?}");
    }
}

#[test]
fn the_prompt_names_the_entry() {
    assert_eq!(
        secret_prompt(&name("a/b"), false, false).unwrap(),
        "value for a/b: "
    );
    assert_eq!(
        secret_prompt(&name("a"), true, false).unwrap(),
        "value for a (end with ^D): "
    );
    assert!(secret_prompt(&name("a"), true, true).is_none());
}

// The rule is spelled out, so it is held to the standard library over all
// characters.
#[test]
fn white_space_is_what_the_standard_library_says() {
    for c in '\0'..=char::MAX {
        assert_eq!(is_white_space(c), c.is_whitespace(), "{c:?}");
    }
}

#[test]
fn words_are_what_the_standard_library_says() {
    for text in ["", "  ", "vi", " code  --wait ", "a\tb\nc\u{a0}d", "\u{2003}x"] {
        let expected: Vec<&str> = text.split_whitespace().collect();
        assert_eq!(split_words(text), expected, "{text:?}");
    }
}

#[test]
fn numbers_are_decimal() {
    for n in [0, 1, 9, 10, 42, 100, 90210, usize::MAX] {
        assert_eq!(decimal_of(n), format!("{n}"));
    }
}

#[test]
fn output_is_exact() {
    assert_eq!(get_output(b"v".to_vec(), false), b"v");
    assert_eq!(get_output(b"v\n".to_vec(), true), b"v\n\n");
    assert_eq!(show_output(b"v".to_vec()), b"v\n");
    assert_eq!(show_output(b"v\n".to_vec()), b"v\n");
    assert_eq!(show_output(b"".to_vec()), b"\n");
    assert_eq!(ls_output(&[name("a"), name("b/c")]), "a\nb/c\n");
    assert_eq!(ls_output(&[]), "");
    assert_eq!(
        get_refusal(true, false),
        Some("stdout is a terminal; use `keyjar show` or --force")
    );
}

#[test]
fn notices_are_silenced_by_quiet() {
    assert_eq!(notice(false, "hello").unwrap(), "keyjar: hello");
    assert!(notice(true, "hello").is_none());
    assert_eq!(stored(false, &name("a")).unwrap(), "keyjar: stored a");
    assert_eq!(unchanged(false, &name("a")).unwrap(), "keyjar: a unchanged");
    assert_eq!(
        identity_created(false, b"/x/id\xff").unwrap(),
        "keyjar: created identity at /x/id\u{fffd}"
    );
}

#[test]
fn consent_is_forced_asked_for_or_refused() {
    let seek = |force, tty| seek(force, tty, "refused".to_string(), "sure? ".to_string());
    assert!(matches!(seek(true, false), Ok(Consent::Given(_))));
    assert!(matches!(seek(true, true), Ok(Consent::Given(_))));
    match seek(false, false) {
        Err(e) => assert_eq!(e.message(), "refused"),
        Ok(_) => panic!("a pipe was asked"),
    }
    match seek(false, true) {
        Ok(Consent::Ask(question)) => {
            assert_eq!(question.prompt(), "sure? ");
            assert!(question.answer("no\n".to_string()).is_none());
        }
        _ => panic!("not asked"),
    }
    match seek(false, true) {
        Ok(Consent::Ask(question)) => assert!(question.answer("Yes\n".to_string()).is_some()),
        _ => panic!("not asked"),
    }
}

#[test]
fn the_editor_comes_from_the_environment() {
    for unset in [None, Some(b"".to_vec()), Some(b" \t".to_vec()), Some(b"vi\xff".to_vec())] {
        assert_eq!(editor_of(unset).unwrap_err().message(), "EDITOR is not set");
    }
    assert_eq!(editor_of(Some(b" vi ".to_vec())).unwrap(), " vi ");
}

#[test]
fn an_editor_is_split_into_words() {
    let command = editor_command(" code --wait  -n ").unwrap();
    assert_eq!(command.program, "code");
    assert_eq!(command.args, ["--wait", "-n"]);
    match editor_command(" ") {
        Err(e) => assert_eq!(e.message(), "EDITOR is empty"),
        Ok(_) => panic!("no word, no editor"),
    }
}

#[test]
fn only_an_absolute_runtime_dir_is_used() {
    assert_eq!(
        workspace_base(Some(b"/run/user/1".to_vec())),
        Some(b"/run/user/1".to_vec())
    );
    assert_eq!(workspace_base(Some(b"relative".to_vec())), None);
    assert_eq!(workspace_base(Some(b"".to_vec())), None);
    assert_eq!(workspace_base(None), None);
}

#[test]
fn an_edit_is_judged_by_exit_and_bytes() {
    assert_eq!(
        edit_outcome(b"same", Editor::Left(b"same".to_vec())).unwrap(),
        EditOutcome::Unchanged
    );
    assert_eq!(
        edit_outcome(b"start\n", Editor::Left(b"start\nadded\n".to_vec())).unwrap(),
        EditOutcome::Changed(b"start\nadded\n".to_vec())
    );
    assert_eq!(
        edit_outcome(b"same", Editor::Failed("exit status: 1".to_string()))
            .unwrap_err()
            .message(),
        "editor exited with exit status: 1; value unchanged"
    );
}
