//! Names, namespaces, variables and quoting.

use keyjar::env::{env_pairs, shell_quote};
use keyjar::name::{validate, Name, Namespace};
use keyjar::order::sorted;

fn name(value: &str) -> Name {
    value.parse().unwrap()
}

#[test]
fn plain_and_nested_names_are_accepted() {
    for name in ["openai", "work/aws-access-key", "a/b/c", "v1.key", "A_B-9"] {
        name.parse::<Name>()
            .unwrap_or_else(|e| panic!("{name}: {e}"));
    }
}

// Every rejected shape here is a path that could leave the store or
// collide with hidden files like the identity.
#[test]
fn traversal_and_hidden_shapes_are_rejected() {
    for name in [
        "",
        "/etc/passwd",
        "../x",
        "a/../b",
        "a/./b",
        "a//b",
        "a/",
        ".hidden",
        "work/.key",
        "a\\b",
        "a b",
        "a\nb",
        "a\0b",
    ] {
        assert!(name.parse::<Name>().is_err(), "{name:?} accepted");
    }
}

#[test]
fn a_name_prefix_includes_itself_and_descendants() {
    let work: Name = "work".parse().unwrap();
    assert!("work".parse::<Name>().unwrap().is_at_or_below(&work));
    assert!("work/aws".parse::<Name>().unwrap().is_at_or_below(&work));
    assert!(!"workshop".parse::<Name>().unwrap().is_at_or_below(&work));
}

#[test]
fn a_namespace_contains_strict_descendants_only() {
    let work: Namespace = "work".parse().unwrap();
    assert!(!work.contains(&"work".parse().unwrap()));
    assert!(work.contains(&"work/aws".parse().unwrap()));
    assert!(!work.contains(&"workshop".parse().unwrap()));
}

#[test]
fn the_prefix_is_stripped_from_variable_names() {
    let names = [
        "work/aws-access-key".parse().unwrap(),
        "work/db/url".parse().unwrap(),
    ];
    let namespace: Namespace = "work".parse().unwrap();
    let pairs = env_pairs(&names, Some(&namespace)).unwrap();
    assert_eq!(
        pairs[0],
        (
            "AWS_ACCESS_KEY".to_string(),
            "work/aws-access-key".parse().unwrap()
        )
    );
    assert_eq!(
        pairs[1],
        ("DB_URL".to_string(), "work/db/url".parse().unwrap())
    );
}

#[test]
fn without_a_prefix_the_full_name_is_used() {
    let names = vec!["work/aws-access-key".parse().unwrap()];
    let pairs = env_pairs(&names, None).unwrap();
    assert_eq!(pairs[0].0, "WORK_AWS_ACCESS_KEY");
}

#[test]
fn a_collision_names_both_entries() {
    let names = vec!["aws-key".parse().unwrap(), "aws_key".parse().unwrap()];
    let err = env_pairs(&names, None).unwrap_err();
    let err = err.message();
    assert!(err.contains("aws-key") && err.contains("aws_key"), "{err}");
    assert_eq!(err, "aws-key and aws_key both map to AWS_KEY");
}

#[test]
fn a_digit_leading_variable_is_an_error() {
    let names = vec!["2fa-token".parse().unwrap()];
    let err = env_pairs(&names, None).unwrap_err();
    let err = err.message();
    assert!(err.contains("digit"), "{err}");
    assert_eq!(
        err,
        "2fa-token maps to variable 2FA_TOKEN, which starts with a digit"
    );
}

#[test]
fn quoting_survives_quotes_newlines_and_dollars() {
    assert_eq!(shell_quote("plain"), "'plain'");
    assert_eq!(shell_quote("it's"), "'it'\\''s'");
    assert_eq!(shell_quote("a\nb$`"), "'a\nb$`'");
}

#[test]
fn each_refusal_says_why() {
    assert_eq!(validate("").unwrap_err(), "empty name");
    assert_eq!(
        validate("a//b").unwrap_err(),
        "invalid name \"a//b\": empty path component"
    );
    assert_eq!(
        validate("work/.key").unwrap_err(),
        "invalid name \"work/.key\": components must not start with a dot"
    );
    assert_eq!(
        validate("a\nb").unwrap_err(),
        "invalid name \"a\\nb\": character '\\n' not allowed"
    );
    assert_eq!(
        validate("a'b").unwrap_err(),
        "invalid name \"a'b\": character '\\'' not allowed"
    );
    // The first faulty component decides.
    assert_eq!(
        validate(".a//b c").unwrap_err(),
        "invalid name \".a//b c\": components must not start with a dot"
    );
    assert!(Name::parse("\u{e9}").is_err());
    assert_eq!(Name::parse("a.b_c-d/E9").unwrap().as_str(), "a.b_c-d/E9");
}

#[test]
fn a_namespace_strips_its_own_components() {
    let work: Namespace = "work".parse().unwrap();
    assert_eq!(work.strip(&name("work/db/url")), Some("db/url"));
    assert_eq!(work.strip(&name("work")), None);
    assert_eq!(work.strip(&name("workshop/key")), None);
    assert_eq!(work.as_str(), "work");
    assert!(Namespace::parse("a/").is_err());
}

#[test]
fn variables_come_sorted() {
    let names = vec![name("b"), name("a/x"), name("a-b"), name("A0")];
    let pairs = env_pairs(&names, None).unwrap();
    let vars: Vec<&str> = pairs.iter().map(|(var, _)| var.as_str()).collect();
    assert_eq!(vars, ["A0", "A_B", "A_X", "B"]);
    assert_eq!(pairs[1].1, name("a-b"));
}

#[test]
fn variables_are_shell_identifiers() {
    let names = vec![name("a.b-c/D9"), name("_x"), name("-y")];
    let pairs = env_pairs(&names, None).unwrap();
    let vars: Vec<&str> = pairs.iter().map(|(var, _)| var.as_str()).collect();
    assert_eq!(vars, ["A_B_C_D9", "_X", "_Y"]);
}

#[test]
fn the_first_name_without_a_variable_is_named() {
    let names = vec![name("x"), name("9a"), name("X")];
    let err = env_pairs(&names, None).unwrap_err();
    assert_eq!(
        err.message(),
        "9a maps to variable 9A, which starts with a digit"
    );
}

#[test]
fn an_empty_value_is_quoted() {
    assert_eq!(shell_quote(""), "''");
    assert_eq!(shell_quote("'"), "''\\'''");
}

#[test]
fn names_sort_by_bytes() {
    let names = vec![name("b"), name("a/b"), name("a-b"), name("a"), name("B")];
    let names: Vec<String> = sorted(names)
        .iter()
        .map(|n| n.as_str().to_string())
        .collect();
    assert_eq!(names, ["B", "a", "a-b", "a/b", "b"]);
}
