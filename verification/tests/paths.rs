//! Where the store and the identity live.

use std::path::{Path, PathBuf};

use keyjar::components::strip_dir;
use keyjar::paths::{identity_path_from, is_absolute, join, store_dir_from};

fn os(s: &str) -> Option<Vec<u8>> {
    Some(s.as_bytes().to_vec())
}

#[test]
fn paths_the_store_flag_beats_the_env_var() {
    let dir = store_dir_from(os("/flag"), os("/env"), os("/xdg"), os("/home")).unwrap();
    assert_eq!(dir, b"/flag");
}

#[test]
fn keyjar_store_beats_xdg() {
    let dir = store_dir_from(None, os("/env"), os("/xdg"), os("/home")).unwrap();
    assert_eq!(dir, b"/env");
}

#[test]
fn xdg_data_home_beats_the_home_fallback() {
    let dir = store_dir_from(None, None, os("/xdg"), os("/home")).unwrap();
    assert_eq!(dir, b"/xdg/keyjar");
}

// Honoring a relative value would drop the store wherever the process
// happens to run.
#[test]
fn a_relative_xdg_value_is_ignored() {
    let dir = store_dir_from(None, None, os("rel"), os("/home")).unwrap();
    assert_eq!(dir, b"/home/.local/share/keyjar");
}

#[test]
fn an_empty_keyjar_store_is_ignored() {
    let dir = store_dir_from(None, os(""), None, os("/home")).unwrap();
    assert_eq!(dir, b"/home/.local/share/keyjar");
}

#[test]
fn no_home_at_all_is_an_error() {
    let err = store_dir_from(None, None, None, None).unwrap_err();
    assert_eq!(err.message(), "HOME is not set");
    assert!(identity_path_from(None, None, None).is_err());
    assert!(store_dir_from(None, None, None, os("")).is_err());
}

#[test]
fn keyjar_identity_overrides_everything() {
    let path = identity_path_from(os("/id"), os("/xdg"), os("/home")).unwrap();
    assert_eq!(path, b"/id");
}

#[test]
fn the_identity_defaults_under_the_config_dir() {
    let path = identity_path_from(None, None, os("/home")).unwrap();
    assert_eq!(path, b"/home/.config/keyjar/identity");
}

#[test]
fn joining_is_what_the_standard_library_does() {
    for base in ["", "/", "/a", "/a/", "a", "a//", "."] {
        for rel in ["", "b", "/b", "b/c", "./b", "b/"] {
            let joined = PathBuf::from(base).join(rel);
            assert_eq!(
                join(base.as_bytes(), rel.as_bytes()),
                joined.to_str().unwrap().as_bytes(),
                "{base:?} {rel:?}"
            );
            assert_eq!(
                is_absolute(rel.as_bytes()),
                PathBuf::from(rel).is_absolute()
            );
        }
    }
}

/// All texts of some letters, up to a length.
fn spellings(longest: usize) -> Vec<String> {
    let mut all = vec![String::new()];
    let mut last = all.clone();
    for _ in 0..longest {
        let mut next = Vec::new();
        for text in &last {
            for letter in ['/', '.', 'a', 'b'] {
                next.push(format!("{text}{letter}"));
            }
        }
        all.extend(next.clone());
        last = next;
    }
    all
}

// Components are spelled out, so they are held to the standard library over all
// short paths. An empty directory is left to the test below.
#[test]
fn stripping_is_what_the_standard_library_does() {
    for dir in spellings(3).iter().filter(|dir| !dir.is_empty()) {
        for path in &spellings(6) {
            let expected = Path::new(path)
                .strip_prefix(dir)
                .ok()
                .map(|rest| rest.to_str().unwrap().as_bytes().to_vec());
            assert_eq!(
                strip_dir(dir.as_bytes(), path.as_bytes()),
                expected,
                "{dir:?} {path:?}"
            );
        }
    }
}

#[test]
fn plain_paths_are_within_the_empty_directory() {
    assert_eq!(strip_dir(b"", b"a/b"), Some(b"a/b".to_vec()));
    assert_eq!(strip_dir(b"", b"/a"), None);
    assert_eq!(strip_dir(b"", b"./a"), None);
}
