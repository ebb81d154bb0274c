//! Identities and encryption, with the real age library.

use std::str::FromStr;

use age::secrecy::ExposeSecret;
use age::x25519;

use keyjar::crypt::{decrypt, encrypt, parse_identity, Identity, Recipient};
use keyjar::host::{Change, FileRead, Outcome};
use keyjar::identity::{
    create_identity, identity_contents, load_identity, load_or_create_identity, FirstUse,
    IdentitySource,
};

fn missing() -> FileRead {
    FileRead::Missing("No such file or directory (os error 2)".to_string())
}

fn bytes_of(change: &Change) -> Vec<u8> {
    match change {
        Change::Create { bytes, .. } => bytes.clone(),
        _ => panic!("not a creation"),
    }
}

#[test]
fn a_generated_identity_loads_back_and_round_trips() {
    let path = b"/tmp/keyjar/identity";
    let Ok(FirstUse::Create(creation)) = load_or_create_identity(path, &missing()) else {
        panic!("expected a new identity");
    };
    let file = bytes_of(creation.change());
    let (created, source) = creation.settle(&Outcome::Done, &missing()).unwrap_or_else(|e| {
        panic!("{}", e.message());
    });
    assert!(matches!(source, IdentitySource::Created));
    let Ok(FirstUse::Existed(loaded)) = load_or_create_identity(path, &FileRead::Bytes(file))
    else {
        panic!("expected the identity to load");
    };

    let ciphertext = encrypt(&created, b"secret").unwrap();
    assert_eq!(decrypt(&loaded, &ciphertext).unwrap(), b"secret");
}

// rage-keygen writes comments and a trailing newline; keyjar must accept
// its files unchanged.
#[test]
fn parsing_skips_comments_and_blank_lines() {
    let identity = x25519::Identity::generate();
    let contents = format!(
        "# comment\n\n# public key: {}\n{}\n",
        identity.to_public(),
        identity.to_string().expose_secret()
    );
    let parsed = parse_identity(&contents).unwrap_or_else(|e| panic!("{}", e.message()));
    let ciphertext = encrypt(&parsed, b"x").unwrap();
    assert_eq!(age::decrypt(&identity, &ciphertext).unwrap(), b"x");
}

#[test]
fn garbage_identity_contents_are_an_error() {
    assert!(parse_identity("").is_err());
    assert!(parse_identity("# only comments\n").is_err());
    assert!(parse_identity("AGE-SECRET-KEY-NOT-A-KEY").is_err());
}

#[test]
fn decrypting_with_the_wrong_identity_fails() {
    let a = Identity::generate();
    let b = Identity::generate();
    let ciphertext = encrypt(&a, b"secret").unwrap();
    assert!(decrypt(&b, &ciphertext).is_err());
}

#[test]
fn the_reason_for_a_bad_identity_is_told() {
    let reason = |contents: &str| match parse_identity(contents) {
        Ok(_) => panic!("{contents:?} was accepted"),
        Err(e) => e.message().to_string(),
    };
    assert_eq!(reason(""), "no identity line found");
    assert_eq!(reason(" \n#x\r\n"), "no identity line found");
    assert_eq!(reason("nonsense"), "no identity line found");
    assert_eq!(reason("AGE-SECRET-KEY-NOT-A-KEY"), "invalid Bech32 encoding");
    // The first AGE-SECRET-KEY line wins: others are passed over before it, and
    // those after it are not looked at.
    let good = Identity::generate();
    for contents in [
        format!("nonsense\n{}\n", good.secret()),
        format!("  {}\r\nnonsense", good.secret()),
        format!("{}\nAGE-SECRET-KEY-NOT-A-KEY\n", good.secret()),
    ] {
        match parse_identity(&contents) {
            Ok(identity) => assert_eq!(identity.secret(), good.secret()),
            Err(e) => panic!("{contents:?}: {}", e.message()),
        }
    }
    assert_eq!(
        reason(&format!("AGE-SECRET-KEY-NOT-A-KEY\n{}\n", good.secret())),
        "invalid Bech32 encoding"
    );
}

#[test]
fn keys_and_recipients_are_those_of_the_age_library() {
    let identity = Identity::generate();
    let same = x25519::Identity::from_str(identity.secret()).unwrap();
    assert_eq!(same.to_string().expose_secret(), identity.secret());
    assert_eq!(same.to_public().to_string(), identity.to_public().as_str());
    assert_ne!(identity.secret(), Identity::generate().secret());

    let recipient = Recipient::parse(identity.to_public().as_str()).unwrap();
    assert!(recipient.same_as(&identity.to_public()));
    assert!(!recipient.same_as(&Identity::generate().to_public()));
    assert_eq!(recipient.as_str(), identity.to_public().as_str());
    assert!(Recipient::parse("not-a-recipient").is_err());
    assert!(Recipient::parse(identity.secret()).is_err());

    // Ciphertexts go both ways.
    let theirs = age::encrypt(&same.to_public(), b"there").unwrap();
    assert_eq!(decrypt(&identity, &theirs).unwrap(), b"there");
    let ours = encrypt(&identity, b"here").unwrap();
    assert_eq!(age::decrypt(&same, &ours).unwrap(), b"here");
    assert_ne!(ours, b"here");
    assert!(ours.starts_with(b"age-encryption.org/v1"));
}

#[test]
fn failures_say_what_was_being_done() {
    let identity = Identity::generate();
    let err = decrypt(&identity, b"garbage").unwrap_err();
    assert!(err.message().starts_with("decrypting: "), "{}", err.message());
    assert!(err.message().len() > "decrypting: ".len());
}

#[test]
fn an_identity_file_is_a_standard_one() {
    let identity = Identity::generate();
    let contents = String::from_utf8(identity_contents(&identity)).unwrap();
    assert_eq!(
        contents,
        format!(
            "# created by keyjar\n# public key: {}\n{}\n",
            identity.to_public().as_str(),
            identity.secret()
        )
    );
    assert!(contents.contains("AGE-SECRET-KEY-1"));
}

#[test]
fn loading_tells_a_missing_file_from_a_bad_one() {
    let path = b"/c/identity";
    let told = |read: &FileRead| match load_identity(path, read) {
        Ok(_) => panic!("loaded"),
        Err(e) => e.message().to_string(),
    };
    assert_eq!(
        told(&missing()),
        "no identity at /c/identity: No such file or directory (os error 2)"
    );
    assert_eq!(
        told(&FileRead::Failed("Permission denied (os error 13)".to_string())),
        "no identity at /c/identity: Permission denied (os error 13)"
    );
    assert_eq!(
        told(&FileRead::Bytes(b"\xff".to_vec())),
        "no identity at /c/identity: stream did not contain valid UTF-8"
    );
    assert_eq!(
        told(&FileRead::Bytes(b"# nothing".to_vec())),
        "reading identity /c/identity: no identity line found"
    );
}

#[test]
fn a_first_use_does_not_replace_a_bad_identity() {
    let path = b"/c/identity";
    let told = |read: &FileRead| match load_or_create_identity(path, read) {
        Ok(_) => panic!("went on"),
        Err(e) => e.message().to_string(),
    };
    assert_eq!(
        told(&FileRead::Failed("Is a directory (os error 21)".to_string())),
        "reading identity /c/identity: Is a directory (os error 21)"
    );
    assert_eq!(
        told(&FileRead::Bytes(b"\xff".to_vec())),
        "reading identity /c/identity: stream did not contain valid UTF-8"
    );
    assert_eq!(
        told(&FileRead::Bytes(b"".to_vec())),
        "reading identity /c/identity: no identity line found"
    );
}

// Whoever loses the race must return the winner's key, not its own.
#[test]
fn a_lost_race_returns_the_winners_identity() {
    let path = b"/c/identity";
    let winner = Identity::generate();
    let there = FileRead::Bytes(identity_contents(&winner));
    let Ok(FirstUse::Create(creation)) = load_or_create_identity(path, &missing()) else {
        panic!("expected a new identity");
    };
    let (identity, source) = match creation.settle(&Outcome::Taken, &there) {
        Ok(settled) => settled,
        Err(e) => panic!("{}", e.message()),
    };
    assert_eq!(source, IdentitySource::Existed);
    assert_eq!(identity.secret(), winner.secret());
}

#[test]
fn a_creation_that_fails_says_why() {
    let path = b"/c/identity";
    let failed = |outcome: Outcome, again: FileRead| {
        let Ok(FirstUse::Create(creation)) = load_or_create_identity(path, &missing()) else {
            panic!("expected a new identity");
        };
        match creation.settle(&outcome, &again) {
            Ok(_) => panic!("settled"),
            Err(e) => e.message().to_string(),
        }
    };
    assert_eq!(
        failed(Outcome::Failed("disk full".to_string()), missing()),
        "creating identity /c/identity: disk full"
    );
    assert_eq!(
        failed(Outcome::Taken, FileRead::Bytes(Vec::new())),
        "creating identity /c/identity: reading identity /c/identity: no identity line found"
    );
    assert_eq!(
        failed(Outcome::Missing, missing()),
        "creating identity /c/identity: the directory vanished"
    );
}

#[test]
fn a_creation_keeps_the_key_it_is_given() {
    let identity = Identity::generate();
    let secret = identity.secret().to_string();
    let file = identity_contents(&identity);
    let creation = create_identity(b"/c/identity", identity);
    assert_eq!(bytes_of(creation.change()), file);
    match creation.settle(&Outcome::Done, &missing()) {
        Ok((identity, source)) => {
            assert_eq!(identity.secret(), secret);
            assert_eq!(source, IdentitySource::Created);
        }
        Err(e) => panic!("{}", e.message()),
    }
}
