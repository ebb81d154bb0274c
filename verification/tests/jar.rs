//! A store on a disk in memory: the library decides, the disk does as it is told.

use std::collections::BTreeMap;

use keyjar::commands::{
    identity_created, mv_consent, mv_plan, mv_settle, rm_consent, rm_plan, rm_settle, stored,
    unchanged, write_value, MvConsent,
};
use keyjar::consent::{Consent, Permit};
use keyjar::crypt::{decrypt, Identity, Recipient};
use keyjar::edit::{edit_outcome, editor_of, initial_value, EditOutcome, Editor};
use keyjar::error::Error;
use keyjar::host::{Change, FileRead, Found, Outcome, Seen};
use keyjar::identity::{load_identity, load_or_create_identity, FirstUse, IdentitySource};
use keyjar::name::{Name, Namespace};
use keyjar::output::{
    decrypted_pairs, env_output, get_output, get_refusal, ls_output, read_entry, show_output,
    Variables,
};
use keyjar::paths::{join, store_dir_from};
use keyjar::plan::{End, Plan, Run};
use keyjar::rekey::{
    new_path, old_path, rekey_consent, rekey_plan, rekey_settle, rekey_with, KeyFiles,
};
use keyjar::store::{Store, Write};
use keyjar::tty::read_plain;
use keyjar::walk::{Item, Kind, Listing, Walk};

// ---------------------------------------------------------------------------
// The disk

#[derive(Clone, Debug, PartialEq)]
enum Node {
    File(Vec<u8>),
    Dir,
}

#[derive(Clone, Debug, Default, PartialEq)]
struct Disk {
    nodes: BTreeMap<Vec<u8>, Node>,
}

fn parent(path: &[u8]) -> Option<Vec<u8>> {
    let cut = path.iter().rposition(|b| *b == b'/')?;
    if cut == 0 {
        None
    } else {
        Some(path[..cut].to_vec())
    }
}

fn shown(path: &[u8]) -> String {
    String::from_utf8_lossy(path).into_owned()
}

impl Disk {
    fn make_dirs(&mut self, dir: &[u8]) -> Result<(), String> {
        if let Some(up) = parent(dir) {
            self.make_dirs(&up)?;
        }
        match self.nodes.get(dir) {
            Some(Node::File(_)) => Err(format!("creating {}: Not a directory", shown(dir))),
            Some(Node::Dir) => Ok(()),
            None => {
                self.nodes.insert(dir.to_vec(), Node::Dir);
                Ok(())
            }
        }
    }

    fn put(&mut self, path: &[u8], bytes: &[u8]) {
        if let Some(up) = parent(path) {
            self.make_dirs(&up).unwrap();
        }
        self.nodes.insert(path.to_vec(), Node::File(bytes.to_vec()));
    }

    fn file(&self, path: &[u8]) -> Option<Vec<u8>> {
        match self.nodes.get(path) {
            Some(Node::File(bytes)) => Some(bytes.clone()),
            _ => None,
        }
    }

    fn has(&self, path: &[u8]) -> bool {
        self.nodes.contains_key(path)
    }

    fn read(&self, path: &[u8]) -> FileRead {
        match self.nodes.get(path) {
            Some(Node::File(bytes)) => FileRead::Bytes(bytes.clone()),
            Some(Node::Dir) => FileRead::Failed("Is a directory (os error 21)".to_string()),
            None => FileRead::Missing("No such file or directory (os error 2)".to_string()),
        }
    }

    fn list(&self, dir: &[u8]) -> Listing {
        if !self.has(dir) {
            return Listing::Missing;
        }
        let mut items = Vec::new();
        for (path, node) in &self.nodes {
            if parent(path).as_deref() == Some(dir) {
                items.push(Item::Found {
                    file_name: path[dir.len() + 1..].to_vec(),
                    kind: match node {
                        Node::Dir => Kind::Dir,
                        Node::File(_) => Kind::Other,
                    },
                });
            }
        }
        items.reverse();
        Listing::Items(items)
    }

    fn apply(&mut self, change: &Change) -> Outcome {
        match self.try_apply(change) {
            Ok(outcome) => outcome,
            Err(message) => Outcome::Failed(message),
        }
    }

    fn try_apply(&mut self, change: &Change) -> Result<Outcome, String> {
        match change {
            Change::Create { path, bytes } => {
                self.make_dirs(&parent(path).unwrap())?;
                if self.has(path) {
                    return Ok(Outcome::Taken);
                }
                self.put(path, bytes);
            }
            Change::Replace { path, bytes } => {
                self.make_dirs(&parent(path).unwrap())?;
                if self.nodes.get(path) == Some(&Node::Dir) {
                    return Err(format!("writing {}: Is a directory", shown(path)));
                }
                self.put(path, bytes);
            }
            Change::Rename { from, to } => {
                let Some(bytes) = self.file(from) else {
                    return Ok(Outcome::Missing);
                };
                self.make_dirs(&parent(to).unwrap())?;
                self.nodes.remove(from);
                self.put(to, &bytes);
            }
            Change::Remove { path } => match self.nodes.get(path) {
                None => return Ok(Outcome::Missing),
                Some(Node::Dir) => {
                    return Err(format!("removing {}: Is a directory", shown(path)));
                }
                Some(Node::File(_)) => {
                    self.nodes.remove(path);
                }
            },
            Change::RemoveDir { path } => {
                if self.nodes.keys().any(|p| parent(p).as_ref() == Some(path)) {
                    return Err("Directory not empty".to_string());
                }
                self.nodes.remove(path);
            }
        }
        Ok(Outcome::Done)
    }

    fn walk(&self, store: &Store) -> Result<Vec<Name>, String> {
        let mut walk = Walk::begin(store);
        while let Some(dir) = walk.next() {
            let listing = self.list(dir);
            walk = walk.visit(&listing).map_err(|e| e.message().to_string())?;
        }
        Ok(walk.finish())
    }

    /// Look at a store: its names, its marker and the files of some entries.
    fn look(&self, store: &Store, names: &[Name]) -> Seen {
        let found = self.walk(store);
        let mut files = store.files_of(names);
        if let Ok(all) = &found {
            files.extend(store.files_of(all));
        }
        Seen {
            exists: self.has(store.dir()),
            marker: self.has(&store.marker_path()),
            names: found,
            files: files
                .into_iter()
                .map(|path| Found {
                    read: self.read(&path),
                    path,
                })
                .collect(),
        }
    }

    fn carry_out(&mut self, plan: Plan) -> End {
        let mut run = Run::begin(plan);
        while let Some(change) = run.next() {
            let outcome = self.apply(&change);
            run = run.report(outcome);
        }
        run.end()
    }

    fn write(
        &mut self,
        store: &Store,
        name: &Name,
        recipient: &Recipient,
        ciphertext: &[u8],
    ) -> Result<(), Error> {
        self.make_dirs(store.dir()).unwrap();
        let seen = self.look(store, &[name.clone()]);
        let write = store.write(&seen, name, recipient, ciphertext)?;
        self.finish(store, write)
    }

    fn write_value(
        &mut self,
        store: &Store,
        name: &Name,
        identity: &Identity,
        value: &[u8],
    ) -> Result<(), Error> {
        self.make_dirs(store.dir()).unwrap();
        let seen = self.look(store, &[]);
        let write = write_value(store, &seen, name, identity, value)?;
        self.finish(store, write)
    }

    fn finish(&mut self, store: &Store, write: Write) -> Result<(), Error> {
        let entry = match write {
            Write::Entry(entry) => entry,
            Write::Claim(claim) => {
                let outcome = self.apply(claim.change());
                let again = self.look(store, &[]);
                claim.settle(&outcome, &again)?
            }
        };
        Store::settle_write(&self.apply(&entry))
    }

    fn store_read(
        &self,
        store: &Store,
        name: &Name,
        recipient: &Recipient,
    ) -> Result<Option<Vec<u8>>, Error> {
        store.read(&self.look(store, &[name.clone()]), name, recipient)
    }

    fn remove(&mut self, store: &Store, name: &Name) -> Result<bool, Error> {
        match store.remove(&self.look(store, &[name.clone()]), name)? {
            None => Ok(false),
            Some(plan) => Store::settle(&self.carry_out(plan)),
        }
    }

    fn names(&self, store: &Store) -> Result<Vec<Name>, Error> {
        store.list(&self.look(store, &[]), None)
    }
}

fn name(value: &str) -> Name {
    value.parse().unwrap()
}

fn names(values: &[&str]) -> Vec<Name> {
    values.iter().map(|value| name(value)).collect()
}

fn recipient() -> Recipient {
    Identity::generate().to_public()
}

fn temp_store() -> (Disk, Store) {
    let mut disk = Disk::default();
    disk.make_dirs(b"/tmp").unwrap();
    (disk, Store::open(b"/tmp/store".to_vec()))
}

fn at(store: &Store, relative: &str) -> Vec<u8> {
    join(store.dir(), relative.as_bytes())
}

// ---------------------------------------------------------------------------
// The store

#[test]
fn a_write_reads_back_and_a_missing_entry_is_none() {
    let (mut disk, store) = temp_store();
    let recipient = recipient();
    disk.write(&store, &name("work/aws"), &recipient, b"cipher")
        .unwrap();
    assert_eq!(
        disk.store_read(&store, &name("work/aws"), &recipient)
            .unwrap()
            .unwrap(),
        b"cipher"
    );
    assert_eq!(
        disk.store_read(&store, &name("missing"), &recipient).unwrap(),
        None
    );
}

// The identity must never appear in a listing even if a user points the
// store at their config directory, and editor droppings must not either.
#[test]
fn listing_skips_strays_and_dot_files() {
    let (mut disk, store) = temp_store();
    let recipient = recipient();
    disk.write(&store, &name("openai"), &recipient, b"c").unwrap();
    disk.write(&store, &name("work/aws"), &recipient, b"c").unwrap();
    disk.put(&at(&store, "identity"), b"key");
    disk.put(&at(&store, "bad name.age"), b"c");
    disk.put(&at(&store, ".keyjar-stray.tmp"), b"x");
    disk.make_dirs(&at(&store, ".git")).unwrap();
    assert_eq!(disk.names(&store).unwrap(), names(&["openai", "work/aws"]));
}

#[test]
fn listing_filters_by_component_prefix() {
    let (mut disk, store) = temp_store();
    let recipient = recipient();
    for value in ["work/aws", "work/db", "workshop/key", "openai"] {
        disk.write(&store, &name(value), &recipient, b"c").unwrap();
    }
    assert_eq!(
        store
            .list(&disk.look(&store, &[]), Some(&name("work")))
            .unwrap(),
        names(&["work/aws", "work/db"])
    );
}

#[test]
fn namespace_listing_excludes_the_exact_entry() {
    let (mut disk, store) = temp_store();
    let recipient = recipient();
    for value in ["work", "work/aws", "workshop/key"] {
        disk.write(&store, &name(value), &recipient, b"c").unwrap();
    }
    let namespace: Namespace = "work".parse().unwrap();
    assert_eq!(
        store
            .list_namespace(&disk.look(&store, &[]), Some(&namespace))
            .unwrap(),
        names(&["work/aws"])
    );
}

#[test]
fn a_missing_store_directory_lists_empty() {
    let (disk, store) = temp_store();
    assert_eq!(disk.names(&store).unwrap(), Vec::<Name>::new());
}

// Before the first write there is no directory. Reads answer "empty"
// rather than failing, and none of them create anything on the way.
#[test]
fn a_missing_store_is_empty_for_every_read_operation() {
    let (mut disk, store) = temp_store();
    let recipient = recipient();
    let namespace: Namespace = "work".parse().unwrap();
    let before = disk.clone();

    let seen = disk.look(&store, &[name("key")]);
    assert!(!store.contains(&seen, &name("key")).unwrap());
    assert_eq!(store.read(&seen, &name("key"), &recipient).unwrap(), None);
    assert!(!disk.remove(&store, &name("key")).unwrap());
    assert!(store.list_namespace(&seen, Some(&namespace)).unwrap().is_empty());
    assert!(store
        .snapshot(&seen, Some(&namespace), &recipient)
        .unwrap()
        .is_empty());
    assert_eq!(disk, before);
}

#[test]
fn listing_skips_non_utf8_names() {
    let (mut disk, store) = temp_store();
    disk.make_dirs(store.dir()).unwrap();
    disk.put(&join(store.dir(), b"bad-\xff.age"), b"c");

    assert!(disk.names(&store).unwrap().is_empty());
}

#[test]
fn removing_prunes_empty_parents_but_not_the_root() {
    let (mut disk, store) = temp_store();
    let recipient = recipient();
    disk.write(&store, &name("work/deep/key"), &recipient, b"c").unwrap();
    disk.write(&store, &name("work/other"), &recipient, b"c").unwrap();
    assert!(disk.remove(&store, &name("work/deep/key")).unwrap());
    // `deep` emptied out; `work` still holds `other`.
    assert!(!disk.has(&at(&store, "work/deep")));
    assert!(disk.has(&at(&store, "work/other.age")));
    assert!(disk.remove(&store, &name("work/other")).unwrap());
    assert!(!disk.has(&at(&store, "work")));
    assert!(disk.has(store.dir()));
    assert!(disk.has(&at(&store, ".keyjar-recipient")));
    assert!(!disk.remove(&store, &name("work/other")).unwrap());
}

#[test]
fn a_store_rejects_a_different_recipient() {
    let (mut disk, store) = temp_store();
    let first = recipient();
    let second = recipient();
    disk.write(&store, &name("key"), &first, b"c").unwrap();

    assert!(disk.store_read(&store, &name("key"), &second).is_err());
    let err = disk.write(&store, &name("other"), &second, b"c").unwrap_err();
    assert_eq!(
        err.message(),
        "selected identity does not match the store recipient"
    );
    assert!(!disk.has(&at(&store, "other.age")));
}

#[test]
fn a_malformed_recipient_marker_is_rejected() {
    let (mut disk, store) = temp_store();
    let recipient = recipient();
    disk.write(&store, &name("key"), &recipient, b"c").unwrap();
    disk.put(&at(&store, ".keyjar-recipient"), b"not-a-recipient\n");

    let err = disk.store_read(&store, &name("key"), &recipient).unwrap_err();
    assert!(err.message().contains("malformed"), "{}", err.message());
    assert_eq!(
        err.message(),
        "malformed store recipient marker: invalid Bech32 encoding"
    );
    assert!(disk.write(&store, &name("other"), &recipient, b"c").is_err());
}

#[test]
fn an_empty_or_multiline_recipient_marker_is_rejected() {
    let (mut disk, store) = temp_store();
    let recipient = recipient();
    disk.write(&store, &name("key"), &recipient, b"c").unwrap();

    for contents in [b"".as_slice(), b"\n", b"not-a-key\nextra\n"] {
        disk.put(&at(&store, ".keyjar-recipient"), contents);
        let err = disk.store_read(&store, &name("key"), &recipient).unwrap_err();
        assert_eq!(err.message(), "malformed store recipient marker");
    }
    let unended = recipient.as_str().as_bytes().to_vec();
    disk.put(&at(&store, ".keyjar-recipient"), &unended);
    assert!(disk.store_read(&store, &name("key"), &recipient).is_err());
    disk.put(&at(&store, ".keyjar-recipient"), b"\xff\n");
    let err = disk.store_read(&store, &name("key"), &recipient).unwrap_err();
    assert_eq!(
        err.message(),
        "reading /tmp/store/.keyjar-recipient: stream did not contain valid UTF-8"
    );
}

#[test]
fn entry_paths_with_the_wrong_file_type_are_errors() {
    let (mut disk, store) = temp_store();
    let recipient = recipient();
    let entry = at(&store, "key.age");
    disk.write(&store, &name("key"), &recipient, b"c").unwrap();
    disk.nodes.remove(&entry);
    disk.make_dirs(&entry).unwrap();

    let err = disk.store_read(&store, &name("key"), &recipient).unwrap_err();
    assert_eq!(
        err.message(),
        "reading /tmp/store/key.age: Is a directory (os error 21)"
    );
    assert!(disk.remove(&store, &name("key")).is_err());
}

// Ciphertext with no marker is not a keyjar store. Adopting it would bind
// whatever identity showed up first to files it cannot decrypt.
#[test]
fn an_unmarked_nonempty_store_is_rejected() {
    let (mut disk, store) = temp_store();
    disk.make_dirs(store.dir()).unwrap();
    disk.put(&at(&store, "old.age"), b"c");
    let recipient = recipient();

    let err = disk.store_read(&store, &name("old"), &recipient).unwrap_err();
    assert_eq!(err.message(), "store has entries but no recipient marker");
    assert!(disk.write(&store, &name("new"), &recipient, b"c").is_err());
    assert!(disk.names(&store).is_err());
    assert!(disk.remove(&store, &name("old")).is_err());
    assert!(!disk.has(&at(&store, ".keyjar-recipient")));
}

// A marker that cannot be looked up, such as a loop of links, is not there.
#[test]
fn a_marker_that_cannot_be_found_does_not_mark() {
    let (mut disk, store) = temp_store();
    let recipient = recipient();
    disk.write(&store, &name("a"), &recipient, b"c").unwrap();
    let broken = |disk: &Disk| {
        let mut seen = disk.look(&store, &[name("a")]);
        seen.marker = false;
        for found in &mut seen.files {
            if found.path == store.marker_path() {
                found.read = FileRead::Failed("Too many levels of symbolic links".to_string());
            }
        }
        seen
    };
    let seen = broken(&disk);
    let unmarked = "store has entries but no recipient marker";
    assert_eq!(store.list(&seen, None).unwrap_err().message(), unmarked);
    assert_eq!(store.contains(&seen, &name("a")).unwrap_err().message(), unmarked);
    match store.remove(&seen, &name("a")) {
        Ok(_) => panic!("removed"),
        Err(e) => assert_eq!(e.message(), unmarked),
    }
    match store.write(&seen, &name("b"), &recipient, b"c") {
        Ok(_) => panic!("written"),
        Err(e) => assert_eq!(e.message(), unmarked),
    }
    assert_eq!(
        store.read(&seen, &name("a"), &recipient).unwrap_err().message(),
        "reading /tmp/store/.keyjar-recipient: Too many levels of symbolic links"
    );

    // Over an empty store it is found to be in the way of the claim.
    disk.nodes.remove(&at(&store, "a.age"));
    let seen = broken(&disk);
    let Ok(Write::Claim(claim)) = store.write(&seen, &name("b"), &recipient, b"c") else {
        panic!("not a claim");
    };
    match claim.settle(&Outcome::Taken, &seen) {
        Ok(_) => panic!("settled"),
        Err(e) => assert!(e.message().starts_with("reading "), "{}", e.message()),
    }
}

#[test]
fn a_written_value_is_sealed_for_its_identity() {
    let (mut disk, store) = temp_store();
    let identity = Identity::generate();
    disk.write_value(&store, &name("a"), &identity, b"value").unwrap();
    let ciphertext = disk.file(&at(&store, "a.age")).unwrap();
    assert_eq!(decrypt(&identity, &ciphertext).unwrap(), b"value");
    assert_eq!(
        disk.file(&store.marker_path()).unwrap(),
        format!("{}\n", identity.to_public().as_str()).into_bytes()
    );
    let err = disk
        .write_value(&store, &name("a"), &Identity::generate(), b"other")
        .unwrap_err();
    assert!(err.message().contains("does not match"), "{}", err.message());
    assert_eq!(disk.file(&at(&store, "a.age")).unwrap(), ciphertext);
}

#[test]
fn a_snapshot_captures_selected_ciphertexts() {
    let (mut disk, store) = temp_store();
    let recipient = recipient();
    disk.write(&store, &name("work/a"), &recipient, b"a").unwrap();
    disk.write(&store, &name("work/b"), &recipient, b"b").unwrap();
    disk.write(&store, &name("other"), &recipient, b"x").unwrap();
    let namespace: Namespace = "work".parse().unwrap();

    assert_eq!(
        store
            .snapshot(&disk.look(&store, &[]), Some(&namespace), &recipient)
            .unwrap(),
        [
            (name("work/a"), b"a".to_vec()),
            (name("work/b"), b"b".to_vec())
        ]
    );
}

#[test]
fn an_error_does_not_keep_later_writes_out() {
    let (mut disk, store) = temp_store();
    let first = recipient();
    disk.write(&store, &name("first"), &first, b"c").unwrap();
    assert!(disk.store_read(&store, &name("first"), &recipient()).is_err());
    disk.write(&store, &name("second"), &first, b"c").unwrap();
}

// Two identities racing for a fresh store: both looked before either claimed.
#[test]
fn the_second_claim_is_refused() {
    let (mut disk, store) = temp_store();
    disk.make_dirs(store.dir()).unwrap();
    let first = recipient();
    let second = recipient();
    let seen = disk.look(&store, &[]);
    let Ok(Write::Claim(a)) = store.write(&seen, &name("a"), &first, b"c") else {
        panic!("not a claim");
    };
    let Ok(Write::Claim(b)) = store.write(&seen, &name("b"), &second, b"c") else {
        panic!("not a claim");
    };
    let outcome = disk.apply(a.change());
    assert!(a.settle(&outcome, &disk.look(&store, &[])).is_ok());
    let outcome = disk.apply(b.change());
    assert!(matches!(outcome, Outcome::Taken));
    match b.settle(&outcome, &disk.look(&store, &[])) {
        Ok(_) => panic!("bound twice"),
        Err(e) => assert_eq!(
            e.message(),
            "selected identity does not match the store recipient"
        ),
    }
    assert_eq!(
        disk.file(&at(&store, ".keyjar-recipient")).unwrap(),
        format!("{}\n", first.as_str()).into_bytes()
    );
}

#[test]
fn a_claim_that_fails_writes_nothing() {
    let (mut disk, store) = temp_store();
    disk.make_dirs(store.dir()).unwrap();
    for (outcome, message) in [
        (Outcome::Failed("disk full".to_string()), "disk full"),
        (Outcome::Missing, "the store vanished"),
    ] {
        let seen = disk.look(&store, &[]);
        let Ok(Write::Claim(claim)) = store.write(&seen, &name("a"), &recipient(), b"c") else {
            panic!("not a claim");
        };
        match claim.settle(&outcome, &seen) {
            Ok(_) => panic!("settled"),
            Err(e) => assert_eq!(e.message(), message),
        }
    }
    assert_eq!(
        Store::settle_write(&Outcome::Missing).unwrap_err().message(),
        "the store vanished"
    );
    assert_eq!(
        Store::settle_write(&Outcome::Taken).unwrap_err().message(),
        "a file is in the way"
    );
    assert_eq!(
        Store::settle(&End::Taken).unwrap_err().message(),
        "a file is in the way"
    );
}

#[test]
fn entry_paths_and_names_correspond() {
    let store = Store::open(b"/s".to_vec());
    for value in ["a", "work/aws", "v1.age", "a/b/c-d"] {
        let path = store.entry_path(&name(value));
        assert_eq!(path, format!("/s/{value}.age").into_bytes());
        assert_eq!(store.name_of(&path), Some(name(value)));
    }
    for stray in [
        "/s/a", "/s/.age", "/s/.a.age", "/s/a b.age", "/t/a.age", "/s", "/s/a/.age", "/sa.age",
        "/s/a//b.age", "/s/a/./b.age", "/s/../s/a.age", "s/a.age",
    ] {
        assert_eq!(store.name_of(stray.as_bytes()), None, "{stray}");
    }
    assert_eq!(store.name_of(b"/s/\xff.age"), None);
    // What counts for nothing in a path does not hide an entry.
    for spelled in ["/s//a.age", "/s/./a.age", "//s/a.age", "/./s/a.age", "/s/a.age/"] {
        assert_eq!(store.name_of(spelled.as_bytes()), Some(name("a")), "{spelled}");
    }
    assert_eq!(
        Store::open(b"/s/".to_vec()).name_of(b"/s/a.age"),
        Some(name("a"))
    );
    assert_eq!(store.lock_path(), b"/s/.keyjar.lock");
    assert_eq!(store.marker_path(), b"/s/.keyjar-recipient");
}

#[test]
fn a_broken_listing_is_an_error() {
    let store = Store::open(b"/s".to_vec());
    let told = |listing: Listing| match Walk::begin(&store).visit(&listing) {
        Ok(_) => panic!("went on"),
        Err(e) => e.message().to_string(),
    };
    assert_eq!(
        told(Listing::Failed("Permission denied (os error 13)".to_string())),
        "listing /s: Permission denied (os error 13)"
    );
    assert_eq!(
        told(Listing::Items(vec![Item::Failed("Input/output error".to_string())])),
        "Input/output error"
    );
    let unknown = |file_name: &[u8]| {
        Listing::Items(vec![Item::Found {
            file_name: file_name.to_vec(),
            kind: Kind::Failed("no type".to_string()),
        }])
    };
    assert_eq!(told(unknown(b"a.age")), "no type");
    // What is skipped by name is not asked for its type.
    for skipped in [b".hidden".as_slice(), b"\xff"] {
        let walk = Walk::begin(&store).visit(&unknown(skipped)).unwrap_or_else(|e| {
            panic!("{}", e.message());
        });
        assert!(walk.next().is_none());
    }
    // A directory that vanished holds nothing.
    let walk = Walk::begin(&store).visit(&Listing::Missing).unwrap_or_else(|e| {
        panic!("{}", e.message());
    });
    assert!(walk.finish().is_empty());
}

#[test]
fn an_entry_that_vanishes_is_an_error() {
    let (mut disk, store) = temp_store();
    let recipient = recipient();
    disk.write(&store, &name("a"), &recipient, b"c").unwrap();
    let mut seen = disk.look(&store, &[]);
    seen.files.retain(|found| !found.path.ends_with(b"a.age"));
    assert_eq!(
        store.snapshot(&seen, None, &recipient).unwrap_err().message(),
        "entry vanished while the store was locked"
    );
}

#[test]
fn a_plan_stops_at_the_first_failure() {
    let change = |path: &[u8]| Change::Remove { path: path.to_vec() };
    let plan = || Plan {
        changes: vec![change(b"/a"), change(b"/b")],
        prune: vec![b"/d/e".to_vec(), b"/d".to_vec()],
    };
    let run = Run::begin(plan());
    let run = run.report(Outcome::Done);
    assert!(matches!(run.next(), Some(Change::Remove { path }) if path == b"/b"));
    let run = run.report(Outcome::Failed("no".to_string()));
    assert!(run.next().is_none());
    assert_eq!(run.end(), End::Failed("no".to_string()));

    let run = Run::begin(plan()).report(Outcome::Missing);
    assert!(run.next().is_none());
    assert_eq!(run.end(), End::Missing);
    let run = Run::begin(plan()).report(Outcome::Taken);
    assert_eq!(run.end(), End::Taken);

    // A directory that stays is no failure.
    let run = Run::begin(plan()).report(Outcome::Done).report(Outcome::Done);
    assert!(matches!(run.next(), Some(Change::RemoveDir { path }) if path == b"/d/e"));
    let run = run.report(Outcome::Failed("not empty".to_string()));
    assert!(run.next().is_none());
    assert_eq!(run.end(), End::Complete);
}

#[test]
fn a_write_leaves_the_other_entries_alone() {
    let (mut disk, store) = temp_store();
    let recipient = recipient();
    disk.write(&store, &name("a"), &recipient, b"one").unwrap();
    disk.write(&store, &name("a/b"), &recipient, b"two").unwrap();
    let marker = disk.file(&store.marker_path());
    disk.write(&store, &name("a"), &recipient, b"three").unwrap();
    assert_eq!(disk.file(&at(&store, "a.age")).unwrap(), b"three");
    assert_eq!(disk.file(&at(&store, "a/b.age")).unwrap(), b"two");
    assert_eq!(disk.file(&store.marker_path()), marker);
    assert_eq!(disk.names(&store).unwrap(), names(&["a", "a/b"]));
}

// ---------------------------------------------------------------------------
// The commands

/// A home directory in memory, with the commands run on it.
struct Jar {
    disk: Disk,
    store: Store,
    identity: Vec<u8>,
    quiet: bool,
    /// What the commands said, a line each.
    said: Vec<String>,
}

const IDENTITY: &[u8] = b"/home/config/keyjar/identity";

impl Jar {
    fn new() -> Self {
        let mut disk = Disk::default();
        disk.make_dirs(b"/home").unwrap();
        Jar {
            disk,
            store: Store::open(b"/home/data/keyjar".to_vec()),
            identity: IDENTITY.to_vec(),
            quiet: false,
            said: Vec::new(),
        }
    }

    fn say(&mut self, notice: Option<String>) {
        self.said.extend(notice);
    }

    fn first_identity(&mut self) -> Result<Identity, Error> {
        let read = self.disk.read(&self.identity);
        match load_or_create_identity(&self.identity, &read)? {
            FirstUse::Existed(identity) => Ok(identity),
            FirstUse::Create(creation) => {
                let outcome = self.disk.apply(creation.change());
                let again = self.disk.read(&self.identity);
                let (identity, source) = creation.settle(&outcome, &again)?;
                if source == IdentitySource::Created {
                    let notice = identity_created(self.quiet, &self.identity);
                    self.say(notice);
                }
                Ok(identity)
            }
        }
    }

    fn loaded_identity(&self) -> Result<Identity, Error> {
        load_identity(&self.identity, &self.disk.read(&self.identity))
    }

    fn try_set(&mut self, entry: &str, input: &[u8], multiline: bool) -> Result<(), Error> {
        let name = name(entry);
        let value = read_plain(input, multiline);
        let identity = self.first_identity()?;
        self.disk.write_value(&self.store, &name, &identity, &value)?;
        let notice = stored(self.quiet, &name);
        self.say(notice);
        Ok(())
    }

    fn set(&mut self, entry: &str, input: &[u8]) {
        self.try_set(entry, input, false)
            .unwrap_or_else(|e| panic!("set {entry}: {}", e.message()));
    }

    fn value(&self, entry: &str) -> Result<Vec<u8>, Error> {
        let identity = self.loaded_identity()?;
        let name = name(entry);
        let seen = self.disk.look(&self.store, &[name.clone()]);
        read_entry(&self.store, &seen, &identity, &name)
    }

    fn get(&self, entry: &str) -> Vec<u8> {
        get_output(
            self.value(entry)
                .unwrap_or_else(|e| panic!("get {entry}: {}", e.message())),
            false,
        )
    }

    fn ls(&self, prefix: Option<&str>) -> String {
        let prefix = prefix.map(name);
        let seen = self.disk.look(&self.store, &[]);
        ls_output(&self.store.list(&seen, prefix.as_ref()).unwrap())
    }

    /// `answer` is what is typed on a terminal; none means a pipe.
    fn rm(&mut self, entry: &str, force: bool, answer: Option<&str>) -> Result<(), Error> {
        let name = name(entry);
        let seen = self.disk.look(&self.store, &[name.clone()]);
        let consent = rm_consent(&self.store, &seen, &name, force, answer.is_some())?;
        let Some(permit) = self.permit(consent, answer) else {
            return Ok(());
        };
        let seen = self.disk.look(&self.store, &[name.clone()]);
        let plan = rm_plan(&self.store, &seen, &name, &permit)?;
        let end = self.disk.carry_out(plan);
        let notice = rm_settle(&end, &name, self.quiet)?;
        self.say(notice);
        Ok(())
    }

    fn permit(&mut self, consent: Consent, answer: Option<&str>) -> Option<Permit> {
        match consent {
            Consent::Given(permit) => Some(permit),
            Consent::Ask(question) => {
                self.said.push(question.prompt().to_string());
                question.answer(answer.unwrap().to_string())
            }
        }
    }

    fn mv(
        &mut self,
        old: &str,
        new: &str,
        force: bool,
        answer: Option<&str>,
    ) -> Result<(), Error> {
        let both = names(&[old, new]);
        let seen = self.disk.look(&self.store, &both);
        let permit = match mv_consent(
            &self.store,
            &seen,
            &both[0],
            &both[1],
            force,
            answer.is_some(),
        )? {
            MvConsent::Free => None,
            MvConsent::Overwrite(consent) => match self.permit(consent, answer) {
                None => return Ok(()),
                permit => permit,
            },
        };
        let seen = self.disk.look(&self.store, &both);
        let plan = mv_plan(&self.store, &seen, &both[0], &both[1], permit.as_ref())?;
        let end = self.disk.carry_out(plan);
        let notice = mv_settle(&end, &both[0], &both[1], self.quiet)?;
        self.say(notice);
        Ok(())
    }

    fn key_files(&self) -> KeyFiles {
        KeyFiles {
            current: self.disk.read(&self.identity),
            new: self.disk.read(&new_path(&self.identity)),
            old: self.disk.read(&old_path(&self.identity)),
        }
    }

    fn planned_rekey(&mut self, force: bool, answer: Option<&str>) -> Result<Option<(Plan, usize)>, Error> {
        let seen = self.disk.look(&self.store, &[]);
        let consent = rekey_consent(
            &self.store,
            &seen,
            &self.identity,
            &self.key_files(),
            force,
            answer.is_some(),
        )?;
        let Some(permit) = self.permit(consent, answer) else {
            return Ok(None);
        };
        let seen = self.disk.look(&self.store, &[]);
        let files = self.key_files();
        let rekey = rekey_plan(&self.store, &seen, &self.identity, &files, &permit)?;
        Ok(Some((rekey.plan, rekey.count)))
    }

    fn rekey(&mut self, force: bool, answer: Option<&str>) -> Result<(), Error> {
        if let Some((plan, count)) = self.planned_rekey(force, answer)? {
            let end = self.disk.carry_out(plan);
            let notice = rekey_settle(&end, count, self.quiet)?;
            self.say(notice);
        }
        Ok(())
    }

    fn variables(&self, prefix: Option<&str>) -> Result<Vec<(String, Name, Vec<u8>)>, Error> {
        let namespace: Option<Namespace> = prefix.map(|p| p.parse().unwrap());
        let seen = self.disk.look(&self.store, &[]);
        match decrypted_pairs(&self.store, &seen, namespace.as_ref(), None)? {
            Variables::Ready(pairs) => Ok(pairs),
            Variables::NeedIdentity => {
                let identity = self.loaded_identity()?;
                let seen = self.disk.look(&self.store, &[]);
                match decrypted_pairs(&self.store, &seen, namespace.as_ref(), Some(&identity))? {
                    Variables::Ready(pairs) => Ok(pairs),
                    Variables::NeedIdentity => panic!("asked twice"),
                }
            }
        }
    }

    fn env(&self, prefix: Option<&str>) -> (String, Option<Error>) {
        match self.variables(prefix) {
            Ok(pairs) => env_output(&pairs),
            Err(e) => (String::new(), Some(e)),
        }
    }

    fn edit(
        &mut self,
        entry: &str,
        editor: Option<&str>,
        run: impl Fn(&[u8]) -> Editor,
    ) -> Result<(), Error> {
        editor_of(editor.map(|e| e.as_bytes().to_vec()))?;
        let name = name(entry);
        let identity = self.first_identity()?;
        let seen = self.disk.look(&self.store, &[name.clone()]);
        let initial = initial_value(&self.store, &seen, &identity, &name)?;
        let notice = match edit_outcome(&initial, run(&initial))? {
            EditOutcome::Unchanged => unchanged(self.quiet, &name),
            EditOutcome::Changed(value) => {
                self.disk.write_value(&self.store, &name, &identity, &value)?;
                stored(self.quiet, &name)
            }
        };
        self.say(notice);
        Ok(())
    }

    fn identity_file(&self) -> String {
        String::from_utf8(self.disk.file(&self.identity).unwrap()).unwrap()
    }

    fn marker(&self) -> String {
        String::from_utf8(self.disk.file(&self.store.marker_path()).unwrap()).unwrap()
    }

    fn entry(&self, relative: &str) -> Option<Vec<u8>> {
        self.disk.file(&at(&self.store, relative))
    }
}

fn message(r: Result<(), Error>) -> String {
    r.unwrap_err().message().to_string()
}

fn public_key_of(identity_contents: &str) -> String {
    identity_contents
        .lines()
        .find_map(|line| line.strip_prefix("# public key: "))
        .unwrap()
        .to_string()
}

#[test]
fn set_then_get_round_trips_the_exact_bytes() {
    let mut jar = Jar::new();
    jar.set("openai", b"sk-123\n");

    // The newline that ended the input line is not part of the value.
    assert_eq!(jar.get("openai"), b"sk-123");
    assert_eq!(get_output(jar.value("openai").unwrap(), true), b"sk-123\n");
    assert_eq!(
        jar.said,
        [
            "keyjar: created identity at /home/config/keyjar/identity",
            "keyjar: stored openai"
        ]
    );
}

#[test]
fn the_identity_and_the_marker_name_one_key() {
    let mut jar = Jar::new();
    let value = b"plaintext-marker-value";
    jar.set("openai", value);

    let contents = jar.identity_file();
    assert!(contents.contains("AGE-SECRET-KEY-1"), "{contents}");
    assert_eq!(jar.marker(), format!("{}\n", public_key_of(&contents)));

    // The ciphertext must not leak the plaintext.
    let ciphertext = jar.entry("openai.age").unwrap();
    assert!(!ciphertext.windows(value.len()).any(|w| w == value));
    assert!(ciphertext.starts_with(b"age-encryption.org/v1"));
}

#[test]
fn a_missing_entry_fails_with_a_message_and_empty_stdout() {
    let mut jar = Jar::new();
    jar.set("other", b"x\n");
    assert_eq!(
        jar.value("missing").unwrap_err().message(),
        "no entry named missing"
    );
}

#[test]
fn multiline_set_keeps_every_byte_and_show_adds_one_newline() {
    let mut jar = Jar::new();
    let value = b"line one\nline two\n";
    jar.try_set("note", value, true).unwrap();

    assert_eq!(jar.get("note"), value);

    // The value already ends with a newline; show must not add a blank line.
    assert_eq!(show_output(jar.value("note").unwrap()), value);

    jar.set("bare", b"no newline");
    assert_eq!(show_output(jar.value("bare").unwrap()), b"no newline\n");
}

#[test]
fn ls_sorts_and_filters_by_path_component() {
    let mut jar = Jar::new();
    for name in ["work/db", "openai", "work/aws", "workshop/key"] {
        jar.set(name, b"x\n");
    }
    assert_eq!(jar.ls(None), "openai\nwork/aws\nwork/db\nworkshop/key\n");
    assert_eq!(jar.ls(Some("work")), "work/aws\nwork/db\n");
}

#[test]
fn an_empty_store_lists_nothing_and_succeeds() {
    let jar = Jar::new();
    assert_eq!(jar.ls(None), "");
}

#[test]
fn rm_refuses_a_pipe_without_force_and_prunes_with_it() {
    let mut jar = Jar::new();
    jar.set("work/only", b"x\n");

    // Automation deleting the wrong secret silently is the failure mode;
    // a pipe cannot confirm, so it must refuse.
    let err = message(jar.rm("work/only", false, None));
    assert!(err.contains("--force"), "{err}");
    assert_eq!(
        err,
        "refusing to remove work/only without --force when stdin is not a terminal"
    );
    assert!(jar.entry("work/only.age").is_some());

    jar.rm("work/only", true, None).unwrap();
    assert!(!jar.disk.has(&at(&jar.store, "work")));
    assert!(jar.disk.has(jar.store.dir()));
    assert_eq!(jar.said.last().unwrap(), "keyjar: removed work/only");

    assert_eq!(message(jar.rm("work/only", true, None)), "no entry named work/only");
}

#[test]
fn terminal_rm_honors_decline_and_confirmation() {
    let mut jar = Jar::new();
    jar.set("terminal", b"secret\n");

    jar.rm("terminal", false, Some("n\n")).unwrap();
    assert!(jar.said.last().unwrap().ends_with("remove terminal? [y/N] "));
    assert!(jar.entry("terminal.age").is_some());

    jar.rm("terminal", false, Some("YES\n")).unwrap();
    assert!(jar.entry("terminal.age").is_none());
}

#[test]
fn terminal_get_is_refused_by_default() {
    assert!(get_refusal(true, false).unwrap().contains("stdout is a terminal"));
}

#[test]
fn an_entry_that_vanishes_under_the_question_is_an_error() {
    let mut jar = Jar::new();
    jar.set("a", b"x\n");
    let seen = jar.disk.look(&jar.store, &[name("a")]);
    let Ok(Consent::Given(permit)) = rm_consent(&jar.store, &seen, &name("a"), true, false) else {
        panic!("not forced");
    };
    let plan = rm_plan(&jar.store, &seen, &name("a"), &permit).unwrap_or_else(|e| {
        panic!("{}", e.message());
    });
    jar.disk.nodes.remove(&at(&jar.store, "a.age"));
    let end = jar.disk.carry_out(plan);
    assert_eq!(
        rm_settle(&end, &name("a"), false).unwrap_err().message(),
        "no entry named a"
    );
}

#[test]
fn mv_renames_and_the_value_survives() {
    let mut jar = Jar::new();
    jar.set("work/deep/key", b"v\n");

    jar.mv("work/deep/key", "personal/key", false, None).unwrap();
    assert_eq!(jar.get("personal/key"), b"v");
    assert!(jar.value("work/deep/key").is_err());
    assert!(!jar.disk.has(&at(&jar.store, "work")));
    assert_eq!(
        jar.said.last().unwrap(),
        "keyjar: renamed work/deep/key to personal/key"
    );
}

#[test]
fn mv_onto_an_existing_entry_refuses_a_pipe_and_overwrites_with_force() {
    let mut jar = Jar::new();
    jar.set("a", b"one\n");
    jar.set("b", b"two\n");

    // A pipe cannot confirm the overwrite, so it must refuse.
    let err = message(jar.mv("a", "b", false, None));
    assert!(err.contains("--force"), "{err}");
    assert_eq!(jar.get("b"), b"two");

    jar.mv("a", "b", true, None).unwrap();
    assert_eq!(jar.get("b"), b"one");
    assert!(jar.value("a").is_err());
}

#[test]
fn terminal_mv_confirms_before_overwriting() {
    let mut jar = Jar::new();
    jar.set("a", b"one\n");
    jar.set("b", b"two\n");

    jar.mv("a", "b", false, Some("n\n")).unwrap();
    assert!(jar.said.last().unwrap().ends_with("overwrite b? [y/N] "));
    assert_eq!(jar.get("a"), b"one");
    assert_eq!(jar.get("b"), b"two");

    jar.mv("a", "b", false, Some("y\n")).unwrap();
    assert_eq!(jar.get("b"), b"one");
    assert!(jar.value("a").is_err());
}

#[test]
fn mv_to_the_same_name_is_an_error() {
    let mut jar = Jar::new();
    jar.set("a", b"one\n");
    let err = message(jar.mv("a", "a", false, None));
    assert!(err.contains("same"), "{err}");
    assert_eq!(jar.get("a"), b"one");
    assert_eq!(message(jar.mv("x", "b", false, None)), "no entry named x");
}

// A yes to one thing is no yes to another.
#[test]
fn a_permit_is_for_one_thing() {
    let mut jar = Jar::new();
    jar.set("a", b"one\n");
    jar.set("b", b"two\n");
    let both = names(&["a", "b"]);
    let seen = jar.disk.look(&jar.store, &both);
    let said = "consent was given to something else";
    for force in [true, false] {
        let Ok(consent) = rm_consent(&jar.store, &seen, &both[0], force, true) else {
            panic!("no consent");
        };
        let permit = jar.permit(consent, Some("y\n")).unwrap();
        match rm_plan(&jar.store, &seen, &both[1], &permit) {
            Ok(_) => panic!("removed another entry"),
            Err(e) => assert_eq!(e.message(), said),
        }
        match mv_plan(&jar.store, &seen, &both[0], &both[1], Some(&permit)) {
            Ok(_) => panic!("overwrote"),
            Err(e) => assert_eq!(e.message(), said),
        }
        match rekey_plan(&jar.store, &seen, &jar.identity, &jar.key_files(), &permit) {
            Ok(_) => panic!("rekeyed"),
            Err(e) => assert_eq!(e.message(), said),
        }
        assert!(rm_plan(&jar.store, &seen, &both[0], &permit).is_ok());
    }
}

#[test]
fn a_rekey_uses_the_key_it_is_given() {
    let mut jar = Jar::new();
    jar.set("a", b"one\n");
    let fresh = Identity::generate();
    let secret = fresh.secret().to_string();
    let seen = jar.disk.look(&jar.store, &[]);
    let files = jar.key_files();
    let Ok(Consent::Given(permit)) =
        rekey_consent(&jar.store, &seen, &jar.identity, &files, true, false)
    else {
        panic!("not forced");
    };
    let rekey = rekey_with(&jar.store, &seen, &jar.identity, &files, &permit, fresh)
        .unwrap_or_else(|e| panic!("{}", e.message()));
    assert_eq!(rekey.fresh.secret(), secret);
    assert_eq!(jar.disk.carry_out(rekey.plan), End::Complete);
    assert_eq!(jar.loaded_identity().unwrap_or_else(|e| panic!("{}", e.message())).secret(), secret);
    assert_eq!(jar.get("a"), b"one");
}

// The destination can appear after the look that found it free.
#[test]
fn mv_without_consent_never_overwrites() {
    let mut jar = Jar::new();
    jar.set("a", b"one\n");
    jar.set("b", b"two\n");
    let both = names(&["a", "b"]);
    let seen = jar.disk.look(&jar.store, &both);
    match mv_plan(&jar.store, &seen, &both[0], &both[1], None) {
        Ok(_) => panic!("overwrote"),
        Err(e) => assert_eq!(e.message(), "refusing to overwrite b without --force"),
    }
}

#[test]
fn env_emits_eval_safe_export_lines() {
    let mut jar = Jar::new();
    jar.set("work/aws-access-key", b"AKIA123\n");
    jar.set("openai", b"sk-1\n");

    assert_eq!(jar.env(Some("work")).0, "export AWS_ACCESS_KEY='AKIA123'\n");
    let (out, err) = jar.env(None);
    assert_eq!(
        out,
        "export OPENAI='sk-1'\nexport WORK_AWS_ACCESS_KEY='AKIA123'\n"
    );
    assert!(err.is_none());
}

#[test]
fn env_prefixes_select_strict_descendants() {
    let mut jar = Jar::new();
    jar.set("work", b"top\n");
    jar.set("work/token", b"nested\n");

    assert_eq!(jar.env(Some("work")).0, "export TOKEN='nested'\n");
}

#[test]
fn env_rejects_non_utf8_values() {
    let mut jar = Jar::new();
    jar.try_set("binary", b"\xff", true).unwrap();

    let (out, err) = jar.env(None);
    assert!(out.is_empty());
    let err = err.unwrap();
    assert!(err.message().contains("not valid UTF-8"), "{}", err.message());
    assert_eq!(
        err.message(),
        format!(
            "value for BINARY is not valid UTF-8: {}",
            String::from_utf8(b"\xff".to_vec()).unwrap_err()
        )
    );

    // What comes before it is printed.
    jar.set("alpha", b"a\n");
    let (out, err) = jar.env(None);
    assert_eq!(out, "export ALPHA='a'\n");
    assert!(err.is_some());
}

#[test]
fn environment_values_reject_nul_bytes() {
    let mut jar = Jar::new();
    jar.try_set("binary", b"before\0after", true).unwrap();

    let err = jar.variables(None).unwrap_err();
    assert!(err.message().contains("NUL byte"), "{}", err.message());
    assert_eq!(err.message(), "value for binary contains a NUL byte");
}

// A script that calls `keyjar run` on a machine with no secrets must not be
// the thing that mints an identity.
#[test]
fn empty_environment_selections_need_no_identity() {
    let jar = Jar::new();
    assert!(jar.variables(None).unwrap().is_empty());
    assert!(!jar.disk.has(IDENTITY));
}

#[test]
fn a_selection_needs_the_identity_of_the_store() {
    let mut jar = Jar::new();
    jar.set("a", b"1\n");
    jar.disk.nodes.remove(IDENTITY);
    let err = jar.variables(None).unwrap_err();
    assert!(err.message().starts_with("no identity at "), "{}", err.message());
    assert!(jar.variables(Some("work")).unwrap().is_empty());
}

#[test]
fn colliding_variable_names_are_an_error_not_a_skip() {
    let mut jar = Jar::new();
    jar.set("aws-key", b"a\n");
    jar.set("aws_key", b"b\n");
    let (out, err) = jar.env(None);
    assert!(out.is_empty());
    let err = err.unwrap();
    assert!(err.message().contains("both map to AWS_KEY"), "{}", err.message());
}

#[test]
fn an_entry_that_does_not_open_is_named() {
    let mut jar = Jar::new();
    jar.set("a", b"1\n");
    jar.disk.put(&at(&jar.store, "a.age"), b"garbage");
    let begins = "entry a: decrypting: ";
    let err = jar.value("a").unwrap_err();
    assert!(err.message().starts_with(begins), "{}", err.message());
    let err = jar.variables(None).unwrap_err();
    assert!(err.message().starts_with(begins), "{}", err.message());
    let before = jar.disk.clone();
    let err = message(jar.rekey(true, None));
    assert!(err.starts_with(begins), "{err}");
    assert_eq!(jar.disk, before);
}

// A second identity pointed at an existing store must fail before writing.
// Half the entries readable by one key and half by another is unrecoverable
// without noticing which is which.
#[test]
fn a_store_rejects_a_different_identity() {
    let mut jar = Jar::new();
    jar.set("first", b"one\n");
    let other = Identity::generate();
    jar.disk.put(
        b"/home/other-identity",
        format!("{}\n", other.secret()).as_bytes(),
    );

    jar.identity = b"/home/other-identity".to_vec();
    let err = message(jar.try_set("second", b"two\n", false));
    assert!(err.contains("does not match"), "{err}");
    assert!(jar.entry("second.age").is_none());
}

#[test]
fn rekey_round_trips_and_replaces_the_identity() {
    let mut jar = Jar::new();
    jar.set("openai", b"sk-1\n");
    jar.set("work/aws", b"AKIA\n");
    let before_identity = jar.identity_file();
    let entries = ["openai.age", "work/aws.age"];
    let before: Vec<_> = entries.iter().map(|e| jar.entry(e).unwrap()).collect();

    jar.rekey(true, None).unwrap();
    assert_eq!(jar.said.last().unwrap(), "keyjar: rekeyed 2 entries");

    // The whole key ring rotated: new key installed, old key kept, no .new.
    let after_identity = jar.identity_file();
    assert_ne!(after_identity, before_identity);
    let old = old_path(IDENTITY);
    assert_eq!(jar.disk.file(&old).unwrap(), before_identity.into_bytes());
    assert!(!jar.disk.has(b"/home/config/keyjar/identity.new"));

    // The store followed: marker and every ciphertext rewritten.
    assert_eq!(jar.marker(), format!("{}\n", public_key_of(&after_identity)));
    for (entry, before) in entries.iter().zip(&before) {
        assert_ne!(&jar.entry(entry).unwrap(), before, "{entry}");
    }
    assert_eq!(jar.get("openai"), b"sk-1");
    assert_eq!(jar.get("work/aws"), b"AKIA");

    // The old key can no longer open the store.
    jar.identity = old;
    let err = jar.value("openai").unwrap_err();
    assert!(err.message().contains("does not match"), "{}", err.message());
}

#[test]
fn rekey_refuses_a_pipe_without_force() {
    let mut jar = Jar::new();
    jar.set("k", b"v\n");
    let before = jar.disk.clone();

    let err = message(jar.rekey(false, None));
    assert!(err.contains("--force"), "{err}");
    assert_eq!(jar.disk, before);
    assert_eq!(jar.get("k"), b"v");
}

#[test]
fn terminal_rekey_confirms() {
    let mut jar = Jar::new();
    jar.set("k", b"v\n");
    let before = jar.disk.clone();

    jar.rekey(false, Some("n\n")).unwrap();
    assert!(jar.said.last().unwrap().ends_with("replace the identity? [y/N] "));
    assert_eq!(jar.disk, before);

    let identity = jar.identity_file();
    jar.rekey(false, Some("y\n")).unwrap();
    assert_ne!(jar.identity_file(), identity);
    assert_eq!(jar.get("k"), b"v");
}

#[test]
fn rekey_with_no_store_is_an_error() {
    let mut jar = Jar::new();
    // Mint the identity through another store so the emptiness path is
    // reached, not the missing-identity one.
    let err = message(jar.rekey(true, None));
    assert!(err.starts_with("no identity at "), "{err}");
    jar.store = Store::open(b"/home/other-store".to_vec());
    jar.set("k", b"v\n");
    jar.store = Store::open(b"/home/data/keyjar".to_vec());
    let before = jar.disk.clone();

    let err = message(jar.rekey(true, None));
    assert!(err.contains("empty"), "{err}");
    assert_eq!(jar.disk, before);
    jar.disk.make_dirs(b"/home/data/keyjar").unwrap();
    assert!(message(jar.rekey(true, None)).contains("empty"));
}

// A store whose last entry was removed is still bound to its key; the marker
// must follow the identity or the next set would bind to a dead key.
#[test]
fn rekey_after_removing_every_entry_still_rotates() {
    let mut jar = Jar::new();
    jar.set("k", b"v\n");
    jar.rm("k", true, None).unwrap();
    let before = jar.identity_file();

    jar.rekey(true, None).unwrap();
    assert_eq!(jar.said.last().unwrap(), "keyjar: rekeyed 0 entries");
    let after = jar.identity_file();
    assert_ne!(after, before);
    assert_eq!(jar.marker(), format!("{}\n", public_key_of(&after)));
    jar.set("k2", b"v2\n");
    assert_eq!(jar.get("k2"), b"v2");
}

#[test]
fn a_leftover_new_identity_blocks_rekey() {
    let mut jar = Jar::new();
    jar.set("k", b"v\n");
    let new = b"/home/config/keyjar/identity.new";

    // An unreadable .new means entries may be split between the keys.
    jar.disk.put(new, b"garbage");
    let before = jar.disk.clone();
    let err = message(jar.rekey(true, None));
    assert!(err.contains("identity.new"), "{err}");
    assert!(err.contains("split"), "{err}");
    assert_eq!(jar.disk, before);
    assert_eq!(jar.get("k"), b"v");

    // So does a readable one that does not own the store.
    let done = Identity::generate();
    jar.disk.put(new, format!("{}\n", done.secret()).as_bytes());
    assert!(message(jar.rekey(true, None)).contains("split"));

    // A .new matching the marker means the rotation finished and only the
    // file swap remains; the advice must say exactly that.
    let marker = format!("{}\n", done.to_public().as_str());
    jar.disk.put(&jar.store.marker_path(), marker.as_bytes());
    let err = message(jar.rekey(true, None));
    assert!(err.contains("finish it"), "{err}");
}

#[test]
fn a_leftover_old_identity_blocks_rekey() {
    let mut jar = Jar::new();
    jar.set("k", b"v\n");
    jar.disk.put(b"/home/config/keyjar/identity.old", b"x");
    let before = jar.disk.clone();

    let err = message(jar.rekey(true, None));
    assert!(err.contains("identity.old"), "{err}");
    assert_eq!(jar.disk, before);
    assert_eq!(jar.get("k"), b"v");
}

#[test]
fn rekey_refuses_a_store_that_is_not_its_own() {
    let mut jar = Jar::new();
    jar.set("k", b"v\n");
    let marker = jar.disk.file(&jar.store.marker_path()).unwrap();
    jar.disk.nodes.remove(&jar.store.marker_path());
    assert_eq!(
        message(jar.rekey(true, None)),
        "store has entries but no recipient marker"
    );
    jar.disk.put(&jar.store.marker_path(), &marker);
    let other = Identity::generate();
    jar.disk.put(IDENTITY, format!("{}\n", other.secret()).as_bytes());
    assert!(message(jar.rekey(true, None)).contains("does not match"));
}

// Break a rekey off after each of its steps: every value must still be
// readable with one of the keys on disk.
#[test]
fn an_interrupted_rekey_loses_nothing() {
    for steps in 0..7 {
        let mut jar = Jar::new();
        jar.set("a", b"one\n");
        jar.set("b", b"two\n");
        let (plan, _) = jar.planned_rekey(true, None).unwrap().unwrap();
        assert_eq!(plan.changes.len(), 6);
        let mut run = Run::begin(plan);
        for _ in 0..steps {
            if let Some(change) = run.next() {
                let outcome = jar.disk.apply(&change);
                assert!(matches!(outcome, Outcome::Done));
                run = run.report(outcome);
            }
        }
        let keys: Vec<Identity> = [IDENTITY.to_vec(), new_path(IDENTITY), old_path(IDENTITY)]
            .iter()
            .filter_map(|path| load_identity(path, &jar.disk.read(path)).ok())
            .collect();
        for (entry, value) in [("a.age", b"one"), ("b.age", b"two")] {
            let ciphertext = jar.entry(entry).unwrap();
            assert!(
                keys.iter()
                    .any(|key| decrypt(key, &ciphertext).as_deref() == Ok(value)),
                "{entry} is lost after {steps} steps"
            );
        }
        if (1..6).contains(&steps) {
            let err = message(jar.rekey(true, None));
            let told = if steps < 4 { "split" } else { "finish it" };
            assert!(err.contains(told), "{steps}: {err}");
        }
    }
}

#[test]
fn a_rekey_that_fails_says_why() {
    for (end, said) in [
        (End::Missing, "a file vanished during the rekey"),
        (End::Taken, "a file is in the way"),
        (End::Failed("disk full".to_string()), "disk full"),
    ] {
        assert_eq!(rekey_settle(&end, 1, false).unwrap_err().message(), said);
    }
}

#[test]
fn edit_creates_updates_and_aborts_cleanly() {
    let mut jar = Jar::new();
    jar.edit("fresh", Some("editor"), |initial| {
        assert!(initial.is_empty());
        Editor::Left(b"created\n".to_vec())
    })
    .unwrap();
    assert_eq!(jar.get("fresh"), b"created\n");
    assert_eq!(jar.said.last().unwrap(), "keyjar: stored fresh");

    // A failing editor must leave the entry untouched.
    let err = message(jar.edit("fresh", Some("failing"), |_| {
        Editor::Failed("exit status: 1".to_string())
    }));
    assert!(err.contains("value unchanged"), "{err}");
    assert_eq!(jar.get("fresh"), b"created\n");
}

#[test]
fn an_unchanged_edit_does_not_replace_the_ciphertext() {
    let mut jar = Jar::new();
    jar.set("same", b"value\n");
    let before = jar.entry("same.age");

    jar.edit("same", Some("true"), |initial| Editor::Left(initial.to_vec()))
        .unwrap();
    assert_eq!(jar.said.last().unwrap(), "keyjar: same unchanged");
    assert_eq!(jar.entry("same.age"), before);
}

#[test]
fn edit_without_an_editor_is_an_error() {
    let mut jar = Jar::new();
    let err = message(jar.edit("x", None, |_| panic!("no editor to run")));
    assert!(err.contains("EDITOR"), "{err}");
}

#[test]
fn cli_the_store_flag_beats_the_env_var() {
    let mut jar = Jar::new();
    let flag = Some(b"/home/flag-store".to_vec());
    let env_store = Some(b"/home/env-store".to_vec());
    jar.store = Store::open(store_dir_from(flag.clone(), env_store, None, None).unwrap());
    jar.set("key", b"v\n");
    assert!(jar.disk.has(b"/home/flag-store/key.age"));
    assert!(!jar.disk.has(b"/home/env-store"));

    // Without the flag the env var takes over.
    jar.store = Store::open(store_dir_from(None, flag, None, None).unwrap());
    assert_eq!(jar.ls(None), "key\n");
}

#[test]
fn quiet_silences_notices_but_not_errors() {
    let mut jar = Jar::new();
    jar.quiet = true;
    jar.set("openai", b"x\n");
    assert!(jar.said.is_empty());
    assert!(jar.value("missing").is_err());
}
