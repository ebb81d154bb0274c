//! A store: which file holds which entry, what may be read and written, and by
//! whom. A store carries a recipient marker as soon as it has an entry, and
//! belongs to that recipient.

use vstd::prelude::*;
use vstd::string::*;

use crate::components;
use crate::crypt;
use crate::crypt::Recipient;
use crate::env;
use crate::error;
use crate::error::Error;
use crate::host;
use crate::host::{Change, Effect, FileRead, Outcome, Seen, Sight};
use crate::name;
use crate::name::{Name, Namespace};
use crate::order;
use crate::paths;
use crate::plan;
use crate::plan::{End, Plan};
use crate::text;

verus! {

// ---------------------------------------------------------------------------
// Paths

/// A store directory. One entry per file, name to relative path.
pub struct Store {
    dir: Vec<u8>,
}

impl View for Store {
    type V = Seq<u8>;

    closed spec fn view(&self) -> Seq<u8> {
        self.dir@
    }
}

/// The file of an entry.
pub open spec fn entry_at(dir: Seq<u8>, name: Seq<char>) -> Seq<u8> {
    paths::joined(dir, text::utf8(name + ".age"@))
}

/// The file that says whom the store belongs to.
pub open spec fn marker_at(dir: Seq<u8>) -> Seq<u8> {
    paths::joined(dir, text::utf8(".keyjar-recipient"@))
}

/// The file that is locked while the store is in use.
pub open spec fn lock_at(dir: Seq<u8>) -> Seq<u8> {
    paths::joined(dir, text::utf8(".keyjar.lock"@))
}

/// The name in a relative path, if the path is that of an entry.
pub open spec fn name_in(relative: Seq<char>) -> Option<Seq<char>> {
    let cut = relative.len() - 4;
    if cut >= 0 && relative.skip(cut) == ".age"@ && name::valid(relative.take(cut)) {
        Some(relative.take(cut))
    } else {
        None
    }
}

/// The name of the entry that a file is for, if it is for one: the file is in the
/// store, by its components, and its path there is spelled as that of an entry.
pub open spec fn name_at(dir: Seq<u8>, path: Seq<u8>) -> Option<Seq<char>> {
    match components::within(dir, path) {
        Some(rest) => if vstd::utf8::valid_utf8(rest) {
            name_in(vstd::utf8::decode_utf8(rest))
        } else {
            None
        },
        None => None,
    }
}

/// The directories between the store and the file of an entry, deepest first.
pub open spec fn parents(dir: Seq<u8>, name: Seq<char>) -> Seq<Seq<u8>>
    decreases name.len(),
{
    if name.len() == 0 {
        Seq::empty()
    } else if name.last() == '/' {
        seq![paths::joined(dir, text::utf8(name.drop_last()))] + parents(dir, name.drop_last())
    } else {
        parents(dir, name.drop_last())
    }
}

impl Store {
    /// Nothing happens on disk; directories appear on the first write.
    pub fn open(dir: Vec<u8>) -> (r: Store)
        ensures
            r@ == dir@,
    {
        Store { dir }
    }

    pub fn dir(&self) -> (r: &[u8])
        ensures
            r@ == self@,
    {
        self.dir.as_slice()
    }

    pub fn entry_path(&self, name: &Name) -> (r: Vec<u8>)
        ensures
            r@ == entry_at(self@, name@),
    {
        let mut file: String = name.as_str().to_owned();
        file.append(".age");
        paths::join(self.dir.as_slice(), file.as_str().as_bytes())
    }

    pub fn marker_path(&self) -> (r: Vec<u8>)
        ensures
            r@ == marker_at(self@),
    {
        paths::join(self.dir.as_slice(), ".keyjar-recipient".as_bytes())
    }

    pub fn lock_path(&self) -> (r: Vec<u8>)
        ensures
            r@ == lock_at(self@),
    {
        paths::join(self.dir.as_slice(), ".keyjar.lock".as_bytes())
    }

    /// The name of the entry that a file is for. A stray file is for none.
    pub fn name_of(&self, path: &[u8]) -> (r: Option<Name>)
        ensures
            match name_at(self@, path@) {
                Some(name) => r matches Some(n) && n@ == name,
                None => r is None,
            },
    {
        let relative: Vec<u8> = match components::strip_dir(
            self.dir.as_slice(),
            path,
        ) {
            Some(relative) => relative,
            None => {
                return None;
            },
        };
        let relative: String = match text::decode(relative.as_slice()) {
            Ok(relative) => relative,
            Err(_) => {
                return None;
            },
        };
        proof {
            vstd::utf8::encode_utf8_decode_utf8(relative@);
            reveal_strlit(".age");
        }
        let mut chars: Vec<char> = text::chars_of(relative.as_str());
        let count: usize = chars.len();
        if count < 4 || chars[count - 4] != '.' || chars[count - 3] != 'a' || chars[count - 2]
            != 'g' || chars[count - 1] != 'e' {
            proof {
                let cut = relative@.len() - 4;
                if cut >= 0 && relative@.skip(cut) == ".age"@ {
                    assert(relative@.skip(cut)[0] == '.');
                    assert(relative@.skip(cut)[1] == 'a');
                    assert(relative@.skip(cut)[2] == 'g');
                    assert(relative@.skip(cut)[3] == 'e');
                }
            }
            return None;
        }
        proof {
            assert(relative@.skip(relative@.len() - 4) =~= ".age"@);
        }
        chars.truncate(count - 4);
        proof {
            assert(chars@ =~= relative@.take(relative@.len() - 4));
        }
        let name: String = text::text_of(chars.as_slice());
        match Name::parse(name.as_str()) {
            Ok(name) => Some(name),
            Err(_) => None,
        }
    }
}

// ---------------------------------------------------------------------------
// Whom the store belongs to

/// The one line of a marker: not empty, and ended by the only newline.
pub open spec fn marker_line(contents: Seq<char>) -> Option<Seq<char>> {
    let line = contents.drop_last();
    if contents.len() >= 2 && contents.last() == '\n' && !line.contains('\n') {
        Some(line)
    } else {
        None
    }
}

/// What a marker holds: the line that names the recipient.
pub open spec fn marker_text(recipient: Seq<char>) -> Seq<char> {
    recipient + "\n"@
}

/// The recipient that the bytes of a marker name, or what is wrong with them.
pub open spec fn marker_recipient(path: Seq<u8>, bytes: Seq<u8>) -> Result<Seq<char>, Seq<char>> {
    if !vstd::utf8::valid_utf8(bytes) {
        Err(error::at_text("reading "@, path, "stream did not contain valid UTF-8"@))
    } else {
        match marker_line(vstd::utf8::decode_utf8(bytes)) {
            None => Err("malformed store recipient marker"@),
            Some(line) => match crypt::recipient_of(line) {
                Ok(recipient) => Ok(recipient),
                Err(reason) => Err("malformed store recipient marker: "@ + reason),
            },
        }
    }
}

/// The recipient that a store belongs to; `None` if it has no marker.
pub open spec fn owner_seen(seen: Seen, dir: Seq<u8>) -> Result<Option<Seq<char>>, Seq<char>> {
    match seen.file(marker_at(dir)) {
        Sight::Missing(_) => Ok(None),
        Sight::Failed(reason) => Err(error::at_text("reading "@, marker_at(dir), reason)),
        Sight::Bytes(bytes) => match marker_recipient(marker_at(dir), bytes) {
            Ok(recipient) => Ok(Some(recipient)),
            Err(message) => Err(message),
        },
    }
}

/// Why a recipient may not use a store, if it may not. A missing marker over an
/// empty store is a fresh store; a missing marker over entries means that the
/// store was tampered with or half copied.
pub open spec fn refusal(seen: Seen, dir: Seq<u8>, recipient: Seq<char>) -> Option<Seq<char>> {
    match owner_seen(seen, dir) {
        Err(message) => Some(message),
        Ok(Some(owner)) => if crypt::same_recipient(owner, recipient) {
            None
        } else {
            Some("selected identity does not match the store recipient"@)
        },
        Ok(None) => match seen.listing() {
            Err(message) => Some(message),
            Ok(names) => if names.len() == 0 {
                None
            } else {
                Some("store has entries but no recipient marker"@)
            },
        },
    }
}

/// Why a recipient may not write to a store, if it may not. A store whose marker is
/// there belongs to somebody; one without is free if it has no entries.
pub open spec fn binding_refusal(seen: Seen, dir: Seq<u8>, recipient: Seq<char>) -> Option<
    Seq<char>,
> {
    if seen.marker {
        refusal(seen, dir, recipient)
    } else {
        match seen.listing() {
            Err(message) => Some(message),
            Ok(names) => if names.len() == 0 {
                None
            } else {
                Some("store has entries but no recipient marker"@)
            },
        }
    }
}

/// The message of a refusal, if it is one.
pub open spec fn refused(r: Result<(), Error>) -> Option<Seq<char>> {
    match r {
        Ok(_) => None,
        Err(e) => Some(e@),
    }
}

/// The line of a marker.
fn line_of(contents: &str) -> (r: Option<String>)
    ensures
        match marker_line(contents@) {
            Some(line) => r matches Some(s) && s@ == line,
            None => r is None,
        },
{
    let mut chars: Vec<char> = text::chars_of(contents);
    if chars.len() < 2 || chars[chars.len() - 1] != '\n' {
        return None;
    }
    chars.pop();
    let mut i: usize = 0;
    while i < chars.len()
        invariant
            i <= chars@.len(),
            forall|j: int| 0 <= j < i ==> chars@[j] != '\n',
            chars@ == contents@.drop_last(),
        decreases chars@.len() - i,
    {
        if chars[i] == '\n' {
            return None;
        }
        i = i + 1;
    }
    Some(text::text_of(chars.as_slice()))
}

impl Store {
    /// The recipient that the store belongs to, as its marker says.
    pub fn owner(&self, seen: &Seen) -> (r: Result<Option<Recipient>, Error>)
        ensures
            match owner_seen(*seen, self@) {
                Ok(Some(owner)) => r matches Ok(Some(recipient)) && recipient@ == owner,
                Ok(None) => r matches Ok(None),
                Err(message) => r matches Err(e) && e@ == message,
            },
    {
        let path: Vec<u8> = self.marker_path();
        match seen.look(path.as_slice()) {
            None => Ok(None),
            Some(FileRead::Missing(_)) => Ok(None),
            Some(FileRead::Failed(reason)) => Err(
                Error::at("reading ", path.as_slice(), reason.as_str()),
            ),
            Some(FileRead::Bytes(bytes)) => match text::decode(bytes.as_slice()) {
                Err(_) => Err(
                    Error::at("reading ", path.as_slice(), "stream did not contain valid UTF-8"),
                ),
                Ok(contents) => {
                    proof {
                        vstd::utf8::encode_utf8_decode_utf8(contents@);
                    }
                    match line_of(contents.as_str()) {
                        None => Err(Error::of("malformed store recipient marker")),
                        Some(line) => match Recipient::parse(line.as_str()) {
                            Ok(recipient) => Ok(Some(recipient)),
                            Err(reason) => Err(
                                Error::during(
                                    "malformed store recipient marker: ",
                                    reason.as_str(),
                                ),
                            ),
                        },
                    }
                },
            },
        }
    }

    /// Refuse a recipient that the store does not belong to. Without this a
    /// second identity would write entries that nothing can decrypt as a set.
    pub fn check_recipient(&self, seen: &Seen, recipient: &Recipient) -> (r: Result<(), Error>)
        ensures
            refused(r) == refusal(*seen, self@, recipient@),
    {
        match self.owner(seen) {
            Err(e) => Err(e),
            Ok(Some(owner)) => if owner.same_as(recipient) {
                Ok(())
            } else {
                Err(Error::of("selected identity does not match the store recipient"))
            },
            Ok(None) => match &seen.names {
                Err(reason) => Err(Error::of(reason.as_str())),
                Ok(names) => if names.len() == 0 {
                    Ok(())
                } else {
                    Err(Error::of("store has entries but no recipient marker"))
                },
            },
        }
    }

    /// The same rule where no identity is at hand: an unmarked pile of
    /// ciphertext is not a store.
    pub fn check_marker_exists(&self, seen: &Seen, names: &[Name]) -> (r: Result<(), Error>)
        ensures
            refused(r) == (if names@.len() > 0 && !seen.marker {
                Some("store has entries but no recipient marker"@)
            } else {
                None
            }),
    {
        if names.len() > 0 && !seen.marker {
            return Err(Error::of("store has entries but no recipient marker"));
        }
        Ok(())
    }
}

// ---------------------------------------------------------------------------
// Reading

/// The entries of a store that may be used: none if there is no store, and an
/// error where the entries are unmarked.
pub open spec fn entries_seen(seen: Seen, dir: Seq<u8>) -> Result<Seq<Seq<char>>, Seq<char>> {
    if !seen.exists {
        Ok(Seq::empty())
    } else {
        match seen.listing() {
            Err(message) => Err(message),
            Ok(names) => if names.len() > 0 && !seen.marker {
                Err("store has entries but no recipient marker"@)
            } else {
                Ok(names)
            },
        }
    }
}

/// The ciphertext of an entry, if there is one.
pub open spec fn ciphertext_seen(seen: Seen, dir: Seq<u8>, name: Seq<char>) -> Result<
    Option<Seq<u8>>,
    Seq<char>,
> {
    match seen.file(entry_at(dir, name)) {
        Sight::Bytes(bytes) => Ok(Some(bytes)),
        Sight::Missing(_) => Ok(None),
        Sight::Failed(reason) => Err(error::at_text("reading "@, entry_at(dir, name), reason)),
    }
}

/// Whether an entry is there; an entry that cannot be read is an error.
pub open spec fn contained(seen: Seen, dir: Seq<u8>, name: Seq<char>) -> Result<bool, Seq<char>> {
    if !seen.exists {
        Ok(false)
    } else {
        match entries_seen(seen, dir) {
            Err(message) => Err(message),
            Ok(_) => match ciphertext_seen(seen, dir, name) {
                Ok(ciphertext) => Ok(ciphertext is Some),
                Err(message) => Err(message),
            },
        }
    }
}

/// What a recipient reads of an entry.
pub open spec fn read_seen(
    seen: Seen,
    dir: Seq<u8>,
    name: Seq<char>,
    recipient: Seq<char>,
) -> Result<Option<Seq<u8>>, Seq<char>> {
    if !seen.exists {
        Ok(None)
    } else {
        match refusal(seen, dir, recipient) {
            Some(message) => Err(message),
            None => ciphertext_seen(seen, dir, name),
        }
    }
}

/// Whether a name is at or below a prefix; without a prefix every name is.
pub open spec fn listed(prefix: Option<Seq<char>>, name: Seq<char>) -> bool {
    match prefix {
        Some(prefix) => name::at_or_below(name, prefix),
        None => true,
    }
}

/// The names at or below a prefix, or all names.
pub open spec fn at_or_below(names: Seq<Seq<char>>, prefix: Option<Seq<char>>) -> Seq<Seq<char>> {
    names.filter(|n: Seq<char>| listed(prefix, n))
}

/// Whether a name is strictly below a namespace; without one every name is.
pub open spec fn chosen(namespace: Option<Seq<char>>, name: Seq<char>) -> bool {
    match namespace {
        Some(namespace) => name::below(name, namespace) is Some,
        None => true,
    }
}

/// The names strictly below a namespace, or all names.
pub open spec fn strictly_below(names: Seq<Seq<char>>, namespace: Option<Seq<char>>) -> Seq<
    Seq<char>,
> {
    names.filter(|n: Seq<char>| chosen(namespace, n))
}

pub open spec fn name_text(name: Option<&Name>) -> Option<Seq<char>> {
    match name {
        Some(name) => Some(name@),
        None => None,
    }
}

/// A sequence of names, or what came instead.
pub open spec fn names_told(r: Result<Vec<Name>, Error>) -> Result<Seq<Seq<char>>, Seq<char>> {
    match r {
        Ok(names) => Ok(order::texts(names@)),
        Err(e) => Err(e@),
    }
}

proof fn one_more_listed(names: Seq<Name>, i: int, prefix: Option<Seq<char>>)
    requires
        0 <= i < names.len(),
    ensures
        at_or_below(order::texts(names.take(i + 1)), prefix) == (if listed(prefix, names[i]@) {
            at_or_below(order::texts(names.take(i)), prefix).push(names[i]@)
        } else {
            at_or_below(order::texts(names.take(i)), prefix)
        }),
{
    reveal(Seq::filter);
    assert(order::texts(names.take(i + 1)).drop_last() =~= order::texts(names.take(i)));
}

proof fn one_more_chosen(names: Seq<Name>, i: int, namespace: Option<Seq<char>>)
    requires
        0 <= i < names.len(),
    ensures
        strictly_below(order::texts(names.take(i + 1)), namespace) == (if chosen(
            namespace,
            names[i]@,
        ) {
            strictly_below(order::texts(names.take(i)), namespace).push(names[i]@)
        } else {
            strictly_below(order::texts(names.take(i)), namespace)
        }),
{
    reveal(Seq::filter);
    assert(order::texts(names.take(i + 1)).drop_last() =~= order::texts(names.take(i)));
}

impl Store {
    /// The entries, once the marker has been looked for.
    fn entries<'a>(&self, seen: &'a Seen) -> (r: Result<&'a [Name], Error>)
        requires
            seen.exists,
        ensures
            match entries_seen(*seen, self@) {
                Ok(names) => r matches Ok(n) && order::texts(n@) == names,
                Err(message) => r matches Err(e) && e@ == message,
            },
    {
        match &seen.names {
            Err(reason) => Err(Error::of(reason.as_str())),
            Ok(names) => match self.check_marker_exists(seen, names.as_slice()) {
                Ok(()) => Ok(names.as_slice()),
                Err(e) => Err(e),
            },
        }
    }

    /// The ciphertext of an entry, if there is one.
    pub(crate) fn ciphertext(&self, seen: &Seen, name: &Name) -> (r: Result<Option<Vec<u8>>, Error>)
        ensures
            match ciphertext_seen(*seen, self@, name@) {
                Ok(Some(bytes)) => r matches Ok(Some(b)) && b@ == bytes,
                Ok(None) => r matches Ok(None),
                Err(message) => r matches Err(e) && e@ == message,
            },
    {
        let path: Vec<u8> = self.entry_path(name);
        match seen.look(path.as_slice()) {
            None => Ok(None),
            Some(FileRead::Missing(_)) => Ok(None),
            Some(FileRead::Bytes(bytes)) => Ok(Some(text::copy_of(bytes.as_slice()))),
            Some(FileRead::Failed(reason)) => Err(
                Error::at("reading ", path.as_slice(), reason.as_str()),
            ),
        }
    }

    /// Existence without decryption, so that removing works with no identity at
    /// hand.
    pub fn contains(&self, seen: &Seen, name: &Name) -> (r: Result<bool, Error>)
        ensures
            match contained(*seen, self@, name@) {
                Ok(there) => r matches Ok(b) && b == there,
                Err(message) => r matches Err(e) && e@ == message,
            },
    {
        if !seen.exists {
            return Ok(false);
        }
        match self.entries(seen) {
            Err(e) => Err(e),
            Ok(_) => match self.ciphertext(seen, name) {
                Ok(ciphertext) => Ok(ciphertext.is_some()),
                Err(e) => Err(e),
            },
        }
    }

    /// One ciphertext, once the identity has been found to belong to this store.
    pub fn read(&self, seen: &Seen, name: &Name, recipient: &Recipient) -> (r: Result<
        Option<Vec<u8>>,
        Error,
    >)
        ensures
            match read_seen(*seen, self@, name@, recipient@) {
                Ok(Some(bytes)) => r matches Ok(Some(b)) && b@ == bytes,
                Ok(None) => r matches Ok(None),
                Err(message) => r matches Err(e) && e@ == message,
            },
    {
        if !seen.exists {
            return Ok(None);
        }
        match self.check_recipient(seen, recipient) {
            Err(e) => Err(e),
            Ok(()) => self.ciphertext(seen, name),
        }
    }

    /// The names, sorted as they were seen. A missing store lists as empty: on a
    /// fresh machine a listing says nothing, it does not fail.
    pub fn list(&self, seen: &Seen, prefix: Option<&Name>) -> (r: Result<Vec<Name>, Error>)
        ensures
            names_told(r) == match entries_seen(*seen, self@) {
                Ok(names) => Ok(at_or_below(names, name_text(prefix))),
                Err(message) => Err(message),
            },
    {
        let mut out: Vec<Name> = Vec::new();
        proof {
            assert(order::texts(out@) =~= at_or_below(
                Seq::empty(),
                name_text(prefix),
            ));
        }
        if !seen.exists {
            return Ok(out);
        }
        match self.entries(seen) {
            Err(e) => Err(e),
            Ok(names) => {
                let mut i: usize = 0;
                proof {
                    assert(order::texts(names@.take(0)) =~= Seq::<Seq<char>>::empty());
                }
                while i < names.len()
                    invariant
                        i <= names@.len(),
                        order::texts(out@) == at_or_below(order::texts(names@.take(i as int)), name_text(prefix)),
                    decreases names@.len() - i,
                {
                    let kept: bool = match prefix {
                        Some(prefix) => names[i].is_at_or_below(prefix),
                        None => true,
                    };
                    proof {
                        one_more_listed(names@, i as int, name_text(prefix));
                    }
                    if kept {
                        let ghost before = out@;
                        out.push(names[i].clone());
                        proof {
                            assert(order::texts(out@) =~= order::texts(before).push(
                                names@[i as int]@,
                            ));
                        }
                    }
                    i = i + 1;
                }
                proof {
                    assert(names@.take(i as int) =~= names@);
                }
                Ok(out)
            },
        }
    }

    /// The names strictly below a namespace.
    pub fn list_namespace(&self, seen: &Seen, namespace: Option<&Namespace>) -> (r: Result<
        Vec<Name>,
        Error,
    >)
        ensures
            names_told(r) == match entries_seen(*seen, self@) {
                Ok(names) => Ok(strictly_below(names, env::optional(namespace))),
                Err(message) => Err(message),
            },
    {
        if !seen.exists {
            let none: Vec<Name> = Vec::new();
            proof {
                assert(order::texts(none@) =~= strictly_below(
                    Seq::<Seq<char>>::empty(),
                    env::optional(namespace),
                ));
            }
            return Ok(none);
        }
        match self.entries(seen) {
            Err(e) => Err(e),
            Ok(names) => Ok(select(names, namespace)),
        }
    }
}

/// The names strictly below a namespace, or all of them.
fn select(names: &[Name], namespace: Option<&Namespace>) -> (r: Vec<Name>)
    ensures
        order::texts(r@) == strictly_below(order::texts(names@), env::optional(namespace)),
{
    let mut out: Vec<Name> = Vec::new();
    let mut i: usize = 0;
    proof {
        assert(order::texts(out@) =~= strictly_below(Seq::empty(), env::optional(namespace)));
        assert(order::texts(names@.take(0)) =~= Seq::<Seq<char>>::empty());
    }
    while i < names.len()
        invariant
            i <= names@.len(),
            order::texts(out@) == strictly_below(order::texts(names@.take(i as int)), env::optional(namespace)),
        decreases names@.len() - i,
    {
        let kept: bool = match namespace {
            Some(namespace) => namespace.contains(&names[i]),
            None => true,
        };
        proof {
            one_more_chosen(names@, i as int, env::optional(namespace));
        }
        if kept {
            let ghost before = out@;
            out.push(names[i].clone());
            proof {
                assert(order::texts(out@) =~= order::texts(before).push(names@[i as int]@));
            }
        }
        i = i + 1;
    }
    proof {
        assert(names@.take(i as int) =~= names@);
    }
    out
}

/// Why an entry cannot be captured, if it cannot.
pub open spec fn capture_fault(seen: Seen, dir: Seq<u8>, name: Seq<char>) -> Option<Seq<char>> {
    match ciphertext_seen(seen, dir, name) {
        Ok(Some(_)) => None,
        Ok(None) => Some("entry vanished while the store was locked"@),
        Err(message) => Some(message),
    }
}

/// The first reason why not all entries can be captured.
pub open spec fn first_capture_fault(seen: Seen, dir: Seq<u8>, names: Seq<Seq<char>>) -> Option<
    Seq<char>,
>
    decreases names.len(),
{
    if names.len() == 0 {
        None
    } else {
        match capture_fault(seen, dir, names[0]) {
            Some(message) => Some(message),
            None => first_capture_fault(seen, dir, names.drop_first()),
        }
    }
}

/// Names with their ciphertexts.
pub open spec fn captured(seen: Seen, dir: Seq<u8>, names: Seq<Seq<char>>) -> Seq<
    (Seq<char>, Seq<u8>),
> {
    names.map_values(|n: Seq<char>| (n, ciphertext_seen(seen, dir, n)->Ok_0->Some_0))
}

/// The names strictly below a namespace with their ciphertexts, for the owner.
pub open spec fn snapshot_seen(
    seen: Seen,
    dir: Seq<u8>,
    namespace: Option<Seq<char>>,
    recipient: Seq<char>,
) -> Result<Seq<(Seq<char>, Seq<u8>)>, Seq<char>> {
    if !seen.exists {
        Ok(Seq::empty())
    } else {
        match refusal(seen, dir, recipient) {
            Some(message) => Err(message),
            None => match seen.listing() {
                Err(message) => Err(message),
                Ok(names) => {
                    let names = strictly_below(names, namespace);
                    match first_capture_fault(seen, dir, names) {
                        Some(message) => Err(message),
                        None => Ok(captured(seen, dir, names)),
                    }
                },
            },
        }
    }
}

/// Where all entries can be captured, each has a ciphertext.
pub proof fn captured_entries_are_there(seen: Seen, dir: Seq<u8>, names: Seq<Seq<char>>)
    requires
        first_capture_fault(seen, dir, names) is None,
    ensures
        forall|i: int|
            0 <= i < names.len() ==> ciphertext_seen(seen, dir, #[trigger] names[i]) matches Ok(
                Some(_),
            ),
    decreases names.len(),
{
    if names.len() > 0 {
        let rest = names.drop_first();
        captured_entries_are_there(seen, dir, rest);
        assert forall|i: int| 0 <= i < names.len() implies ciphertext_seen(
            seen,
            dir,
            #[trigger] names[i],
        ) matches Ok(Some(_)) by {
            if i > 0 {
                assert(rest[i - 1] == names[i]);
            }
        }
    }
}

pub open spec fn entry_views(entries: Seq<(Name, Vec<u8>)>) -> Seq<(Seq<char>, Seq<u8>)> {
    entries.map_values(|e: (Name, Vec<u8>)| (e.0@, e.1@))
}

impl Store {
    /// Names and ciphertexts as they were under one lock.
    pub fn snapshot(
        &self,
        seen: &Seen,
        namespace: Option<&Namespace>,
        recipient: &Recipient,
    ) -> (r: Result<Vec<(Name, Vec<u8>)>, Error>)
        ensures
            match snapshot_seen(*seen, self@, env::optional(namespace), recipient@) {
                Ok(entries) => r matches Ok(e) && entry_views(e@) == entries,
                Err(message) => r matches Err(e) && e@ == message,
            },
    {
        if !seen.exists {
            let none: Vec<(Name, Vec<u8>)> = Vec::new();
            proof {
                assert(entry_views(none@) =~= Seq::<(Seq<char>, Seq<u8>)>::empty());
            }
            return Ok(none);
        }
        match self.check_recipient(seen, recipient) {
            Err(e) => {
                return Err(e);
            },
            Ok(()) => {},
        }
        match &seen.names {
            Err(reason) => Err(Error::of(reason.as_str())),
            Ok(names) => self.capture(seen, select(names.as_slice(), namespace)),
        }
    }

    /// The given names with their ciphertexts.
    fn capture(&self, seen: &Seen, names: Vec<Name>) -> (r: Result<Vec<(Name, Vec<u8>)>, Error>)
        ensures
            match first_capture_fault(*seen, self@, order::texts(names@)) {
                None => r matches Ok(e) && entry_views(e@) == captured(
                    *seen,
                    self@,
                    order::texts(names@),
                ),
                Some(message) => r matches Err(e) && e@ == message,
            },
    {
        let ghost all = order::texts(names@);
        let mut out: Vec<(Name, Vec<u8>)> = Vec::new();
        let mut i: usize = 0;
        proof {
            assert(all.skip(0) =~= all);
            assert(entry_views(out@) =~= captured(*seen, self@, all.take(0)));
        }
        while i < names.len()
            invariant
                i <= names@.len(),
                all == order::texts(names@),
                first_capture_fault(*seen, self@, all) == first_capture_fault(
                    *seen,
                    self@,
                    all.skip(i as int),
                ),
                entry_views(out@) == captured(*seen, self@, all.take(i as int)),
            decreases names@.len() - i,
        {
            proof {
                assert(all.skip(i as int)[0] == names@[i as int]@);
                assert(all.skip(i as int).drop_first() =~= all.skip(i + 1));
            }
            match self.ciphertext(seen, &names[i]) {
                Err(e) => {
                    return Err(e);
                },
                Ok(None) => {
                    return Err(Error::of("entry vanished while the store was locked"));
                },
                Ok(Some(ciphertext)) => {
                    let ghost entry = (names@[i as int]@, ciphertext@);
                    let ghost before = out@;
                    out.push((names[i].clone(), ciphertext));
                    proof {
                        assert(entry_views(out@) =~= entry_views(before).push(entry));
                        assert(captured(*seen, self@, all.take(i + 1)) =~= captured(
                            *seen,
                            self@,
                            all.take(i as int),
                        ).push(entry));
                    }
                },
            }
            i = i + 1;
        }
        proof {
            assert(all.take(i as int) =~= all);
        }
        Ok(out)
    }
}

// ---------------------------------------------------------------------------
// Writing

/// A write: the entry alone, or a claim that comes before it where the store has
/// no marker yet.
pub enum Write {
    Entry(Change),
    Claim(Claim),
}

/// A claim to make before an entry is written.
pub struct Claim {
    store: Store,
    recipient: Recipient,
    change: Change,
    entry: Change,
}

impl Claim {
    pub closed spec fn dir(&self) -> Seq<u8> {
        self.store@
    }

    pub closed spec fn recipient(&self) -> Seq<char> {
        self.recipient@
    }

    pub closed spec fn effect(&self) -> Effect {
        self.change@
    }

    pub closed spec fn entry(&self) -> Effect {
        self.entry@
    }

    /// The change that makes the claim.
    pub fn change(&self) -> (r: &Change)
        ensures
            r@ == self.effect(),
    {
        &self.change
    }

    /// The entry to write, once the claim was to be made. `again` is what was seen
    /// after that: whoever comes second looks again instead of overwriting the
    /// marker.
    pub fn settle(self, outcome: &Outcome, again: &Seen) -> (r: Result<Change, Error>)
        ensures
            match claim_refusal(*outcome, *again, self.dir(), self.recipient()) {
                None => r matches Ok(change) && change@ == self.entry(),
                Some(message) => r matches Err(e) && e@ == message,
            },
    {
        match outcome {
            Outcome::Done => Ok(self.entry),
            Outcome::Taken => match self.store.check_recipient(again, &self.recipient) {
                Ok(()) => Ok(self.entry),
                Err(e) => Err(e),
            },
            Outcome::Missing => Err(Error::of("the store vanished")),
            Outcome::Failed(message) => Err(Error::of(message.as_str())),
        }
    }
}

impl Write {
    /// The changes, in order.
    pub open spec fn effects(&self) -> Seq<Effect> {
        match self {
            Write::Entry(change) => seq![change@],
            Write::Claim(claim) => seq![claim.effect(), claim.entry()],
        }
    }

    /// Whose write it is: a claim is settled for the same store and recipient.
    pub open spec fn is_for(&self, dir: Seq<u8>, recipient: Seq<char>) -> bool {
        self matches Write::Claim(claim) ==> claim.dir() == dir && claim.recipient() == recipient
    }
}

/// The change that claims a store for a recipient.
pub open spec fn claim(dir: Seq<u8>, recipient: Seq<char>) -> Effect {
    Effect::Create { path: marker_at(dir), bytes: text::utf8(marker_text(recipient)) }
}

/// What a write comes to: the claim where the store has no marker yet, and the
/// entry.
pub open spec fn write_seen(
    seen: Seen,
    dir: Seq<u8>,
    name: Seq<char>,
    recipient: Seq<char>,
    ciphertext: Seq<u8>,
) -> Result<Seq<Effect>, Seq<char>> {
    let entry = Effect::Replace { path: entry_at(dir, name), bytes: ciphertext };
    match binding_refusal(seen, dir, recipient) {
        Some(message) => Err(message),
        None => if seen.marker {
            Ok(seq![entry])
        } else {
            Ok(seq![claim(dir, recipient), entry])
        },
    }
}

/// What became of a claim that was to be made. Whoever comes second looks again
/// instead of overwriting the marker.
pub open spec fn claim_refusal(
    outcome: Outcome,
    again: Seen,
    dir: Seq<u8>,
    recipient: Seq<char>,
) -> Option<Seq<char>> {
    match outcome {
        Outcome::Done => None,
        Outcome::Taken => refusal(again, dir, recipient),
        Outcome::Missing => Some("the store vanished"@),
        Outcome::Failed(message) => Some(message@),
    }
}

/// What became of a removal or a renaming: whether the entry was there.
pub open spec fn was_there(end: End) -> Result<bool, Seq<char>> {
    match end {
        End::Complete => Ok(true),
        End::Missing => Ok(false),
        End::Taken => Err("a file is in the way"@),
        End::Failed(message) => Err(message@),
    }
}

/// Why an entry was not written, if it was not.
pub open spec fn write_fault(outcome: Outcome) -> Option<Seq<char>> {
    match outcome {
        Outcome::Done => None,
        Outcome::Missing => Some("the store vanished"@),
        Outcome::Taken => Some("a file is in the way"@),
        Outcome::Failed(message) => Some(message@),
    }
}

impl Store {
    /// Claim an empty store for this recipient, or confirm the claim it has.
    pub fn bind_recipient(&self, seen: &Seen, recipient: &Recipient) -> (r: Result<
        Option<Change>,
        Error,
    >)
        ensures
            match binding_refusal(*seen, self@, recipient@) {
                Some(message) => r matches Err(e) && e@ == message,
                None => if seen.marker {
                    r matches Ok(None)
                } else {
                    r matches Ok(Some(change)) && change@ == claim(self@, recipient@)
                },
            },
    {
        if seen.marker {
            return match self.check_recipient(seen, recipient) {
                Err(e) => Err(e),
                Ok(()) => Ok(None),
            };
        }
        match &seen.names {
            Err(reason) => Err(Error::of(reason.as_str())),
            Ok(names) => if names.len() > 0 {
                Err(Error::of("store has entries but no recipient marker"))
            } else {
                let line: String = text::concat(recipient.as_str(), "\n");
                Ok(
                    Some(
                        Change::Create {
                            path: self.marker_path(),
                            bytes: text::copy_of(line.as_str().as_bytes()),
                        },
                    ),
                )
            },
        }
    }

    /// Overwrite an entry. The first write to an empty store binds it to this
    /// recipient.
    pub fn write(
        &self,
        seen: &Seen,
        name: &Name,
        recipient: &Recipient,
        ciphertext: &[u8],
    ) -> (r: Result<Write, Error>)
        ensures
            match write_seen(*seen, self@, name@, recipient@, ciphertext@) {
                Ok(effects) => r matches Ok(write) && write.effects() == effects && write.is_for(
                    self@,
                    recipient@,
                ),
                Err(message) => r matches Err(e) && e@ == message,
            },
    {
        let entry: Change = Change::Replace {
            path: self.entry_path(name),
            bytes: text::copy_of(ciphertext),
        };
        match self.bind_recipient(seen, recipient) {
            Err(e) => Err(e),
            Ok(None) => Ok(Write::Entry(entry)),
            Ok(Some(change)) => Ok(
                Write::Claim(
                    Claim {
                        store: Store { dir: self.dir.clone() },
                        recipient: recipient.copy(),
                        change,
                        entry,
                    },
                ),
            ),
        }
    }

    /// The directories between the store and an entry, deepest first.
    fn parents_of(&self, name: &Name) -> (r: Vec<Vec<u8>>)
        ensures
            plan::views(r@) == parents(self@, name@),
    {
        let chars: Vec<char> = text::chars_of(name.as_str());
        let mut out: Vec<Vec<u8>> = Vec::new();
        let mut i: usize = chars.len();
        proof {
            assert(chars@.take(i as int) =~= chars@);
            assert(plan::views(out@) + parents(self@, chars@) =~= parents(self@, chars@));
        }
        while i > 0
            invariant
                i <= chars@.len(),
                parents(self@, chars@) == plan::views(out@) + parents(self@, chars@.take(i as int)),
            decreases i,
        {
            i = i - 1;
            let ghost longer = chars@.take(i + 1);
            let ghost before = out@;
            proof {
                assert(longer.drop_last() =~= chars@.take(i as int));
                assert(longer.last() == chars@[i as int]);
            }
            if chars[i] == '/' {
                let mut head: Vec<char> = chars.clone();
                head.truncate(i);
                proof {
                    assert(head@ =~= chars@.take(i as int));
                }
                let head: String = text::text_of(head.as_slice());
                out.push(paths::join(self.dir.as_slice(), head.as_str().as_bytes()));
                proof {
                    let parent = paths::joined(self@, text::utf8(chars@.take(i as int)));
                    assert(plan::views(out@) =~= plan::views(before).push(parent));
                    assert(plan::views(before) + (seq![parent] + parents(self@, chars@.take(i as int)))
                        =~= plan::views(out@) + parents(self@, chars@.take(i as int)));
                }
            }
        }
        proof {
            assert(plan::views(out@) + parents(self@, chars@.take(0)) =~= plan::views(out@));
        }
        out
    }

    /// Remove an entry; `None` where there is no store. The directories that it
    /// leaves empty go too, but never the store itself.
    pub fn remove(&self, seen: &Seen, name: &Name) -> (r: Result<Option<Plan>, Error>)
        ensures
            match entries_seen(*seen, self@) {
                Err(message) => r matches Err(e) && e@ == message,
                Ok(_) => if !seen.exists {
                    r matches Ok(None)
                } else {
                    r matches Ok(Some(plan)) && plan.effects()
                        == seq![(Effect::Remove { path: entry_at(self@, name@) })] && plan.dirs() == parents(self@, name@)
                },
            },
    {
        if !seen.exists {
            return Ok(None);
        }
        match self.entries(seen) {
            Err(e) => Err(e),
            Ok(_) => {
                let mut changes: Vec<Change> = Vec::new();
                changes.push(Change::Remove { path: self.entry_path(name) });
                proof {
                    assert(host::effects(changes@) =~= seq![
                        (Effect::Remove { path: entry_at(self@, name@) }),
                    ]);
                }
                Ok(Some(Plan { changes, prune: self.parents_of(name) }))
            },
        }
    }

    /// What became of writing the entry.
    pub fn settle_write(outcome: &Outcome) -> (r: Result<(), Error>)
        ensures
            refused(r) == write_fault(*outcome),
    {
        match outcome {
            Outcome::Done => Ok(()),
            Outcome::Missing => Err(Error::of("the store vanished")),
            Outcome::Taken => Err(Error::of("a file is in the way")),
            Outcome::Failed(message) => Err(Error::of(message.as_str())),
        }
    }

    /// What became of a removal or a renaming: false means that the entry was not
    /// there.
    pub fn settle(end: &End) -> (r: Result<bool, Error>)
        ensures
            match was_there(*end) {
                Ok(there) => r matches Ok(b) && b == there,
                Err(message) => r matches Err(e) && e@ == message,
            },
    {
        match end {
            End::Complete => Ok(true),
            End::Missing => Ok(false),
            End::Taken => Err(Error::of("a file is in the way")),
            End::Failed(message) => Err(Error::of(message.as_str())),
        }
    }
}

/// What a renaming comes to.
pub enum Renaming {
    /// There is no entry of the old name.
    Missing,
    /// There is an entry of the new name, and it may not be overwritten.
    Taken,
    Go(Plan),
}

/// The mathematical side of `Renaming`.
pub enum Move {
    Missing,
    Taken,
    Go(Seq<Effect>, Seq<Seq<u8>>),
}

impl View for Renaming {
    type V = Move;

    open spec fn view(&self) -> Move {
        match self {
            Renaming::Missing => Move::Missing,
            Renaming::Taken => Move::Taken,
            Renaming::Go(plan) => Move::Go(
                plan.effects(),
                plan.dirs(),
            ),
        }
    }
}

/// The ciphertext moves as it is, so that no identity is needed; the directories
/// that it leaves empty go.
pub open spec fn rename_seen(
    seen: Seen,
    dir: Seq<u8>,
    old: Seq<char>,
    new: Seq<char>,
    overwrite: bool,
) -> Result<Move, Seq<char>> {
    match contained(seen, dir, old) {
        Err(message) => Err(message),
        Ok(false) => Ok(Move::Missing),
        Ok(true) => match contained(seen, dir, new) {
            Err(message) => Err(message),
            Ok(there) => if there && !overwrite {
                Ok(Move::Taken)
            } else {
                Ok(
                    Move::Go(
                        seq![
                            (Effect::Rename {
                                from: entry_at(dir, old),
                                to: entry_at(dir, new),
                            }),
                        ],
                        parents(dir, old),
                    ),
                )
            },
        },
    }
}

impl Store {
    /// Give an entry another name.
    pub fn rename(&self, seen: &Seen, old: &Name, new: &Name, overwrite: bool) -> (r: Result<
        Renaming,
        Error,
    >)
        ensures
            match rename_seen(*seen, self@, old@, new@, overwrite) {
                Ok(done) => r matches Ok(renaming) && renaming@ == done,
                Err(message) => r matches Err(e) && e@ == message,
            },
    {
        match self.contains(seen, old) {
            Err(e) => {
                return Err(e);
            },
            Ok(false) => {
                return Ok(Renaming::Missing);
            },
            Ok(true) => {},
        }
        match self.contains(seen, new) {
            Err(e) => Err(e),
            Ok(there) => if there && !overwrite {
                Ok(Renaming::Taken)
            } else {
                let mut changes: Vec<Change> = Vec::new();
                changes.push(
                    Change::Rename { from: self.entry_path(old), to: self.entry_path(new) },
                );
                proof {
                    assert(host::effects(changes@) =~= seq![
                        (Effect::Rename {
                            from: entry_at(self@, old@),
                            to: entry_at(self@, new@),
                        }),
                    ]);
                }
                Ok(Renaming::Go(Plan { changes, prune: self.parents_of(old) }))
            },
        }
    }

    /// The files to read before anything is done with some entries: the marker
    /// and theirs.
    pub fn files_of(&self, names: &[Name]) -> (r: Vec<Vec<u8>>)
        ensures
            plan::views(r@) == seq![marker_at(self@)] + order::texts(names@).map_values(
                |n: Seq<char>| entry_at(self@, n),
            ),
    {
        let ghost of = |n: Seq<char>| entry_at(self@, n);
        let mut out: Vec<Vec<u8>> = Vec::new();
        out.push(self.marker_path());
        let mut i: usize = 0;
        proof {
            assert(plan::views(out@) =~= seq![marker_at(self@)] + order::texts(names@.take(0)).map_values(
                of,
            ));
        }
        while i < names.len()
            invariant
                i <= names@.len(),
                of == (|n: Seq<char>| entry_at(self@, n)),
                plan::views(out@) == seq![marker_at(self@)] + order::texts(
                    names@.take(i as int),
                ).map_values(of),
            decreases names@.len() - i,
        {
            let ghost before = out@;
            out.push(self.entry_path(&names[i]));
            proof {
                assert(plan::views(out@) =~= plan::views(before).push(entry_at(self@, names@[i as int]@)));
                assert(order::texts(names@.take(i + 1)).map_values(of) =~= order::texts(
                    names@.take(i as int),
                ).map_values(of).push(entry_at(self@, names@[i as int]@)));
            }
            i = i + 1;
        }
        proof {
            assert(names@.take(i as int) =~= names@);
        }
        out
    }
}

} // verus!
