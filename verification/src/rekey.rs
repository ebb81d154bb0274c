//! Rekeying: every entry is re-encrypted to a new identity. The new key is on
//! disk before the first entry is touched, and the old one stays, so that at no
//! moment is an entry without its key.

use vstd::prelude::*;
use vstd::string::*;

use crate::commands;
use crate::consent;
use crate::consent::{Consent, Permit};
use crate::crypt;
use crate::crypt::{Identity, Recipient};
use crate::error::Error;
use crate::host;
use crate::host::{Change, Effect, FileRead, Seen, Sight};
use crate::identity;
use crate::name::Name;
use crate::output;
use crate::plan::{End, Plan};
use crate::store;
use crate::store::Store;
use crate::text;

verus! {

// ---------------------------------------------------------------------------
// The key files

/// The identity file and what stands next to it.
pub struct KeyFiles {
    pub current: FileRead,
    pub new: FileRead,
    pub old: FileRead,
}

/// Where the new key is kept until it replaces the current one.
pub open spec fn new_at(path: Seq<u8>) -> Seq<u8> {
    path + text::utf8(".new"@)
}

/// Where the replaced key is kept.
pub open spec fn old_at(path: Seq<u8>) -> Seq<u8> {
    path + text::utf8(".old"@)
}

pub fn new_path(path: &[u8]) -> (r: Vec<u8>)
    ensures
        r@ == new_at(path@),
{
    let mut out: Vec<u8> = text::copy_of(path);
    text::append(&mut out, ".new".as_bytes());
    out
}

pub fn old_path(path: &[u8]) -> (r: Vec<u8>)
    ensures
        r@ == old_at(path@),
{
    let mut out: Vec<u8> = text::copy_of(path);
    text::append(&mut out, ".old".as_bytes());
    out
}

// ---------------------------------------------------------------------------
// What stands in the way

pub open spec fn finish_text(path: Seq<u8>) -> Seq<char> {
    text::lossy_text(new_at(path))
        + " is left over from a rekey that re-encrypted every entry; finish it by moving it to "@
        + text::lossy_text(path)
}

pub open spec fn split_text(path: Seq<u8>) -> Seq<char> {
    text::lossy_text(new_at(path))
        + " is left over from an interrupted rekey; entries may be split between it and "@
        + text::lossy_text(path)
}

pub open spec fn old_text(path: Seq<u8>) -> Seq<char> {
    text::lossy_text(old_at(path)) + " is in the way; move it elsewhere before rekeying"@
}

/// The key in a file, if it can be read.
pub open spec fn key_in(sight: Sight) -> Option<Seq<char>> {
    match sight {
        Sight::Bytes(bytes) => if vstd::utf8::valid_utf8(bytes) {
            match identity::identity_in_bytes(bytes) {
                Ok(secret) => Some(secret),
                Err(_) => None,
            }
        } else {
            None
        },
        _ => None,
    }
}

/// The store belongs to this key.
pub open spec fn owned_by(seen: Seen, dir: Seq<u8>, secret: Seq<char>) -> bool {
    store::owner_seen(seen, dir) matches Ok(Some(owner)) && crypt::same_recipient(
        owner,
        crypt::public_of(secret),
    )
}

/// What a left-over new key means. If the store belongs to it already, the rekey
/// came to its end but for the last step; if not, some entries may be sealed with
/// it and others not.
pub open spec fn leftover(seen: Seen, dir: Seq<u8>, path: Seq<u8>, new: Sight) -> Option<
    Seq<char>,
> {
    if new is Missing {
        None
    } else if key_in(new) matches Some(secret) && owned_by(seen, dir, secret) {
        Some(finish_text(path))
    } else {
        Some(split_text(path))
    }
}

/// A store that was never used: nothing there, or neither marker nor entries.
pub open spec fn never_used(seen: Seen, dir: Seq<u8>) -> bool {
    !seen.exists || (seen.file(store::marker_at(dir)) is Missing && (seen.listing() matches Ok(
        names,
    ) && names.len() == 0))
}

/// Why a store cannot be rekeyed, if it cannot.
pub open spec fn obstacle(seen: Seen, dir: Seq<u8>, path: Seq<u8>, files: KeyFiles) -> Option<
    Seq<char>,
> {
    match identity::loaded(path, files.current@) {
        Err(message) => Some(message),
        Ok(secret) => match leftover(seen, dir, path, files.new@) {
            Some(message) => Some(message),
            None => if !(files.old@ is Missing) {
                Some(old_text(path))
            } else if never_used(seen, dir) {
                Some("the store is empty; there is nothing to rekey"@)
            } else {
                store::refusal(seen, dir, crypt::public_of(secret))
            },
        },
    }
}

fn name_both(path: &[u8], middle: &str) -> (r: Error)
    ensures
        r@ == text::lossy_text(new_at(path@)) + middle@ + text::lossy_text(path@),
{
    let mut message: String = text::decode_lossy(new_path(path).as_slice());
    message.append(middle);
    message.append(text::decode_lossy(path).as_str());
    Error::new(message)
}

/// The key in a file, if it can be read.
fn read_key(read: &FileRead) -> (r: Option<Identity>)
    ensures
        match key_in(read@) {
            Some(secret) => r matches Some(identity) && identity@ == secret,
            None => r is None,
        },
{
    match read {
        FileRead::Bytes(bytes) => match text::decode(bytes.as_slice()) {
            Err(_) => None,
            Ok(contents) => {
                proof {
                    vstd::utf8::encode_utf8_decode_utf8(contents@);
                }
                match crypt::parse_identity(contents.as_str()) {
                    Ok(identity) => Some(identity),
                    Err(_) => None,
                }
            },
        },
        _ => None,
    }
}

/// Refuse to go on over the traces of an earlier rekey.
fn check_leftover(store: &Store, seen: &Seen, path: &[u8], new: &FileRead) -> (r: Result<(), Error>)
    ensures
        store::refused(r) == leftover(*seen, store@, path@, new@),
{
    if let FileRead::Missing(_) = new {
        return Ok(());
    }
    let finished: bool = match read_key(new) {
        None => false,
        Some(identity) => match store.owner(seen) {
            Ok(Some(owner)) => owner.same_as(&identity.to_public()),
            Ok(None) => false,
            Err(_) => false,
        },
    };
    if finished {
        Err(
            name_both(
                path,
                " is left over from a rekey that re-encrypted every entry; finish it by moving it to ",
            ),
        )
    } else {
        Err(
            name_both(
                path,
                " is left over from an interrupted rekey; entries may be split between it and ",
            ),
        )
    }
}

/// The identity to replace, once nothing stands in the way of a rekey.
pub fn rekey_check(store: &Store, seen: &Seen, path: &[u8], files: &KeyFiles) -> (r: Result<
    Identity,
    Error,
>)
    ensures
        match obstacle(*seen, store@, path@, *files) {
            Some(message) => r matches Err(e) && e@ == message,
            None => r matches Ok(identity) && identity::loaded(path@, files.current@) == Ok::<
                Seq<char>,
                Seq<char>,
            >(identity@),
        },
{
    let identity: Identity = match identity::load_identity(path, &files.current) {
        Err(e) => {
            return Err(e);
        },
        Ok(identity) => identity,
    };
    match check_leftover(store, seen, path, &files.new) {
        Err(e) => {
            return Err(e);
        },
        Ok(()) => {},
    }
    match &files.old {
        FileRead::Missing(_) => {},
        _ => {
            let old: String = text::decode_lossy(old_path(path).as_slice());
            return Err(
                Error::new(
                    text::concat(
                        old.as_str(),
                        " is in the way; move it elsewhere before rekeying",
                    ),
                ),
            );
        },
    }
    if is_never_used(store, seen) {
        return Err(Error::of("the store is empty; there is nothing to rekey"));
    }
    match store.check_recipient(seen, &identity.to_public()) {
        Err(e) => Err(e),
        Ok(()) => Ok(identity),
    }
}

fn is_never_used(store: &Store, seen: &Seen) -> (r: bool)
    ensures
        r == never_used(*seen, store@),
{
    if !seen.exists {
        return true;
    }
    let marker: Vec<u8> = store.marker_path();
    let marked: bool = match seen.look(marker.as_slice()) {
        None => false,
        Some(FileRead::Missing(_)) => false,
        Some(_) => true,
    };
    let listed: bool = match &seen.names {
        Ok(names) => names.len() == 0,
        Err(_) => false,
    };
    !marked && listed
}

pub open spec fn rekey_prompt() -> Seq<char> {
    "keyjar: re-encrypt every entry and replace the identity? [y/N] "@
}

/// Seek consent to rekey.
pub fn rekey_consent(
    store: &Store,
    seen: &Seen,
    path: &[u8],
    files: &KeyFiles,
    force: bool,
    stdin_is_tty: bool,
) -> (r: Result<Consent, Error>)
    ensures
        match obstacle(*seen, store@, path@, *files) {
            Some(message) => r matches Err(e) && e@ == message,
            None => consent::is_sought(
                force,
                stdin_is_tty,
                "refusing to rekey without --force when stdin is not a terminal"@,
                rekey_prompt(),
                r,
            ),
        },
{
    match rekey_check(store, seen, path, files) {
        Err(e) => Err(e),
        Ok(_) => consent::seek(
            force,
            stdin_is_tty,
            "refusing to rekey without --force when stdin is not a terminal".to_owned(),
            "keyjar: re-encrypt every entry and replace the identity? [y/N] ".to_owned(),
        ),
    }
}

// ---------------------------------------------------------------------------
// The plan

/// The entries with new ciphertexts.
pub open spec fn replacements(dir: Seq<u8>, names: Seq<Seq<char>>, sealed: Seq<Seq<u8>>) -> Seq<
    Effect,
> {
    Seq::new(
        names.len(),
        |i: int| Effect::Replace { path: store::entry_at(dir, names[i]), bytes: sealed[i] },
    )
}

/// What comes after the entries: the marker follows the new key, the old key is
/// put aside, and the new one takes its place.
pub open spec fn handover(dir: Seq<u8>, path: Seq<u8>, old_file: Seq<u8>, fresh: Seq<char>) -> Seq<
    Effect,
> {
    seq![
        (Effect::Replace {
            path: store::marker_at(dir),
            bytes: text::utf8(store::marker_text(crypt::public_of(fresh))),
        }),
        (Effect::Create { path: old_at(path), bytes: old_file }),
        (Effect::Rename { from: new_at(path), to: path }),
    ]
}

/// All that a rekey does, in order.
pub open spec fn rekeying(
    dir: Seq<u8>,
    path: Seq<u8>,
    old_file: Seq<u8>,
    fresh: Seq<char>,
    names: Seq<Seq<char>>,
    sealed: Seq<Seq<u8>>,
) -> Seq<Effect> {
    seq![identity::creation(new_at(path), fresh)] + replacements(dir, names, sealed) + handover(
        dir,
        path,
        old_file,
        fresh,
    )
}

/// New ciphertexts hold what the entries hold.
pub open spec fn resealed(
    secret: Seq<char>,
    fresh: Seq<char>,
    entries: Seq<(Seq<char>, Seq<u8>)>,
    sealed: Seq<Seq<u8>>,
) -> bool {
    &&& sealed.len() == entries.len()
    &&& forall|i: int|
        0 <= i < entries.len() ==> crypt::opened(secret, (#[trigger] entries[i]).1) is Some
            && crypt::opened(fresh, sealed[i]) == crypt::opened(secret, entries[i].1)
}

/// A rekey: what is to be done, the new identity, and the number of entries.
pub struct Rekey {
    pub plan: Plan,
    pub fresh: Identity,
    pub count: usize,
}

/// What planning a rekey comes to, for entries that were captured. Only an entry
/// that the identity cannot open stops it, before anything is done.
pub open spec fn is_planned(
    dir: Seq<u8>,
    path: Seq<u8>,
    old_file: Seq<u8>,
    secret: Seq<char>,
    entries: Seq<(Seq<char>, Seq<u8>)>,
    r: Result<Rekey, Error>,
) -> bool {
    match r {
        Ok(rekey) => rekey.plan.dirs().len() == 0 && rekey.count == entries.len() && crypt::is_key(
            rekey.fresh@,
        ) && crypt::is_recipient(crypt::public_of(rekey.fresh@)) && exists|sealed: Seq<Seq<u8>>| #[trigger]
            resealed(secret, rekey.fresh@, entries, sealed) && rekey.plan.effects() == rekeying(
                dir,
                path,
                old_file,
                rekey.fresh@,
                output::names_of(entries),
                sealed,
            ),
        Err(e) => exists|i: int|
            {
                &&& 0 <= i < entries.len()
                &&& forall|j: int|
                    0 <= j < i ==> crypt::opened(secret, (#[trigger] entries[j]).1) is Some
                &&& crypt::opened(secret, (#[trigger] entries[i]).1) is None
                &&& crypt::begins(e@, output::sealed_text(entries[i].0))
            },
    }
}

/// What a rekey of a store comes to: consent to something else, an obstacle,
/// trouble with the entries, or what planning comes to.
pub open spec fn is_rekeyed(
    seen: Seen,
    dir: Seq<u8>,
    path: Seq<u8>,
    files: KeyFiles,
    permit: Permit,
    r: Result<Rekey, Error>,
) -> bool {
    if permit.question() != rekey_prompt() {
        r matches Err(e) && e@ == "consent was given to something else"@
    } else {
        match obstacle(seen, dir, path, files) {
            Some(message) => r matches Err(e) && e@ == message,
            None => {
                let secret = identity::loaded(path, files.current@)->Ok_0;
                match store::snapshot_seen(seen, dir, None, crypt::public_of(secret)) {
                    Err(message) => r matches Err(e) && e@ == message,
                    Ok(entries) => is_planned(
                        dir,
                        path,
                        files.current@->Bytes_0,
                        secret,
                        entries,
                        r,
                    ),
                }
            },
        }
    }
}

/// Plan a rekey to a new identity.
pub fn rekey_plan(store: &Store, seen: &Seen, path: &[u8], files: &KeyFiles, permit: &Permit) -> (r:
    Result<Rekey, Error>)
    ensures
        is_rekeyed(*seen, store@, path@, *files, *permit, r),
        r is Ok ==> permit.allows(rekey_prompt()),
{
    rekey_with(store, seen, path, files, permit, Identity::generate())
}

/// Plan a rekey to the given identity. All values are opened and sealed again before
/// anything is written.
pub fn rekey_with(
    store: &Store,
    seen: &Seen,
    path: &[u8],
    files: &KeyFiles,
    permit: &Permit,
    fresh: Identity,
) -> (r: Result<Rekey, Error>)
    ensures
        is_rekeyed(*seen, store@, path@, *files, *permit, r),
        r is Ok ==> permit.allows(rekey_prompt()),
        r matches Ok(rekey) ==> rekey.fresh@ == fresh@,
{
    match permit.check(
        "keyjar: re-encrypt every entry and replace the identity? [y/N] ".to_owned(),
    ) {
        Err(e) => {
            return Err(e);
        },
        Ok(()) => {},
    }
    let identity: Identity = match rekey_check(store, seen, path, files) {
        Err(e) => {
            return Err(e);
        },
        Ok(identity) => identity,
    };
    let entries: Vec<(Name, Vec<u8>)> = match store.snapshot(seen, None, &identity.to_public()) {
        Err(e) => {
            return Err(e);
        },
        Ok(entries) => entries,
    };
    let old_file: Vec<u8> = match &files.current {
        FileRead::Bytes(bytes) => text::copy_of(bytes.as_slice()),
        _ => Vec::new(),
    };
    plan_rekey(store, path, old_file, &identity, entries.as_slice(), fresh)
}

fn plan_rekey(
    store: &Store,
    path: &[u8],
    old_file: Vec<u8>,
    identity: &Identity,
    entries: &[(Name, Vec<u8>)],
    fresh: Identity,
) -> (r: Result<Rekey, Error>)
    ensures
        r matches Ok(rekey) ==> rekey.fresh@ == fresh@,
        is_planned(
            store@,
            path@,
            old_file@,
            identity@,
            store::entry_views(entries@),
            r,
        ),
{
    let public: Recipient = fresh.to_public();
    let ghost all = store::entry_views(entries@);
    let ghost names = output::names_of(all);
    let mut changes: Vec<Change> = Vec::new();
    let bytes: Vec<u8> = identity::identity_contents(&fresh);
    changes.push(Change::Create { path: new_path(path), bytes });
    let ghost first = identity::creation(new_at(path@), fresh@);
    let ghost mut sealed: Seq<Seq<u8>> = Seq::empty();
    let mut i: usize = 0;
    proof {
        assert(host::effects(changes@) =~= seq![first] + replacements(
            store@,
            names.take(0),
            sealed,
        ));
    }
    while i < entries.len()
        invariant
            i <= entries@.len(),
            crypt::is_key(fresh@),
            public@ == crypt::public_of(fresh@),
            all == store::entry_views(entries@),
            names == output::names_of(all),
            sealed.len() == i,
            forall|j: int|
                0 <= j < i ==> crypt::opened(identity@, (#[trigger] all[j]).1) is Some
                    && crypt::opened(fresh@, sealed[j]) == crypt::opened(identity@, all[j].1),
            host::effects(changes@) == seq![first] + replacements(
                store@,
                names.take(i as int),
                sealed,
            ),
        decreases entries@.len() - i,
    {
        let name: &Name = &entries[i].0;
        assert(all[i as int] == (name@, entries@[i as int].1@));
        let value: Vec<u8> = match output::open_entry(identity, name, entries[i].1.as_slice()) {
            Err(e) => {
                return Err(e);
            },
            Ok(value) => value,
        };
        let ciphertext: Vec<u8> = match crypt::encrypt(&fresh, value.as_slice()) {
            Err(e) => {
                return Err(e);
            },
            Ok(ciphertext) => ciphertext,
        };
        let ghost before = changes@;
        let ghost effect = Effect::Replace {
            path: store::entry_at(store@, name@),
            bytes: ciphertext@,
        };
        let ghost before_sealed = sealed;
        proof {
            sealed = sealed.push(ciphertext@);
        }
        changes.push(Change::Replace { path: store.entry_path(name), bytes: ciphertext });
        proof {
            assert(host::effects(changes@) =~= host::effects(before).push(effect));
            assert(names[i as int] == name@);
            assert(replacements(store@, names.take(i + 1), sealed) =~= replacements(
                store@,
                names.take(i as int),
                before_sealed,
            ).push(effect));
            assert(host::effects(changes@) =~= seq![first] + replacements(
                store@,
                names.take(i + 1),
                sealed,
            ));
        }
        i = i + 1;
    }
    let ghost before = changes@;
    let marker: String = text::concat(public.as_str(), "\n");
    let marker: Vec<u8> = text::copy_of(marker.as_str().as_bytes());
    let ghost file = old_file@;
    changes.push(Change::Replace { path: store.marker_path(), bytes: marker });
    changes.push(Change::Create { path: old_path(path), bytes: old_file });
    changes.push(Change::Rename { from: new_path(path), to: text::copy_of(path) });
    let prune: Vec<Vec<u8>> = Vec::new();
    proof {
        assert(names.take(i as int) =~= names);
        assert(host::effects(changes@) =~= host::effects(before) + handover(
            store@,
            path@,
            file,
            fresh@,
        ));
        assert(resealed(identity@, fresh@, all, sealed));
    }
    Ok(Rekey { plan: Plan { changes, prune }, fresh, count: entries.len() })
}

/// What a rekey that was carried out comes to.
pub fn rekey_settle(end: &End, count: usize, quiet: bool) -> (r: Result<Option<String>, Error>)
    ensures
        match end {
            End::Complete => r matches Ok(notice) && commands::said(notice)
                == commands::notice_text(
                quiet,
                "rekeyed "@ + text::decimal(count as nat) + " entries"@,
            ),
            End::Missing => r matches Err(e) && e@ == "a file vanished during the rekey"@,
            End::Taken => r matches Err(e) && e@ == "a file is in the way"@,
            End::Failed(message) => r matches Err(e) && e@ == message@,
        },
{
    match end {
        End::Complete => {
            let mut message: String = text::concat("rekeyed ", text::decimal_of(count).as_str());
            message.append(" entries");
            Ok(commands::notice(quiet, message.as_str()))
        },
        End::Missing => Err(Error::of("a file vanished during the rekey")),
        End::Taken => Err(Error::of("a file is in the way")),
        End::Failed(message) => Err(Error::of(message.as_str())),
    }
}

} // verus!
