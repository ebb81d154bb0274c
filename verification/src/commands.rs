//! The commands that change a store: what each may do, asks, does and says.

use vstd::prelude::*;
use vstd::string::*;

use crate::consent;
use crate::consent::{Consent, Permit};
use crate::crypt;
use crate::crypt::Identity;
use crate::error::Error;
use crate::host::{Effect, Seen};
use crate::name::Name;
use crate::output;
use crate::plan::{End, Plan};
use crate::store;
use crate::store::{Renaming, Store, Write};
use crate::text;

verus! {

// ---------------------------------------------------------------------------
// What is said

pub open spec fn notice_text(quiet: bool, message: Seq<char>) -> Option<Seq<char>> {
    if quiet {
        None
    } else {
        Some("keyjar: "@ + message)
    }
}

pub open spec fn said(notice: Option<String>) -> Option<Seq<char>> {
    match notice {
        Some(notice) => Some(notice@),
        None => None,
    }
}

/// What to say about something that went well; nothing when quiet.
pub fn notice(quiet: bool, message: &str) -> (r: Option<String>)
    ensures
        said(r) == notice_text(quiet, message@),
{
    if quiet {
        None
    } else {
        let mut line: String = "keyjar: ".to_owned();
        line.append(message);
        Some(line)
    }
}

/// A message about a name.
fn about(before: &str, name: &Name, after: &str) -> (r: String)
    ensures
        r@ == before@ + name@ + after@,
{
    let mut message: String = before.to_owned();
    message.append(name.as_str());
    message.append(after);
    message
}

/// Said after a value was stored.
pub fn stored(quiet: bool, name: &Name) -> (r: Option<String>)
    ensures
        said(r) == notice_text(quiet, "stored "@ + name@),
{
    notice(quiet, text::concat("stored ", name.as_str()).as_str())
}

/// Said when an edit left the value as it was.
pub fn unchanged(quiet: bool, name: &Name) -> (r: Option<String>)
    ensures
        said(r) == notice_text(quiet, name@ + " unchanged"@),
{
    notice(quiet, text::concat(name.as_str(), " unchanged").as_str())
}

/// Said when a new identity was made.
pub fn identity_created(quiet: bool, path: &[u8]) -> (r: Option<String>)
    ensures
        said(r) == notice_text(quiet, "created identity at "@ + text::lossy_text(path@)),
{
    let mut message: String = "created identity at ".to_owned();
    message.append(text::decode_lossy(path).as_str());
    notice(quiet, message.as_str())
}

// ---------------------------------------------------------------------------
// Writing

/// Some ciphertext that holds the value, written for the identity.
pub open spec fn is_value_write(
    seen: Seen,
    dir: Seq<u8>,
    name: Seq<char>,
    secret: Seq<char>,
    value: Seq<u8>,
    effects: Seq<Effect>,
) -> bool {
    exists|ciphertext: Seq<u8>| #[trigger]
        crypt::opened(secret, ciphertext) == Some(value) && store::write_seen(
            seen,
            dir,
            name,
            crypt::public_of(secret),
            ciphertext,
        ) == Ok::<Seq<Effect>, Seq<char>>(effects)
}

/// Write a value: sealed for the identity, into a store that belongs to it or to
/// nobody yet.
pub fn write_value(
    store: &Store,
    seen: &Seen,
    name: &Name,
    identity: &Identity,
    value: &[u8],
) -> (r: Result<Write, Error>)
    ensures
        match store::binding_refusal(*seen, store@, crypt::public_of(identity@)) {
            Some(message) => r matches Err(e) && e@ == message,
            None => r matches Ok(write) && is_value_write(
                *seen,
                store@,
                name@,
                identity@,
                value@,
                write.effects(),
            ) && write.is_for(store@, crypt::public_of(identity@)),
        },
{
    match crypt::encrypt(identity, value) {
        Err(e) => Err(e),
        Ok(ciphertext) => store.write(
            seen,
            name,
            &identity.to_public(),
            ciphertext.as_slice(),
        ),
    }
}

// ---------------------------------------------------------------------------
// Removing

pub open spec fn rm_refusal(name: Seq<char>) -> Seq<char> {
    "refusing to remove "@ + name + " without --force when stdin is not a terminal"@
}

pub open spec fn rm_prompt(name: Seq<char>) -> Seq<char> {
    "keyjar: remove "@ + name + "? [y/N] "@
}

/// Seek consent to remove an entry. The entry is looked for first, so that the
/// question never names one that is not there.
pub fn rm_consent(store: &Store, seen: &Seen, name: &Name, force: bool, stdin_is_tty: bool) -> (r:
    Result<Consent, Error>)
    ensures
        match store::contained(*seen, store@, name@) {
            Err(message) => r matches Err(e) && e@ == message,
            Ok(false) => r matches Err(e) && e@ == output::missing_text(name@),
            Ok(true) => consent::is_sought(
                force,
                stdin_is_tty,
                rm_refusal(name@),
                rm_prompt(name@),
                r,
            ),
        },
{
    match store.contains(seen, name) {
        Err(e) => Err(e),
        Ok(false) => Err(output::missing(name)),
        Ok(true) => consent::seek(
            force,
            stdin_is_tty,
            about("refusing to remove ", name, " without --force when stdin is not a terminal"),
            about("keyjar: remove ", name, "? [y/N] "),
        ),
    }
}

/// The removal itself, on a fresh look at the store: it can have changed while
/// the user read the question.
pub fn rm_plan(store: &Store, seen: &Seen, name: &Name, permit: &Permit) -> (r: Result<Plan, Error>)
    ensures
        if permit.question() != rm_prompt(name@) {
            r matches Err(e) && e@ == "consent was given to something else"@
        } else {
            match store::entries_seen(*seen, store@) {
                Err(message) => r matches Err(e) && e@ == message,
                Ok(_) => if !seen.exists {
                    r matches Err(e) && e@ == output::missing_text(name@)
                } else {
                    r matches Ok(plan) && plan.effects() == seq![
                        (Effect::Remove { path: store::entry_at(store@, name@) }),
                    ] && plan.dirs() == store::parents(store@, name@)
                },
            }
        },
        r is Ok ==> permit.allows(rm_prompt(name@)),
{
    match permit.check(about("keyjar: remove ", name, "? [y/N] ")) {
        Err(e) => {
            return Err(e);
        },
        Ok(()) => {},
    }
    match store.remove(seen, name) {
        Err(e) => Err(e),
        Ok(None) => Err(output::missing(name)),
        Ok(Some(plan)) => Ok(plan),
    }
}

/// What a removal that was carried out comes to.
pub fn rm_settle(end: &End, name: &Name, quiet: bool) -> (r: Result<Option<String>, Error>)
    ensures
        match store::was_there(*end) {
            Ok(true) => r matches Ok(notice) && said(notice) == notice_text(
                quiet,
                "removed "@ + name@,
            ),
            Ok(false) => r matches Err(e) && e@ == output::missing_text(name@),
            Err(message) => r matches Err(e) && e@ == message,
        },
{
    match Store::settle(end) {
        Err(e) => Err(e),
        Ok(false) => Err(output::missing(name)),
        Ok(true) => Ok(notice(quiet, text::concat("removed ", name.as_str()).as_str())),
    }
}

// ---------------------------------------------------------------------------
// Renaming

pub open spec fn mv_refusal(name: Seq<char>) -> Seq<char> {
    "refusing to overwrite "@ + name + " without --force when stdin is not a terminal"@
}

pub open spec fn mv_prompt(name: Seq<char>) -> Seq<char> {
    "keyjar: overwrite "@ + name + "? [y/N] "@
}

/// Whether a renaming needs consent: only to overwrite an entry.
pub enum MvConsent {
    Free,
    Overwrite(Consent),
}

/// Seek consent to rename an entry.
pub fn mv_consent(
    store: &Store,
    seen: &Seen,
    old: &Name,
    new: &Name,
    force: bool,
    stdin_is_tty: bool,
) -> (r: Result<MvConsent, Error>)
    ensures
        if old@ == new@ {
            r matches Err(e) && e@ == "the old and the new name are the same"@
        } else {
            match store::contained(*seen, store@, old@) {
                Err(message) => r matches Err(e) && e@ == message,
                Ok(false) => r matches Err(e) && e@ == output::missing_text(old@),
                Ok(true) => match store::contained(*seen, store@, new@) {
                    Err(message) => r matches Err(e) && e@ == message,
                    Ok(there) => if force || there {
                        match r {
                            Ok(MvConsent::Free) => false,
                            Ok(MvConsent::Overwrite(consent)) => consent::is_sought(
                                force,
                                stdin_is_tty,
                                mv_refusal(new@),
                                mv_prompt(new@),
                                Ok(consent),
                            ),
                            Err(e) => consent::is_sought(
                                force,
                                stdin_is_tty,
                                mv_refusal(new@),
                                mv_prompt(new@),
                                Err(e),
                            ),
                        }
                    } else {
                        r matches Ok(MvConsent::Free)
                    },
                },
            }
        },
{
    if old.same_as(new) {
        return Err(Error::of("the old and the new name are the same"));
    }
    match store.contains(seen, old) {
        Err(e) => {
            return Err(e);
        },
        Ok(false) => {
            return Err(output::missing(old));
        },
        Ok(true) => {},
    }
    match store.contains(seen, new) {
        Err(e) => Err(e),
        Ok(there) => if force || there {
            match consent::seek(
                force,
                stdin_is_tty,
                about(
                    "refusing to overwrite ",
                    new,
                    " without --force when stdin is not a terminal",
                ),
                about("keyjar: overwrite ", new, "? [y/N] "),
            ) {
                Ok(consent) => Ok(MvConsent::Overwrite(consent)),
                Err(e) => Err(e),
            }
        } else {
            Ok(MvConsent::Free)
        },
    }
}

pub open spec fn mv_taken(name: Seq<char>) -> Seq<char> {
    "refusing to overwrite "@ + name + " without --force"@
}

/// The renaming itself, on a fresh look at the store. Without a permit it does
/// not overwrite.
pub fn mv_plan(store: &Store, seen: &Seen, old: &Name, new: &Name, permit: Option<&Permit>) -> (r:
    Result<Plan, Error>)
    ensures
        if permit matches Some(permit) && permit.question() != mv_prompt(new@) {
            r matches Err(e) && e@ == "consent was given to something else"@
        } else {
            match store::rename_seen(*seen, store@, old@, new@, permit is Some) {
                Err(message) => r matches Err(e) && e@ == message,
                Ok(store::Move::Missing) => r matches Err(e) && e@ == output::missing_text(old@),
                Ok(store::Move::Taken) => r matches Err(e) && e@ == mv_taken(new@),
                Ok(store::Move::Go(effects, dirs)) => r matches Ok(plan) && plan.effects()
                    == effects && plan.dirs() == dirs,
            }
        },
        r is Ok ==> store::contained(*seen, store@, new@) == Ok::<bool, Seq<char>>(false) || (
        permit matches Some(permit) && permit.allows(mv_prompt(new@))),
{
    let overwrite: bool = match permit {
        Some(permit) => match permit.check(about("keyjar: overwrite ", new, "? [y/N] ")) {
            Err(e) => {
                return Err(e);
            },
            Ok(()) => true,
        },
        None => false,
    };
    match store.rename(seen, old, new, overwrite) {
        Err(e) => Err(e),
        Ok(Renaming::Missing) => Err(output::missing(old)),
        Ok(Renaming::Taken) => Err(
            Error::new(about("refusing to overwrite ", new, " without --force")),
        ),
        Ok(Renaming::Go(plan)) => Ok(plan),
    }
}

/// What a renaming that was carried out comes to.
pub fn mv_settle(end: &End, old: &Name, new: &Name, quiet: bool) -> (r: Result<
    Option<String>,
    Error,
>)
    ensures
        match store::was_there(*end) {
            Ok(true) => r matches Ok(notice) && said(notice) == notice_text(
                quiet,
                "renamed "@ + old@ + " to "@ + new@,
            ),
            Ok(false) => r matches Err(e) && e@ == output::missing_text(old@),
            Err(message) => r matches Err(e) && e@ == message,
        },
{
    match Store::settle(end) {
        Err(e) => Err(e),
        Ok(false) => Err(output::missing(old)),
        Ok(true) => {
            let mut message: String = about("renamed ", old, " to ");
            message.append(new.as_str());
            Ok(notice(quiet, message.as_str()))
        },
    }
}

} // verus!
