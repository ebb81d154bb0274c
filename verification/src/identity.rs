//! The identity file: what it holds, how it is loaded, and how it comes to be on
//! first use. It is a standard age identity file.

use vstd::prelude::*;
use vstd::string::*;

use crate::crypt;
use crate::crypt::Identity;
use crate::error;
use crate::error::Error;
use crate::host::{Change, Effect, FileRead, Outcome, Sight};
use crate::text;

verus! {

// ---------------------------------------------------------------------------
// What the file holds

/// The text of an identity file: two comments and the key.
pub open spec fn identity_text(secret: Seq<char>, public: Seq<char>) -> Seq<char> {
    "# created by keyjar\n# public key: "@ + public + "\n"@ + secret + "\n"@
}

/// The bytes to write for an identity.
pub fn identity_contents(identity: &Identity) -> (r: Vec<u8>)
    ensures
        r@ == text::utf8(identity_text(identity@, crypt::public_of(identity@))),
{
    let mut contents: String = "# created by keyjar\n# public key: ".to_owned();
    contents.append(identity.to_public().as_str());
    contents.append("\n");
    contents.append(identity.secret());
    contents.append("\n");
    text::copy_of(contents.as_str().as_bytes())
}

/// The key in the bytes of an identity file, or why there is none.
pub open spec fn identity_in_bytes(bytes: Seq<u8>) -> Result<Seq<char>, Seq<char>> {
    crypt::identity_in(vstd::utf8::decode_utf8(bytes))
}

/// A file that is split at its first newline.
proof fn split_at_newline(line: Seq<char>, rest: Seq<char>)
    requires
        forall|i: int| 0 <= i < line.len() ==> line[i] != '\n',
    ensures
        text::split(line + seq!['\n'] + rest, '\n') == seq![line] + text::split(rest, '\n'),
{
    let whole = line + seq!['\n'] + rest;
    text::run_is_only(whole, '\n', line.len() as int);
    assert(whole.take(line.len() as int) =~= line);
    assert(whole.skip(line.len() as int + 1) =~= rest);
}

/// What keyjar writes into an identity file reads back as the same key.
pub proof fn an_identity_file_loads_back(secret: Seq<char>, public: Seq<char>)
    requires
        crypt::is_key(secret),
        crypt::is_recipient(public),
    ensures
        identity_in_bytes(text::utf8(identity_text(secret, public))) == Ok::<Seq<char>, Seq<char>>(
            secret,
        ),
{
    let whole = identity_text(secret, public);
    vstd::utf8::encode_utf8_decode_utf8(whole);
    reveal_strlit("# created by keyjar\n# public key: ");
    reveal_strlit("# created by keyjar");
    reveal_strlit("# public key: ");
    reveal_strlit("\n");
    let first = "# created by keyjar"@;
    let second = "# public key: "@ + public;
    let third = secret + "\n"@;
    assert(whole =~= first + seq!['\n'] + (second + seq!['\n'] + third));
    split_at_newline(first, second + seq!['\n'] + third);
    split_at_newline(second, third);
    assert(third =~= secret + seq!['\n'] + Seq::<char>::empty());
    split_at_newline(secret, Seq::<char>::empty());
    let lines = text::split(whole, '\n');
    assert(lines[0] == first && lines[1] == second && lines[2] == secret);
    text::trimmed_keeps(first);
    text::trimmed_keeps(second);
    text::trimmed_keeps(secret);
    reveal_strlit("AGE-SECRET-KEY");
    let key = "AGE-SECRET-KEY"@;
    assert(secret.subrange(0, key.len() as int)[0] == key[0]);
    if crypt::begins(first, key) {
        assert(first.subrange(0, key.len() as int)[0] == first[0]);
    }
    if crypt::begins(second, key) {
        assert(second.subrange(0, key.len() as int)[0] == second[0]);
    }
    reveal_with_fuel(crypt::key_line, 4);
    assert(lines.drop_first()[0] == second);
    assert(lines.drop_first().drop_first()[0] == secret);
}

// ---------------------------------------------------------------------------
// Loading

/// The key that was loaded from `path`, or what to tell the user.
pub open spec fn loaded(path: Seq<u8>, sight: Sight) -> Result<Seq<char>, Seq<char>> {
    match sight {
        Sight::Missing(reason) => Err(error::at_text("no identity at "@, path, reason)),
        Sight::Failed(reason) => Err(error::at_text("no identity at "@, path, reason)),
        Sight::Bytes(bytes) => if !vstd::utf8::valid_utf8(bytes) {
            Err(error::at_text("no identity at "@, path, "stream did not contain valid UTF-8"@))
        } else {
            match identity_in_bytes(bytes) {
                Ok(secret) => Ok(secret),
                Err(reason) => Err(error::at_text("reading identity "@, path, reason)),
            }
        },
    }
}

/// Load the identity for a read. A missing identity cannot decrypt anything, so
/// none is made here.
pub fn load_identity(path: &[u8], read: &FileRead) -> (r: Result<Identity, Error>)
    ensures
        told(r) == loaded(path@, read@),
{
    match read {
        FileRead::Missing(reason) => Err(Error::at("no identity at ", path, reason.as_str())),
        FileRead::Failed(reason) => Err(Error::at("no identity at ", path, reason.as_str())),
        FileRead::Bytes(bytes) => match text::decode(bytes.as_slice()) {
            Err(_) => Err(Error::at("no identity at ", path, "stream did not contain valid UTF-8")),
            Ok(contents) => {
                proof {
                    vstd::utf8::encode_utf8_decode_utf8(contents@);
                }
                match crypt::parse_identity(contents.as_str()) {
                    Ok(identity) => Ok(identity),
                    Err(e) => Err(Error::at("reading identity ", path, e.message())),
                }
            },
        },
    }
}

pub open spec fn told(r: Result<Identity, Error>) -> Result<Seq<char>, Seq<char>> {
    match r {
        Ok(identity) => Ok(identity@),
        Err(e) => Err(e@),
    }
}

// ---------------------------------------------------------------------------
// First use

#[derive(Debug, PartialEq, Eq)]
pub enum IdentitySource {
    Created,
    Existed,
}

/// The identity for a command that may be the first ever: the one that is
/// there, or a new one with the file that is to be created for it.
pub enum FirstUse {
    Existed(Identity),
    Create(Creation),
}

/// A new identity whose file is yet to be created.
pub struct Creation {
    path: Vec<u8>,
    identity: Identity,
    change: Change,
}

/// What a first use comes to. A missing file asks for a new identity; one that is
/// there is used, and trouble with it is told.
pub open spec fn first_use(path: Seq<u8>, sight: Sight) -> Result<Option<Seq<char>>, Seq<char>> {
    match sight {
        Sight::Missing(_) => Ok(None),
        Sight::Failed(reason) => Err(error::at_text("reading identity "@, path, reason)),
        Sight::Bytes(bytes) => if !vstd::utf8::valid_utf8(bytes) {
            Err(error::at_text("reading identity "@, path, "stream did not contain valid UTF-8"@))
        } else {
            match identity_in_bytes(bytes) {
                Ok(secret) => Ok(Some(secret)),
                Err(reason) => Err(error::at_text("reading identity "@, path, reason)),
            }
        },
    }
}

/// The file that keyjar makes for an identity.
pub open spec fn creation(path: Seq<u8>, secret: Seq<char>) -> Effect {
    Effect::Create {
        path,
        bytes: text::utf8(identity_text(secret, crypt::public_of(secret))),
    }
}

/// A new identity and the file to create for it.
pub fn create_identity(path: &[u8], identity: Identity) -> (r: Creation)
    ensures
        r.path() == path@,
        r.secret() == identity@,
        r.effect() == creation(path@, identity@),
{
    let bytes: Vec<u8> = identity_contents(&identity);
    let change: Change = Change::Create { path: text::copy_of(path), bytes };
    Creation { path: text::copy_of(path), identity, change }
}

/// Load the identity, or generate one on first use. The file of a new one is yet
/// to be created; `Creation::settle` says what came of that.
pub fn load_or_create_identity(path: &[u8], read: &FileRead) -> (r: Result<FirstUse, Error>)
    ensures
        match first_use(path@, read@) {
            Ok(Some(secret)) => r matches Ok(FirstUse::Existed(identity)) && identity@ == secret,
            Ok(None) => r matches Ok(FirstUse::Create(new)) && new.path() == path@ && crypt::is_key(
                new.secret(),
            ) && new.effect() == creation(path@, new.secret()),
            Err(message) => r matches Err(e) && e@ == message,
        },
{
    match read {
        FileRead::Missing(_) => Ok(
            FirstUse::Create(create_identity(path, Identity::generate())),
        ),
        FileRead::Failed(reason) => Err(Error::at("reading identity ", path, reason.as_str())),
        FileRead::Bytes(bytes) => match text::decode(bytes.as_slice()) {
            Err(_) => Err(
                Error::at("reading identity ", path, "stream did not contain valid UTF-8"),
            ),
            Ok(contents) => {
                proof {
                    vstd::utf8::encode_utf8_decode_utf8(contents@);
                }
                match crypt::parse_identity(contents.as_str()) {
                    Ok(identity) => Ok(FirstUse::Existed(identity)),
                    Err(e) => Err(Error::at("reading identity ", path, e.message())),
                }
            },
        },
    }
}

/// What comes of creating an identity file. Whoever loses a race uses the
/// winner's key, not its own: a second identity would orphan the entries of the
/// first.
pub open spec fn settled(
    path: Seq<u8>,
    secret: Seq<char>,
    outcome: Outcome,
    again: Sight,
) -> Result<(Seq<char>, IdentitySource), Seq<char>> {
    match outcome {
        Outcome::Done => Ok((secret, IdentitySource::Created)),
        Outcome::Taken => match loaded(path, again) {
            Ok(other) => Ok((other, IdentitySource::Existed)),
            Err(message) => Err(error::at_text("creating identity "@, path, message)),
        },
        Outcome::Missing => Err(
            error::at_text("creating identity "@, path, "the directory vanished"@),
        ),
        Outcome::Failed(reason) => Err(error::at_text("creating identity "@, path, reason@)),
    }
}

impl Creation {
    pub closed spec fn path(&self) -> Seq<u8> {
        self.path@
    }

    pub closed spec fn secret(&self) -> Seq<char> {
        self.identity@
    }

    pub closed spec fn effect(&self) -> Effect {
        self.change@
    }

    /// The change that creates the file.
    pub fn change(&self) -> (r: &Change)
        ensures
            r@ == self.effect(),
    {
        &self.change
    }

    /// The identity to use once its file was to be created. `again` is what was
    /// read at its path after that.
    pub fn settle(self, outcome: &Outcome, again: &FileRead) -> (r: Result<
        (Identity, IdentitySource),
        Error,
    >)
        ensures
            match settled(self.path(), self.secret(), *outcome, again@) {
                Ok((secret, source)) => r matches Ok((i, s)) && i@ == secret && s == source,
                Err(message) => r matches Err(e) && e@ == message,
            },
    {
        let path: &[u8] = self.path.as_slice();
        match outcome {
            Outcome::Done => Ok((self.identity, IdentitySource::Created)),
            Outcome::Taken => match load_identity(path, again) {
                Ok(other) => Ok((other, IdentitySource::Existed)),
                Err(e) => Err(Error::at("creating identity ", path, e.message())),
            },
            Outcome::Missing => Err(
                Error::at("creating identity ", path, "the directory vanished"),
            ),
            Outcome::Failed(reason) => Err(
                Error::at("creating identity ", path, reason.as_str()),
            ),
        }
    }
}

/// Whoever loses the race for the first identity ends up with the winner's key.
pub proof fn the_loser_uses_the_winners_key(
    path: Seq<u8>,
    own: Seq<char>,
    winner: Seq<char>,
    again: Sight,
)
    requires
        crypt::is_key(winner),
        crypt::is_recipient(crypt::public_of(winner)),
        again == Sight::Bytes(creation(path, winner)->Create_bytes),
    ensures
        settled(path, own, Outcome::Taken, again) == Ok::<(Seq<char>, IdentitySource), Seq<char>>(
            (winner, IdentitySource::Existed),
        ),
{
    an_identity_file_loads_back(winner, crypt::public_of(winner));
    vstd::utf8::encode_utf8_valid_utf8(identity_text(winner, crypt::public_of(winner)));
}

} // verus!
