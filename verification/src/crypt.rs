//! Identities, recipients and the encryption of values. The identity file is a
//! standard age identity file, so other age tools can read the store directly.

use std::str::FromStr;

use vstd::prelude::*;
use vstd::string::*;

use crate::error::Error;
use crate::text;

verus! {

// ---------------------------------------------------------------------------
// The age library

/// What age reads in a line: the secret key, as age writes it, or the reason
/// why the line holds none.
pub uninterp spec fn identity_of(line: Seq<char>) -> Result<Seq<char>, Seq<char>>;

/// What age reads in a line: the recipient, as age writes it, or the reason why
/// the line holds none.
pub uninterp spec fn recipient_of(line: Seq<char>) -> Result<Seq<char>, Seq<char>>;

/// The recipient of a secret key.
pub uninterp spec fn public_of(secret: Seq<char>) -> Seq<char>;

/// The point that a recipient stands for.
pub uninterp spec fn point_of(recipient: Seq<char>) -> int;

/// What a secret key makes of a ciphertext, if it can open it.
pub uninterp spec fn opened(secret: Seq<char>, ciphertext: Seq<u8>) -> Option<Seq<u8>>;

/// A text that starts with the given words.
pub open spec fn begins(s: Seq<char>, words: Seq<char>) -> bool {
    words.is_prefix_of(s)
}

/// How age writes a secret key: it begins as every secret key does, and is of
/// upper-case letters, digits and hyphens.
pub open spec fn key_text(s: Seq<char>) -> bool {
    &&& begins(s, "AGE-SECRET-KEY"@)
    &&& forall|i: int|
        0 <= i < s.len() ==> ('A' <= #[trigger] s[i] <= 'Z' || '0' <= s[i] <= '9' || s[i] == '-')
}

/// How age writes a recipient: lower-case letters and digits.
pub open spec fn recipient_text(s: Seq<char>) -> bool {
    &&& s.len() > 0
    &&& forall|i: int|
        0 <= i < s.len() ==> ('a' <= #[trigger] s[i] <= 'z' || '0' <= s[i] <= '9')
}

/// The text of a secret key: it is read as itself.
pub open spec fn is_key(s: Seq<char>) -> bool {
    key_text(s) && identity_of(s) == Ok::<Seq<char>, Seq<char>>(s)
}

/// The text of a recipient: it is read as itself.
pub open spec fn is_recipient(s: Seq<char>) -> bool {
    recipient_text(s) && recipient_of(s) == Ok::<Seq<char>, Seq<char>>(s)
}

/// Whether two recipients are the same: age compares their points, so two texts
/// can be one recipient.
pub open spec fn same_recipient(a: Seq<char>, b: Seq<char>) -> bool {
    point_of(a) == point_of(b)
}

/// `age::x25519::Identity::from_str`, with the key written out by its
/// `to_string`. The result is named by `identity_of`. What is written out begins
/// with the prefix of secret keys, is of the characters that the Bech32 encoding
/// uses in upper case, and reads back as itself.
#[verifier::external_body]
fn age_identity(line: &str) -> (r: Result<String, String>)
    ensures
        text::told(r) == identity_of(line@),
        r matches Ok(s) ==> is_key(s@),
{
    match age::x25519::Identity::from_str(line) {
        Ok(identity) => Ok(
            age::secrecy::ExposeSecret::expose_secret(&identity.to_string()).to_string(),
        ),
        Err(e) => Err(e.to_string()),
    }
}

/// `age::x25519::Identity::generate`, written out by its `to_string`. The key is
/// random; whatever it is, its text is that of a secret key and reads back as
/// itself.
#[verifier::external_body]
fn age_generate() -> (r: String)
    ensures
        is_key(r@),
{
    age::secrecy::ExposeSecret::expose_secret(
        &age::x25519::Identity::generate().to_string(),
    ).to_string()
}

/// `age::x25519::Identity::to_public`, written out. The result is named by
/// `public_of`. It reads back as itself.
#[verifier::external_body]
fn age_public(secret: &str) -> (r: String)
    requires
        identity_of(secret@) is Ok,
    ensures
        r@ == public_of(secret@),
        is_recipient(r@),
{
    age::x25519::Identity::from_str(secret).unwrap().to_public().to_string()
}

/// `age::x25519::Recipient::from_str`, written out. The result is named by
/// `recipient_of`. What is written out reads back as itself.
#[verifier::external_body]
fn age_recipient(line: &str) -> (r: Result<String, String>)
    ensures
        text::told(r) == recipient_of(line@),
        r matches Ok(s) ==> is_recipient(s@),
{
    match age::x25519::Recipient::from_str(line) {
        Ok(recipient) => Ok(recipient.to_string()),
        Err(e) => Err(e.to_string()),
    }
}

/// `==` on `age::x25519::Recipient`. It compares the points that the two stand for,
/// reduced to their least value; `point_of` names that value.
#[verifier::external_body]
fn age_same_recipient(a: &str, b: &str) -> (r: bool)
    requires
        recipient_of(a@) is Ok,
        recipient_of(b@) is Ok,
    ensures
        r == (point_of(a@) == point_of(b@)),
{
    age::x25519::Recipient::from_str(a).unwrap() == age::x25519::Recipient::from_str(b).unwrap()
}

/// `age::encrypt` to the recipient of a secret key. The ciphertext is random;
/// whatever it is, the same key opens it and finds the plaintext. One recipient of
/// this kind is always accepted, and a buffer in memory refuses no write, so there
/// always is a ciphertext.
#[verifier::external_body]
fn age_encrypt(secret: &str, plaintext: &[u8]) -> (r: Result<Vec<u8>, String>)
    requires
        identity_of(secret@) is Ok,
    ensures
        r is Ok,
        r matches Ok(ciphertext) ==> opened(secret@, ciphertext@) == Some(plaintext@),
{
    let identity = age::x25519::Identity::from_str(secret).unwrap();
    match age::encrypt(&identity.to_public(), plaintext) {
        Ok(ciphertext) => Ok(ciphertext),
        Err(e) => Err(e.to_string()),
    }
}

/// `age::decrypt` with a secret key. The result is named by `opened`. Nothing is
/// claimed of the wording of a failure, which depends on the locale.
#[verifier::external_body]
fn age_decrypt(secret: &str, ciphertext: &[u8]) -> (r: Result<Vec<u8>, String>)
    requires
        identity_of(secret@) is Ok,
    ensures
        match opened(secret@, ciphertext@) {
            Some(plaintext) => r matches Ok(p) && p@ == plaintext,
            None => r is Err,
        },
{
    match age::decrypt(&age::x25519::Identity::from_str(secret).unwrap(), ciphertext) {
        Ok(plaintext) => Ok(plaintext),
        Err(e) => Err(e.to_string()),
    }
}

// ---------------------------------------------------------------------------
// Recipients

/// The public key that entries are encrypted to.
#[derive(Debug)]
pub struct Recipient {
    text: String,
}

impl View for Recipient {
    type V = Seq<char>;

    closed spec fn view(&self) -> Seq<char> {
        self.text@
    }
}

impl Recipient {
    #[verifier::type_invariant]
    spec fn holds_a_recipient(self) -> bool {
        is_recipient(self.text@)
    }

    /// The recipient that a line spells.
    pub fn parse(line: &str) -> (r: Result<Recipient, String>)
        ensures
            match recipient_of(line@) {
                Ok(recipient) => r matches Ok(s) && s@ == recipient,
                Err(reason) => r matches Err(e) && e@ == reason,
            },
    {
        match age_recipient(line) {
            Ok(text) => Ok(Recipient { text }),
            Err(reason) => Err(reason),
        }
    }

    pub fn as_str(&self) -> (r: &str)
        ensures
            r@ == self@,
            is_recipient(r@),
    {
        proof {
            use_type_invariant(self);
        }
        self.text.as_str()
    }

    /// The same recipient, once more.
    pub fn copy(&self) -> (r: Recipient)
        ensures
            r@ == self@,
    {
        proof {
            use_type_invariant(self);
        }
        Recipient { text: self.text.clone() }
    }

    pub fn same_as(&self, other: &Recipient) -> (r: bool)
        ensures
            r == same_recipient(self@, other@),
    {
        age_same_recipient(self.as_str(), other.as_str())
    }
}

// ---------------------------------------------------------------------------
// Identities

/// The secret key that opens the entries of a store.
pub struct Identity {
    secret: String,
}

impl View for Identity {
    type V = Seq<char>;

    closed spec fn view(&self) -> Seq<char> {
        self.secret@
    }
}

impl Identity {
    #[verifier::type_invariant]
    spec fn holds_a_key(self) -> bool {
        is_key(self.secret@)
    }

    /// A new key. It is random: nothing is known of it but that it is a key.
    pub fn generate() -> (r: Identity)
        ensures
            is_key(r@),
    {
        Identity { secret: age_generate() }
    }

    /// The text of the key.
    pub fn secret(&self) -> (r: &str)
        ensures
            r@ == self@,
            is_key(r@),
    {
        proof {
            use_type_invariant(self);
        }
        self.secret.as_str()
    }

    pub fn to_public(&self) -> (r: Recipient)
        ensures
            r@ == public_of(self@),
            is_key(self@),
    {
        proof {
            use_type_invariant(self);
        }
        Recipient { text: age_public(self.secret.as_str()) }
    }
}

/// The first line that begins as a secret key does, trimmed. Blank lines, comments
/// and whatever else is in the file are passed over.
pub open spec fn key_line(lines: Seq<Seq<char>>) -> Option<Seq<char>>
    decreases lines.len(),
{
    if lines.len() == 0 {
        None
    } else {
        let line = text::trimmed(lines[0]);
        if begins(line, "AGE-SECRET-KEY"@) {
            Some(line)
        } else {
            key_line(lines.drop_first())
        }
    }
}

/// What an identity file holds: the key in its first line that begins as one, or
/// the reason why there is none.
pub open spec fn identity_in(contents: Seq<char>) -> Result<Seq<char>, Seq<char>> {
    match key_line(text::split(contents, '\n')) {
        Some(line) => identity_of(line),
        None => Err("no identity line found"@),
    }
}

/// Lines, `#` comments, the first AGE-SECRET-KEY line wins. Other age tools write
/// such files too.
pub fn parse_identity(contents: &str) -> (r: Result<Identity, Error>)
    ensures
        match identity_in(contents@) {
            Ok(secret) => r matches Ok(identity) && identity@ == secret,
            Err(reason) => r matches Err(e) && e@ == reason,
        },
{
    let chars: Vec<char> = text::chars_of(contents);
    let mut start: usize = 0;
    proof {
        assert(chars@.skip(0) =~= chars@);
    }
    loop
        invariant
            start <= chars@.len(),
            chars@ == contents@,
            key_line(text::split(contents@, '\n')) == key_line(
                text::split(chars@.skip(start as int), '\n'),
            ),
        decreases chars@.len() - start,
    {
        let ghost rest = chars@.skip(start as int);
        let mut line: Vec<char> = Vec::new();
        let mut end: usize = start;
        while end < chars.len() && chars[end] != '\n'
            invariant
                start <= end <= chars@.len(),
                rest == chars@.skip(start as int),
                line@ == rest.take(end - start),
                forall|i: int| 0 <= i < end - start ==> rest[i] != '\n',
            decreases chars@.len() - end,
        {
            proof {
                assert(rest[end - start] == chars@[end as int]);
                assert(rest.take(end - start + 1) =~= rest.take(end - start).push(
                    chars@[end as int],
                ));
            }
            line.push(chars[end]);
            end = end + 1;
        }
        proof {
            if end < chars@.len() {
                assert(rest[end - start] == chars@[end as int]);
            }
            text::run_is_only(rest, '\n', end - start);
            if end < chars@.len() {
                assert(rest.skip(end - start + 1) =~= chars@.skip(end + 1));
                assert(text::split(rest, '\n')[0] == rest.take(end - start));
                assert(text::split(rest, '\n').drop_first() =~= text::split(
                    chars@.skip(end + 1),
                    '\n',
                ));
            } else {
                reveal_with_fuel(key_line, 2);
                assert(rest.take(end - start) =~= rest);
                assert(text::split(rest, '\n')[0] == rest);
                assert(text::split(rest, '\n').drop_first() =~= Seq::<Seq<char>>::empty());
            }
        }
        let line: Vec<char> = text::trim(line.as_slice());
        if text::starts_with(line.as_slice(), "AGE-SECRET-KEY") {
            let line: String = text::text_of(line.as_slice());
            return match age_identity(line.as_str()) {
                Ok(secret) => Ok(Identity { secret }),
                Err(reason) => Err(Error::new(reason)),
            };
        }
        if end >= chars.len() {
            return Err(Error::of("no identity line found"));
        }
        start = end + 1;
    }
}

/// Encrypt a value so that the identity can open it.
pub fn encrypt(identity: &Identity, plaintext: &[u8]) -> (r: Result<Vec<u8>, Error>)
    ensures
        r matches Ok(ciphertext) && opened(identity@, ciphertext@) == Some(plaintext@),
{
    match age_encrypt(identity.secret(), plaintext) {
        Ok(ciphertext) => Ok(ciphertext),
        Err(reason) => Err(Error::during("encrypting: ", reason.as_str())),
    }
}

/// Open a ciphertext. How a failure is worded after the first words is up to the
/// age library.
pub fn decrypt(identity: &Identity, ciphertext: &[u8]) -> (r: Result<Vec<u8>, Error>)
    ensures
        match opened(identity@, ciphertext@) {
            Some(plaintext) => r matches Ok(p) && p@ == plaintext,
            None => r matches Err(e) && begins(e@, "decrypting: "@),
        },
{
    match age_decrypt(identity.secret(), ciphertext) {
        Ok(plaintext) => Ok(plaintext),
        Err(reason) => {
            proof {
                words_come_first("decrypting: "@, reason@);
            }
            Err(Error::during("decrypting: ", reason.as_str()))
        },
    }
}

/// What is behind the words that a text begins with.
proof fn words_come_first(words: Seq<char>, rest: Seq<char>)
    ensures
        begins(words + rest, words),
{
    assert(words =~= (words + rest).subrange(0, words.len() as int));
}

} // verus!
