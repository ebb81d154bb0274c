//! What each step comes to, case by case: paths, keys, files, plans, lines and
//! messages, said of what goes in and what comes out.

use vstd::prelude::*;
use vstd::string::*;

use crate::commands;
use crate::components;
use crate::consent;
use crate::consent::Consent;
use crate::crypt;
use crate::disk;
use crate::disk::{Disk, Node};
use crate::edit;
use crate::env;
use crate::error;
use crate::error::Error;
use crate::host;
use crate::host::{Change, Effect, FileRead, Found, Outcome, Seen, Sight};
use crate::identity;
use crate::identity::IdentitySource;
use crate::layout;
use crate::meaning;
use crate::name;
use crate::name::{Name, Namespace};
use crate::order;
use crate::output;
use crate::output::Triple;
use crate::paths;
use crate::plan;
use crate::plan::{Course, End, Plan};
use crate::rekey;
use crate::rekey::KeyFiles;
use crate::store;
use crate::store::{Claim, Move, Renaming, Write};
use crate::text;
use crate::walk;
use crate::walk::{Item, Kind, Listing, Trail, Visit};
use crate::whole;

verus! {

// ---------------------------------------------------------------------------
// Views

/// A view of a sequence is one for one: as many, each that of its item, in order.
pub proof fn sequences_are_viewed_one_for_one(
    names: Seq<Name>,
    strings: Seq<String>,
    paths: Seq<Vec<u8>>,
    entries: Seq<(Name, Vec<u8>)>,
    pairs: Seq<(String, Name)>,
    values: Seq<(String, Name, Vec<u8>)>,
    changes: Seq<Change>,
    i: int,
)
    ensures
        order::texts(names).len() == names.len(),
        text::texts(strings).len() == strings.len(),
        plan::views(paths).len() == paths.len(),
        store::entry_views(entries).len() == entries.len(),
        env::pair_texts(pairs).len() == pairs.len(),
        output::triples(values).len() == values.len(),
        host::effects(changes).len() == changes.len(),
        0 <= i < names.len() ==> order::texts(names)[i] == names[i]@,
        0 <= i < strings.len() ==> text::texts(strings)[i] == strings[i]@,
        0 <= i < paths.len() ==> plan::views(paths)[i] == paths[i]@,
        0 <= i < entries.len() ==> store::entry_views(entries)[i] == (entries[i].0@, entries[i].1@),
        0 <= i < pairs.len() ==> env::pair_texts(pairs)[i] == (pairs[i].0@, pairs[i].1@),
        0 <= i < values.len() ==> output::triples(values)[i] == (
            values[i].0@,
            values[i].1@,
            values[i].2@,
        ),
        0 <= i < changes.len() ==> host::effects(changes)[i] == changes[i]@,
{
}

/// The names of entries are one for one.
pub proof fn names_are_taken_one_for_one(entries: Seq<(Seq<char>, Seq<u8>)>, i: int)
    ensures
        output::names_of(entries).len() == entries.len(),
        0 <= i < entries.len() ==> output::names_of(entries)[i] == entries[i].0,
{
}

/// What was read of a file is told as it was read.
pub proof fn a_read_is_told_as_it_is(bytes: Vec<u8>, reason: String)
    ensures
        FileRead::Bytes(bytes)@ == Sight::Bytes(bytes@),
        FileRead::Missing(reason)@ == Sight::Missing(reason@),
        FileRead::Failed(reason)@ == Sight::Failed(reason@),
{
}

/// A change is told as it is: of its kind, with its paths and bytes.
pub proof fn a_change_is_told_as_it_is(path: Vec<u8>, to: Vec<u8>, bytes: Vec<u8>)
    ensures
        (Change::Create { path, bytes })@ == (Effect::Create { path: path@, bytes: bytes@ }),
        (Change::Replace { path, bytes })@ == (Effect::Replace { path: path@, bytes: bytes@ }),
        (Change::Rename { from: path, to })@ == (Effect::Rename { from: path@, to: to@ }),
        (Change::Remove { path })@ == (Effect::Remove { path: path@ }),
        (Change::RemoveDir { path })@ == (Effect::RemoveDir { path: path@ }),
{
}

/// A renaming is told as what it comes to.
pub proof fn a_renaming_is_told_as_it_is(plan: Plan)
    ensures
        Renaming::Missing@ == Move::Missing,
        Renaming::Taken@ == Move::Taken,
        Renaming::Go(plan)@ == Move::Go(host::effects(plan.changes@), plan::views(plan.prune@)),
{
}

/// A write is told as its changes in order, a claim before the entry. A claim is for
/// one store and one recipient.
pub proof fn a_write_is_told_as_it_is(change: Change, claim: Claim)
    ensures
        Write::Entry(change).effects() == seq![change@],
        Write::Claim(claim).effects() == seq![claim.effect(), claim.entry()],
        Write::Claim(claim).is_for(claim.dir(), claim.recipient()),
        forall|dir: Seq<u8>, recipient: Seq<char>| #[trigger]
            Write::Claim(claim).is_for(dir, recipient) ==> dir == claim.dir() && recipient
                == claim.recipient(),
{
}

/// What may be missing is told as missing, and what is there as what it is.
pub proof fn options_are_told_as_they_are(
    space: Namespace,
    name: Name,
    path: Vec<u8>,
    notice: String,
)
    ensures
        env::optional(Some(&space)) == Some(space@),
        env::optional(None) is None,
        store::name_text(Some(&name)) == Some(name@),
        store::name_text(None) is None,
        paths::view_of(Some(path)) == Some(path@),
        paths::view_of(None) is None,
        commands::said(Some(notice)) == Some(notice@),
        commands::said(None) is None,
{
}

/// A result is told as what it is: a success as its value, an error as its message.
pub proof fn results_are_told_as_they_are(
    names: Vec<Name>,
    bytes: Vec<u8>,
    string: String,
    key: crypt::Identity,
    values: Vec<(String, Name, Vec<u8>)>,
    e: Error,
)
    ensures
        store::refused(Ok(())) is None,
        store::refused(Err(e)) == Some(e@),
        store::names_told(Ok(names)) == Ok::<Seq<Seq<char>>, Seq<char>>(order::texts(names@)),
        store::names_told(Err(e)) == Err::<Seq<Seq<char>>, Seq<char>>(e@),
        output::bytes_told(Ok(bytes)) == Ok::<Seq<u8>, Seq<char>>(bytes@),
        output::bytes_told(Err(e)) == Err::<Seq<u8>, Seq<char>>(e@),
        text::told(Ok(string)) == Ok::<Seq<char>, Seq<char>>(string@),
        text::told(Err(string)) == Err::<Seq<char>, Seq<char>>(string@),
        identity::told(Ok(key)) == Ok::<Seq<char>, Seq<char>>(key@),
        identity::told(Err(e)) == Err::<Seq<char>, Seq<char>>(e@),
        output::variables_told(Ok(output::Variables::Ready(values))) == Ok::<
            Seq<Triple>,
            Seq<char>,
        >(output::triples(values@)),
        output::variables_told(Err(e)) == Err::<Seq<Triple>, Seq<char>>(e@),
{
}

/// What was seen of a store is told as it is.
pub proof fn a_look_is_told_as_it_is(seen: Seen)
    ensures
        seen.names matches Ok(names) ==> seen.listing() == Ok::<Seq<Seq<char>>, Seq<char>>(
            order::texts(names@),
        ),
        seen.names matches Err(reason) ==> seen.listing() == Err::<Seq<Seq<char>>, Seq<char>>(
            reason@,
        ),
{
}

/// What was found at a path is what the first file of that path holds; where there
/// is none, the path counts as missing.
pub proof fn a_file_is_found_by_its_path(seen: Seen, path: Seq<u8>, i: int)
    requires
        0 <= i <= seen.files@.len(),
        forall|j: int| 0 <= j < i ==> (#[trigger] seen.files@[j]).path@ != path,
    ensures
        i < seen.files@.len() && seen.files@[i].path@ == path ==> seen.file(path)
            == seen.files@[i].read@,
        i == seen.files@.len() ==> seen.file(path) is Missing,
{
    found_by_path(seen.files@, path, i);
}

proof fn found_by_path(files: Seq<Found>, path: Seq<u8>, i: int)
    requires
        0 <= i <= files.len(),
        forall|j: int| 0 <= j < i ==> (#[trigger] files[j]).path@ != path,
    ensures
        i < files.len() && files[i].path@ == path ==> host::look_up(files, path) == files[i].read@,
        i == files.len() ==> host::look_up(files, path) is Missing,
    decreases i,
{
    if i > 0 {
        let rest = files.drop_first();
        assert forall|j: int| 0 <= j < i - 1 implies (#[trigger] rest[j]).path@ != path by {
            assert(rest[j] == files[j + 1]);
        }
        assert(files[0].path@ != path);
        found_by_path(rest, path, i - 1);
    }
}

// ---------------------------------------------------------------------------
// Paths

/// A relative path is put behind a directory with one slash between them, and none
/// is added where the directory ends in one or is empty. An absolute path stands
/// for itself.
pub proof fn a_path_is_joined_with_one_slash(base: Seq<u8>, rel: Seq<u8>)
    ensures
        rel.len() > 0 && rel[0] == 0x2f ==> paths::joined(base, rel) == rel,
        rel.len() == 0 || rel[0] != 0x2f ==> {
            &&& base.len() == 0 ==> paths::joined(base, rel) == rel
            &&& paths::joined(base.push(0x2f), rel) == base + seq![0x2fu8] + rel
            &&& base.len() > 0 && base.last() != 0x2f ==> paths::joined(base, rel) == base
                + seq![0x2fu8] + rel
        },
        paths::absolute(rel) <==> rel.len() > 0 && rel[0] == 0x2f,
        paths::under(base) == paths::joined(base, Seq::empty()),
{
    assert(paths::under(base) + Seq::<u8>::empty() =~= paths::under(base));
    if rel.len() == 0 || rel[0] != 0x2f {
        assert(base.push(0x2f).last() == 0x2f);
        assert(base.push(0x2f) + rel =~= base + seq![0x2fu8] + rel);
        if base.len() == 0 {
            assert(base + rel =~= rel);
        }
    }
}

/// The value is set, and not to nothing.
pub open spec fn is_set(value: Option<Seq<u8>>) -> bool {
    value is Some && value->0.len() > 0
}

/// The value is set to an absolute path.
pub open spec fn is_rooted(value: Option<Seq<u8>>) -> bool {
    value is Some && value->0.len() > 0 && value->0[0] == 0x2f
}

/// Where the store is: where the flag says, even if it says nothing sensible; else
/// where the variable says, if it says something; else in the data directory, if
/// that is absolute; else under the home directory, if there is one.
pub proof fn the_store_is_where_it_is_said_to_be(
    flag: Option<Seq<u8>>,
    store: Option<Seq<u8>>,
    data: Option<Seq<u8>>,
    home: Option<Seq<u8>>,
)
    ensures
        flag is Some ==> paths::store_path(flag, store, data, home) == flag,
        flag is None && is_set(store) ==> paths::store_path(flag, store, data, home) == store,
        flag is None && !is_set(store) && is_rooted(data) ==> paths::store_path(
            flag,
            store,
            data,
            home,
        ) == Some(paths::joined(data->0, text::utf8("keyjar"@))),
        flag is None && !is_set(store) && !is_rooted(data) && is_set(home) ==> paths::store_path(
            flag,
            store,
            data,
            home,
        ) == Some(
            paths::joined(
                paths::joined(home->0, text::utf8(".local/share"@)),
                text::utf8("keyjar"@),
            ),
        ),
        flag is None && !is_set(store) && !is_rooted(data) && !is_set(home) ==> paths::store_path(
            flag,
            store,
            data,
            home,
        ) is None,
{
}

/// Where the identity is: where the variable says, if it says something; else in
/// the configuration directory, if that is absolute; else under the home directory,
/// if there is one.
pub proof fn the_identity_is_where_it_is_said_to_be(
    identity: Option<Seq<u8>>,
    config: Option<Seq<u8>>,
    home: Option<Seq<u8>>,
)
    ensures
        is_set(identity) ==> paths::identity_file_path(identity, config, home) == identity,
        !is_set(identity) && is_rooted(config) ==> paths::identity_file_path(identity, config, home)
            == Some(
            paths::joined(
                paths::joined(config->0, text::utf8("keyjar"@)),
                text::utf8("identity"@),
            ),
        ),
        !is_set(identity) && !is_rooted(config) && is_set(home) ==> paths::identity_file_path(
            identity,
            config,
            home,
        ) == Some(
            paths::joined(
                paths::joined(
                    paths::joined(home->0, text::utf8(".config"@)),
                    text::utf8("keyjar"@),
                ),
                text::utf8("identity"@),
            ),
        ),
        !is_set(identity) && !is_rooted(config) && !is_set(home) ==> paths::identity_file_path(
            identity,
            config,
            home,
        ) is None,
{
}

/// The files of a store: an entry is kept under its name with `.age` behind it, the
/// marker and the lock under hidden names of their own. The keys that a rekey puts
/// aside stand next to the identity file.
pub proof fn files_are_named_so(dir: Seq<u8>, name: Seq<char>, path: Seq<u8>)
    ensures
        store::entry_at(dir, name) == paths::joined(dir, text::utf8(name + ".age"@)),
        store::marker_at(dir) == paths::joined(dir, text::utf8(".keyjar-recipient"@)),
        store::lock_at(dir) == paths::joined(dir, text::utf8(".keyjar.lock"@)),
        rekey::new_at(path) == path + text::utf8(".new"@),
        rekey::old_at(path) == path + text::utf8(".old"@),
{
}

/// A relative path is that of an entry exactly if it is a name with `.age` behind
/// it.
pub proof fn a_name_is_what_stands_before_the_ending(relative: Seq<char>, name: Seq<char>)
    ensures
        store::name_in(relative) == Some(name) <==> name::valid(name) && relative == name
            + ".age"@,
{
    reveal_strlit(".age");
    let whole = name + ".age"@;
    assert(whole.skip(name.len() as int) =~= ".age"@);
    assert(whole.take(name.len() as int) =~= name);
    if store::name_in(relative) == Some(name) {
        let cut = relative.len() - 4;
        assert(relative =~= relative.take(cut) + relative.skip(cut));
    }
}

/// A file is that of an entry exactly if what is left of its path within the store
/// is a name with `.age` behind it.
pub proof fn a_path_is_named_by_what_is_within(dir: Seq<u8>, path: Seq<u8>, name: Seq<char>)
    ensures
        store::name_at(dir, path) == Some(name) <==> name::valid(name) && components::within(
            dir,
            path,
        ) == Some(text::utf8(name + ".age"@)),
{
    let chars = name + ".age"@;
    vstd::utf8::encode_utf8_valid_utf8(chars);
    vstd::utf8::encode_utf8_decode_utf8(chars);
    a_name_is_what_stands_before_the_ending(chars, name);
    if store::name_at(dir, path) == Some(name) {
        let rest = components::within(dir, path)->0;
        let relative = vstd::utf8::decode_utf8(rest);
        vstd::utf8::decode_utf8_encode_utf8(rest);
        a_name_is_what_stands_before_the_ending(relative, name);
    }
}

/// Text survives as bytes.
pub proof fn text_survives_as_bytes(s: Seq<char>)
    ensures
        vstd::utf8::valid_utf8(text::utf8(s)),
        vstd::utf8::decode_utf8(text::utf8(s)) == s,
{
    vstd::utf8::encode_utf8_valid_utf8(s);
    vstd::utf8::encode_utf8_decode_utf8(s);
}

// ---------------------------------------------------------------------------
// Keys

/// A text begins with some words exactly if it is those words and a rest.
pub proof fn a_beginning_comes_first(s: Seq<char>, words: Seq<char>, rest: Seq<char>)
    ensures
        crypt::begins(words + rest, words),
        crypt::begins(s, words) ==> s == words + s.skip(words.len() as int),
{
    assert(words =~= (words + rest).subrange(0, words.len() as int));
    if crypt::begins(s, words) {
        assert(s =~= s.subrange(0, words.len() as int) + s.skip(words.len() as int));
    }
}

/// The line is that of a key: without the white space around it, it begins as a
/// secret key does.
pub open spec fn is_key_line(line: Seq<char>) -> bool {
    crypt::begins(text::trimmed(line), "AGE-SECRET-KEY"@)
}

/// The key of an identity file is that of its first key line, whatever comes before
/// and after it. A file without a key line has none.
pub proof fn the_first_key_line_counts(contents: Seq<char>, i: int)
    requires
        0 <= i <= text::split(contents, '\n').len(),
        forall|j: int| 0 <= j < i ==> !is_key_line(#[trigger] text::split(contents, '\n')[j]),
    ensures
        i < text::split(contents, '\n').len() && is_key_line(text::split(contents, '\n')[i])
            ==> crypt::identity_in(contents) == crypt::identity_of(
            text::trimmed(text::split(contents, '\n')[i]),
        ),
        i == text::split(contents, '\n').len() ==> crypt::identity_in(contents) == Err::<
            Seq<char>,
            Seq<char>,
        >("no identity line found"@),
{
    key_line_is_first(text::split(contents, '\n'), i);
}

proof fn key_line_is_first(lines: Seq<Seq<char>>, i: int)
    requires
        0 <= i <= lines.len(),
        forall|j: int| 0 <= j < i ==> !is_key_line(#[trigger] lines[j]),
    ensures
        i < lines.len() && is_key_line(lines[i]) ==> crypt::key_line(lines) == Some(
            text::trimmed(lines[i]),
        ),
        i == lines.len() ==> crypt::key_line(lines) is None,
    decreases i,
{
    if i > 0 {
        let rest = lines.drop_first();
        assert forall|j: int| 0 <= j < i - 1 implies !is_key_line(#[trigger] rest[j]) by {
            assert(rest[j] == lines[j + 1]);
        }
        assert(!is_key_line(lines[0]));
        key_line_is_first(rest, i - 1);
    }
}

/// The text that keyjar writes for a key: two comments, the second with the public
/// key, and the key on a line of its own.
pub proof fn an_identity_file_is_written_so(secret: Seq<char>, public: Seq<char>)
    ensures
        identity::identity_text(secret, public) == "# created by keyjar\n"@ + "# public key: "@
            + public + "\n"@ + secret + "\n"@,
{
    reveal_strlit("# created by keyjar\n# public key: ");
    reveal_strlit("# created by keyjar\n");
    reveal_strlit("# public key: ");
    assert("# created by keyjar\n# public key: "@ =~= "# created by keyjar\n"@
        + "# public key: "@);
}

/// The bytes are text that holds the key.
pub open spec fn holds_key(bytes: Seq<u8>, secret: Seq<char>) -> bool {
    exists|contents: Seq<char>| #[trigger]
        text::utf8(contents) == bytes && crypt::identity_in(contents) == Ok::<
            Seq<char>,
            Seq<char>,
        >(secret)
}

/// A key is loaded exactly from a file that could be read, is text and holds it. On
/// first use the same key is found, and a new one is asked for exactly where there
/// is no file.
pub proof fn a_key_is_loaded_from_what_holds_it(path: Seq<u8>, sight: Sight, secret: Seq<char>)
    ensures
        identity::loaded(path, sight) == Ok::<Seq<char>, Seq<char>>(secret) <==> (
        sight matches Sight::Bytes(bytes) && holds_key(bytes, secret)),
        identity::first_use(path, sight) == Ok::<Option<Seq<char>>, Seq<char>>(Some(secret)) <==> (
        sight matches Sight::Bytes(bytes) && holds_key(bytes, secret)),
        identity::first_use(path, sight) == Ok::<Option<Seq<char>>, Seq<char>>(None) <==> sight is Missing,
        rekey::key_in(sight) == Some(secret) <==> (sight matches Sight::Bytes(bytes) && holds_key(
            bytes,
            secret,
        )),
{
    if sight is Bytes {
        let bytes = sight->Bytes_0;
        if holds_key(bytes, secret) {
            let contents = choose|contents: Seq<char>| #[trigger]
                text::utf8(contents) == bytes && crypt::identity_in(contents) == Ok::<
                    Seq<char>,
                    Seq<char>,
                >(secret);
            vstd::utf8::encode_utf8_valid_utf8(contents);
            vstd::utf8::encode_utf8_decode_utf8(contents);
        }
        if vstd::utf8::valid_utf8(bytes) {
            vstd::utf8::decode_utf8_encode_utf8(bytes);
            assert(text::utf8(vstd::utf8::decode_utf8(bytes)) == bytes);
        }
    }
}

/// Trouble with a key names the file and the reason. What is no text is told as
/// such.
pub proof fn trouble_with_a_key_is_told(path: Seq<u8>, reason: Seq<char>, bytes: Seq<u8>)
    ensures
        ({
            let file = text::lossy_text(path);
            let no_text = "stream did not contain valid UTF-8"@;
            &&& identity::loaded(path, Sight::Missing(reason)) == Err::<Seq<char>, Seq<char>>(
                "no identity at "@ + file + ": "@ + reason,
            )
            &&& identity::loaded(path, Sight::Failed(reason)) == Err::<Seq<char>, Seq<char>>(
                "no identity at "@ + file + ": "@ + reason,
            )
            &&& identity::first_use(path, Sight::Failed(reason)) == Err::<
                Option<Seq<char>>,
                Seq<char>,
            >("reading identity "@ + file + ": "@ + reason)
            &&& !vstd::utf8::valid_utf8(bytes) ==> identity::loaded(path, Sight::Bytes(bytes))
                == Err::<Seq<char>, Seq<char>>("no identity at "@ + file + ": "@ + no_text)
                && identity::first_use(path, Sight::Bytes(bytes)) == Err::<
                Option<Seq<char>>,
                Seq<char>,
            >("reading identity "@ + file + ": "@ + no_text)
            &&& vstd::utf8::valid_utf8(bytes) ==> (crypt::identity_in(
                vstd::utf8::decode_utf8(bytes),
            ) matches Err(why) ==> identity::loaded(path, Sight::Bytes(bytes)) == Err::<
                Seq<char>,
                Seq<char>,
            >("reading identity "@ + file + ": "@ + why) && identity::first_use(
                path,
                Sight::Bytes(bytes),
            ) == Err::<Option<Seq<char>>, Seq<char>>("reading identity "@ + file + ": "@ + why))
        }),
{
}

/// Whoever created the identity file uses its own key; whoever came second uses the
/// key that is there. Every other end is an error.
pub proof fn a_new_key_is_settled(
    path: Seq<u8>,
    secret: Seq<char>,
    outcome: Outcome,
    again: Sight,
    other: Seq<char>,
)
    ensures
        outcome is Done ==> identity::settled(path, secret, outcome, again) == Ok::<
            (Seq<char>, IdentitySource),
            Seq<char>,
        >((secret, IdentitySource::Created)),
        outcome is Taken && (again matches Sight::Bytes(bytes) && holds_key(bytes, other))
            ==> identity::settled(path, secret, outcome, again) == Ok::<
            (Seq<char>, IdentitySource),
            Seq<char>,
        >((other, IdentitySource::Existed)),
        outcome is Taken ==> (identity::loaded(path, again) matches Err(why)
            ==> identity::settled(path, secret, outcome, again) == Err::<
            (Seq<char>, IdentitySource),
            Seq<char>,
        >("creating identity "@ + text::lossy_text(path) + ": "@ + why)),
        outcome is Missing ==> identity::settled(path, secret, outcome, again) == Err::<
            (Seq<char>, IdentitySource),
            Seq<char>,
        >("creating identity "@ + text::lossy_text(path) + ": "@ + "the directory vanished"@),
        outcome matches Outcome::Failed(reason) ==> identity::settled(path, secret, outcome, again)
            == Err::<(Seq<char>, IdentitySource), Seq<char>>(
            "creating identity "@ + text::lossy_text(path) + ": "@ + reason@,
        ),
{
    a_key_is_loaded_from_what_holds_it(path, again, other);
}

/// The file for a new key is created, never written over, at the given path, and it
/// holds the key.
pub proof fn a_new_key_is_written_down(path: Seq<u8>, secret: Seq<char>)
    requires
        crypt::is_key(secret),
        crypt::is_recipient(crypt::public_of(secret)),
    ensures
        identity::creation(path, secret) matches Effect::Create { path: p, bytes } && p == path
            && holds_key(bytes, secret),
{
    let public = crypt::public_of(secret);
    let contents = identity::identity_text(secret, public);
    identity::an_identity_file_loads_back(secret, public);
    vstd::utf8::encode_utf8_decode_utf8(contents);
    assert(text::utf8(contents) == identity::creation(path, secret)->Create_bytes);
}

/// Two recipients are the same exactly if they stand for the same point.
pub proof fn recipients_are_compared_by_their_points(a: Seq<char>, b: Seq<char>)
    ensures
        crypt::same_recipient(a, b) <==> crypt::point_of(a) == crypt::point_of(b),
{
}

// ---------------------------------------------------------------------------
// The walk

/// The item tells of trouble: the listing broke off there, or it is something that
/// a walk looks at and of which the operating system does not say what it is.
pub open spec fn is_trouble(item: Item) -> bool {
    match item {
        Item::Failed(_) => true,
        Item::Found { file_name, kind } => kind is Failed && vstd::utf8::valid_utf8(file_name@)
            && (file_name@.len() == 0 || file_name@[0] != 0x2e),
    }
}

/// The reason that the item gives for its trouble.
pub open spec fn reason_of(item: Item) -> Seq<char> {
    match item {
        Item::Failed(reason) => reason@,
        Item::Found { kind, .. } => kind->Failed_0@,
    }
}

/// A walk passes over no trouble: the first that a listing tells of ends it, with
/// its reason. A directory that vanished holds nothing; one that cannot be listed
/// ends the walk.
pub proof fn a_walk_passes_over_no_trouble(
    root: Seq<u8>,
    trail: Trail,
    items: Vec<Item>,
    i: int,
    reason: String,
)
    requires
        0 <= i <= items@.len(),
        forall|j: int| 0 <= j < i ==> !is_trouble(#[trigger] items@[j]),
    ensures
        i < items@.len() && is_trouble(items@[i]) ==> walk::after_listing(
            root,
            trail,
            Listing::Items(items),
        ) == Err::<Trail, Seq<char>>(reason_of(items@[i])),
        i == items@.len() ==> walk::after_listing(root, trail, Listing::Items(items)) is Ok,
        walk::after_listing(root, trail, Listing::Failed(reason)) == Err::<Trail, Seq<char>>(
            "listing "@ + text::lossy_text(trail.pending.last()) + ": "@ + reason@,
        ),
        walk::after_listing(root, trail, Listing::Missing) == Ok::<Trail, Seq<char>>(
            Trail { pending: trail.pending.drop_last(), names: trail.names },
        ),
{
    let dir = trail.pending.last();
    no_trouble_no_fault(root, dir, items@.take(i));
    if i < items@.len() && is_trouble(items@[i]) {
        let some = items@.take(i + 1);
        assert(some.drop_last() =~= items@.take(i));
        assert(some.last() == items@[i]);
        the_first_fault_stays(root, dir, items@, i + 1);
    }
    if i == items@.len() {
        assert(items@.take(i) =~= items@);
    }
}

proof fn no_trouble_no_fault(root: Seq<u8>, dir: Seq<u8>, items: Seq<Item>)
    requires
        forall|j: int| 0 <= j < items.len() ==> !is_trouble(#[trigger] items[j]),
    ensures
        walk::first_fault(root, dir, items) is None,
    decreases items.len(),
{
    if items.len() > 0 {
        let rest = items.drop_last();
        assert forall|j: int| 0 <= j < rest.len() implies !is_trouble(#[trigger] rest[j]) by {
            assert(rest[j] == items[j]);
        }
        no_trouble_no_fault(root, dir, rest);
        assert(!is_trouble(items[items.len() - 1]));
    }
}

proof fn the_first_fault_stays(root: Seq<u8>, dir: Seq<u8>, items: Seq<Item>, i: int)
    requires
        0 <= i <= items.len(),
        walk::first_fault(root, dir, items.take(i)) is Some,
    ensures
        walk::first_fault(root, dir, items) == walk::first_fault(root, dir, items.take(i)),
    decreases items.len() - i,
{
    if i < items.len() {
        assert(items.take(i + 1).drop_last() =~= items.take(i));
        the_first_fault_stays(root, dir, items, i + 1);
    } else {
        assert(items.take(i) =~= items);
    }
}

/// A walk passes over what is no text and what is hidden, goes into every other
/// directory, and takes in every other file that is named as an entry.
pub proof fn a_walk_goes_by_what_it_meets(
    root: Seq<u8>,
    dir: Seq<u8>,
    file_name: Vec<u8>,
    kind: Kind,
    name: Seq<char>,
)
    ensures
        ({
            let visit = walk::visit(root, dir, Item::Found { file_name, kind });
            let path = paths::joined(dir, file_name@);
            let looked_at = vstd::utf8::valid_utf8(file_name@) && (file_name@.len() == 0
                || file_name@[0] != 0x2e);
            &&& !looked_at ==> visit is Skip
            &&& looked_at && kind is Dir ==> visit == Visit::Enter(path)
            &&& looked_at && kind is Other ==> (visit == Visit::Entry(name) <==> store::name_at(
                root,
                path,
            ) == Some(name))
            &&& looked_at && kind is Other && store::name_at(root, path) is None ==> visit is Skip
        }),
{
}

// ---------------------------------------------------------------------------
// Plans

/// A plan starts with its first change. Each change that was made is followed by
/// the next; one that was not ends the plan, and the end says why.
pub proof fn a_plan_goes_on_while_changes_are_made(
    effects: Seq<Effect>,
    dirs: Seq<Seq<u8>>,
    course: Course,
    reason: String,
)
    requires
        effects.len() > 0,
        course == (Course { left: effects, dirs, end: None }),
    ensures
        plan::start(effects, dirs) == course,
        plan::upcoming(course) == Some(effects[0]),
        plan::told(course, Outcome::Done) == (Course {
            left: effects.drop_first(),
            dirs,
            end: None,
        }),
        plan::told(course, Outcome::Missing).end == Some(End::Missing),
        plan::told(course, Outcome::Taken).end == Some(End::Taken),
        plan::told(course, Outcome::Failed(reason)).end == Some(End::Failed(reason)),
        plan::upcoming(plan::told(course, Outcome::Missing)) is None,
        plan::upcoming(plan::told(course, Outcome::Taken)) is None,
        plan::upcoming(plan::told(course, Outcome::Failed(reason))) is None,
{
}

/// After the changes the directories are removed, one after the other, up to the
/// first that cannot be; the plan is complete either way.
pub proof fn a_plan_ends_with_the_directories(
    dirs: Seq<Seq<u8>>,
    course: Course,
    outcome: Outcome,
)
    requires
        course == (Course { left: Seq::empty(), dirs, end: None }),
    ensures
        dirs.len() == 0 ==> plan::upcoming(course) is None,
        dirs.len() > 0 ==> plan::upcoming(course) == Some(Effect::RemoveDir { path: dirs[0] }),
        dirs.len() > 0 && outcome is Done ==> plan::told(course, outcome) == (Course {
            left: Seq::empty(),
            dirs: dirs.drop_first(),
            end: None,
        }),
        dirs.len() > 0 && !(outcome is Done) ==> plan::told(course, outcome).end == Some(
            End::Complete,
        ) && plan::upcoming(plan::told(course, outcome)) is None,
{
}

/// A plan that has nothing left to do stays as it is, whatever is reported.
pub proof fn a_plan_that_ended_stays(course: Course, outcome: Outcome)
    requires
        course.end is Some || (course.left.len() == 0 && course.dirs.len() == 0),
    ensures
        plan::upcoming(course) is None,
        plan::told(course, outcome) == course,
{
}

/// A removal or a renaming took place exactly if its plan was complete. A file that
/// was missing means that there was no entry; everything else is an error with its
/// reason.
pub proof fn an_end_is_judged(end: End)
    ensures
        store::was_there(end) == Ok::<bool, Seq<char>>(true) <==> end is Complete,
        store::was_there(end) == Ok::<bool, Seq<char>>(false) <==> end is Missing,
        end is Taken ==> store::was_there(end) == Err::<bool, Seq<char>>("a file is in the way"@),
        end matches End::Failed(message) ==> store::was_there(end) == Err::<bool, Seq<char>>(
            message@,
        ),
{
}

/// A write took place exactly if its change was made. A claim stands exactly if it
/// was made, or if somebody came first and the store may be used all the same.
pub proof fn a_write_is_judged(
    outcome: Outcome,
    again: Seen,
    d: Disk,
    dir: Seq<u8>,
    recipient: Seq<char>,
)
    requires
        disk::faithful(again, d, dir, |n: Seq<char>| false),
    ensures
        store::write_fault(outcome) is None <==> outcome is Done,
        outcome is Missing ==> store::write_fault(outcome) == Some("the store vanished"@),
        outcome is Taken ==> store::write_fault(outcome) == Some("a file is in the way"@),
        outcome matches Outcome::Failed(message) ==> store::write_fault(outcome) == Some(message@),
        store::claim_refusal(outcome, again, dir, recipient) is None <==> outcome is Done || (
        outcome is Taken && whole::may_use(d, dir, recipient)),
        outcome is Missing ==> store::claim_refusal(outcome, again, dir, recipient) == Some(
            "the store vanished"@,
        ),
        outcome matches Outcome::Failed(message) ==> store::claim_refusal(
            outcome,
            again,
            dir,
            recipient,
        ) == Some(message@),
{
    whole::only_the_owner_may_use_a_store(again, d, dir, recipient);
}

/// A store is claimed by creating the marker with the recipient on its one line,
/// never by writing over one.
pub proof fn a_claim_creates_the_marker(dir: Seq<u8>, recipient: Seq<char>)
    ensures
        store::claim(dir, recipient) == (Effect::Create {
            path: store::marker_at(dir),
            bytes: text::utf8(recipient + seq!['\n']),
        }),
{
    reveal_strlit("\n");
    assert("\n"@ =~= seq!['\n']);
}

// ---------------------------------------------------------------------------
// Reading one value

/// Getting an entry gives the value that the key reads from what the disk holds. It
/// is an error, with the name in it, if there is no such entry or the key cannot
/// open it, and an error if the key may not use the store.
pub proof fn getting_gives_the_value(
    seen: Seen,
    d: Disk,
    dir: Seq<u8>,
    secret: Seq<char>,
    name: Seq<char>,
    r: Result<Seq<u8>, Seq<char>>,
)
    requires
        name::valid(name),
        disk::faithful(seen, d, dir, |n: Seq<char>| n == name),
        !disk::is_dir(d, store::entry_at(dir, name)),
        output::is_entry_read(seen, dir, secret, name, r),
    ensures
        whole::may_use(d, dir, crypt::public_of(secret)) ==> match disk::value_on(d, dir, name) {
            None => r == Err::<Seq<u8>, Seq<char>>("no entry named "@ + name),
            Some(ciphertext) => match crypt::opened(secret, ciphertext) {
                Some(value) => r == Ok::<Seq<u8>, Seq<char>>(value),
                None => r matches Err(message) && crypt::begins(
                    message,
                    "entry "@ + name + ": decrypting: "@,
                ),
            },
        },
        disk::is_there(d, dir) && !whole::may_use(d, dir, crypt::public_of(secret)) ==> r is Err,
{
    whole::reading_gives_what_the_disk_holds(seen, d, dir, name, crypt::public_of(secret));
}

// ---------------------------------------------------------------------------
// Trouble with a store

/// The message about a path that could not be read.
pub open spec fn unread(path: Seq<u8>, reason: Seq<char>) -> Seq<char> {
    "reading "@ + text::lossy_text(path) + ": "@ + reason
}

/// A marker that cannot be read, is no text, is not one line or names nobody is
/// told as such, to whoever reads or writes.
pub proof fn trouble_with_the_marker_is_told(
    seen: Seen,
    dir: Seq<u8>,
    recipient: Seq<char>,
    line: Seq<char>,
)
    requires
        seen.marker,
    ensures
        ({
            let marker = store::marker_at(dir);
            let told = store::refusal(seen, dir, recipient);
            let garbled = "malformed store recipient marker"@;
            &&& seen.file(marker) matches Sight::Failed(reason) ==> told == Some(
                unread(marker, reason),
            )
            &&& seen.file(marker) matches Sight::Bytes(bytes) ==> {
                &&& !vstd::utf8::valid_utf8(bytes) ==> told == Some(
                    unread(marker, "stream did not contain valid UTF-8"@),
                )
                &&& bytes == text::utf8(line) && (line.len() < 2 || line.last() != '\n'
                    || line.drop_last().contains('\n')) ==> told == Some(garbled)
                &&& bytes == text::utf8(line + seq!['\n']) && line.len() > 0 && !line.contains(
                    '\n',
                ) ==> (crypt::recipient_of(line) matches Err(reason) ==> told == Some(
                    garbled + ": "@ + reason,
                ))
            }
            &&& store::binding_refusal(seen, dir, recipient) == told
        }),
{
    let marker = store::marker_at(dir);
    vstd::utf8::encode_utf8_valid_utf8(line);
    vstd::utf8::encode_utf8_decode_utf8(line);
    let whole = line + seq!['\n'];
    vstd::utf8::encode_utf8_valid_utf8(whole);
    vstd::utf8::encode_utf8_decode_utf8(whole);
    assert(whole.drop_last() =~= line);
    reveal_strlit("malformed store recipient marker: ");
    reveal_strlit("malformed store recipient marker");
    reveal_strlit(": ");
    assert("malformed store recipient marker: "@ =~= "malformed store recipient marker"@ + ": "@);
}

/// A store that could not be listed is told as such wherever its names count: in a
/// listing, in a snapshot, and where a store without a marker is to be used. A store
/// that is not there has no names.
pub proof fn trouble_with_the_names_is_told(
    seen: Seen,
    dir: Seq<u8>,
    recipient: Seq<char>,
    name: Seq<char>,
    namespace: Option<Seq<char>>,
    reason: Seq<char>,
)
    ensures
        !seen.exists ==> {
            &&& store::entries_seen(seen, dir) == Ok::<Seq<Seq<char>>, Seq<char>>(Seq::empty())
            &&& store::contained(seen, dir, name) == Ok::<bool, Seq<char>>(false)
            &&& store::read_seen(seen, dir, name, recipient) == Ok::<Option<Seq<u8>>, Seq<char>>(
                None,
            )
            &&& store::snapshot_seen(seen, dir, namespace, recipient) == Ok::<
                Seq<(Seq<char>, Seq<u8>)>,
                Seq<char>,
            >(Seq::empty())
        },
        seen.exists && seen.listing() == Err::<Seq<Seq<char>>, Seq<char>>(reason) ==> {
            &&& store::entries_seen(seen, dir) == Err::<Seq<Seq<char>>, Seq<char>>(reason)
            &&& store::contained(seen, dir, name) == Err::<bool, Seq<char>>(reason)
            &&& store::snapshot_seen(seen, dir, namespace, recipient) is Err
            &&& seen.file(store::marker_at(dir)) is Missing ==> store::refusal(seen, dir, recipient)
                == Some(reason)
            &&& !seen.marker ==> store::binding_refusal(seen, dir, recipient) == Some(reason)
        },
        !seen.marker && (seen.listing() matches Ok(names) && names.len() > 0) ==> {
            &&& store::binding_refusal(seen, dir, recipient) == Some(
                "store has entries but no recipient marker"@,
            )
            &&& seen.exists ==> store::entries_seen(seen, dir) == Err::<
                Seq<Seq<char>>,
                Seq<char>,
            >("store has entries but no recipient marker"@)
        },
{
}

/// The file of an entry is told as it was found: its bytes, that it is missing, or
/// why it could not be read.
pub proof fn an_entry_is_told_as_it_was_found(
    seen: Seen,
    dir: Seq<u8>,
    name: Seq<char>,
    recipient: Seq<char>,
)
    requires
        seen.exists,
        store::entries_seen(seen, dir) is Ok,
        store::refusal(seen, dir, recipient) is None,
    ensures
        match seen.file(store::entry_at(dir, name)) {
            Sight::Bytes(bytes) => {
                &&& store::contained(seen, dir, name) == Ok::<bool, Seq<char>>(true)
                &&& store::read_seen(seen, dir, name, recipient) == Ok::<
                    Option<Seq<u8>>,
                    Seq<char>,
                >(Some(bytes))
            },
            Sight::Missing(_) => {
                &&& store::contained(seen, dir, name) == Ok::<bool, Seq<char>>(false)
                &&& store::read_seen(seen, dir, name, recipient) == Ok::<
                    Option<Seq<u8>>,
                    Seq<char>,
                >(None)
            },
            Sight::Failed(reason) => {
                let told = unread(store::entry_at(dir, name), reason);
                &&& store::contained(seen, dir, name) == Err::<bool, Seq<char>>(told)
                &&& store::read_seen(seen, dir, name, recipient) == Err::<
                    Option<Seq<u8>>,
                    Seq<char>,
                >(told)
            },
        },
{
}

/// A renaming goes by what is known of the two names, the old one first; whatever
/// cannot be known ends it.
pub proof fn a_renaming_goes_by_what_is_known(
    seen: Seen,
    dir: Seq<u8>,
    old: Seq<char>,
    new: Seq<char>,
    overwrite: bool,
    message: Seq<char>,
)
    ensures
        ({
            let r = store::rename_seen(seen, dir, old, new, overwrite);
            let had = store::contained(seen, dir, old);
            let has = store::contained(seen, dir, new);
            &&& had == Err::<bool, Seq<char>>(message) ==> r == Err::<Move, Seq<char>>(message)
            &&& had == Ok::<bool, Seq<char>>(false) ==> r == Ok::<Move, Seq<char>>(Move::Missing)
            &&& had == Ok::<bool, Seq<char>>(true) && has == Err::<bool, Seq<char>>(message) ==> r
                == Err::<Move, Seq<char>>(message)
            &&& had == Ok::<bool, Seq<char>>(true) && has == Ok::<bool, Seq<char>>(true)
                && !overwrite ==> r == Ok::<Move, Seq<char>>(Move::Taken)
            &&& had == Ok::<bool, Seq<char>>(true) && (has == Ok::<bool, Seq<char>>(false) || (has
                is Ok && overwrite)) ==> r is Ok && r->Ok_0 is Go
        }),
{
}

/// What stops a reader is passed on to whoever asked for a value or for variables.
pub proof fn what_stops_a_reader_is_passed_on(
    seen: Seen,
    dir: Seq<u8>,
    secret: Seq<char>,
    name: Seq<char>,
    namespace: Option<Seq<char>>,
    value: Result<Seq<u8>, Seq<char>>,
    variables: Result<Seq<Triple>, Seq<char>>,
)
    requires
        output::is_entry_read(seen, dir, secret, name, value),
        output::are_variables(seen, dir, namespace, secret, variables),
    ensures
        store::read_seen(seen, dir, name, crypt::public_of(secret)) matches Err(message) ==> value
            == Err::<Seq<u8>, Seq<char>>(message),
        store::snapshot_seen(seen, dir, namespace, crypt::public_of(secret)) matches Err(message)
            ==> variables == Err::<Seq<Triple>, Seq<char>>(message),
        store::snapshot_seen(seen, dir, namespace, crypt::public_of(secret)) matches Ok(entries)
            ==> !env::usable(output::names_of(entries), namespace) ==> variables is Err
            && env::first_complaint(output::names_of(entries), namespace, variables->Err_0),
{
}

/// A snapshot leaves nothing out: the first of its names whose file was missing or
/// could not be read ends it, with the reason. Otherwise it holds each name with the
/// bytes of its file, in order.
pub proof fn a_snapshot_leaves_nothing_out(
    seen: Seen,
    dir: Seq<u8>,
    namespace: Option<Seq<char>>,
    recipient: Seq<char>,
    names: Seq<Seq<char>>,
    k: int,
)
    requires
        seen.exists,
        store::refusal(seen, dir, recipient) is None,
        seen.listing() matches Ok(all) && names == store::strictly_below(all, namespace),
        0 <= k <= names.len(),
        forall|i: int|
            0 <= i < k ==> seen.file(store::entry_at(dir, #[trigger] names[i])) is Bytes,
    ensures
        ({
            let r = store::snapshot_seen(seen, dir, namespace, recipient);
            &&& k < names.len() ==> match seen.file(store::entry_at(dir, names[k])) {
                Sight::Missing(_) => r == Err::<Seq<(Seq<char>, Seq<u8>)>, Seq<char>>(
                    "entry vanished while the store was locked"@,
                ),
                Sight::Failed(reason) => r == Err::<Seq<(Seq<char>, Seq<u8>)>, Seq<char>>(
                    unread(store::entry_at(dir, names[k]), reason),
                ),
                Sight::Bytes(_) => true,
            }
            &&& k == names.len() ==> (r matches Ok(entries) && entries.len() == names.len() && (
            forall|i: int|
                0 <= i < names.len() ==> #[trigger] entries[i] == (
                    names[i],
                    seen.file(store::entry_at(dir, names[i]))->Bytes_0,
                )))
        }),
{
    the_first_gap_is_told(seen, dir, names, k);
}

proof fn the_first_gap_is_told(seen: Seen, dir: Seq<u8>, names: Seq<Seq<char>>, k: int)
    requires
        0 <= k <= names.len(),
        forall|i: int|
            0 <= i < k ==> seen.file(store::entry_at(dir, #[trigger] names[i])) is Bytes,
    ensures
        k < names.len() && !(seen.file(store::entry_at(dir, names[k])) is Bytes)
            ==> store::first_capture_fault(seen, dir, names) == store::capture_fault(
            seen,
            dir,
            names[k],
        ),
        k == names.len() ==> store::first_capture_fault(seen, dir, names) is None,
    decreases k,
{
    if k > 0 {
        let rest = names.drop_first();
        assert(seen.file(store::entry_at(dir, names[0])) is Bytes);
        assert forall|i: int| 0 <= i < k - 1 implies seen.file(
            store::entry_at(dir, #[trigger] rest[i]),
        ) is Bytes by {
            assert(rest[i] == names[i + 1]);
        }
        the_first_gap_is_told(seen, dir, rest, k - 1);
    }
}

// ---------------------------------------------------------------------------
// Lines

/// Names are printed one after the other, each with a newline behind it.
pub proof fn names_are_printed_on_lines(
    before: Seq<Seq<char>>,
    name: Seq<char>,
    after: Seq<Seq<char>>,
)
    ensures
        output::lines(Seq::empty()) == Seq::<char>::empty(),
        output::lines(seq![name]) == name + seq!['\n'],
        output::lines(before + after) == output::lines(before) + output::lines(after),
    decreases after.len(),
{
    reveal_strlit("\n");
    assert("\n"@ =~= seq!['\n']);
    reveal_with_fuel(output::lines, 2);
    assert(seq![name].drop_last() =~= Seq::<Seq<char>>::empty());
    assert(output::lines(seq![name]) =~= name + seq!['\n']);
    if after.len() == 0 {
        assert(before + after =~= before);
        assert(output::lines(before) + output::lines(after) =~= output::lines(before));
    } else {
        let all = before + after;
        assert(all.drop_last() =~= before + after.drop_last());
        assert(all.last() == after.last());
        names_are_printed_on_lines(before, name, after.drop_last());
        assert(output::lines(all) =~= output::lines(before) + output::lines(after));
    }
}

/// A text lacks a newline exactly if it does not end in one.
pub proof fn a_newline_ends_a_text(value: Seq<u8>, last: u8)
    ensures
        output::lacks_newline(Seq::empty()),
        output::lacks_newline(value.push(last)) <==> last != 0x0a,
{
}

/// The variables whose values are text are exported in order, each on a line of its
/// own, with the value quoted; the first whose value is not text ends that, with a
/// complaint that names it.
pub proof fn variables_are_exported_in_order(
    before: Seq<Triple>,
    var: Seq<char>,
    name: Seq<char>,
    value: Seq<char>,
    bytes: Seq<u8>,
    after: Seq<Triple>,
)
    requires
        forall|i: int|
            0 <= i < before.len() ==> vstd::utf8::valid_utf8((#[trigger] before[i]).2),
        !vstd::utf8::valid_utf8(bytes),
    ensures
        output::export_fault(before) is None,
        output::export_lines(before.push((var, name, text::utf8(value)))) == output::export_lines(
            before,
        ) + "export "@ + var + "="@ + env::quoted(value) + "\n"@,
        output::export_lines(Seq::empty()) == Seq::<char>::empty(),
        output::export_lines(before.push((var, name, bytes)) + after) == output::export_lines(
            before,
        ),
        output::export_fault(before.push((var, name, bytes)) + after) == Some(
            "value for "@ + var + " is not valid UTF-8: "@ + text::utf8_fault(bytes),
        ),
    decreases before.len(),
{
    vstd::utf8::encode_utf8_valid_utf8(value);
    vstd::utf8::encode_utf8_decode_utf8(value);
    let good = before.push((var, name, text::utf8(value)));
    let bad = before.push((var, name, bytes)) + after;
    let line = output::export_line(var, value);
    if before.len() == 0 {
        reveal_with_fuel(output::export_lines, 2);
        assert(good.drop_first() =~= Seq::<Triple>::empty());
        assert(good[0] == (var, name, text::utf8(value)));
        assert(bad[0] == (var, name, bytes));
        assert(output::export_lines(good) =~= output::export_lines(before) + "export "@ + var
            + "="@ + env::quoted(value) + "\n"@);
    } else {
        let rest = before.drop_first();
        assert(good.drop_first() =~= rest.push((var, name, text::utf8(value))));
        assert(bad.drop_first() =~= rest.push((var, name, bytes)) + after);
        assert(good[0] == before[0] && bad[0] == before[0]);
        assert forall|i: int| 0 <= i < rest.len() implies vstd::utf8::valid_utf8(
            (#[trigger] rest[i]).2,
        ) by {
            assert(rest[i] == before[i + 1]);
        }
        assert(vstd::utf8::valid_utf8(before[0].2));
        variables_are_exported_in_order(rest, var, name, value, bytes, after);
        assert(output::export_lines(good) =~= output::export_lines(before) + "export "@ + var
            + "="@ + env::quoted(value) + "\n"@);
    }
}

/// The complaint about a value that cannot be exported names the entry: the key
/// does not open it, or it holds a NUL byte.
pub proof fn an_unfit_value_is_named(
    secret: Seq<char>,
    name: Seq<char>,
    ciphertext: Seq<u8>,
    message: Seq<char>,
)
    ensures
        output::presentable(secret, ciphertext) <==> (crypt::opened(
            secret,
            ciphertext,
        ) matches Some(value) && forall|k: int| 0 <= k < value.len() ==> value[k] != 0),
        crypt::opened(secret, ciphertext) is None ==> (output::value_complaint(
            secret,
            name,
            ciphertext,
            message,
        ) <==> crypt::begins(message, "entry "@ + name + ": decrypting: "@)),
        crypt::opened(secret, ciphertext) is Some ==> (output::value_complaint(
            secret,
            name,
            ciphertext,
            message,
        ) <==> message == "value for "@ + name + " contains a NUL byte"@),
{
    if crypt::opened(secret, ciphertext) is Some {
        let value = crypt::opened(secret, ciphertext)->0;
        if !value.contains(0) {
            assert forall|k: int| 0 <= k < value.len() implies value[k] != 0 by {
                assert(value.contains(value[k]));
            }
        }
    }
}

/// The value of the name cannot be exported, and the message says so: the key does
/// not open it, or it holds a NUL byte.
pub open spec fn is_complaint(
    secret: Seq<char>,
    name: Seq<char>,
    sight: Sight,
    message: Seq<char>,
) -> bool {
    sight matches Sight::Bytes(ciphertext) && match crypt::opened(secret, ciphertext) {
        None => crypt::begins(message, "entry "@ + name + ": decrypting: "@),
        Some(value) => (exists|k: int| 0 <= k < value.len() && value[k] == 0) && message
            == "value for "@ + name + " contains a NUL byte"@,
    }
}

/// The value of the name can be exported.
pub open spec fn is_fit(secret: Seq<char>, sight: Sight) -> bool {
    sight matches Sight::Bytes(ciphertext) && (crypt::opened(
        secret,
        ciphertext,
    ) matches Some(value) && forall|k: int| 0 <= k < value.len() ==> value[k] != 0)
}

/// Values are taken in the order of their variables. The first that cannot be
/// exported is the one that is complained about; otherwise each variable comes with
/// the name and the value that the key reads.
pub proof fn the_first_unfit_value_is_named(
    seen: Seen,
    dir: Seq<u8>,
    secret: Seq<char>,
    pairs: Seq<(Seq<char>, Seq<char>)>,
    r: Result<Seq<Triple>, Seq<char>>,
)
    requires
        output::are_values(seen, dir, secret, pairs, r),
        forall|i: int|
            0 <= i < pairs.len() ==> seen.file(store::entry_at(dir, (#[trigger] pairs[i]).1)) is Bytes,
    ensures
        r matches Ok(variables) ==> variables.len() == pairs.len() && forall|i: int|
            0 <= i < pairs.len() ==> {
                let sight = seen.file(store::entry_at(dir, (#[trigger] pairs[i]).1));
                &&& is_fit(secret, sight)
                &&& variables[i] == (
                    pairs[i].0,
                    pairs[i].1,
                    crypt::opened(secret, sight->Bytes_0)->0,
                )
            },
        r matches Err(message) ==> exists|i: int|
            {
                &&& 0 <= i < pairs.len()
                &&& is_complaint(
                    secret,
                    (#[trigger] pairs[i]).1,
                    seen.file(store::entry_at(dir, pairs[i].1)),
                    message,
                )
                &&& forall|j: int|
                    0 <= j < i ==> is_fit(
                        secret,
                        seen.file(store::entry_at(dir, (#[trigger] pairs[j]).1)),
                    )
            },
{
    assert forall|i: int| 0 <= i < pairs.len() implies is_fit(
        secret,
        seen.file(store::entry_at(dir, (#[trigger] pairs[i]).1)),
    ) == output::presentable(secret, output::sealed(seen, dir, pairs[i].1)) by {
        let ciphertext = seen.file(store::entry_at(dir, pairs[i].1))->Bytes_0;
        assert(output::sealed(seen, dir, pairs[i].1) == ciphertext);
        an_unfit_value_is_named(secret, pairs[i].1, ciphertext, Seq::empty());
    }
    if r is Err {
        let message = r->Err_0;
        let i = choose|i: int|
            {
                &&& 0 <= i < pairs.len()
                &&& !output::presentable(
                    secret,
                    output::sealed(seen, dir, (#[trigger] pairs[i]).1),
                )
                &&& forall|j: int|
                    0 <= j < i ==> output::presentable(
                        secret,
                        output::sealed(seen, dir, (#[trigger] pairs[j]).1),
                    )
                &&& output::value_complaint(
                    secret,
                    pairs[i].1,
                    output::sealed(seen, dir, pairs[i].1),
                    message,
                )
            };
        let ciphertext = seen.file(store::entry_at(dir, pairs[i].1))->Bytes_0;
        assert(output::sealed(seen, dir, pairs[i].1) == ciphertext);
        an_unfit_value_is_named(secret, pairs[i].1, ciphertext, message);
        assert(is_complaint(
            secret,
            pairs[i].1,
            seen.file(store::entry_at(dir, pairs[i].1)),
            message,
        ));
        assert forall|j: int| 0 <= j < i implies is_fit(
            secret,
            seen.file(store::entry_at(dir, (#[trigger] pairs[j]).1)),
        ) by {}
    }
}

// ---------------------------------------------------------------------------
// The editor

/// A variable names an editor exactly if it is text that is more than white space;
/// the editor is then that text as it stands.
pub proof fn an_editor_is_more_than_white_space(
    before: Seq<char>,
    editor: Seq<char>,
    after: Seq<char>,
    bytes: Seq<u8>,
)
    requires
        meaning::blank(before),
        meaning::blank(after),
        editor.len() > 0 ==> !text::white_space(editor[0]) && !text::white_space(editor.last()),
        !vstd::utf8::valid_utf8(bytes),
    ensures
        edit::editor_in(None) is None,
        edit::editor_in(Some(bytes)) is None,
        editor.len() == 0 ==> edit::editor_in(Some(text::utf8(before + editor + after))) is None,
        editor.len() > 0 ==> edit::editor_in(Some(text::utf8(before + editor + after))) == Some(
            before + editor + after,
        ),
{
    let whole = before + editor + after;
    vstd::utf8::encode_utf8_valid_utf8(whole);
    vstd::utf8::encode_utf8_decode_utf8(whole);
    meaning::trimming_keeps_the_middle(before, editor, after);
}

// ---------------------------------------------------------------------------
// Consent

/// Force gives consent to what is asked. Without it a terminal is asked that
/// question, and where there is no terminal the refusal is the answer.
pub proof fn consent_is_forced_or_asked_for(
    force: bool,
    stdin_is_tty: bool,
    refusal: Seq<char>,
    prompt: Seq<char>,
    r: Result<Consent, Error>,
)
    requires
        consent::is_sought(force, stdin_is_tty, refusal, prompt, r),
    ensures
        r matches Ok(Consent::Given(permit)) ==> force && permit.forced() && permit.question()
            == prompt,
        r matches Ok(Consent::Ask(question)) ==> !force && stdin_is_tty && question@ == prompt,
        r matches Err(e) ==> !force && !stdin_is_tty && e@ == refusal,
{
}

// ---------------------------------------------------------------------------
// Messages

/// Messages name what they are about.
pub proof fn messages_name_their_subject(
    name: Seq<char>,
    path: Seq<u8>,
    reason: Seq<char>,
    message: Seq<char>,
)
    ensures
        commands::notice_text(true, message) is None,
        commands::notice_text(false, message) == Some("keyjar: "@ + message),
        commands::rm_prompt(name) == "keyjar: remove "@ + name + "? [y/N] "@,
        commands::rm_refusal(name) == "refusing to remove "@ + name
            + " without --force when stdin is not a terminal"@,
        commands::mv_prompt(name) == "keyjar: overwrite "@ + name + "? [y/N] "@,
        commands::mv_refusal(name) == "refusing to overwrite "@ + name
            + " without --force when stdin is not a terminal"@,
        commands::mv_taken(name) == "refusing to overwrite "@ + name + " without --force"@,
        rekey::rekey_prompt() == "keyjar: re-encrypt every entry and replace the identity? [y/N] "@,
        output::missing_text(name) == "no entry named "@ + name,
        output::sealed_text(name) == "entry "@ + name + ": decrypting: "@,
        output::nul_text(name) == "value for "@ + name + " contains a NUL byte"@,
        edit::editor_text(reason) == "editor exited with "@ + reason + "; value unchanged"@,
        error::at_text(message, path, reason) == message + text::lossy_text(path) + ": "@ + reason,
        rekey::old_text(path) == text::lossy_text(path + text::utf8(".old"@))
            + " is in the way; move it elsewhere before rekeying"@,
        rekey::finish_text(path) == text::lossy_text(path + text::utf8(".new"@))
            + " is left over from a rekey that re-encrypted every entry; finish it by moving it to "@
            + text::lossy_text(path),
        rekey::split_text(path) == text::lossy_text(path + text::utf8(".new"@))
            + " is left over from an interrupted rekey; entries may be split between it and "@
            + text::lossy_text(path),
{
}

// ---------------------------------------------------------------------------
// What stands in the way of a rekey

/// The marker names the recipient of the key.
pub open spec fn is_owned(d: Disk, dir: Seq<u8>, secret: Seq<char>) -> bool {
    &&& d.contains_key(store::marker_at(dir))
    &&& d[store::marker_at(dir)] matches Node::File(bytes)
    &&& exists|owner: Seq<char>| #[trigger]
        whole::names_owner(bytes, owner) && crypt::point_of(owner) == crypt::point_of(
            crypt::public_of(secret),
        )
}

proof fn an_owner_is_on_the_marker(seen: Seen, d: Disk, dir: Seq<u8>, secret: Seq<char>)
    requires
        disk::faithful(seen, d, dir, |n: Seq<char>| false),
    ensures
        rekey::owned_by(seen, dir, secret) <==> is_owned(d, dir, secret),
{
    let marker = store::marker_at(dir);
    if d.contains_key(marker) && d[marker] is File {
        let bytes = d[marker]->File_0;
        whole::a_marker_is_one_line(marker, bytes);
        if rekey::owned_by(seen, dir, secret) {
            let owner = store::owner_seen(seen, dir)->Ok_0->Some_0;
            assert(whole::names_owner(bytes, owner));
        }
        if is_owned(d, dir, secret) {
            let owner = choose|owner: Seq<char>| #[trigger]
                whole::names_owner(bytes, owner) && crypt::point_of(owner) == crypt::point_of(
                    crypt::public_of(secret),
                );
            assert(store::marker_recipient(marker, bytes) == Ok::<Seq<char>, Seq<char>>(owner));
        }
    }
}

/// A rekey may go ahead exactly if the identity file holds a key, the store belongs
/// to that key, and neither a new nor an old key is left over.
pub proof fn a_rekey_needs_a_free_way(
    seen: Seen,
    d: Disk,
    dir: Seq<u8>,
    path: Seq<u8>,
    files: KeyFiles,
)
    requires
        disk::faithful(seen, d, dir, |n: Seq<char>| false),
    ensures
        rekey::obstacle(seen, dir, path, files) is None <==> {
            &&& identity::loaded(path, files.current@) matches Ok(secret) && is_owned(
                d,
                dir,
                secret,
            )
            &&& files.new@ is Missing
            &&& files.old@ is Missing
        },
{
    let marker = store::marker_at(dir);
    layout::dot_files_are_in_the_store(dir);
    let root = paths::under(dir);
    assert(marker.subrange(0, root.len() as int) =~= root);
    if d.contains_key(marker) {
        assert(disk::is_there(d, dir));
    }
    if identity::loaded(path, files.current@) is Ok {
        let secret = identity::loaded(path, files.current@)->Ok_0;
        let recipient = crypt::public_of(secret);
        an_owner_is_on_the_marker(seen, d, dir, secret);
        whole::only_the_owner_may_use_a_store(seen, d, dir, recipient);
        let names = seen.listing()->Ok_0;
        if !d.contains_key(marker) && names.len() > 0 {
            assert(names.contains(names[0]));
            assert(disk::is_entry(d, dir, names[0]));
        }
    }
}

/// What stands in the way of a rekey is told in this order: trouble with the
/// identity file, a new key that is left over, an old key that is in the way, a
/// store that was never used, and a store that belongs to somebody else. A new key
/// that the store belongs to already means that only the last step is missing.
pub proof fn what_stands_in_the_way_is_told(
    seen: Seen,
    d: Disk,
    dir: Seq<u8>,
    path: Seq<u8>,
    files: KeyFiles,
    fresh: Seq<char>,
)
    requires
        disk::faithful(seen, d, dir, |n: Seq<char>| false),
        rekey::obstacle(seen, dir, path, files) is Some,
    ensures
        ({
            let message = rekey::obstacle(seen, dir, path, files)->0;
            let current = identity::loaded(path, files.current@);
            &&& current matches Err(why) ==> message == why
            &&& current is Ok && !(files.new@ is Missing) ==> message == rekey::finish_text(path)
                || message == rekey::split_text(path)
            &&& current is Ok && (files.new@ matches Sight::Bytes(bytes) && holds_key(bytes, fresh))
                ==> message == (if is_owned(d, dir, fresh) {
                rekey::finish_text(path)
            } else {
                rekey::split_text(path)
            })
            &&& current is Ok && files.new@ is Failed ==> message == rekey::split_text(path)
            &&& current is Ok && files.new@ is Missing && !(files.old@ is Missing) ==> message
                == rekey::old_text(path)
            &&& current is Ok && files.new@ is Missing && files.old@ is Missing && !disk::is_there(
                d,
                dir,
            ) ==> message == "the store is empty; there is nothing to rekey"@
            &&& current is Ok && files.new@ is Missing && files.old@ is Missing && !d.contains_key(
                store::marker_at(dir),
            ) ==> message == (if exists|n: Seq<char>| #[trigger] disk::is_entry(d, dir, n) {
                "store has entries but no recipient marker"@
            } else {
                "the store is empty; there is nothing to rekey"@
            })
        }),
{
    a_key_is_loaded_from_what_holds_it(path, files.new@, fresh);
    an_owner_is_on_the_marker(seen, d, dir, fresh);
    let names = seen.listing()->Ok_0;
    if exists|n: Seq<char>| #[trigger] disk::is_entry(d, dir, n) {
        let n = choose|n: Seq<char>| #[trigger] disk::is_entry(d, dir, n);
        assert(names.contains(n));
        layout::an_entry_stays_in_the_store(dir, n);
        assert(d.contains_key(store::entry_at(dir, n)));
        assert(disk::is_there(d, dir));
    } else if names.len() > 0 {
        assert(names.contains(names[0]));
        assert(disk::is_entry(d, dir, names[0]));
    }
}

} // verus!
