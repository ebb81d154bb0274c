//! What the commands that read print: values, names and export lines.

use vstd::prelude::*;
use vstd::string::*;

use crate::crypt;
use crate::crypt::Identity;
use crate::env;
use crate::error::Error;
use crate::host::Seen;
use crate::name::{Name, Namespace};
use crate::order;
use crate::store;
use crate::store::Store;
use crate::text;

verus! {

// ---------------------------------------------------------------------------
// One value

/// Why a value is not printed, if it is not.
pub fn get_refusal(stdout_is_tty: bool, force: bool) -> (r: Option<&'static str>)
    ensures
        r is Some <==> stdout_is_tty && !force,
        r matches Some(s) ==> s@ == "stdout is a terminal; use `keyjar show` or --force"@,
{
    if stdout_is_tty && !force {
        Some("stdout is a terminal; use `keyjar show` or --force")
    } else {
        None
    }
}

pub open spec fn lacks_newline(value: Seq<u8>) -> bool {
    value.len() == 0 || value.last() != text::NEWLINE
}

/// Multiline values usually end with their own newline; adding another would
/// print a blank line.
pub fn needs_final_newline(value: &[u8]) -> (r: bool)
    ensures
        r == lacks_newline(value@),
{
    value.len() == 0 || value[value.len() - 1] != text::NEWLINE
}

/// What `get` prints: the exact bytes, and a newline if one is asked for.
pub fn get_output(value: Vec<u8>, newline: bool) -> (r: Vec<u8>)
    ensures
        r@ == (if newline {
            value@.push(text::NEWLINE)
        } else {
            value@
        }),
{
    let mut out: Vec<u8> = value;
    if newline {
        out.push(text::NEWLINE);
    }
    out
}

/// What `show` prints: the value, ended by a newline.
pub fn show_output(value: Vec<u8>) -> (r: Vec<u8>)
    ensures
        r@ == (if lacks_newline(value@) {
            value@.push(text::NEWLINE)
        } else {
            value@
        }),
{
    let newline: bool = needs_final_newline(value.as_slice());
    get_output(value, newline)
}

pub open spec fn missing_text(name: Seq<char>) -> Seq<char> {
    "no entry named "@ + name
}

pub fn missing(name: &Name) -> (r: Error)
    ensures
        r@ == missing_text(name@),
{
    Error::during("no entry named ", name.as_str())
}

/// How the complaint about an entry that an identity cannot open begins.
pub open spec fn sealed_text(name: Seq<char>) -> Seq<char> {
    "entry "@ + name + ": decrypting: "@
}

/// Open the ciphertext of an entry. The library that decrypts words the end of a
/// failure.
pub fn open_entry(identity: &Identity, name: &Name, ciphertext: &[u8]) -> (r: Result<
    Vec<u8>,
    Error,
>)
    ensures
        match crypt::opened(identity@, ciphertext@) {
            Some(value) => r matches Ok(v) && v@ == value,
            None => r matches Err(e) && crypt::begins(e@, sealed_text(name@)),
        },
{
    match crypt::decrypt(identity, ciphertext) {
        Ok(value) => Ok(value),
        Err(e) => {
            let mut doing: String = "entry ".to_owned();
            doing.append(name.as_str());
            doing.append(": ");
            proof {
                reveal_strlit(": ");
                reveal_strlit("decrypting: ");
                reveal_strlit(": decrypting: ");
                assert(": "@ + "decrypting: "@ =~= ": decrypting: "@);
                let all = doing@ + e@;
                let n = sealed_text(name@).len() as int;
                let m = "decrypting: "@.len() as int;
                assert(e@.subrange(0, m) == "decrypting: "@);
                assert(all.subrange(0, n) =~= doing@ + e@.subrange(0, m));
                assert(all.subrange(0, n) =~= sealed_text(name@));
            }
            Err(Error::during(doing.as_str(), e.message()))
        },
    }
}

/// What reading an entry comes to for an identity.
pub open spec fn is_entry_read(
    seen: Seen,
    dir: Seq<u8>,
    secret: Seq<char>,
    name: Seq<char>,
    r: Result<Seq<u8>, Seq<char>>,
) -> bool {
    match store::read_seen(seen, dir, name, crypt::public_of(secret)) {
        Err(message) => r == Err::<Seq<u8>, Seq<char>>(message),
        Ok(None) => r == Err::<Seq<u8>, Seq<char>>(missing_text(name)),
        Ok(Some(ciphertext)) => match crypt::opened(secret, ciphertext) {
            Some(value) => r == Ok::<Seq<u8>, Seq<char>>(value),
            None => r matches Err(message) && crypt::begins(message, sealed_text(name)),
        },
    }
}

pub open spec fn bytes_told(r: Result<Vec<u8>, Error>) -> Result<Seq<u8>, Seq<char>> {
    match r {
        Ok(bytes) => Ok(bytes@),
        Err(e) => Err(e@),
    }
}

/// The value of an entry.
pub fn read_entry(store: &Store, seen: &Seen, identity: &Identity, name: &Name) -> (r: Result<
    Vec<u8>,
    Error,
>)
    ensures
        is_entry_read(*seen, store@, identity@, name@, bytes_told(r)),
{
    match store.read(seen, name, &identity.to_public()) {
        Err(e) => Err(e),
        Ok(None) => Err(missing(name)),
        Ok(Some(ciphertext)) => open_entry(identity, name, ciphertext.as_slice()),
    }
}

// ---------------------------------------------------------------------------
// Names

/// Each name on a line of its own.
pub open spec fn lines(names: Seq<Seq<char>>) -> Seq<char>
    decreases names.len(),
{
    if names.len() == 0 {
        Seq::empty()
    } else {
        lines(names.drop_last()) + names.last() + "\n"@
    }
}

/// What `ls` prints.
pub fn ls_output(names: &[Name]) -> (r: String)
    ensures
        r@ == lines(order::texts(names@)),
{
    let mut out: String = String::new();
    let mut i: usize = 0;
    proof {
        assert(order::texts(names@.take(0)) =~= Seq::<Seq<char>>::empty());
    }
    while i < names.len()
        invariant
            i <= names@.len(),
            out@ == lines(order::texts(names@.take(i as int))),
        decreases names@.len() - i,
    {
        out.append(names[i].as_str());
        out.append("\n");
        proof {
            assert(order::texts(names@.take(i + 1)).drop_last() =~= order::texts(
                names@.take(i as int),
            ));
        }
        i = i + 1;
    }
    proof {
        assert(names@.take(i as int) =~= names@);
    }
    out
}

// ---------------------------------------------------------------------------
// Variables

/// A variable, the name it comes from, and the value.
pub type Triple = (Seq<char>, Seq<char>, Seq<u8>);

pub open spec fn triples(pairs: Seq<(String, Name, Vec<u8>)>) -> Seq<Triple> {
    pairs.map_values(|p: (String, Name, Vec<u8>)| (p.0@, p.1@, p.2@))
}

/// The ciphertext of an entry that was captured.
pub open spec fn sealed(seen: Seen, dir: Seq<u8>, name: Seq<char>) -> Seq<u8> {
    store::ciphertext_seen(seen, dir, name)->Ok_0->Some_0
}

/// Whether a value can be put into the environment: the identity opens it, and it
/// holds no NUL byte.
pub open spec fn presentable(secret: Seq<char>, ciphertext: Seq<u8>) -> bool {
    crypt::opened(secret, ciphertext) matches Some(value) && !value.contains(0)
}

pub open spec fn nul_text(name: Seq<char>) -> Seq<char> {
    "value for "@ + name + " contains a NUL byte"@
}

/// The complaint about a value that cannot be put into the environment.
pub open spec fn value_complaint(
    secret: Seq<char>,
    name: Seq<char>,
    ciphertext: Seq<u8>,
    message: Seq<char>,
) -> bool {
    match crypt::opened(secret, ciphertext) {
        None => crypt::begins(message, sealed_text(name)),
        Some(_) => message == nul_text(name),
    }
}

/// Pairs with their values.
pub open spec fn valued(
    seen: Seen,
    dir: Seq<u8>,
    secret: Seq<char>,
    pairs: Seq<(Seq<char>, Seq<char>)>,
) -> Seq<Triple> {
    pairs.map_values(
        |p: (Seq<char>, Seq<char>)| (p.0, p.1, crypt::opened(secret, sealed(seen, dir, p.1))->0),
    )
}

/// What the values of some pairs come to: all of them, or a complaint about the
/// first that cannot be put into the environment.
pub open spec fn are_values(
    seen: Seen,
    dir: Seq<u8>,
    secret: Seq<char>,
    pairs: Seq<(Seq<char>, Seq<char>)>,
    r: Result<Seq<Triple>, Seq<char>>,
) -> bool {
    match r {
        Ok(t) => t == valued(seen, dir, secret, pairs) && forall|i: int|
            0 <= i < pairs.len() ==> presentable(
                secret,
                sealed(seen, dir, (#[trigger] pairs[i]).1),
            ),
        Err(message) => exists|i: int|
            {
                &&& 0 <= i < pairs.len()
                &&& !presentable(secret, sealed(seen, dir, (#[trigger] pairs[i]).1))
                &&& forall|j: int|
                    0 <= j < i ==> presentable(
                        secret,
                        sealed(seen, dir, (#[trigger] pairs[j]).1),
                    )
                &&& value_complaint(
                    secret,
                    pairs[i].1,
                    sealed(seen, dir, pairs[i].1),
                    message,
                )
            },
    }
}

/// What the variables of a namespace come to, for an identity: trouble with the
/// store, a name that can have no variable, a value that cannot be put into the
/// environment, or the variables with their values, sorted by variable.
pub open spec fn are_variables(
    seen: Seen,
    dir: Seq<u8>,
    namespace: Option<Seq<char>>,
    secret: Seq<char>,
    r: Result<Seq<Triple>, Seq<char>>,
) -> bool {
    match store::snapshot_seen(seen, dir, namespace, crypt::public_of(secret)) {
        Err(message) => r == Err::<Seq<Triple>, Seq<char>>(message),
        Ok(entries) => {
            let names = names_of(entries);
            if !env::usable(names, namespace) {
                r matches Err(message) && env::first_complaint(names, namespace, message)
            } else {
                exists|pairs: Seq<(Seq<char>, Seq<char>)>| #[trigger]
                    env::is_pairing(names, namespace, pairs) && are_values(
                        seen,
                        dir,
                        secret,
                        pairs,
                        r,
                    )
            }
        },
    }
}

pub open spec fn names_of(entries: Seq<(Seq<char>, Seq<u8>)>) -> Seq<Seq<char>> {
    entries.map_values(|e: (Seq<char>, Seq<u8>)| e.0)
}

/// The variables of a namespace, or the word that an identity is needed for them.
pub enum Variables {
    Ready(Vec<(String, Name, Vec<u8>)>),
    NeedIdentity,
}

pub open spec fn variables_told(r: Result<Variables, Error>) -> Result<Seq<Triple>, Seq<char>> {
    match r {
        Ok(Variables::Ready(pairs)) => Ok(triples(pairs@)),
        Ok(Variables::NeedIdentity) => Ok(Seq::empty()),
        Err(e) => Err(e@),
    }
}

/// Variables, names and values for the environment. Nothing selected means
/// nothing to decrypt: then no identity is asked for. Otherwise the caller comes
/// back with one, and with a fresh look at the store.
pub fn decrypted_pairs(
    store: &Store,
    seen: &Seen,
    namespace: Option<&Namespace>,
    identity: Option<&Identity>,
) -> (r: Result<Variables, Error>)
    ensures
        identity is None ==> match store::entries_seen(*seen, store@) {
            Err(message) => r matches Err(e) && e@ == message,
            Ok(names) => if store::strictly_below(names, env::optional(namespace)).len() == 0 {
                r matches Ok(Variables::Ready(pairs)) && pairs@.len() == 0
            } else {
                r matches Ok(Variables::NeedIdentity)
            },
        },
        identity matches Some(identity) ==> !(r matches Ok(Variables::NeedIdentity))
            && are_variables(
            *seen,
            store@,
            env::optional(namespace),
            identity@,
            variables_told(r),
        ),
{
    let identity: &Identity = match identity {
        Some(identity) => identity,
        None => {
            return match store.list_namespace(seen, namespace) {
                Err(e) => Err(e),
                Ok(names) => {
                    proof {
                        assert(order::texts(names@).len() == names@.len());
                    }
                    if names.len() == 0 {
                        Ok(Variables::Ready(Vec::new()))
                    } else {
                        Ok(Variables::NeedIdentity)
                    }
                },
            };
        },
    };
    let entries: Vec<(Name, Vec<u8>)> = match store.snapshot(
        seen,
        namespace,
        &identity.to_public(),
    ) {
        Err(e) => {
            return Err(e);
        },
        Ok(entries) => entries,
    };
    let names: Vec<Name> = entry_names(entries.as_slice());
    let ghost space = env::optional(namespace);
    proof {
        a_snapshot_is_selected(*seen, store@, space, crypt::public_of(identity@));
    }
    let pairs: Vec<(String, Name)> = match env::env_pairs(names.as_slice(), namespace) {
        Err(e) => {
            return Err(e);
        },
        Ok(pairs) => pairs,
    };
    proof {
        let texts = env::pair_texts(pairs@);
        pairs_are_among_the_names(order::texts(names@), space, texts);
        assert forall|i: int| 0 <= i < pairs@.len() implies store::ciphertext_seen(
            *seen,
            store@,
            (#[trigger] pairs@[i]).1@,
        ) matches Ok(Some(_)) by {
            assert(texts[i].1 == pairs@[i].1@);
        }
    }
    match decrypt_pairs(store, seen, identity, pairs.as_slice()) {
        Ok(pairs) => Ok(Variables::Ready(pairs)),
        Err(e) => Err(e),
    }
}

/// What a snapshot holds is strictly below the namespace, and has a ciphertext.
proof fn a_snapshot_is_selected(
    seen: Seen,
    dir: Seq<u8>,
    namespace: Option<Seq<char>>,
    recipient: Seq<char>,
)
    ensures
        store::snapshot_seen(seen, dir, namespace, recipient) matches Ok(entries) ==> {
            &&& env::selected(names_of(entries), namespace)
            &&& forall|n: Seq<char>| #[trigger]
                names_of(entries).contains(n) ==> (store::ciphertext_seen(
                    seen,
                    dir,
                    n,
                ) matches Ok(Some(_)))
        },
{
    if seen.exists && store::snapshot_seen(seen, dir, namespace, recipient) is Ok {
        let entries = store::snapshot_seen(seen, dir, namespace, recipient)->Ok_0;
        let listed = seen.listing()->Ok_0;
        let names = store::strictly_below(listed, namespace);
        assert(names_of(entries) =~= names);
        store::captured_entries_are_there(seen, dir, names);
        let keep = |n: Seq<char>| store::chosen(namespace, n);
        assert forall|i: int| 0 <= i < names.len() implies store::chosen(
            namespace,
            #[trigger] names[i],
        ) by {
            broadcast use vstd::seq_lib::group_filter_ensures;

            assert(keep(listed.filter(keep)[i]));
        }
    }
}

proof fn pairs_are_among_the_names(
    names: Seq<Seq<char>>,
    namespace: Option<Seq<char>>,
    pairs: Seq<(Seq<char>, Seq<char>)>,
)
    requires
        env::is_pairing(names, namespace, pairs),
    ensures
        forall|i: int| 0 <= i < pairs.len() ==> names.contains((#[trigger] pairs[i]).1),
{
    broadcast use vstd::seq_lib::group_to_multiset_ensures;

    let all = env::paired(names, namespace);
    assert forall|i: int| 0 <= i < pairs.len() implies names.contains((#[trigger] pairs[i]).1) by {
        assert(pairs.contains(pairs[i]));
        assert(pairs.to_multiset().count(pairs[i]) > 0);
        assert(all.contains(pairs[i]));
        let j = choose|j: int| 0 <= j < all.len() && all[j] == pairs[i];
        assert(names[j] == pairs[i].1);
    }
}

/// The names of some entries.
fn entry_names(entries: &[(Name, Vec<u8>)]) -> (r: Vec<Name>)
    ensures
        order::texts(r@) == names_of(store::entry_views(entries@)),
{
    let mut out: Vec<Name> = Vec::new();
    let mut i: usize = 0;
    while i < entries.len()
        invariant
            i <= entries@.len(),
            out@.len() == i,
            forall|j: int| 0 <= j < i ==> (#[trigger] out@[j])@ == entries@[j].0@,
        decreases entries@.len() - i,
    {
        out.push(entries[i].0.clone());
        i = i + 1;
    }
    proof {
        assert(order::texts(out@) =~= names_of(store::entry_views(entries@)));
    }
    out
}

/// The values of some pairs.
fn decrypt_pairs(store: &Store, seen: &Seen, identity: &Identity, pairs: &[(String, Name)]) -> (r:
    Result<Vec<(String, Name, Vec<u8>)>, Error>)
    requires
        forall|i: int|
            0 <= i < pairs@.len() ==> store::ciphertext_seen(
                *seen,
                store@,
                (#[trigger] pairs@[i]).1@,
            ) matches Ok(Some(_)),
    ensures
        are_values(
            *seen,
            store@,
            identity@,
            env::pair_texts(pairs@),
            match r {
                Ok(t) => Ok(triples(t@)),
                Err(e) => Err(e@),
            },
        ),
{
    let ghost texts = env::pair_texts(pairs@);
    let mut out: Vec<(String, Name, Vec<u8>)> = Vec::new();
    let mut i: usize = 0;
    while i < pairs.len()
        invariant
            i <= pairs@.len(),
            texts == env::pair_texts(pairs@),
            forall|i: int|
                0 <= i < pairs@.len() ==> store::ciphertext_seen(
                    *seen,
                    store@,
                    (#[trigger] pairs@[i]).1@,
                ) matches Ok(Some(_)),
            out@.len() == i,
            forall|j: int|
                0 <= j < i ==> presentable(
                    identity@,
                    sealed(*seen, store@, (#[trigger] texts[j]).1),
                ),
            forall|j: int|
                0 <= j < i ==> (#[trigger] triples(out@)[j]) == valued(
                    *seen,
                    store@,
                    identity@,
                    texts,
                )[j],
        decreases pairs@.len() - i,
    {
        let name: &Name = &pairs[i].1;
        assert(texts[i as int] == (pairs@[i as int].0@, name@));
        match store.ciphertext(seen, name) {
            Ok(Some(ciphertext)) => match open_entry(identity, name, ciphertext.as_slice()) {
                Err(e) => {
                    proof {
                        assert(!presentable(
                            identity@,
                            sealed(*seen, store@, texts[i as int].1),
                        ));
                    }
                    return Err(e);
                },
                Ok(value) => {
                    if text::holds(value.as_slice(), 0) {
                        let mut message: String = "value for ".to_owned();
                        message.append(name.as_str());
                        message.append(" contains a NUL byte");
                        proof {
                            assert(!presentable(
                                identity@,
                                sealed(*seen, store@, texts[i as int].1),
                            ));
                        }
                        return Err(Error::new(message));
                    }
                    let ghost before = out@;
                    out.push((pairs[i].0.clone(), name.clone(), value));
                    proof {
                        assert forall|j: int| 0 <= j < i + 1 implies (#[trigger] triples(out@)[j])
                            == valued(*seen, store@, identity@, texts)[j] by {
                            if j < i {
                                assert(triples(before)[j] == triples(out@)[j]);
                            }
                        }
                    }
                },
            },
            Ok(None) => {
                proof {
                    assert(false);
                }
            },
            Err(_) => {
                proof {
                    assert(false);
                }
            },
        }
        i = i + 1;
    }
    proof {
        assert(triples(out@) =~= valued(*seen, store@, identity@, texts));
    }
    Ok(out)
}

// ---------------------------------------------------------------------------
// Export lines

pub open spec fn export_line(var: Seq<char>, value: Seq<char>) -> Seq<char> {
    "export "@ + var + "="@ + env::quoted(value) + "\n"@
}

pub open spec fn not_utf8_text(var: Seq<char>, value: Seq<u8>) -> Seq<char> {
    "value for "@ + var + " is not valid UTF-8: "@ + text::utf8_fault(value)
}

/// The export lines of some variables, up to the first whose value is not text.
pub open spec fn export_lines(pairs: Seq<Triple>) -> Seq<char>
    decreases pairs.len(),
{
    if pairs.len() == 0 || !vstd::utf8::valid_utf8(pairs[0].2) {
        Seq::empty()
    } else {
        export_line(pairs[0].0, vstd::utf8::decode_utf8(pairs[0].2)) + export_lines(
            pairs.drop_first(),
        )
    }
}

/// The complaint about the first variable whose value is not text.
pub open spec fn export_fault(pairs: Seq<Triple>) -> Option<Seq<char>>
    decreases pairs.len(),
{
    if pairs.len() == 0 {
        None
    } else if !vstd::utf8::valid_utf8(pairs[0].2) {
        Some(not_utf8_text(pairs[0].0, pairs[0].2))
    } else {
        export_fault(pairs.drop_first())
    }
}

/// What `env` prints, and the error that it ends with, if it does.
pub fn env_output(pairs: &[(String, Name, Vec<u8>)]) -> (r: (String, Option<Error>))
    ensures
        r.0@ == export_lines(triples(pairs@)),
        match export_fault(triples(pairs@)) {
            Some(message) => r.1 matches Some(e) && e@ == message,
            None => r.1 is None,
        },
{
    let ghost all = triples(pairs@);
    let mut out: String = String::new();
    let mut i: usize = 0;
    proof {
        assert(all.skip(0) =~= all);
        assert(out@ + export_lines(all) =~= export_lines(all));
    }
    while i < pairs.len()
        invariant
            i <= pairs@.len(),
            all == triples(pairs@),
            export_lines(all) == out@ + export_lines(all.skip(i as int)),
            export_fault(all) == export_fault(all.skip(i as int)),
        decreases pairs@.len() - i,
    {
        let ghost rest = all.skip(i as int);
        proof {
            assert(rest[0] == (pairs@[i as int].0@, pairs@[i as int].1@, pairs@[i as int].2@));
            assert(rest.drop_first() =~= all.skip(i + 1));
        }
        match text::decode(pairs[i].2.as_slice()) {
            Err(reason) => {
                let mut message: String = "value for ".to_owned();
                message.append(pairs[i].0.as_str());
                message.append(" is not valid UTF-8: ");
                message.append(reason.as_str());
                proof {
                    assert(out@ + export_lines(rest) =~= out@);
                }
                return (out, Some(Error::new(message)));
            },
            Ok(value) => {
                let ghost before = out@;
                out.append("export ");
                out.append(pairs[i].0.as_str());
                out.append("=");
                out.append(env::shell_quote(value.as_str()).as_str());
                out.append("\n");
                proof {
                    vstd::utf8::encode_utf8_decode_utf8(value@);
                    let line = export_line(pairs@[i as int].0@, value@);
                    assert(out@ =~= before + line);
                    assert(before + (line + export_lines(all.skip(i + 1))) =~= out@ + export_lines(
                        all.skip(i + 1),
                    ));
                }
            },
        }
        i = i + 1;
    }
    proof {
        assert(out@ + export_lines(all.skip(i as int)) =~= out@);
    }
    (out, None)
}

} // verus!
