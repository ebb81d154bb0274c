//! What the operations of a store come to as a whole: each law says of a disk what
//! it holds, and of an operation what follows from that for every entry.

use vstd::prelude::*;
use vstd::string::*;

use crate::consent::Permit;
use crate::crypt;
use crate::disk;
use crate::disk::{Disk, Node};
use crate::env;
use crate::error::Error;
use crate::host::{Effect, Seen, Sight};
use crate::identity;
use crate::laws;
use crate::layout;
use crate::meaning;
use crate::name;
use crate::order;
use crate::output;
use crate::output::Triple;
use crate::paths;
use crate::rekey;
use crate::rekey::{KeyFiles, Rekey};
use crate::rotation;
use crate::rotation::Rotation;
use crate::store;
use crate::store::Move;
use crate::text;

verus! {

// ---------------------------------------------------------------------------
// Which names are meant

/// The name is in the namespace; without one every name is.
pub open spec fn belongs(namespace: Option<Seq<char>>, name: Seq<char>) -> bool {
    namespace matches Some(namespace) ==> meaning::is_below(name, namespace)
}

/// The name is the prefix or below it; without one every name is meant.
pub open spec fn is_meant(prefix: Option<Seq<char>>, name: Seq<char>) -> bool {
    prefix matches Some(prefix) ==> name == prefix || meaning::is_below(name, prefix)
}

/// What `names` tells of a disk: its entries, in order.
proof fn names_are_entries(seen: Seen, d: Disk, dir: Seq<u8>, names: Seq<Seq<char>>)
    requires
        disk::faithful(seen, d, dir, |n: Seq<char>| false),
        store::entries_seen(seen, dir) == Ok::<Seq<Seq<char>>, Seq<char>>(names),
    ensures
        order::strictly_ascending(names),
        forall|n: Seq<char>| #[trigger] names.contains(n) <==> disk::is_entry(d, dir, n),
{
    if !seen.exists {
        assert forall|n: Seq<char>| !disk::is_entry(d, dir, n) by {
            if disk::is_entry(d, dir, n) {
                layout::an_entry_stays_in_the_store(dir, n);
                assert(d.contains_key(store::entry_at(dir, n)));
            }
        }
    }
}

/// A listing holds every entry that is meant and no other, each once, in order.
/// Without a prefix it holds every entry of the store.
pub proof fn a_listing_shows_every_entry(
    seen: Seen,
    d: Disk,
    dir: Seq<u8>,
    names: Seq<Seq<char>>,
    prefix: Option<Seq<char>>,
    namespace: Option<Seq<char>>,
)
    requires
        disk::faithful(seen, d, dir, |n: Seq<char>| false),
        store::entries_seen(seen, dir) == Ok::<Seq<Seq<char>>, Seq<char>>(names),
    ensures
        forall|n: Seq<char>| #[trigger]
            store::at_or_below(names, prefix).contains(n) <==> disk::is_entry(d, dir, n)
                && is_meant(prefix, n),
        forall|n: Seq<char>| #[trigger]
            store::strictly_below(names, namespace).contains(n) <==> disk::is_entry(d, dir, n)
                && belongs(namespace, n),
        forall|i: int, j: int|
            0 <= i < j < store::at_or_below(names, prefix).len() ==> text::less(
                #[trigger] store::at_or_below(names, prefix)[i],
                #[trigger] store::at_or_below(names, prefix)[j],
            ),
        forall|i: int, j: int|
            0 <= i < j < store::strictly_below(names, namespace).len() ==> text::less(
                #[trigger] store::strictly_below(names, namespace)[i],
                #[trigger] store::strictly_below(names, namespace)[j],
            ),
{
    names_are_entries(seen, d, dir, names);
    let by_prefix = |n: Seq<char>| store::listed(prefix, n);
    let by_namespace = |n: Seq<char>| store::chosen(namespace, n);
    laws::a_filter_keeps_the_order(names, by_prefix);
    laws::a_filter_keeps_the_order(names, by_namespace);
    assert forall|n: Seq<char>| #[trigger]
        store::at_or_below(names, prefix).contains(n) <==> disk::is_entry(d, dir, n) && is_meant(
            prefix,
            n,
        ) by {
        laws::what_a_filter_keeps(names, by_prefix, n);
        assert(by_prefix(n) == store::listed(prefix, n));
        if prefix is Some {
            meaning::below_is_below(n, prefix->0);
        }
    }
    assert forall|n: Seq<char>| #[trigger]
        store::strictly_below(names, namespace).contains(n) <==> disk::is_entry(d, dir, n)
            && belongs(namespace, n) by {
        laws::what_a_filter_keeps(names, by_namespace, n);
        assert(by_namespace(n) == store::chosen(namespace, n));
        if namespace is Some {
            meaning::below_is_below(n, namespace->0);
        }
    }
}

/// The entries of a store may be used exactly if there is none or a marker is there.
pub proof fn entries_need_a_marker(seen: Seen, d: Disk, dir: Seq<u8>)
    requires
        disk::faithful(seen, d, dir, |n: Seq<char>| false),
    ensures
        store::entries_seen(seen, dir) is Ok <==> disk::is_marked(d, dir),
        store::entries_seen(seen, dir) matches Err(message) ==> message
            == "store has entries but no recipient marker"@,
{
    let names = seen.listing()->Ok_0;
    if names.len() > 0 {
        assert(names.contains(names[0]));
        assert(disk::is_entry(d, dir, names[0]));
        layout::an_entry_stays_in_the_store(dir, names[0]);
        assert(d.contains_key(store::entry_at(dir, names[0])));
    } else if exists|n: Seq<char>| #[trigger] disk::is_entry(d, dir, n) {
        let n = choose|n: Seq<char>| #[trigger] disk::is_entry(d, dir, n);
        assert(names.contains(n));
    }
}

// ---------------------------------------------------------------------------
// Snapshots

/// The name is among the entries, with these bytes.
pub open spec fn holds(
    entries: Seq<(Seq<char>, Seq<u8>)>,
    name: Seq<char>,
    bytes: Seq<u8>,
) -> bool {
    exists|i: int| 0 <= i < entries.len() && #[trigger] entries[i] == (name, bytes)
}

/// A snapshot holds every entry of the namespace with the bytes that are on the
/// disk, and nothing else, each once, in order. Without a namespace it holds every
/// entry of the store.
pub proof fn a_snapshot_holds_every_entry(
    seen: Seen,
    d: Disk,
    dir: Seq<u8>,
    namespace: Option<Seq<char>>,
    recipient: Seq<char>,
    entries: Seq<(Seq<char>, Seq<u8>)>,
)
    requires
        disk::faithful(seen, d, dir, |n: Seq<char>| disk::is_entry(d, dir, n)),
        store::snapshot_seen(seen, dir, namespace, recipient) == Ok::<
            Seq<(Seq<char>, Seq<u8>)>,
            Seq<char>,
        >(entries),
    ensures
        forall|n: Seq<char>| #[trigger]
            disk::is_entry(d, dir, n) && belongs(namespace, n) ==> output::names_of(
                entries,
            ).contains(n) && holds(entries, n, disk::value_on(d, dir, n)->0),
        forall|i: int|
            0 <= i < entries.len() ==> disk::is_entry(d, dir, (#[trigger] entries[i]).0) && belongs(
                namespace,
                entries[i].0,
            ) && disk::value_on(d, dir, entries[i].0) == Some(entries[i].1),
        forall|i: int, j: int|
            0 <= i < j < entries.len() ==> text::less(
                (#[trigger] entries[i]).0,
                (#[trigger] entries[j]).0,
            ),
        output::names_of(entries).len() == entries.len(),
        forall|i: int|
            0 <= i < entries.len() ==> output::names_of(entries)[i] == (#[trigger] entries[i]).0,
{
    let asked = |n: Seq<char>| disk::is_entry(d, dir, n);
    if !seen.exists {
        assert forall|n: Seq<char>| !disk::is_entry(d, dir, n) by {
            if disk::is_entry(d, dir, n) {
                layout::an_entry_stays_in_the_store(dir, n);
                assert(d.contains_key(store::entry_at(dir, n)));
            }
        }
    } else {
        let listed = seen.listing()->Ok_0;
        let names = store::strictly_below(listed, namespace);
        let keep = |n: Seq<char>| store::chosen(namespace, n);
        laws::a_filter_keeps_the_order(listed, keep);
        store::captured_entries_are_there(seen, dir, names);
        assert(output::names_of(entries) =~= names);
        assert forall|i: int| 0 <= i < entries.len() implies disk::is_entry(
            d,
            dir,
            (#[trigger] entries[i]).0,
        ) && belongs(namespace, entries[i].0) && disk::value_on(d, dir, entries[i].0) == Some(
            entries[i].1,
        ) by {
            let n = entries[i].0;
            assert(names[i] == n);
            assert(names.contains(n));
            laws::what_a_filter_keeps(listed, keep, n);
            assert(listed.contains(n));
            assert(asked(n));
            assert(store::ciphertext_seen(seen, dir, names[i]) matches Ok(Some(_)));
            if namespace is Some {
                meaning::below_is_below(n, namespace->0);
            }
        }
        assert forall|n: Seq<char>| #[trigger]
            disk::is_entry(d, dir, n) && belongs(namespace, n) implies output::names_of(
            entries,
        ).contains(n) && holds(entries, n, disk::value_on(d, dir, n)->0) by {
            assert(listed.contains(n));
            laws::what_a_filter_keeps(listed, keep, n);
            if namespace is Some {
                meaning::below_is_below(n, namespace->0);
            }
            assert(keep(n));
            let i = choose|i: int| 0 <= i < names.len() && names[i] == n;
            assert(entries[i].0 == n);
            assert(entries[i] == (n, disk::value_on(d, dir, n)->0));
        }
        assert forall|i: int, j: int| 0 <= i < j < entries.len() implies text::less(
            (#[trigger] entries[i]).0,
            (#[trigger] entries[j]).0,
        ) by {
            assert(names[i] == entries[i].0 && names[j] == entries[j].0);
        }
    }
}

/// A snapshot is owed to whoever may use the store: only a refusal stops it.
pub proof fn a_snapshot_is_owed_to_the_owner(
    seen: Seen,
    d: Disk,
    dir: Seq<u8>,
    namespace: Option<Seq<char>>,
    recipient: Seq<char>,
)
    requires
        disk::faithful(seen, d, dir, |n: Seq<char>| disk::is_entry(d, dir, n)),
    ensures
        store::snapshot_seen(seen, dir, namespace, recipient) is Ok <==> !disk::is_there(d, dir)
            || store::refusal(seen, dir, recipient) is None,
        store::snapshot_seen(seen, dir, namespace, recipient) matches Err(message) ==> Some(message)
            == store::refusal(seen, dir, recipient),
{
    let asked = |n: Seq<char>| disk::is_entry(d, dir, n);
    let listed = seen.listing()->Ok_0;
    let names = store::strictly_below(listed, namespace);
    let keep = |n: Seq<char>| store::chosen(namespace, n);
    assert forall|i: int| 0 <= i < names.len() implies store::ciphertext_seen(
        seen,
        dir,
        #[trigger] names[i],
    ) matches Ok(Some(_)) by {
        let n = names[i];
        assert(names.contains(n));
        laws::what_a_filter_keeps(listed, keep, n);
        assert(listed.contains(n));
        assert(asked(n));
    }
    nothing_stops_the_capture(seen, dir, names);
}

proof fn nothing_stops_the_capture(seen: Seen, dir: Seq<u8>, names: Seq<Seq<char>>)
    requires
        forall|i: int|
            0 <= i < names.len() ==> store::ciphertext_seen(seen, dir, #[trigger] names[i]) matches Ok(
                Some(_),
            ),
    ensures
        store::first_capture_fault(seen, dir, names) is None,
    decreases names.len(),
{
    if names.len() > 0 {
        let rest = names.drop_first();
        assert(store::ciphertext_seen(seen, dir, names[0]) matches Ok(Some(_)));
        assert forall|i: int| 0 <= i < rest.len() implies store::ciphertext_seen(
            seen,
            dir,
            #[trigger] rest[i],
        ) matches Ok(Some(_)) by {
            assert(rest[i] == names[i + 1]);
        }
        nothing_stops_the_capture(seen, dir, rest);
    }
}

// ---------------------------------------------------------------------------
// Who may use a store

/// The bytes are one line, ended by the only newline, and that line names the
/// recipient.
pub open spec fn names_owner(bytes: Seq<u8>, owner: Seq<char>) -> bool {
    exists|line: Seq<char>|
        {
            &&& line.len() > 0
            &&& !line.contains('\n')
            &&& bytes == text::utf8(line + seq!['\n'])
            &&& #[trigger] crypt::recipient_of(line) == Ok::<Seq<char>, Seq<char>>(owner)
        }
}

/// A marker names whom its one line names, and nobody if it is anything else than
/// one line that names somebody.
pub proof fn a_marker_is_one_line(path: Seq<u8>, bytes: Seq<u8>)
    ensures
        forall|owner: Seq<char>| #[trigger]
            names_owner(bytes, owner) <==> store::marker_recipient(path, bytes) == Ok::<
                Seq<char>,
                Seq<char>,
            >(owner),
{
    let contents = vstd::utf8::decode_utf8(bytes);
    assert forall|owner: Seq<char>| #[trigger]
        names_owner(bytes, owner) <==> store::marker_recipient(path, bytes) == Ok::<
            Seq<char>,
            Seq<char>,
        >(owner) by {
        if names_owner(bytes, owner) {
            let line = choose|line: Seq<char>|
                {
                    &&& line.len() > 0
                    &&& !line.contains('\n')
                    &&& bytes == text::utf8(line + seq!['\n'])
                    &&& #[trigger] crypt::recipient_of(line) == Ok::<Seq<char>, Seq<char>>(owner)
                };
            let whole = line + seq!['\n'];
            vstd::utf8::encode_utf8_valid_utf8(whole);
            vstd::utf8::encode_utf8_decode_utf8(whole);
            assert(whole.drop_last() =~= line);
        }
        if store::marker_recipient(path, bytes) == Ok::<Seq<char>, Seq<char>>(owner) {
            vstd::utf8::decode_utf8_encode_utf8(bytes);
            let line = contents.drop_last();
            assert(line + seq!['\n'] =~= contents);
            assert(crypt::recipient_of(line) == Ok::<Seq<char>, Seq<char>>(owner));
        }
    }
}

/// The recipient may use the store: its marker names the same one, or there is
/// neither marker nor entry.
pub open spec fn may_use(d: Disk, dir: Seq<u8>, recipient: Seq<char>) -> bool {
    if d.contains_key(store::marker_at(dir)) {
        d[store::marker_at(dir)] matches Node::File(bytes) && exists|owner: Seq<char>| #[trigger]
            names_owner(bytes, owner) && crypt::point_of(owner) == crypt::point_of(recipient)
    } else {
        forall|n: Seq<char>| !#[trigger] disk::is_entry(d, dir, n)
    }
}

/// A recipient is refused exactly if it may not use the store: for reading and for
/// a snapshot where there is a store, and for writing.
pub proof fn only_the_owner_may_use_a_store(
    seen: Seen,
    d: Disk,
    dir: Seq<u8>,
    recipient: Seq<char>,
)
    requires
        disk::faithful(seen, d, dir, |n: Seq<char>| false),
    ensures
        store::refusal(seen, dir, recipient) is None <==> may_use(d, dir, recipient),
        store::binding_refusal(seen, dir, recipient) is None <==> may_use(d, dir, recipient),
{
    let marker = store::marker_at(dir);
    let names = seen.listing()->Ok_0;
    if d.contains_key(marker) {
        if d[marker] is File {
            a_marker_is_one_line(marker, d[marker]->File_0);
            if store::owner_seen(seen, dir) is Ok {
                let owner = store::owner_seen(seen, dir)->Ok_0->Some_0;
                assert(names_owner(d[marker]->File_0, owner));
            }
            if may_use(d, dir, recipient) {
                let owner = choose|owner: Seq<char>| #[trigger]
                    names_owner(d[marker]->File_0, owner) && crypt::point_of(owner)
                        == crypt::point_of(recipient);
                assert(store::owner_seen(seen, dir) == Ok::<Option<Seq<char>>, Seq<char>>(
                    Some(owner),
                ));
            }
        }
    } else {
        if names.len() > 0 {
            assert(names.contains(names[0]));
            assert(disk::is_entry(d, dir, names[0]));
        } else {
            assert forall|n: Seq<char>| !#[trigger] disk::is_entry(d, dir, n) by {
                assert(!names.contains(n));
            }
        }
    }
}

/// Who is refused is told why: the marker names somebody else, or entries have no
/// marker.
pub proof fn a_refusal_gives_the_reason(
    seen: Seen,
    d: Disk,
    dir: Seq<u8>,
    recipient: Seq<char>,
    owner: Seq<char>,
)
    requires
        disk::faithful(seen, d, dir, |n: Seq<char>| false),
        !may_use(d, dir, recipient),
    ensures
        d.contains_key(store::marker_at(dir)) && d[store::marker_at(dir)] is File && names_owner(
            d[store::marker_at(dir)]->File_0,
            owner,
        ) ==> store::refusal(seen, dir, recipient) == Some(
            "selected identity does not match the store recipient"@,
        ) && store::binding_refusal(seen, dir, recipient) == Some(
            "selected identity does not match the store recipient"@,
        ),
        !d.contains_key(store::marker_at(dir)) ==> store::refusal(seen, dir, recipient) == Some(
            "store has entries but no recipient marker"@,
        ) && store::binding_refusal(seen, dir, recipient) == Some(
            "store has entries but no recipient marker"@,
        ),
{
    only_the_owner_may_use_a_store(seen, d, dir, recipient);
    let marker = store::marker_at(dir);
    if d.contains_key(marker) && d[marker] is File && names_owner(d[marker]->File_0, owner) {
        a_marker_is_one_line(marker, d[marker]->File_0);
    }
}

// ---------------------------------------------------------------------------
// One entry

/// Reading gives whoever may use the store the bytes that the disk holds for the
/// entry, and nothing where it holds none. Whether the entry is there is told
/// without regard to the reader.
pub proof fn reading_gives_what_the_disk_holds(
    seen: Seen,
    d: Disk,
    dir: Seq<u8>,
    name: Seq<char>,
    recipient: Seq<char>,
)
    requires
        name::valid(name),
        disk::faithful(seen, d, dir, |n: Seq<char>| n == name),
        !disk::is_dir(d, store::entry_at(dir, name)),
    ensures
        may_use(d, dir, recipient) ==> store::read_seen(seen, dir, name, recipient) == Ok::<
            Option<Seq<u8>>,
            Seq<char>,
        >(disk::value_on(d, dir, name)),
        disk::is_there(d, dir) && !may_use(d, dir, recipient) ==> store::read_seen(
            seen,
            dir,
            name,
            recipient,
        ) is Err,
        disk::is_marked(d, dir) ==> store::contained(seen, dir, name) == Ok::<bool, Seq<char>>(
            disk::is_entry(d, dir, name),
        ),
        !disk::is_marked(d, dir) ==> store::contained(seen, dir, name) == Err::<bool, Seq<char>>(
            "store has entries but no recipient marker"@,
        ),
{
    let asked = |n: Seq<char>| n == name;
    assert(asked(name));
    assert(disk::faithful(seen, d, dir, |n: Seq<char>| false));
    only_the_owner_may_use_a_store(seen, d, dir, recipient);
    entries_need_a_marker(seen, d, dir);
    layout::an_entry_stays_in_the_store(dir, name);
    let path = store::entry_at(dir, name);
    if d.contains_key(path) {
        assert(disk::is_there(d, dir));
    }
}

// ---------------------------------------------------------------------------
// What a change leaves alone

/// The change is about the path.
pub open spec fn touches(effect: Effect, path: Seq<u8>) -> bool {
    match effect {
        Effect::Create { path: p, .. } => p == path,
        Effect::Replace { path: p, .. } => p == path,
        Effect::Rename { from, to } => from == path || to == path,
        Effect::Remove { path: p } => p == path,
        Effect::RemoveDir { path: p } => p == path,
    }
}

/// A file that no change is about stays as it is, and none appears.
proof fn the_rest_stays(d: Disk, effects: Seq<Effect>, path: Seq<u8>)
    requires
        forall|i: int| 0 <= i < effects.len() ==> !touches(#[trigger] effects[i], path),
    ensures
        disk::is_file(disk::after_all(d, effects), path) == disk::is_file(d, path),
        disk::is_file(d, path) ==> disk::after_all(d, effects)[path] == d[path],
    decreases effects.len(),
{
    if effects.len() > 0 {
        let rest = effects.drop_first();
        assert(!touches(effects[0], path));
        assert forall|i: int| 0 <= i < rest.len() implies !touches(#[trigger] rest[i], path) by {
            assert(rest[i] == effects[i + 1]);
        }
        the_rest_stays(disk::after(d, effects[0]), rest, path);
    }
}

/// A write is granted exactly to whoever may use the store. It changes the file of
/// the entry and, where there is none, adds the marker; every other file stays as
/// it is, and no other appears.
pub proof fn a_write_is_granted_to_the_owner(
    seen: Seen,
    d: Disk,
    dir: Seq<u8>,
    name: Seq<char>,
    recipient: Seq<char>,
    ciphertext: Seq<u8>,
)
    requires
        name::valid(name),
        disk::faithful(seen, d, dir, |n: Seq<char>| false),
    ensures
        store::write_seen(seen, dir, name, recipient, ciphertext) is Ok <==> may_use(
            d,
            dir,
            recipient,
        ),
        store::write_seen(seen, dir, name, recipient, ciphertext) matches Ok(effects)
            ==> disk::all_possible(d, effects) ==> {
            let e = disk::after_all(d, effects);
            &&& disk::value_on(e, dir, name) == Some(ciphertext)
            &&& disk::is_file(e, store::marker_at(dir))
            &&& disk::is_file(d, store::marker_at(dir)) ==> e[store::marker_at(dir)]
                == d[store::marker_at(dir)]
            &&& !d.contains_key(store::marker_at(dir)) ==> e[store::marker_at(dir)] == Node::File(
                text::utf8(recipient + seq!['\n']),
            )
            &&& forall|p: Seq<u8>|
                p != store::entry_at(dir, name) && p != store::marker_at(dir)
                    ==> #[trigger] disk::is_file(e, p) == disk::is_file(d, p) && (disk::is_file(
                    d,
                    p,
                ) ==> e[p] == d[p])
        },
{
    only_the_owner_may_use_a_store(seen, d, dir, recipient);
    if store::write_seen(seen, dir, name, recipient, ciphertext) is Ok {
        let effects = store::write_seen(seen, dir, name, recipient, ciphertext)->Ok_0;
        let e = disk::after_all(d, effects);
        let marker = store::marker_at(dir);
        reveal_strlit("\n");
        assert("\n"@ =~= seq!['\n']);
        assert(store::marker_text(recipient) == recipient + seq!['\n']);
        if disk::all_possible(d, effects) {
            laws::a_write_on_disk(seen, d, dir, name, recipient, ciphertext, effects);
            assert(disk::is_file(e, marker)) by {
                if seen.marker {
                    assert(d[marker] is File);
                }
            }
        }
        assert forall|p: Seq<u8>|
            p != store::entry_at(dir, name) && p != store::marker_at(dir) implies #[trigger]
            disk::is_file(e, p) == disk::is_file(d, p) && (disk::is_file(d, p) ==> e[p]
            == d[p]) by {
            the_rest_stays(d, effects, p);
        }
    }
}

// ---------------------------------------------------------------------------
// Directories

proof fn a_slash_has_a_parent(dir: Seq<u8>, s: Seq<char>, k: int)
    requires
        0 <= k < s.len(),
        s[k] == '/',
    ensures
        store::parents(dir, s).contains(paths::joined(dir, text::utf8(s.take(k)))),
    decreases s.len(),
{
    let before = s.drop_last();
    let all = store::parents(dir, s);
    let p = paths::joined(dir, text::utf8(s.take(k)));
    if k == before.len() {
        assert(before =~= s.take(k));
        assert(all[0] == p);
    } else {
        a_slash_has_a_parent(dir, before, k);
        assert(before.take(k) =~= s.take(k));
        let rest = store::parents(dir, before);
        let j = choose|j: int| 0 <= j < rest.len() && rest[j] == p;
        if s.last() == '/' {
            assert(all[j + 1] == p);
        } else {
            assert(all[j] == p);
        }
    }
}

/// The directories of an entry are all those that stand above its file and inside
/// the store.
pub proof fn every_directory_of_an_entry_is_known(dir: Seq<u8>, name: Seq<char>, p: Seq<u8>)
    requires
        name::valid(name),
    ensures
        store::parents(dir, name).contains(p) <==> disk::above(p, store::entry_at(dir, name))
            && paths::under(dir).len() < p.len(),
{
    let root = paths::under(dir);
    let path = store::entry_at(dir, name);
    let rel = layout::relative(name);
    layout::an_entry_stays_in_the_store(dir, name);
    layout::relative_is_ascii(name);
    layout::parents_lie_between(dir, name);
    if disk::above(p, path) && root.len() < p.len() {
        let k = p.len() - root.len();
        reveal_strlit(".age");
        assert(path[p.len() as int] == text::utf8(rel)[k]);
        assert(text::utf8(rel)[k] == rel[k] as u8);
        assert(rel[k] == '/');
        assert(k < name.len()) by {
            if k >= name.len() {
                assert(rel[k] == ".age"@[k - name.len()]);
            }
        }
        assert(name[k] == '/');
        a_slash_has_a_parent(dir, name, k);
        let head = name.take(k);
        assert forall|i: int| 0 <= i < head.len() implies '\0' <= #[trigger] head[i]
            <= '\u{7f}' by {
            assert(rel[i] == head[i]);
        }
        vstd::utf8::is_ascii_chars_encode_utf8(head);
        assert(p =~= root + text::utf8(head)) by {
            assert forall|i: int| 0 <= i < p.len() implies p[i] == (root + text::utf8(head))[i] by {
                assert(path.take(p.len() as int)[i] == path[i]);
                if i >= root.len() {
                    assert(text::utf8(rel)[i - root.len()] == rel[i - root.len()] as u8);
                    assert(rel[i - root.len()] == head[i - root.len()]);
                }
            }
        }
        assert(text::utf8(head)[0] == name[0] as u8) by {
            assert(head[0] == name[0]);
        }
        assert(name::component_starts(name, 0));
        assert(name::allowed(name[0]));
        assert(!paths::absolute(text::utf8(head)));
    }
    if store::parents(dir, name).contains(p) {
        let j = choose|j: int|
            0 <= j < store::parents(dir, name).len() && store::parents(dir, name)[j] == p;
        assert(disk::above(store::parents(dir, name)[j], path));
    }
}

/// Neither a removal nor a renaming leaves an empty directory behind: whatever
/// directory above the entry is still in the store holds something.
pub proof fn no_empty_directory_is_left(d: Disk, dir: Seq<u8>, name: Seq<char>, p: Seq<u8>)
    requires
        name::valid(name),
        laws::is_tree(d),
        disk::is_file(d, store::entry_at(dir, name)),
        disk::above(p, store::entry_at(dir, name)),
        paths::under(dir).len() < p.len(),
    ensures
        laws::after_removal(d, dir, name).contains_key(p) ==> exists|q: Seq<u8>| #[trigger]
            laws::after_removal(d, dir, name).contains_key(q) && disk::above(p, q),
        forall|new: Seq<char>|
            name::valid(new) && disk::possible(
                d,
                Effect::Rename { from: store::entry_at(dir, name), to: store::entry_at(dir, new) },
            ) && #[trigger] laws::after_renaming(d, dir, name, new).contains_key(p) ==> exists|
                q: Seq<u8>,
            | #[trigger]
                laws::after_renaming(d, dir, name, new).contains_key(q) && disk::above(p, q),
{
    every_directory_of_an_entry_is_known(dir, name, p);
    let dirs = store::parents(dir, name);
    let j = choose|j: int| 0 <= j < dirs.len() && dirs[j] == p;
    assert(dirs[j] == p);
    laws::a_removal_leaves_no_husk(d, dir, name);
    assert forall|new: Seq<char>|
        name::valid(new) && disk::possible(
            d,
            Effect::Rename { from: store::entry_at(dir, name), to: store::entry_at(dir, new) },
        ) && #[trigger] laws::after_renaming(d, dir, name, new).contains_key(p) implies exists|
        q: Seq<u8>,
    | #[trigger]
        laws::after_renaming(d, dir, name, new).contains_key(q) && disk::above(p, q) by {
        laws::a_renaming_leaves_no_husk(d, dir, name, new);
        assert(store::parents(dir, name)[j] == p);
    }
}

// ---------------------------------------------------------------------------
// Renaming

/// A renaming goes ahead exactly if the old name has an entry, and the new name has
/// none or may be overwritten. It then moves the one file, and looks after the
/// directories of the old name.
pub proof fn a_renaming_is_decided_by_the_disk(
    seen: Seen,
    d: Disk,
    dir: Seq<u8>,
    old: Seq<char>,
    new: Seq<char>,
    overwrite: bool,
)
    requires
        name::valid(old),
        name::valid(new),
        disk::faithful(seen, d, dir, |n: Seq<char>| n == old || n == new),
        disk::is_marked(d, dir),
        !disk::is_dir(d, store::entry_at(dir, old)),
        !disk::is_dir(d, store::entry_at(dir, new)),
    ensures
        store::rename_seen(seen, dir, old, new, overwrite) matches Ok(done) && match done {
            Move::Missing => !disk::is_entry(d, dir, old),
            Move::Taken => disk::is_entry(d, dir, old) && disk::is_entry(d, dir, new)
                && !overwrite,
            Move::Go(effects, dirs) => {
                &&& disk::is_entry(d, dir, old)
                &&& !disk::is_entry(d, dir, new) || overwrite
                &&& effects == seq![
                    (Effect::Rename {
                        from: store::entry_at(dir, old),
                        to: store::entry_at(dir, new),
                    }),
                ]
                &&& forall|p: Seq<u8>| #[trigger]
                    dirs.contains(p) <==> disk::above(p, store::entry_at(dir, old))
                        && paths::under(dir).len() < p.len()
            },
        },
{
    let asked = |n: Seq<char>| n == old || n == new;
    assert(asked(old) && asked(new));
    assert(disk::faithful(seen, d, dir, |n: Seq<char>| n == old)) by {
        assert forall|n: Seq<char>| n == old implies #[trigger] asked(n) by {}
    }
    assert(disk::faithful(seen, d, dir, |n: Seq<char>| n == new)) by {
        assert forall|n: Seq<char>| n == new implies #[trigger] asked(n) by {}
    }
    reading_gives_what_the_disk_holds(seen, d, dir, old, Seq::empty());
    reading_gives_what_the_disk_holds(seen, d, dir, new, Seq::empty());
    assert forall|p: Seq<u8>| #[trigger]
        store::parents(dir, old).contains(p) <==> disk::above(p, store::entry_at(dir, old))
            && paths::under(dir).len() < p.len() by {
        every_directory_of_an_entry_is_known(dir, old, p);
    }
}

// ---------------------------------------------------------------------------
// Rekeying

/// What a rekey is about and where it starts.
pub open spec fn is_start(r: Rotation, seen: Seen) -> bool {
    &&& disk::faithful(seen, r.disk, r.dir, |n: Seq<char>| disk::is_entry(r.disk, r.dir, n))
    &&& seen.exists
    &&& store::owner_seen(seen, r.dir) matches Ok(Some(_))
    &&& store::snapshot_seen(seen, r.dir, None, crypt::public_of(r.secret)) == Ok::<
        Seq<(Seq<char>, Seq<u8>)>,
        Seq<char>,
    >(r.entries)
    &&& rekey::resealed(r.secret, r.fresh, r.entries, r.sealed)
    &&& disk::is_file(r.disk, r.path) && r.disk[r.path] == Node::File(r.old_file)
    &&& !r.is_key_file(store::marker_at(r.dir))
    &&& forall|n: Seq<char>|
        name::valid(n) ==> !r.is_key_file(#[trigger] store::entry_at(r.dir, n))
}

/// After a complete rekey every entry of the store holds a ciphertext that the new
/// key opens to the value that the former key read there. The entries are those
/// from before.
pub proof fn a_rekey_reaches_every_entry(r: Rotation, seen: Seen)
    requires
        is_start(r, seen),
    ensures
        forall|n: Seq<char>| #[trigger]
            disk::is_entry(r.disk, r.dir, n) ==> {
                let before = disk::value_on(r.disk, r.dir, n);
                let now = disk::value_on(disk::after_all(r.disk, r.effects()), r.dir, n);
                &&& now is Some
                &&& crypt::opened(r.secret, before->0) is Some
                &&& crypt::opened(r.fresh, now->0) == crypt::opened(r.secret, before->0)
            },
        forall|n: Seq<char>| #[trigger]
            disk::is_entry(disk::after_all(r.disk, r.effects()), r.dir, n) <==> disk::is_entry(
                r.disk,
                r.dir,
                n,
            ),
{
    rotation::a_planned_rekey_is_sound(r, seen);
    rotation::a_rekey_rotates_the_keys(r);
    a_snapshot_holds_every_entry(
        seen,
        r.disk,
        r.dir,
        None,
        crypt::public_of(r.secret),
        r.entries,
    );
    let e = disk::after_all(r.disk, r.effects());
    assert forall|n: Seq<char>| #[trigger] disk::is_entry(r.disk, r.dir, n) implies {
        let before = disk::value_on(r.disk, r.dir, n);
        let now = disk::value_on(e, r.dir, n);
        &&& now is Some
        &&& crypt::opened(r.secret, before->0) is Some
        &&& crypt::opened(r.fresh, now->0) == crypt::opened(r.secret, before->0)
    } by {
        assert(belongs(None, n));
        let bytes = disk::value_on(r.disk, r.dir, n)->0;
        assert(holds(r.entries, n, bytes));
        let i = choose|i: int| 0 <= i < r.entries.len() && #[trigger] r.entries[i] == (n, bytes);
        assert(disk::value_on(e, r.dir, r.entries[i].0) == Some(r.sealed[i]));
    }
    assert forall|n: Seq<char>| #[trigger]
        disk::is_entry(e, r.dir, n) <==> disk::is_entry(r.disk, r.dir, n) by {
        if name::valid(n) && !disk::is_entry(r.disk, r.dir, n) {
            let path = store::entry_at(r.dir, n);
            layout::an_entry_is_no_dot_file(r.dir, n);
            let effects = r.effects();
            assert forall|i: int| 0 <= i < effects.len() implies !touches(
                #[trigger] effects[i],
                path,
            ) by {
                if 1 <= i <= r.entries.len() {
                    let m = r.entries[i - 1].0;
                    assert(r.names()[i - 1] == m);
                    if store::entry_at(r.dir, m) == path {
                        layout::entries_do_not_share_a_file(r.dir, m, n);
                    }
                }
            }
            the_rest_stays(r.disk, effects, path);
        }
    }
}

/// However far a rekey gets, every entry of the store can be opened: its ciphertext
/// is the one from before, or one that the new key opens to the same value.
pub proof fn no_value_is_ever_lost(r: Rotation, seen: Seen, steps: int)
    requires
        is_start(r, seen),
        0 <= steps <= r.effects().len(),
    ensures
        forall|n: Seq<char>| #[trigger]
            disk::is_entry(r.disk, r.dir, n) ==> {
                let before = disk::value_on(r.disk, r.dir, n);
                let now = disk::value_on(r.after(steps), r.dir, n);
                &&& now is Some
                &&& crypt::opened(r.secret, before->0) is Some
                &&& now == before || crypt::opened(r.fresh, now->0) == crypt::opened(
                    r.secret,
                    before->0,
                )
            },
{
    rotation::a_planned_rekey_is_sound(r, seen);
    rotation::no_entry_is_ever_without_its_key(r, steps);
    a_snapshot_holds_every_entry(
        seen,
        r.disk,
        r.dir,
        None,
        crypt::public_of(r.secret),
        r.entries,
    );
    assert forall|n: Seq<char>| #[trigger] disk::is_entry(r.disk, r.dir, n) implies {
        let before = disk::value_on(r.disk, r.dir, n);
        let now = disk::value_on(r.after(steps), r.dir, n);
        &&& now is Some
        &&& crypt::opened(r.secret, before->0) is Some
        &&& now == before || crypt::opened(r.fresh, now->0) == crypt::opened(
            r.secret,
            before->0,
        )
    } by {
        assert(belongs(None, n));
        let bytes = disk::value_on(r.disk, r.dir, n)->0;
        assert(holds(r.entries, n, bytes));
        let i = choose|i: int| 0 <= i < r.entries.len() && #[trigger] r.entries[i] == (n, bytes);
        let now = disk::value_on(r.after(steps), r.dir, r.entries[i].0);
    }
}

/// The path is neither that of the marker nor that of an entry.
pub open spec fn is_apart(dir: Seq<u8>, p: Seq<u8>) -> bool {
    p != store::marker_at(dir) && forall|n: Seq<char>|
        name::valid(n) ==> p != #[trigger] store::entry_at(dir, n)
}

/// The changes that a rekey asks for leave every entry of the store with the value
/// it had, for the new key; the identity file then loads as the new key, and the
/// marker names its recipient.
pub proof fn a_rekey_keeps_every_value(
    seen: Seen,
    d: Disk,
    dir: Seq<u8>,
    path: Seq<u8>,
    files: KeyFiles,
    permit: Permit,
    rekeyed: Rekey,
)
    requires
        disk::faithful(seen, d, dir, |n: Seq<char>| disk::is_entry(d, dir, n)),
        rekey::is_rekeyed(seen, dir, path, files, permit, Ok::<Rekey, Error>(rekeyed)),
        files.current@ matches Sight::Bytes(bytes) ==> d.contains_key(path) && d[path]
            == Node::File(bytes),
        is_apart(dir, path),
        is_apart(dir, rekey::new_at(path)),
        is_apart(dir, rekey::old_at(path)),
    ensures
        identity::loaded(path, files.current@) is Ok,
        forall|n: Seq<char>| #[trigger]
            disk::is_entry(d, dir, n) ==> {
                let secret = identity::loaded(path, files.current@)->Ok_0;
                let before = disk::value_on(d, dir, n);
                let now = disk::value_on(disk::after_all(d, rekeyed.plan.effects()), dir, n);
                &&& now is Some
                &&& crypt::opened(secret, before->0) is Some
                &&& crypt::opened(rekeyed.fresh@, now->0) == crypt::opened(secret, before->0)
            },
        ({
            let e = disk::after_all(d, rekeyed.plan.effects());
            &&& e.contains_key(path) && e[path] is File
            &&& identity::loaded(path, Sight::Bytes(e[path]->File_0)) == Ok::<
                Seq<char>,
                Seq<char>,
            >(rekeyed.fresh@)
            &&& e.contains_key(rekey::old_at(path)) && e[rekey::old_at(path)] == d[path]
            &&& e.contains_key(store::marker_at(dir)) && e[store::marker_at(dir)] is File
            &&& names_owner(
                e[store::marker_at(dir)]->File_0,
                crypt::public_of(rekeyed.fresh@),
            )
        }),
{
    let secret = identity::loaded(path, files.current@)->Ok_0;
    let entries = store::snapshot_seen(seen, dir, None, crypt::public_of(secret))->Ok_0;
    let old_file = files.current@->Bytes_0;
    let fresh = rekeyed.fresh@;
    let sealed = choose|sealed: Seq<Seq<u8>>| #[trigger]
        rekey::resealed(secret, fresh, entries, sealed) && rekeyed.plan.effects()
            == rekey::rekeying(dir, path, old_file, fresh, output::names_of(entries), sealed);
    let r = Rotation { disk: d, dir, path, old_file, secret, fresh, entries, sealed };
    assert(is_start(r, seen)) by {
        assert(!r.is_key_file(store::marker_at(dir)));
        assert forall|n: Seq<char>| name::valid(n) implies !r.is_key_file(
            #[trigger] store::entry_at(r.dir, n),
        ) by {}
    }
    a_rekey_reaches_every_entry(r, seen);
    rotation::a_planned_rekey_is_sound(r, seen);
    rotation::a_rekey_rotates_the_keys(r);
    identity::an_identity_file_loads_back(fresh, crypt::public_of(fresh));
    vstd::utf8::encode_utf8_valid_utf8(
        identity::identity_text(fresh, crypt::public_of(fresh)),
    );
    let marker = store::marker_at(dir);
    laws::a_marker_names_its_recipient(marker, crypt::public_of(fresh));
    a_marker_is_one_line(marker, r.new_marker());
}

/// A rekey is refused where consent was given to something else, and where something
/// stands in its way.
pub proof fn a_rekey_is_refused_with_the_reason(
    seen: Seen,
    dir: Seq<u8>,
    path: Seq<u8>,
    files: KeyFiles,
    permit: Permit,
    r: Result<Rekey, Error>,
)
    requires
        rekey::is_rekeyed(seen, dir, path, files, permit, r),
    ensures
        ({
            let asked = permit.question()
                == "keyjar: re-encrypt every entry and replace the identity? [y/N] "@;
            &&& !asked ==> r is Err && r->Err_0@ == "consent was given to something else"@
            &&& asked && rekey::obstacle(seen, dir, path, files) is Some ==> r is Err && Some(
                r->Err_0@,
            ) == rekey::obstacle(seen, dir, path, files)
        }),
{
}

/// A rekey that nothing stands in the way of fails only for an entry that the key
/// cannot open, and names the first. One that does not fail counts the entries.
pub proof fn a_rekey_fails_only_for_what_cannot_be_opened(
    seen: Seen,
    d: Disk,
    dir: Seq<u8>,
    path: Seq<u8>,
    files: KeyFiles,
    permit: Permit,
    r: Result<Rekey, Error>,
    names: Seq<Seq<char>>,
)
    requires
        disk::faithful(seen, d, dir, |n: Seq<char>| disk::is_entry(d, dir, n)),
        rekey::is_rekeyed(seen, dir, path, files, permit, r),
        permit.question() == "keyjar: re-encrypt every entry and replace the identity? [y/N] "@,
        rekey::obstacle(seen, dir, path, files) is None,
        names.no_duplicates(),
        forall|n: Seq<char>| #[trigger] names.contains(n) <==> disk::is_entry(d, dir, n),
    ensures
        r matches Ok(rekeyed) ==> rekeyed.count == names.len(),
        r matches Err(e) ==> exists|n: Seq<char>| #[trigger]
            disk::is_entry(d, dir, n) && crypt::opened(
                identity::loaded(path, files.current@)->Ok_0,
                disk::value_on(d, dir, n)->0,
            ) is None && crypt::begins(e@, "entry "@ + n + ": decrypting: "@) && forall|
                m: Seq<char>,
            | #[trigger]
                disk::is_entry(d, dir, m) && text::less(m, n) ==> crypt::opened(
                    identity::loaded(path, files.current@)->Ok_0,
                    disk::value_on(d, dir, m)->0,
                ) is Some,
{
    let secret = identity::loaded(path, files.current@)->Ok_0;
    let recipient = crypt::public_of(secret);
    assert(disk::faithful(seen, d, dir, |n: Seq<char>| false));
    a_snapshot_is_owed_to_the_owner(seen, d, dir, None, recipient);
    let entries = store::snapshot_seen(seen, dir, None, recipient)->Ok_0;
    a_snapshot_holds_every_entry(seen, d, dir, None, recipient, entries);
    let all = output::names_of(entries);
    match r {
        Ok(rekeyed) => {
            assert(all.no_duplicates()) by {
                assert forall|i: int, j: int| 0 <= i < j < all.len() implies all[i] != all[j] by {
                    assert(all[i] == entries[i].0 && all[j] == entries[j].0);
                    text::less_is_irreflexive(all[i]);
                }
            }
            all.unique_seq_to_set();
            names.unique_seq_to_set();
            assert(all.to_set() =~= names.to_set()) by {
                assert forall|n: Seq<char>| all.to_set().contains(n) <==> names.to_set().contains(
                    n,
                ) by {
                    if all.contains(n) {
                        let i = choose|i: int| 0 <= i < all.len() && all[i] == n;
                        assert(entries[i].0 == n);
                    }
                    if names.contains(n) {
                        assert(disk::is_entry(d, dir, n) && belongs(None, n));
                    }
                }
            }
        },
        Err(e) => {
            let i = choose|i: int|
                {
                    &&& 0 <= i < entries.len()
                    &&& forall|j: int|
                        0 <= j < i ==> crypt::opened(secret, (#[trigger] entries[j]).1) is Some
                    &&& crypt::opened(secret, (#[trigger] entries[i]).1) is None
                    &&& crypt::begins(e@, output::sealed_text(entries[i].0))
                };
            let n = entries[i].0;
            assert(disk::is_entry(d, dir, n));
            assert forall|m: Seq<char>| #[trigger]
                disk::is_entry(d, dir, m) && text::less(m, n) implies crypt::opened(
                secret,
                disk::value_on(d, dir, m)->0,
            ) is Some by {
                assert(belongs(None, m));
                let bytes = disk::value_on(d, dir, m)->0;
                let j = choose|j: int| 0 <= j < entries.len() && #[trigger] entries[j] == (m, bytes);
                text::less_is_irreflexive(m);
                if i < j {
                    assert(text::less(entries[i].0, entries[j].0));
                    text::less_is_transitive(m, n, m);
                }
            }
        },
    }
}

// ---------------------------------------------------------------------------
// The environment

/// The variable is that of the name in the namespace.
pub open spec fn is_variable_of(
    var: Seq<char>,
    namespace: Option<Seq<char>>,
    name: Seq<char>,
) -> bool {
    match namespace {
        None => meaning::is_variable(var, name),
        Some(namespace) => exists|rest: Seq<char>|
            name == #[trigger] (namespace + seq!['/'] + rest) && meaning::is_variable(var, rest),
    }
}

proof fn a_variable_is_its_names(namespace: Option<Seq<char>>, name: Seq<char>)
    requires
        belongs(namespace, name),
    ensures
        is_variable_of(env::variable(env::stripped(name, namespace)), namespace, name),
{
    match namespace {
        None => {
            meaning::a_variable_is_made_of_the_rest(Seq::empty(), name);
        },
        Some(space) => {
            let rest = choose|rest: Seq<char>| name == space + seq!['/'] + rest;
            meaning::a_variable_is_made_of_the_rest(space, rest);
            assert(name == space + seq!['/'] + rest);
        },
    }
}

/// Some variable is for the name.
pub open spec fn has_variable(variables: Seq<Triple>, name: Seq<char>) -> bool {
    exists|j: int| 0 <= j < variables.len() && (#[trigger] variables[j]).1 == name
}

/// Every secret of the namespace is exported, each under its variable with the
/// value that the key reads, sorted by variable, and nothing else is.
pub proof fn every_secret_is_exported(
    seen: Seen,
    d: Disk,
    dir: Seq<u8>,
    namespace: Option<Seq<char>>,
    secret: Seq<char>,
    variables: Seq<Triple>,
)
    requires
        disk::faithful(seen, d, dir, |n: Seq<char>| disk::is_entry(d, dir, n)),
        output::are_variables(
            seen,
            dir,
            namespace,
            secret,
            Ok::<Seq<Triple>, Seq<char>>(variables),
        ),
    ensures
        forall|n: Seq<char>| #[trigger]
            disk::is_entry(d, dir, n) && belongs(namespace, n) ==> has_variable(variables, n),
        forall|j: int|
            0 <= j < variables.len() ==> {
                let name = (#[trigger] variables[j]).1;
                &&& disk::is_entry(d, dir, name)
                &&& belongs(namespace, name)
                &&& is_variable_of(variables[j].0, namespace, name)
                &&& crypt::opened(secret, disk::value_on(d, dir, name)->0) == Some(variables[j].2)
                &&& forall|k: int| 0 <= k < variables[j].2.len() ==> variables[j].2[k] != 0
            },
        forall|i: int, j: int|
            0 <= i < j < variables.len() ==> text::less(
                (#[trigger] variables[i]).0,
                (#[trigger] variables[j]).0,
            ),
{
    let entries = store::snapshot_seen(seen, dir, namespace, crypt::public_of(secret))->Ok_0;
    let names = output::names_of(entries);
    a_snapshot_holds_every_entry(
        seen,
        d,
        dir,
        namespace,
        crypt::public_of(secret),
        entries,
    );
    let r = Ok::<Seq<Triple>, Seq<char>>(variables);
    let pairs = choose|pairs: Seq<(Seq<char>, Seq<char>)>| #[trigger]
        env::is_pairing(names, namespace, pairs) && output::are_values(
            seen,
            dir,
            secret,
            pairs,
            r,
        );
    meaning::every_name_gets_its_variable(names, namespace, pairs);
    assert(variables.len() == pairs.len());
    assert forall|j: int| 0 <= j < variables.len() implies {
        let name = (#[trigger] variables[j]).1;
        &&& disk::is_entry(d, dir, name)
        &&& belongs(namespace, name)
        &&& is_variable_of(variables[j].0, namespace, name)
        &&& crypt::opened(secret, disk::value_on(d, dir, name)->0) == Some(variables[j].2)
        &&& forall|k: int| 0 <= k < variables[j].2.len() ==> variables[j].2[k] != 0
    } by {
        let name = variables[j].1;
        assert(pairs[j].1 == name && pairs[j].0 == variables[j].0);
        assert(names.contains(name));
        let i = choose|i: int| 0 <= i < names.len() && names[i] == name;
        assert(entries[i].0 == name);
        a_variable_is_its_names(namespace, name);
        assert(output::presentable(secret, output::sealed(seen, dir, pairs[j].1)));
        let asked = |n: Seq<char>| disk::is_entry(d, dir, n);
        assert(asked(name));
        assert(output::sealed(seen, dir, name) == disk::value_on(d, dir, name)->0);
        assert forall|k: int| 0 <= k < variables[j].2.len() implies variables[j].2[k] != 0 by {
            assert(variables[j].2.contains(variables[j].2[k]));
        }
    }
    assert forall|n: Seq<char>| #[trigger]
        disk::is_entry(d, dir, n) && belongs(namespace, n) implies has_variable(variables, n) by {
        assert(names.contains(n));
        let i = choose|i: int| 0 <= i < names.len() && names[i] == n;
        assert(meaning::has_pair(pairs, names[i]));
        let j = choose|j: int| 0 <= j < pairs.len() && (#[trigger] pairs[j]).1 == n;
        assert(variables[j].1 == n);
    }
    assert forall|i: int, j: int| 0 <= i < j < variables.len() implies text::less(
        (#[trigger] variables[i]).0,
        (#[trigger] variables[j]).0,
    ) by {
        assert(pairs[i].0 == variables[i].0 && pairs[j].0 == variables[j].0);
    }
}

/// Two secrets of the namespace have the same variable, or one has a variable that
/// starts with a digit.
pub open spec fn variables_clash(d: Disk, dir: Seq<u8>, namespace: Option<Seq<char>>) -> bool {
    ||| exists|a: Seq<char>, b: Seq<char>, var: Seq<char>|
        {
            &&& a != b
            &&& disk::is_entry(d, dir, a) && disk::is_entry(d, dir, b)
            &&& #[trigger] is_variable_of(var, namespace, a)
            &&& #[trigger] is_variable_of(var, namespace, b)
        }
    ||| exists|a: Seq<char>, var: Seq<char>|
        {
            &&& disk::is_entry(d, dir, a)
            &&& #[trigger] is_variable_of(var, namespace, a)
            &&& var.len() > 0 && '0' <= var[0] <= '9'
        }
}

/// A secret of the namespace cannot be exported: the key does not open it, or it
/// holds a NUL byte.
pub open spec fn has_unfit_secret(
    d: Disk,
    dir: Seq<u8>,
    namespace: Option<Seq<char>>,
    secret: Seq<char>,
) -> bool {
    exists|n: Seq<char>| #[trigger]
        disk::is_entry(d, dir, n) && belongs(namespace, n) && (crypt::opened(
            secret,
            disk::value_on(d, dir, n)->0,
        ) matches Some(value) ==> exists|k: int| 0 <= k < value.len() && value[k] == 0)
}

/// The variables are owed unless there is a reason: the key may not use the store,
/// variables clash, or a secret cannot be exported.
pub proof fn variables_are_owed(
    seen: Seen,
    d: Disk,
    dir: Seq<u8>,
    namespace: Option<Seq<char>>,
    secret: Seq<char>,
    message: Seq<char>,
)
    requires
        disk::faithful(seen, d, dir, |n: Seq<char>| disk::is_entry(d, dir, n)),
        output::are_variables(
            seen,
            dir,
            namespace,
            secret,
            Err::<Seq<Triple>, Seq<char>>(message),
        ),
    ensures
        !may_use(d, dir, crypt::public_of(secret)) || variables_clash(d, dir, namespace)
            || has_unfit_secret(d, dir, namespace, secret),
{
    let recipient = crypt::public_of(secret);
    assert(disk::faithful(seen, d, dir, |n: Seq<char>| false));
    only_the_owner_may_use_a_store(seen, d, dir, recipient);
    a_snapshot_is_owed_to_the_owner(seen, d, dir, namespace, recipient);
    if store::snapshot_seen(seen, dir, namespace, recipient) is Ok {
        let entries = store::snapshot_seen(seen, dir, namespace, recipient)->Ok_0;
        let names = output::names_of(entries);
        a_snapshot_holds_every_entry(seen, d, dir, namespace, recipient, entries);
        assert forall|i: int| 0 <= i < names.len() implies disk::is_entry(
            d,
            dir,
            #[trigger] names[i],
        ) && belongs(namespace, names[i]) by {
            assert(entries[i].0 == names[i]);
        }
        meaning::names_clash_by_their_variables(names, namespace);
        if !env::usable(names, namespace) {
            if exists|i: int|
                0 <= i < names.len() && {
                    let var = env::variable(env::stripped(#[trigger] names[i], namespace));
                    var.len() > 0 && '0' <= var[0] <= '9'
                } {
                let i = choose|i: int|
                    0 <= i < names.len() && {
                        let var = env::variable(env::stripped(#[trigger] names[i], namespace));
                        var.len() > 0 && '0' <= var[0] <= '9'
                    };
                a_variable_is_its_names(namespace, names[i]);
            } else {
                let (i, j) = choose|i: int, j: int|
                    0 <= i < j < names.len() && env::variable(
                        env::stripped(#[trigger] names[i], namespace),
                    ) == env::variable(env::stripped(#[trigger] names[j], namespace));
                let var = env::variable(env::stripped(names[i], namespace));
                a_variable_is_its_names(namespace, names[i]);
                a_variable_is_its_names(namespace, names[j]);
                assert(entries[i].0 == names[i] && entries[j].0 == names[j]);
                text::less_is_irreflexive(names[i]);
                assert(names[i] != names[j]);
                assert(is_variable_of(var, namespace, names[i]));
                assert(is_variable_of(var, namespace, names[j]));
            }
        } else {
            let pairs = choose|pairs: Seq<(Seq<char>, Seq<char>)>| #[trigger]
                env::is_pairing(names, namespace, pairs) && output::are_values(
                    seen,
                    dir,
                    secret,
                    pairs,
                    Err::<Seq<Triple>, Seq<char>>(message),
                );
            meaning::every_name_gets_its_variable(names, namespace, pairs);
            let i = choose|i: int|
                0 <= i < pairs.len() && !output::presentable(
                    secret,
                    output::sealed(seen, dir, (#[trigger] pairs[i]).1),
                );
            let n = pairs[i].1;
            assert(names.contains(n));
            let asked = |n: Seq<char>| disk::is_entry(d, dir, n);
            assert(asked(n));
            assert(output::sealed(seen, dir, n) == disk::value_on(d, dir, n)->0);
            assert(disk::is_entry(d, dir, n) && belongs(namespace, n));
        }
    }
}

} // verus!
