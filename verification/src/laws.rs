//! What the operations of a store promise together. Each law speaks of a store
//! on a disk, of what was seen there, and of the disk after the changes that an
//! operation asked for.

use vstd::prelude::*;
use vstd::string::*;

use crate::commands;
use crate::crypt;
use crate::disk;
use crate::disk::{Disk, Node};
use crate::host::{Effect, Outcome, Seen};
use crate::layout;
use crate::name;
use crate::order;
use crate::output;
use crate::paths;
use crate::store;
use crate::text;

verus! {

// ---------------------------------------------------------------------------
// Writing

/// One change after another.
proof fn two_changes(d: Disk, a: Effect, b: Effect)
    ensures
        disk::all_possible(d, seq![a, b]) == (disk::possible(d, a) && disk::possible(
            disk::after(d, a),
            b,
        )),
        disk::after_all(d, seq![a, b]) == disk::after(disk::after(d, a), b),
{
    assert(seq![a, b].drop_first() =~= seq![b]);
    disk::after_one(disk::after(d, a), b);
}

/// What a write leaves on the disk: the entry with its new bytes, every other entry
/// as it was, and the marker that was there, or one that names the writer where
/// there was none.
pub proof fn a_write_on_disk(
    seen: Seen,
    d: Disk,
    dir: Seq<u8>,
    name: Seq<char>,
    recipient: Seq<char>,
    ciphertext: Seq<u8>,
    effects: Seq<Effect>,
)
    requires
        name::valid(name),
        store::write_seen(seen, dir, name, recipient, ciphertext) == Ok::<Seq<Effect>, Seq<char>>(
            effects,
        ),
        disk::all_possible(d, effects),
        disk::shows(seen.file(store::marker_at(dir)), d, store::marker_at(dir)),
        seen.marker == d.contains_key(store::marker_at(dir)),
    ensures
        disk::value_on(disk::after_all(d, effects), dir, name) == Some(ciphertext),
        forall|m: Seq<char>|
            name::valid(m) && m != name ==> #[trigger] disk::value_on(
                disk::after_all(d, effects),
                dir,
                m,
            ) == disk::value_on(d, dir, m),
        disk::after_all(d, effects).contains_key(store::marker_at(dir)),
        disk::after_all(d, effects)[store::marker_at(dir)] == (if seen.marker {
            d[store::marker_at(dir)]
        } else {
            Node::File(text::utf8(store::marker_text(recipient)))
        }),
{
    let entry = Effect::Replace { path: store::entry_at(dir, name), bytes: ciphertext };
    layout::an_entry_is_no_dot_file(dir, name);
    if seen.marker {
        disk::after_one(d, entry);
    } else {
        two_changes(d, store::claim(dir, recipient), entry);
    }
    assert forall|m: Seq<char>| name::valid(m) && m != name implies #[trigger] disk::value_on(
        disk::after_all(d, effects),
        dir,
        m,
    ) == disk::value_on(d, dir, m) by {
        layout::an_entry_is_no_dot_file(dir, m);
        if store::entry_at(dir, m) == store::entry_at(dir, name) {
            layout::entries_do_not_share_a_file(dir, m, name);
        }
    }
}

/// The line that keyjar writes into a marker names the recipient.
pub proof fn a_marker_names_its_recipient(path: Seq<u8>, recipient: Seq<char>)
    requires
        crypt::is_recipient(recipient),
    ensures
        store::marker_recipient(path, text::utf8(store::marker_text(recipient))) == Ok::<
            Seq<char>,
            Seq<char>,
        >(recipient),
{
    let contents = store::marker_text(recipient);
    reveal_strlit("\n");
    vstd::utf8::encode_utf8_valid_utf8(contents);
    vstd::utf8::encode_utf8_decode_utf8(contents);
    assert(contents.drop_last() =~= recipient);
    assert(contents.last() == '\n');
    assert forall|i: int| 0 <= i < recipient.len() implies recipient[i] != '\n' by {
        assert('a' <= recipient[i] <= 'z' || '0' <= recipient[i] <= '9');
    }
    assert(!recipient.contains('\n'));
}

/// After a write the store has an owner, and that owner is the writer.
proof fn a_written_store_has_an_owner(
    seen: Seen,
    d: Disk,
    dir: Seq<u8>,
    name: Seq<char>,
    recipient: Seq<char>,
    ciphertext: Seq<u8>,
    effects: Seq<Effect>,
    later: Seen,
)
    requires
        name::valid(name),
        crypt::is_recipient(recipient),
        store::write_seen(seen, dir, name, recipient, ciphertext) == Ok::<Seq<Effect>, Seq<char>>(
            effects,
        ),
        disk::all_possible(d, effects),
        disk::shows(seen.file(store::marker_at(dir)), d, store::marker_at(dir)),
        seen.marker == d.contains_key(store::marker_at(dir)),
        disk::shows(
            later.file(store::marker_at(dir)),
            disk::after_all(d, effects),
            store::marker_at(dir),
        ),
    ensures
        store::owner_seen(later, dir) matches Ok(Some(owner)) && crypt::same_recipient(
            owner,
            recipient,
        ),
{
    a_write_on_disk(seen, d, dir, name, recipient, ciphertext, effects);
    a_marker_names_its_recipient(store::marker_at(dir), recipient);
}

/// What was written is read back by the writer.
pub proof fn a_write_reads_back(
    seen: Seen,
    d: Disk,
    dir: Seq<u8>,
    name: Seq<char>,
    recipient: Seq<char>,
    ciphertext: Seq<u8>,
    effects: Seq<Effect>,
    later: Seen,
)
    requires
        name::valid(name),
        crypt::is_recipient(recipient),
        disk::faithful(seen, d, dir, |n: Seq<char>| false),
        store::write_seen(seen, dir, name, recipient, ciphertext) == Ok::<Seq<Effect>, Seq<char>>(
            effects,
        ),
        disk::all_possible(d, effects),
        disk::faithful(later, disk::after_all(d, effects), dir, |n: Seq<char>| n == name),
    ensures
        store::read_seen(later, dir, name, recipient) == Ok::<Option<Seq<u8>>, Seq<char>>(
            Some(ciphertext),
        ),
{
    a_write_on_disk(seen, d, dir, name, recipient, ciphertext, effects);
    a_written_store_has_an_owner(seen, d, dir, name, recipient, ciphertext, effects, later);
    layout::an_entry_stays_in_the_store(dir, name);
    let d2 = disk::after_all(d, effects);
    assert(d2.contains_key(store::entry_at(dir, name)));
    assert(disk::is_there(d2, dir));
    let asked = |n: Seq<char>| n == name;
    assert(asked(name));
}

/// What was written lasts: as long as neither the entry nor the marker is changed,
/// whatever else happens, the writer and whoever is the same recipient read what was
/// written, and everybody else is refused.
pub proof fn a_write_lasts(
    seen: Seen,
    d: Disk,
    dir: Seq<u8>,
    name: Seq<char>,
    recipient: Seq<char>,
    ciphertext: Seq<u8>,
    effects: Seq<Effect>,
    d2: Disk,
    later: Seen,
    other: Seq<char>,
)
    requires
        name::valid(name),
        crypt::is_recipient(recipient),
        disk::faithful(seen, d, dir, |n: Seq<char>| false),
        store::write_seen(seen, dir, name, recipient, ciphertext) == Ok::<Seq<Effect>, Seq<char>>(
            effects,
        ),
        disk::all_possible(d, effects),
        disk::value_on(d2, dir, name) == disk::value_on(disk::after_all(d, effects), dir, name),
        d2.contains_key(store::marker_at(dir)),
        d2[store::marker_at(dir)] == disk::after_all(d, effects)[store::marker_at(dir)],
        disk::faithful(later, d2, dir, |n: Seq<char>| n == name),
    ensures
        store::read_seen(later, dir, name, other) == (if crypt::same_recipient(recipient, other) {
            Ok::<Option<Seq<u8>>, Seq<char>>(Some(ciphertext))
        } else {
            Err::<Option<Seq<u8>>, Seq<char>>(
                "selected identity does not match the store recipient"@,
            )
        }),
{
    a_write_on_disk(seen, d, dir, name, recipient, ciphertext, effects);
    a_marker_names_its_recipient(store::marker_at(dir), recipient);
    layout::an_entry_stays_in_the_store(dir, name);
    assert(d2.contains_key(store::entry_at(dir, name)));
    assert(disk::is_there(d2, dir));
    let asked = |n: Seq<char>| n == name;
    assert(asked(name));
}

/// A store is bound to one recipient: a marker that is there is kept, a store
/// without marker and entries gets one that names the recipient. From then on the
/// recipient, and whoever is the same, is bound again, and everybody else is
/// refused.
pub proof fn a_binding_lasts(
    seen: Seen,
    d: Disk,
    dir: Seq<u8>,
    recipient: Seq<char>,
    d2: Disk,
    later: Seen,
    other: Seq<char>,
)
    requires
        crypt::is_recipient(recipient),
        disk::faithful(seen, d, dir, |n: Seq<char>| false),
        store::binding_refusal(seen, dir, recipient) is None,
        d2 == (if seen.marker {
            d
        } else {
            disk::after(d, store::claim(dir, recipient))
        }),
        disk::faithful(later, d2, dir, |n: Seq<char>| false),
    ensures
        d2.contains_key(store::marker_at(dir)),
        d2[store::marker_at(dir)] == (if d.contains_key(store::marker_at(dir)) {
            d[store::marker_at(dir)]
        } else {
            Node::File(text::utf8(store::marker_text(recipient)))
        }),
        store::binding_refusal(later, dir, other) is None <==> crypt::same_recipient(
            recipient,
            other,
        ),
{
    a_marker_names_its_recipient(store::marker_at(dir), recipient);
}

/// What was set is what one gets: the value comes back as it was, byte for byte.
pub proof fn a_value_survives_the_store(
    seen: Seen,
    d: Disk,
    dir: Seq<u8>,
    name: Seq<char>,
    secret: Seq<char>,
    value: Seq<u8>,
    effects: Seq<Effect>,
    later: Seen,
    r: Result<Seq<u8>, Seq<char>>,
)
    requires
        name::valid(name),
        crypt::is_recipient(crypt::public_of(secret)),
        disk::faithful(seen, d, dir, |n: Seq<char>| false),
        commands::is_value_write(seen, dir, name, secret, value, effects),
        disk::all_possible(d, effects),
        disk::faithful(later, disk::after_all(d, effects), dir, |n: Seq<char>| n == name),
        output::is_entry_read(later, dir, secret, name, r),
    ensures
        r == Ok::<Seq<u8>, Seq<char>>(value),
{
    let ciphertext = choose|c: Seq<u8>| #[trigger]
        crypt::opened(secret, c) == Some(value) && store::write_seen(
            seen,
            dir,
            name,
            crypt::public_of(secret),
            c,
        ) == Ok::<Seq<Effect>, Seq<char>>(effects);
    a_write_reads_back(
        seen,
        d,
        dir,
        name,
        crypt::public_of(secret),
        ciphertext,
        effects,
        later,
    );
}

/// A name without an entry reads as nothing, for whoever may read.
pub proof fn a_missing_entry_reads_as_nothing(
    seen: Seen,
    d: Disk,
    dir: Seq<u8>,
    name: Seq<char>,
    recipient: Seq<char>,
)
    requires
        disk::faithful(seen, d, dir, |n: Seq<char>| n == name),
        !d.contains_key(store::entry_at(dir, name)),
        seen.exists ==> store::refusal(seen, dir, recipient) is None,
    ensures
        store::read_seen(seen, dir, name, recipient) == Ok::<Option<Seq<u8>>, Seq<char>>(None),
{
    let asked = |n: Seq<char>| n == name;
    assert(asked(name));
}

/// A write changes one entry: every other entry keeps its bytes, and the entries
/// are those from before and the new one.
pub proof fn a_write_changes_one_entry(
    seen: Seen,
    d: Disk,
    dir: Seq<u8>,
    name: Seq<char>,
    recipient: Seq<char>,
    ciphertext: Seq<u8>,
    effects: Seq<Effect>,
)
    requires
        name::valid(name),
        disk::faithful(seen, d, dir, |n: Seq<char>| false),
        store::write_seen(seen, dir, name, recipient, ciphertext) == Ok::<Seq<Effect>, Seq<char>>(
            effects,
        ),
        disk::all_possible(d, effects),
    ensures
        disk::value_on(disk::after_all(d, effects), dir, name) == Some(ciphertext),
        forall|m: Seq<char>|
            name::valid(m) && m != name ==> #[trigger] disk::value_on(
                disk::after_all(d, effects),
                dir,
                m,
            ) == disk::value_on(d, dir, m),
        forall|m: Seq<char>| #[trigger]
            disk::is_entry(disk::after_all(d, effects), dir, m) <==> m == name || disk::is_entry(
                d,
                dir,
                m,
            ),
{
    a_write_on_disk(seen, d, dir, name, recipient, ciphertext, effects);
    let d2 = disk::after_all(d, effects);
    assert forall|m: Seq<char>| #[trigger]
        disk::is_entry(d2, dir, m) <==> m == name || disk::is_entry(d, dir, m) by {
        if m != name && name::valid(m) {
            assert(disk::value_on(d2, dir, m) == disk::value_on(d, dir, m));
        }
    }
}

/// A store belongs to whoever first wrote to it: once written, it serves the
/// writer and whoever is the same recipient, and refuses all others, for reading,
/// for writing and for a snapshot, whatever the entry.
pub proof fn a_store_belongs_to_its_writer(
    seen: Seen,
    d: Disk,
    dir: Seq<u8>,
    name: Seq<char>,
    recipient: Seq<char>,
    ciphertext: Seq<u8>,
    effects: Seq<Effect>,
    later: Seen,
    other: Seq<char>,
)
    requires
        name::valid(name),
        crypt::is_recipient(recipient),
        disk::faithful(seen, d, dir, |n: Seq<char>| false),
        store::write_seen(seen, dir, name, recipient, ciphertext) == Ok::<Seq<Effect>, Seq<char>>(
            effects,
        ),
        disk::all_possible(d, effects),
        disk::faithful(later, disk::after_all(d, effects), dir, |n: Seq<char>| n == name),
    ensures
        store::owner_seen(later, dir) matches Ok(Some(owner)) && crypt::same_recipient(
            owner,
            recipient,
        ),
        store::binding_refusal(later, dir, other) is None <==> crypt::same_recipient(
            recipient,
            other,
        ),
        store::refusal(later, dir, other) is None <==> crypt::same_recipient(recipient, other),
        !crypt::same_recipient(recipient, other) ==> {
            let no = "selected identity does not match the store recipient"@;
            &&& forall|n: Seq<char>| #[trigger]
                store::read_seen(later, dir, n, other) == Err::<Option<Seq<u8>>, Seq<char>>(no)
            &&& forall|n: Seq<char>, c: Seq<u8>| #[trigger]
                store::write_seen(later, dir, n, other, c) == Err::<Seq<Effect>, Seq<char>>(no)
            &&& forall|s: Option<Seq<char>>| #[trigger]
                store::snapshot_seen(later, dir, s, other) == Err::<
                Seq<(Seq<char>, Seq<u8>)>,
                Seq<char>,
            >(no)
        },
{
    a_write_on_disk(seen, d, dir, name, recipient, ciphertext, effects);
    a_written_store_has_an_owner(seen, d, dir, name, recipient, ciphertext, effects, later);
    layout::an_entry_stays_in_the_store(dir, name);
    assert(disk::after_all(d, effects).contains_key(store::entry_at(dir, name)));
    assert(disk::is_there(disk::after_all(d, effects), dir));
}

/// Two recipients that race for a fresh store: once one has claimed it, the claim
/// of the other cannot be made any more, and unless they are the same the other
/// is refused.
pub proof fn a_store_is_claimed_once(
    d: Disk,
    dir: Seq<u8>,
    first: Seq<char>,
    second: Seq<char>,
    again: Seen,
)
    requires
        crypt::is_recipient(first),
        disk::possible(d, store::claim(dir, first)),
        disk::faithful(again, disk::after(d, store::claim(dir, first)), dir, |n: Seq<char>| false),
    ensures
        !disk::possible(disk::after(d, store::claim(dir, first)), store::claim(dir, second)),
        store::claim_refusal(Outcome::Taken, again, dir, second) is Some <==>
            !crypt::same_recipient(first, second),
        store::binding_refusal(again, dir, second) is Some <==> !crypt::same_recipient(
            first,
            second,
        ),
{
    a_marker_names_its_recipient(store::marker_at(dir), first);
}

/// A write leaves a store that has a marker.
pub proof fn a_written_store_is_marked(
    seen: Seen,
    d: Disk,
    dir: Seq<u8>,
    name: Seq<char>,
    recipient: Seq<char>,
    ciphertext: Seq<u8>,
    effects: Seq<Effect>,
)
    requires
        name::valid(name),
        disk::faithful(seen, d, dir, |n: Seq<char>| false),
        store::write_seen(seen, dir, name, recipient, ciphertext) == Ok::<Seq<Effect>, Seq<char>>(
            effects,
        ),
        disk::all_possible(d, effects),
    ensures
        disk::is_marked(disk::after_all(d, effects), dir),
{
    a_write_on_disk(seen, d, dir, name, recipient, ciphertext, effects);
}

// ---------------------------------------------------------------------------
// Removing and renaming

/// Every path on the disk has directories above it.
pub open spec fn is_tree(d: Disk) -> bool {
    forall|a: Seq<u8>, p: Seq<u8>|
        #![trigger disk::above(a, p), d.contains_key(p)]
        d.contains_key(p) && disk::above(a, p) ==> disk::is_dir(d, a)
}

proof fn above_is_transitive(a: Seq<u8>, b: Seq<u8>, c: Seq<u8>)
    requires
        disk::above(a, b),
        disk::above(b, c),
    ensures
        disk::above(a, c),
{
    assert(c.take(b.len() as int)[a.len() as int] == c[a.len() as int]);
    assert(c.take(a.len() as int) =~= b.take(a.len() as int));
}

/// Pruning takes away nothing but directories from its list.
proof fn pruning_keeps_the_rest(d: Disk, dirs: Seq<Seq<u8>>)
    ensures
        forall|p: Seq<u8>|
            #![trigger disk::pruned(d, dirs).contains_key(p)]
            #![trigger d.contains_key(p)]
            !dirs.contains(p) || !disk::is_dir(d, p) ==> (disk::pruned(d, dirs).contains_key(p)
                <==> d.contains_key(p)),
        forall|p: Seq<u8>| #[trigger]
            disk::pruned(d, dirs).contains_key(p) ==> d.contains_key(p) && disk::pruned(
                d,
                dirs,
            )[p] == d[p],
    decreases dirs.len(),
{
    if dirs.len() > 0 && disk::possible(d, Effect::RemoveDir { path: dirs[0] }) {
        let rest = dirs.drop_first();
        let e = d.remove(dirs[0]);
        pruning_keeps_the_rest(e, rest);
        assert(dirs.contains(dirs[0]));
        assert(disk::pruned(d, dirs) == disk::pruned(e, rest));
        assert forall|p: Seq<u8>| #[trigger]
            disk::pruned(d, dirs).contains_key(p) implies d.contains_key(p) && disk::pruned(
            d,
            dirs,
        )[p] == d[p] by {
            assert(e.contains_key(p));
        }
        assert forall|p: Seq<u8>| !dirs.contains(p) || !disk::is_dir(d, p) implies (disk::pruned(
            d,
            dirs,
        ).contains_key(p) <==> d.contains_key(p)) by {
            if rest.contains(p) {
                let j = choose|j: int| 0 <= j < rest.len() && rest[j] == p;
                assert(dirs[j + 1] == p);
            }
            assert(e.contains_key(p) == d.contains_key(p));
        }
    }
}

/// Pruning leaves no empty directory of its list behind.
proof fn pruning_leaves_no_husk(d: Disk, dirs: Seq<Seq<u8>>)
    requires
        forall|j: int| 0 <= j < dirs.len() ==> disk::is_dir(d, #[trigger] dirs[j]),
        forall|j: int, k: int|
            0 <= j < k < dirs.len() ==> disk::above(#[trigger] dirs[k], #[trigger] dirs[j]),
    ensures
        forall|j: int|
            0 <= j < dirs.len() && disk::pruned(d, dirs).contains_key(#[trigger] dirs[j])
                ==> exists|p: Seq<u8>| #[trigger]
                disk::pruned(d, dirs).contains_key(p) && disk::above(dirs[j], p),
    decreases dirs.len(),
{
    if dirs.len() > 0 {
        if disk::possible(d, Effect::RemoveDir { path: dirs[0] }) {
            let rest = dirs.drop_first();
            let e = d.remove(dirs[0]);
            assert forall|j: int| 0 <= j < rest.len() implies disk::is_dir(
                e,
                #[trigger] rest[j],
            ) by {
                assert(rest[j] == dirs[j + 1]);
                assert(disk::above(dirs[j + 1], dirs[0]));
            }
            pruning_leaves_no_husk(e, rest);
            pruning_keeps_the_rest(e, rest);
            assert forall|j: int|
                0 <= j < dirs.len() && disk::pruned(d, dirs).contains_key(
                    #[trigger] dirs[j],
                ) implies exists|p: Seq<u8>| #[trigger]
                disk::pruned(d, dirs).contains_key(p) && disk::above(dirs[j], p) by {
                assert(disk::pruned(d, dirs) == disk::pruned(e, rest));
                if j > 0 {
                    assert(rest[j - 1] == dirs[j]);
                } else {
                    assert(!e.contains_key(dirs[0]));
                }
            }
        } else {
            let p = choose|p: Seq<u8>| #[trigger] d.contains_key(p) && disk::above(dirs[0], p);
            assert(d.contains_key(p) && disk::above(dirs[0], p));
            assert forall|j: int| 0 <= j < dirs.len() implies exists|p: Seq<u8>| #[trigger]
                d.contains_key(p) && disk::above(#[trigger] dirs[j], p) by {
                if j > 0 {
                    assert(disk::above(dirs[j], dirs[0]));
                    above_is_transitive(dirs[j], dirs[0], p);
                }
            }
        }
    }
}

/// The store itself is not among the directories of an entry.
proof fn the_store_is_no_parent(dir: Seq<u8>, name: Seq<char>)
    requires
        name::valid(name),
    ensures
        !store::parents(dir, name).contains(dir),
{
    layout::parents_lie_between(dir, name);
    if store::parents(dir, name).contains(dir) {
        let j = choose|j: int|
            0 <= j < store::parents(dir, name).len() && store::parents(dir, name)[j] == dir;
        assert(paths::under(dir).len() < store::parents(dir, name)[j].len());
    }
}

/// The disk after an entry was removed.
pub open spec fn after_removal(d: Disk, dir: Seq<u8>, name: Seq<char>) -> Disk {
    disk::pruned(
        disk::after(d, Effect::Remove { path: store::entry_at(dir, name) }),
        store::parents(dir, name),
    )
}

/// Removing takes away that entry and nothing else that is a file; the store
/// directory stays.
pub proof fn a_removal_takes_one_entry(d: Disk, dir: Seq<u8>, name: Seq<char>)
    requires
        name::valid(name),
        disk::possible(d, Effect::Remove { path: store::entry_at(dir, name) }),
    ensures
        !disk::is_entry(after_removal(d, dir, name), dir, name),
        forall|m: Seq<char>|
            name::valid(m) && m != name ==> #[trigger] disk::value_on(
                after_removal(d, dir, name),
                dir,
                m,
            ) == disk::value_on(d, dir, m),
        forall|p: Seq<u8>|
            p != store::entry_at(dir, name) && #[trigger] disk::is_file(d, p) ==> disk::is_file(
                after_removal(d, dir, name),
                p,
            ) && after_removal(d, dir, name)[p] == d[p],
        disk::is_dir(d, dir) ==> disk::is_dir(after_removal(d, dir, name), dir),
{
    let path = store::entry_at(dir, name);
    let e = d.remove(path);
    let dirs = store::parents(dir, name);
    pruning_keeps_the_rest(e, dirs);
    the_store_is_no_parent(dir, name);
    layout::an_entry_stays_in_the_store(dir, name);
    layout::relative_is_ascii(name);
    assert(!e.contains_key(path));
    assert forall|p: Seq<u8>| p != path && #[trigger] disk::is_file(d, p) implies disk::is_file(
        after_removal(d, dir, name),
        p,
    ) && after_removal(d, dir, name)[p] == d[p] by {
        assert(e.contains_key(p) && !disk::is_dir(e, p));
    }
    assert forall|m: Seq<char>| name::valid(m) && m != name implies #[trigger] disk::value_on(
        after_removal(d, dir, name),
        dir,
        m,
    ) == disk::value_on(d, dir, m) by {
        let q = store::entry_at(dir, m);
        if q == path {
            layout::entries_do_not_share_a_file(dir, m, name);
        }
        assert(e.contains_key(q) == d.contains_key(q));
        if disk::is_file(d, q) {
            assert(disk::is_file(after_removal(d, dir, name), q));
        } else if disk::is_file(after_removal(d, dir, name), q) {
            assert(after_removal(d, dir, name).contains_key(q));
        }
    }
    if disk::is_dir(d, dir) {
        assert(dir != path);
        assert(e.contains_key(dir));
    }
}

/// A removal leaves no empty directory of the entry behind.
pub proof fn a_removal_leaves_no_husk(d: Disk, dir: Seq<u8>, name: Seq<char>)
    requires
        name::valid(name),
        is_tree(d),
        disk::possible(d, Effect::Remove { path: store::entry_at(dir, name) }),
    ensures
        forall|j: int|
            0 <= j < store::parents(dir, name).len() && after_removal(d, dir, name).contains_key(
                #[trigger] store::parents(dir, name)[j],
            ) ==> exists|p: Seq<u8>| #[trigger]
                after_removal(d, dir, name).contains_key(p) && disk::above(
                    store::parents(dir, name)[j],
                    p,
                ),
{
    let path = store::entry_at(dir, name);
    let e = d.remove(path);
    let dirs = store::parents(dir, name);
    layout::parents_lie_between(dir, name);
    assert forall|j: int| 0 <= j < dirs.len() implies disk::is_dir(e, #[trigger] dirs[j]) by {
        assert(disk::above(dirs[j], path));
        assert(d.contains_key(path));
    }
    pruning_leaves_no_husk(e, dirs);
}

/// A removal keeps the marker, so a marked store stays marked.
pub proof fn a_removal_keeps_the_marker(d: Disk, dir: Seq<u8>, name: Seq<char>)
    requires
        name::valid(name),
        disk::possible(d, Effect::Remove { path: store::entry_at(dir, name) }),
        disk::is_file(d, store::marker_at(dir)),
    ensures
        disk::is_file(after_removal(d, dir, name), store::marker_at(dir)),
        after_removal(d, dir, name)[store::marker_at(dir)] == d[store::marker_at(dir)],
        disk::is_marked(after_removal(d, dir, name), dir),
{
    a_removal_takes_one_entry(d, dir, name);
    layout::an_entry_is_no_dot_file(dir, name);
}

/// A removed entry is not found any more.
pub proof fn a_removed_entry_is_gone(d: Disk, dir: Seq<u8>, name: Seq<char>, later: Seen)
    requires
        name::valid(name),
        disk::possible(d, Effect::Remove { path: store::entry_at(dir, name) }),
        disk::is_file(d, store::marker_at(dir)),
        disk::faithful(later, after_removal(d, dir, name), dir, |n: Seq<char>| n == name),
    ensures
        store::contained(later, dir, name) == Ok::<bool, Seq<char>>(false),
{
    a_removal_takes_one_entry(d, dir, name);
    a_removal_keeps_the_marker(d, dir, name);
    let asked = |n: Seq<char>| n == name;
    assert(asked(name));
    pruning_keeps_the_rest(
        d.remove(store::entry_at(dir, name)),
        store::parents(dir, name),
    );
    assert(!after_removal(d, dir, name).contains_key(store::entry_at(dir, name)));
}

/// The disk after an entry was renamed.
pub open spec fn after_renaming(d: Disk, dir: Seq<u8>, old: Seq<char>, new: Seq<char>) -> Disk {
    disk::pruned(
        disk::after(
            d,
            Effect::Rename { from: store::entry_at(dir, old), to: store::entry_at(dir, new) },
        ),
        store::parents(dir, old),
    )
}

/// Renaming gives the bytes of one entry to the other name and takes the old name
/// away; every other entry and the marker stay as they are.
pub proof fn a_renaming_moves_the_value(d: Disk, dir: Seq<u8>, old: Seq<char>, new: Seq<char>)
    requires
        name::valid(old),
        name::valid(new),
        old != new,
        disk::possible(
            d,
            Effect::Rename { from: store::entry_at(dir, old), to: store::entry_at(dir, new) },
        ),
        disk::is_file(d, store::marker_at(dir)),
    ensures
        disk::value_on(after_renaming(d, dir, old, new), dir, new) == disk::value_on(d, dir, old),
        disk::value_on(after_renaming(d, dir, old, new), dir, old) is None,
        forall|m: Seq<char>|
            name::valid(m) && m != old && m != new ==> #[trigger] disk::value_on(
                after_renaming(d, dir, old, new),
                dir,
                m,
            ) == disk::value_on(d, dir, m),
        disk::is_file(after_renaming(d, dir, old, new), store::marker_at(dir)),
        after_renaming(d, dir, old, new)[store::marker_at(dir)] == d[store::marker_at(dir)],
        disk::is_marked(after_renaming(d, dir, old, new), dir),
{
    let from = store::entry_at(dir, old);
    let to = store::entry_at(dir, new);
    let e = disk::after(d, Effect::Rename { from, to });
    let dirs = store::parents(dir, old);
    let g = after_renaming(d, dir, old, new);
    pruning_keeps_the_rest(e, dirs);
    layout::an_entry_is_no_dot_file(dir, old);
    layout::an_entry_is_no_dot_file(dir, new);
    if from == to {
        layout::entries_do_not_share_a_file(dir, old, new);
    }
    assert(e.contains_key(to) && e[to] is File);
    assert(g.contains_key(to));
    assert(!e.contains_key(from));
    assert(e.contains_key(store::marker_at(dir)) && e[store::marker_at(dir)] is File);
    assert forall|m: Seq<char>| name::valid(m) && m != old && m != new implies #[trigger]
        disk::value_on(g, dir, m) == disk::value_on(d, dir, m) by {
        let q = store::entry_at(dir, m);
        if q == from {
            layout::entries_do_not_share_a_file(dir, m, old);
        }
        if q == to {
            layout::entries_do_not_share_a_file(dir, m, new);
        }
        if disk::is_file(d, q) {
            assert(e.contains_key(q) && e[q] == d[q]);
        } else if disk::is_file(g, q) {
            assert(e.contains_key(q) && e[q] is File);
        }
    }
}

/// A renaming leaves no empty directory of the old name behind.
pub proof fn a_renaming_leaves_no_husk(d: Disk, dir: Seq<u8>, old: Seq<char>, new: Seq<char>)
    requires
        name::valid(old),
        name::valid(new),
        is_tree(d),
        disk::possible(
            d,
            Effect::Rename { from: store::entry_at(dir, old), to: store::entry_at(dir, new) },
        ),
    ensures
        forall|j: int|
            0 <= j < store::parents(dir, old).len() && after_renaming(
                d,
                dir,
                old,
                new,
            ).contains_key(#[trigger] store::parents(dir, old)[j]) ==> exists|p: Seq<u8>| #[trigger]
                after_renaming(d, dir, old, new).contains_key(p) && disk::above(
                    store::parents(dir, old)[j],
                    p,
                ),
{
    let from = store::entry_at(dir, old);
    let to = store::entry_at(dir, new);
    let e = disk::after(d, Effect::Rename { from, to });
    let dirs = store::parents(dir, old);
    layout::parents_lie_between(dir, old);
    assert forall|j: int| 0 <= j < dirs.len() implies disk::is_dir(e, #[trigger] dirs[j]) by {
        assert(disk::above(dirs[j], from));
        assert(d.contains_key(from));
        assert(disk::is_dir(d, dirs[j]));
    }
    pruning_leaves_no_husk(e, dirs);
}

// ---------------------------------------------------------------------------
// Listing

/// What is kept of a sorted sequence is sorted.
pub proof fn a_filter_keeps_the_order(names: Seq<Seq<char>>, keep: spec_fn(Seq<char>) -> bool)
    requires
        order::strictly_ascending(names),
    ensures
        order::strictly_ascending(names.filter(keep)),
    decreases names.len(),
{
    reveal(Seq::filter);
    if names.len() > 0 {
        let before = names.drop_last();
        assert(order::strictly_ascending(before)) by {
            assert forall|i: int, j: int| 0 <= i < j < before.len() implies text::less(
                #[trigger] before[i],
                #[trigger] before[j],
            ) by {
                assert(before[i] == names[i] && before[j] == names[j]);
            }
        }
        a_filter_keeps_the_order(before, keep);
        let kept = before.filter(keep);
        let all = names.filter(keep);
        assert forall|i: int, j: int| 0 <= i < j < all.len() implies text::less(
            #[trigger] all[i],
            #[trigger] all[j],
        ) by {
            if j < kept.len() {
                assert(all[i] == kept[i] && all[j] == kept[j]);
            } else {
                assert(all[i] == kept[i]);
                assert(kept.contains(kept[i]));
                what_a_filter_keeps(before, keep, kept[i]);
                let k = choose|k: int| 0 <= k < before.len() && before[k] == kept[i];
                assert(names[k] == kept[i]);
                assert(text::less(names[k], names[names.len() - 1]));
            }
        }
    }
}

/// A listing comes sorted, each name once, and holds the entries that the prefix
/// or namespace selects and no others.
pub proof fn a_listing_is_sorted_and_complete(
    seen: Seen,
    d: Disk,
    dir: Seq<u8>,
    prefix: Option<Seq<char>>,
    namespace: Option<Seq<char>>,
)
    requires
        disk::faithful(seen, d, dir, |n: Seq<char>| false),
        store::entries_seen(seen, dir) is Ok,
    ensures
        ({
            let names = store::entries_seen(seen, dir)->Ok_0;
            let listed = store::at_or_below(names, prefix);
            let chosen = store::strictly_below(names, namespace);
            &&& order::strictly_ascending(listed)
            &&& order::strictly_ascending(chosen)
            &&& forall|n: Seq<char>| #[trigger]
                listed.contains(n) <==> disk::is_entry(d, dir, n) && store::listed(prefix, n)
            &&& forall|n: Seq<char>| #[trigger]
                chosen.contains(n) <==> disk::is_entry(d, dir, n) && store::chosen(namespace, n)
        }),
{
    let names = store::entries_seen(seen, dir)->Ok_0;
    let by_prefix = |n: Seq<char>| store::listed(prefix, n);
    let by_namespace = |n: Seq<char>| store::chosen(namespace, n);
    let listed = store::at_or_below(names, prefix);
    let chosen = store::strictly_below(names, namespace);
    assert(forall|n: Seq<char>| #[trigger] names.contains(n) <==> disk::is_entry(d, dir, n)) by {
        if !seen.exists {
            assert forall|n: Seq<char>| !disk::is_entry(d, dir, n) by {
                if disk::is_entry(d, dir, n) {
                    layout::an_entry_stays_in_the_store(dir, n);
                    assert(d.contains_key(store::entry_at(dir, n)));
                }
            }
        }
    }
    a_filter_keeps_the_order(names, by_prefix);
    a_filter_keeps_the_order(names, by_namespace);
    assert forall|n: Seq<char>| #[trigger]
        listed.contains(n) <==> disk::is_entry(d, dir, n) && store::listed(prefix, n) by {
        what_a_filter_keeps(names, by_prefix, n);
        assert(by_prefix(n) == store::listed(prefix, n));
    }
    assert forall|n: Seq<char>| #[trigger]
        chosen.contains(n) <==> disk::is_entry(d, dir, n) && store::chosen(namespace, n) by {
        what_a_filter_keeps(names, by_namespace, n);
        assert(by_namespace(n) == store::chosen(namespace, n));
    }
}

/// What is kept of a sequence.
pub proof fn what_a_filter_keeps(
    names: Seq<Seq<char>>,
    keep: spec_fn(Seq<char>) -> bool,
    n: Seq<char>,
)
    ensures
        names.filter(keep).contains(n) <==> names.contains(n) && keep(n),
    decreases names.len(),
{
    reveal(Seq::filter);
    if names.len() > 0 {
        let before = names.drop_last();
        let kept = before.filter(keep);
        let all = names.filter(keep);
        what_a_filter_keeps(before, keep, n);
        if names.contains(n) && keep(n) {
            let k = choose|k: int| 0 <= k < names.len() && names[k] == n;
            if k < before.len() {
                assert(before[k] == n);
                let j = choose|j: int| 0 <= j < kept.len() && kept[j] == n;
                assert(all[j] == n);
            } else {
                assert(all[kept.len() as int] == n);
            }
        }
        if all.contains(n) {
            let j = choose|j: int| 0 <= j < all.len() && all[j] == n;
            if j < kept.len() {
                assert(kept[j] == n);
                let k = choose|k: int| 0 <= k < before.len() && before[k] == n;
                assert(names[k] == n);
            } else {
                assert(names[names.len() - 1] == n);
            }
        }
    }
}

} // verus!
