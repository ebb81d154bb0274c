//! What a rekey promises: no value is lost, not even if it breaks off half-way,
//! and in the end the store belongs to the new key.

use vstd::prelude::*;
use vstd::string::*;

use crate::crypt;
use crate::disk;
use crate::disk::{Disk, Node};
use crate::host::{Effect, Seen};
use crate::identity;
use crate::laws;
use crate::layout;
use crate::name;
use crate::output;
use crate::paths;
use crate::rekey;
use crate::store;
use crate::text;

verus! {

/// A rekey and the disk that it starts from: the identity file, the entries with
/// their ciphertexts, and the new key with the new ciphertexts.
pub struct Rotation {
    pub disk: Disk,
    pub dir: Seq<u8>,
    pub path: Seq<u8>,
    pub old_file: Seq<u8>,
    pub secret: Seq<char>,
    pub fresh: Seq<char>,
    pub entries: Seq<(Seq<char>, Seq<u8>)>,
    pub sealed: Seq<Seq<u8>>,
}

impl Rotation {
    pub open spec fn names(&self) -> Seq<Seq<char>> {
        output::names_of(self.entries)
    }

    pub open spec fn effects(&self) -> Seq<Effect> {
        rekey::rekeying(
            self.dir,
            self.path,
            self.old_file,
            self.fresh,
            self.names(),
            self.sealed,
        )
    }

    /// The text of the new identity file.
    pub open spec fn new_file(&self) -> Seq<u8> {
        text::utf8(identity::identity_text(self.fresh, crypt::public_of(self.fresh)))
    }

    /// The text of the new marker.
    pub open spec fn new_marker(&self) -> Seq<u8> {
        text::utf8(store::marker_text(crypt::public_of(self.fresh)))
    }

    /// The path is that of a key file.
    pub open spec fn is_key_file(&self, p: Seq<u8>) -> bool {
        p == self.path || p == rekey::new_at(self.path) || p == rekey::old_at(self.path)
    }

    /// The disk is as the rekey found it, and the key files are no files of the
    /// store.
    pub open spec fn is_sound(&self) -> bool {
        &&& rekey::resealed(self.secret, self.fresh, self.entries, self.sealed)
        &&& disk::is_file(self.disk, self.path) && self.disk[self.path] == Node::File(
            self.old_file,
        )
        &&& forall|i: int|
            0 <= i < self.entries.len() ==> name::valid((#[trigger] self.entries[i]).0)
                && disk::value_on(self.disk, self.dir, self.entries[i].0) == Some(
                self.entries[i].1,
            )
        &&& self.names().no_duplicates()
        &&& disk::is_file(self.disk, store::marker_at(self.dir))
        &&& !self.is_key_file(store::marker_at(self.dir))
        &&& forall|n: Seq<char>|
            name::valid(n) ==> !self.is_key_file(#[trigger] store::entry_at(self.dir, n))
    }

    /// The disk after the first steps.
    pub open spec fn after(&self, steps: int) -> Disk {
        disk::after_all(self.disk, self.effects().take(steps))
    }
}

/// A rekey that is planned on a faithful look at the disk finds the disk so, where
/// the key files are no files of the store.
pub proof fn a_planned_rekey_is_sound(r: Rotation, seen: Seen)
    requires
        disk::faithful(seen, r.disk, r.dir, |n: Seq<char>| disk::is_entry(r.disk, r.dir, n)),
        seen.exists,
        store::owner_seen(seen, r.dir) matches Ok(Some(_)),
        store::snapshot_seen(seen, r.dir, None, crypt::public_of(r.secret)) == Ok::<
            Seq<(Seq<char>, Seq<u8>)>,
            Seq<char>,
        >(r.entries),
        rekey::resealed(r.secret, r.fresh, r.entries, r.sealed),
        disk::is_file(r.disk, r.path) && r.disk[r.path] == Node::File(r.old_file),
        !r.is_key_file(store::marker_at(r.dir)),
        forall|n: Seq<char>|
            name::valid(n) ==> !r.is_key_file(#[trigger] store::entry_at(r.dir, n)),
    ensures
        r.is_sound(),
{
    let listed = seen.listing()->Ok_0;
    let names = store::strictly_below(listed, None);
    let keep = |n: Seq<char>| store::chosen(None, n);
    laws::a_filter_keeps_the_order(listed, keep);
    store::captured_entries_are_there(seen, r.dir, names);
    assert(r.names() =~= names);
    assert(names.no_duplicates()) by {
        assert forall|i: int, j: int| 0 <= i < j < names.len() implies names[i] != names[j] by {
            text::less_is_irreflexive(names[i]);
            assert(text::less(names[i], names[j]));
        }
    }
    let asked = |n: Seq<char>| disk::is_entry(r.disk, r.dir, n);
    assert forall|i: int| 0 <= i < r.entries.len() implies name::valid((#[trigger] r.entries[i]).0)
        && disk::value_on(r.disk, r.dir, r.entries[i].0) == Some(r.entries[i].1) by {
        let n = r.entries[i].0;
        assert(names[i] == n);
        assert(names.contains(n));
        laws::what_a_filter_keeps(listed, keep, n);
        assert(listed.contains(n));
        assert(asked(n));
        assert(store::ciphertext_seen(seen, r.dir, names[i]) matches Ok(Some(_)));
    }
}

proof fn key_files_differ(path: Seq<u8>)
    ensures
        path != rekey::new_at(path),
        path != rekey::old_at(path),
        rekey::new_at(path) != rekey::old_at(path),
{
    reveal_strlit(".new");
    reveal_strlit(".old");
    vstd::utf8::is_ascii_chars_encode_utf8(".new"@);
    vstd::utf8::is_ascii_chars_encode_utf8(".old"@);
    assert(text::utf8(".new"@)[1] == ".new"@[1] as u8);
    assert(text::utf8(".old"@)[1] == ".old"@[1] as u8);
    let n = path.len() as int;
    assert(rekey::new_at(path)[n + 1] == 'n' as u8);
    assert(rekey::old_at(path)[n + 1] == 'o' as u8);
}

/// What replacing entries leaves on the disk.
proof fn entries_are_replaced(d: Disk, dir: Seq<u8>, names: Seq<Seq<char>>, sealed: Seq<Seq<u8>>)
    requires
        sealed.len() == names.len(),
        names.no_duplicates(),
        forall|i: int| 0 <= i < names.len() ==> name::valid(#[trigger] names[i]),
    ensures
        forall|i: int|
            0 <= i < names.len() ==> disk::value_on(
                disk::after_all(d, rekey::replacements(dir, names, sealed)),
                dir,
                #[trigger] names[i],
            ) == Some(sealed[i]),
        forall|p: Seq<u8>| #[trigger]
            d.contains_key(p) && (forall|i: int|
                0 <= i < names.len() ==> store::entry_at(dir, #[trigger] names[i]) != p)
                ==> disk::after_all(d, rekey::replacements(dir, names, sealed)).contains_key(p)
                && disk::after_all(d, rekey::replacements(dir, names, sealed))[p] == d[p],
    decreases names.len(),
{
    let all = rekey::replacements(dir, names, sealed);
    if names.len() > 0 {
        let before = names.drop_last();
        let old = sealed.drop_last();
        let last = names.last();
        let e = disk::after_all(d, rekey::replacements(dir, before, old));
        let effect = Effect::Replace { path: store::entry_at(dir, last), bytes: sealed.last() };
        assert(all =~= rekey::replacements(dir, before, old) + seq![effect]);
        disk::after_both(d, rekey::replacements(dir, before, old), seq![effect]);
        disk::after_one(e, effect);
        assert forall|i: int| 0 <= i < before.len() implies name::valid(#[trigger] before[i]) by {
            assert(before[i] == names[i]);
        }
        entries_are_replaced(d, dir, before, old);
        let g = disk::after_all(d, all);
        assert(g == disk::after(e, effect));
        assert forall|i: int| 0 <= i < names.len() implies disk::value_on(
            g,
            dir,
            #[trigger] names[i],
        ) == Some(sealed[i]) by {
            if i < before.len() {
                assert(before[i] == names[i]);
                assert(disk::value_on(e, dir, before[i]) == Some(old[i]));
                if store::entry_at(dir, names[i]) == store::entry_at(dir, last) {
                    layout::entries_do_not_share_a_file(dir, names[i], last);
                }
            }
        }
        assert forall|p: Seq<u8>| #[trigger]
            d.contains_key(p) && (forall|i: int|
                0 <= i < names.len() ==> store::entry_at(dir, #[trigger] names[i])
                    != p) implies g.contains_key(p) && g[p] == d[p] by {
            assert(store::entry_at(dir, names[names.len() - 1]) != p);
            assert forall|i: int| 0 <= i < before.len() implies store::entry_at(
                dir,
                #[trigger] before[i],
            ) != p by {
                assert(before[i] == names[i]);
            }
        }
    } else {
        assert(all =~= Seq::<Effect>::empty());
    }
}

/// The disk while the entries are being replaced.
proof fn while_replacing(r: Rotation, j: int)
    requires
        r.is_sound(),
        0 <= j <= r.entries.len(),
    ensures
        ({
            let e = r.after(j + 1);
            &&& forall|i: int|
                0 <= i < r.entries.len() ==> disk::value_on(
                    e,
                    r.dir,
                    (#[trigger] r.entries[i]).0,
                ) == Some(
                    if i < j {
                        r.sealed[i]
                    } else {
                        r.entries[i].1
                    },
                )
            &&& e.contains_key(r.path) && e[r.path] == Node::File(r.old_file)
            &&& e.contains_key(rekey::new_at(r.path)) && e[rekey::new_at(r.path)] == Node::File(
                r.new_file(),
            )
            &&& e.contains_key(store::marker_at(r.dir)) && e[store::marker_at(r.dir)]
                == r.disk[store::marker_at(r.dir)]
        }),
{
    let names = r.names();
    let head = names.take(j);
    let some = r.sealed.take(j);
    let create = identity::creation(rekey::new_at(r.path), r.fresh);
    let d1 = disk::after(r.disk, create);
    key_files_differ(r.path);
    assert(r.effects().take(j + 1) =~= seq![create] + rekey::replacements(r.dir, head, some));
    disk::after_both(r.disk, seq![create], rekey::replacements(r.dir, head, some));
    disk::after_one(r.disk, create);
    assert forall|i: int| 0 <= i < head.len() implies name::valid(#[trigger] head[i]) by {
        assert(head[i] == r.entries[i].0);
    }
    entries_are_replaced(d1, r.dir, head, some);
    let e = r.after(j + 1);
    assert forall|p: Seq<u8>| d1.contains_key(p) && (r.is_key_file(p) || p == store::marker_at(
        r.dir,
    )) implies #[trigger] e.contains_key(p) && e[p] == d1[p] by {
        assert forall|i: int| 0 <= i < head.len() implies store::entry_at(
            r.dir,
            #[trigger] head[i],
        ) != p by {
            assert(head[i] == r.entries[i].0);
            layout::an_entry_is_no_dot_file(r.dir, head[i]);
        }
    }
    assert(d1.contains_key(r.path));
    assert(d1.contains_key(rekey::new_at(r.path)));
    assert(d1.contains_key(store::marker_at(r.dir)));
    assert forall|i: int| 0 <= i < r.entries.len() implies disk::value_on(
        e,
        r.dir,
        (#[trigger] r.entries[i]).0,
    ) == Some(
        if i < j {
            r.sealed[i]
        } else {
            r.entries[i].1
        },
    ) by {
        let n = r.entries[i].0;
        assert(names[i] == n);
        let p = store::entry_at(r.dir, n);
        if i < j {
            assert(head[i] == n);
        } else {
            assert(d1.contains_key(p) && d1[p] == r.disk[p]);
            assert forall|k: int| 0 <= k < head.len() implies store::entry_at(
                r.dir,
                #[trigger] head[k],
            ) != p by {
                assert(head[k] == names[k]);
                assert(head[k] == r.entries[k].0);
                if store::entry_at(r.dir, head[k]) == p {
                    layout::entries_do_not_share_a_file(r.dir, head[k], n);
                }
            }
        }
    }
}

/// The disk after each step of the handover.
proof fn while_handing_over(r: Rotation, k: int)
    requires
        r.is_sound(),
        1 <= k <= 3,
    ensures
        ({
            let e = r.after(r.entries.len() + 1 + k);
            &&& forall|i: int|
                0 <= i < r.entries.len() ==> disk::value_on(
                    e,
                    r.dir,
                    (#[trigger] r.entries[i]).0,
                ) == Some(r.sealed[i])
            &&& e.contains_key(store::marker_at(r.dir)) && e[store::marker_at(r.dir)] == Node::File(
                r.new_marker(),
            )
            &&& k < 3 ==> e.contains_key(r.path) && e[r.path] == Node::File(r.old_file)
            &&& k < 3 ==> e.contains_key(rekey::new_at(r.path)) && e[rekey::new_at(r.path)]
                == Node::File(r.new_file())
            &&& k > 1 ==> e.contains_key(rekey::old_at(r.path)) && e[rekey::old_at(r.path)]
                == Node::File(r.old_file)
            &&& k == 3 ==> e.contains_key(r.path) && e[r.path] == Node::File(r.new_file())
                && !e.contains_key(rekey::new_at(r.path))
        }),
    decreases k,
{
    let n = r.entries.len() as int;
    let hand = rekey::handover(r.dir, r.path, r.old_file, r.fresh);
    let step = hand[k - 1];
    let before = r.effects().take(n + k);
    assert(r.effects().take(n + 1 + k) =~= before + seq![step]);
    disk::after_both(r.disk, before, seq![step]);
    let d = r.after(n + k);
    disk::after_one(d, step);
    let e = r.after(n + 1 + k);
    assert(e == disk::after(d, step));
    key_files_differ(r.path);
    if k == 1 {
        while_replacing(r, n);
    } else {
        while_handing_over(r, k - 1);
    }
    assert forall|i: int| 0 <= i < r.entries.len() implies disk::value_on(
        e,
        r.dir,
        (#[trigger] r.entries[i]).0,
    ) == Some(r.sealed[i]) by {
        let m = r.entries[i].0;
        assert(disk::value_on(d, r.dir, m) == Some(r.sealed[i]));
        layout::an_entry_is_no_dot_file(r.dir, m);
        assert(!r.is_key_file(store::entry_at(r.dir, m)));
    }
}

/// However far a rekey gets, no value is lost: each entry holds its old
/// ciphertext or a new one with the same value, the old key is on disk, and so is
/// the new one as soon as the first entry can be sealed with it. The store keeps a
/// marker throughout; once it names the new key, all entries are sealed with it.
pub proof fn no_entry_is_ever_without_its_key(r: Rotation, steps: int)
    requires
        r.is_sound(),
        0 <= steps <= r.effects().len(),
    ensures
        forall|i: int|
            0 <= i < r.entries.len() ==> {
                let now = disk::value_on(r.after(steps), r.dir, (#[trigger] r.entries[i]).0);
                ||| now == Some(r.entries[i].1)
                ||| steps > 1 && now == Some(r.sealed[i]) && crypt::opened(r.fresh, r.sealed[i])
                    == crypt::opened(r.secret, r.entries[i].1)
            },
        disk::is_file(r.after(steps), r.path),
        r.after(steps)[r.path] == Node::File(r.old_file) || (r.after(steps)[r.path] == Node::File(
            r.new_file(),
        ) && disk::is_file(r.after(steps), rekey::old_at(r.path))
            && r.after(steps)[rekey::old_at(r.path)] == Node::File(r.old_file)),
        steps >= 1 ==> r.after(steps)[r.path] == Node::File(r.new_file()) || (disk::is_file(
            r.after(steps),
            rekey::new_at(r.path),
        ) && r.after(steps)[rekey::new_at(r.path)] == Node::File(r.new_file())),
        disk::is_marked(r.after(steps), r.dir),
        r.after(steps)[store::marker_at(r.dir)] != r.disk[store::marker_at(r.dir)] ==> forall|
            i: int,
        |
            0 <= i < r.entries.len() ==> disk::value_on(
                r.after(steps),
                r.dir,
                (#[trigger] r.entries[i]).0,
            ) == Some(r.sealed[i]),
{
    let n = r.entries.len() as int;
    if steps == 0 {
        assert(r.effects().take(0) =~= Seq::<Effect>::empty());
    } else if steps <= n + 1 {
        while_replacing(r, steps - 1);
    } else {
        while_handing_over(r, steps - n - 1);
    }
}

/// A rekey that comes to its end rotates the whole key ring: the identity file
/// holds the new key, the old file is kept, nothing is left over, the marker names
/// the new key, and every entry has the value it had, sealed with the new key.
pub proof fn a_rekey_rotates_the_keys(r: Rotation)
    requires
        r.is_sound(),
    ensures
        ({
            let e = disk::after_all(r.disk, r.effects());
            &&& disk::is_file(e, r.path) && e[r.path] == Node::File(r.new_file())
            &&& disk::is_file(e, rekey::old_at(r.path)) && e[rekey::old_at(r.path)] == Node::File(
                r.old_file,
            )
            &&& !e.contains_key(rekey::new_at(r.path))
            &&& disk::is_file(e, store::marker_at(r.dir)) && e[store::marker_at(r.dir)]
                == Node::File(r.new_marker())
            &&& forall|i: int|
                0 <= i < r.entries.len() ==> disk::value_on(
                    e,
                    r.dir,
                    (#[trigger] r.entries[i]).0,
                ) == Some(r.sealed[i]) && crypt::opened(r.fresh, r.sealed[i]) == crypt::opened(
                    r.secret,
                    r.entries[i].1,
                )
        }),
{
    while_handing_over(r, 3);
    assert(r.effects().take(r.effects().len() as int) =~= r.effects());
}

/// After a rekey the new key reads from every entry what the old key read.
pub proof fn a_rekeyed_store_reads_the_same(
    r: Rotation,
    later: Seen,
    i: int,
    value: Result<Seq<u8>, Seq<char>>,
)
    requires
        r.is_sound(),
        crypt::is_recipient(crypt::public_of(r.fresh)),
        0 <= i < r.entries.len(),
        disk::faithful(
            later,
            disk::after_all(r.disk, r.effects()),
            r.dir,
            |n: Seq<char>| n == r.entries[i].0,
        ),
        output::is_entry_read(later, r.dir, r.fresh, r.entries[i].0, value),
    ensures
        crypt::opened(r.secret, r.entries[i].1) matches Some(v) && value == Ok::<
            Seq<u8>,
            Seq<char>,
        >(v),
{
    a_rekey_rotates_the_keys(r);
    let name = r.entries[i].0;
    let e = disk::after_all(r.disk, r.effects());
    let asked = |n: Seq<char>| n == r.entries[i].0;
    assert(asked(name));
    assert(disk::value_on(e, r.dir, name) == Some(r.sealed[i]));
    laws::a_marker_names_its_recipient(store::marker_at(r.dir), crypt::public_of(r.fresh));
    layout::an_entry_stays_in_the_store(r.dir, name);
    assert(e.contains_key(store::entry_at(r.dir, name)));
    assert(disk::is_there(e, r.dir));
}

/// After a rekey the former key is refused, for reading, for writing and for a
/// snapshot, unless it is the same recipient as the new one.
pub proof fn a_rekeyed_store_refuses_the_former_key(r: Rotation, later: Seen)
    requires
        r.is_sound(),
        crypt::is_recipient(crypt::public_of(r.fresh)),
        !crypt::same_recipient(crypt::public_of(r.fresh), crypt::public_of(r.secret)),
        disk::faithful(
            later,
            disk::after_all(r.disk, r.effects()),
            r.dir,
            |n: Seq<char>| false,
        ),
    ensures
        ({
            let former = crypt::public_of(r.secret);
            let no = "selected identity does not match the store recipient"@;
            &&& forall|n: Seq<char>| #[trigger]
                store::read_seen(later, r.dir, n, former) == Err::<Option<Seq<u8>>, Seq<char>>(no)
            &&& forall|n: Seq<char>, c: Seq<u8>| #[trigger]
                store::write_seen(later, r.dir, n, former, c) == Err::<Seq<Effect>, Seq<char>>(no)
            &&& forall|s: Option<Seq<char>>| #[trigger]
                store::snapshot_seen(later, r.dir, s, former) == Err::<
                    Seq<(Seq<char>, Seq<u8>)>,
                    Seq<char>,
                >(no)
        }),
{
    a_rekey_rotates_the_keys(r);
    let e = disk::after_all(r.disk, r.effects());
    let marker = store::marker_at(r.dir);
    laws::a_marker_names_its_recipient(marker, crypt::public_of(r.fresh));
    layout::dot_files_are_in_the_store(r.dir);
    let root = paths::under(r.dir);
    assert(marker.subrange(0, root.len() as int) =~= root);
    assert(e.contains_key(marker));
    assert(disk::is_there(e, r.dir));
}

} // verus!
