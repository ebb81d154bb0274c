//! A walk over a store finds its entries, all of them and nothing else.

use vstd::prelude::*;

use crate::components;
use crate::disk;
use crate::disk::Disk;
use crate::laws;
use crate::layout;
use crate::name;
use crate::order;
use crate::paths;
use crate::store;
use crate::text;
use crate::walk;
use crate::walk::{Item, Kind, Listing, Trail, Visit};

verus! {

// ---------------------------------------------------------------------------
// What a listing shows

/// `f` is the name of something directly in a directory.
pub open spec fn child(d: Disk, dir: Seq<u8>, f: Seq<u8>) -> bool {
    f.len() > 0 && !f.contains(text::SLASH) && d.contains_key(paths::under(dir) + f)
}

/// An item is something that is directly in the directory, and of its kind.
pub open spec fn item_shows(item: Item, d: Disk, dir: Seq<u8>) -> bool {
    item matches Item::Found { file_name, kind } && child(d, dir, file_name@) && match kind {
        Kind::Dir => disk::is_dir(d, paths::under(dir) + file_name@),
        Kind::Other => disk::is_file(d, paths::under(dir) + file_name@),
        Kind::Failed(_) => false,
    }
}

pub open spec fn item_name(item: Item) -> Seq<u8> {
    item->Found_file_name@
}

/// Everything directly in the directory is listed, once, and nothing else.
pub open spec fn items_show(items: Seq<Item>, d: Disk, dir: Seq<u8>) -> bool {
    &&& forall|i: int| 0 <= i < items.len() ==> item_shows(#[trigger] items[i], d, dir)
    &&& forall|f: Seq<u8>| #[trigger]
        child(d, dir, f) ==> exists|i: int|
            0 <= i < items.len() && item_name(#[trigger] items[i]) == f
    &&& items_differ(items)
}

pub open spec fn items_differ(items: Seq<Item>) -> bool {
    forall|i: int, j: int|
        0 <= i < j < items.len() ==> item_name(#[trigger] items[i]) != item_name(
            #[trigger] items[j],
        )
}

pub open spec fn listing_shows(listing: Listing, d: Disk, dir: Seq<u8>) -> bool {
    listing matches Listing::Items(items) && items_show(items@, d, dir)
}

// ---------------------------------------------------------------------------
// How far a walk is

/// A directory of the store: the store directory or one under it.
pub open spec fn is_inside(dir: Seq<u8>, p: Seq<u8>) -> bool {
    ||| p == dir
    ||| paths::under(dir).len() < p.len() && paths::under(dir).is_prefix_of(p) && p.last()
        != text::SLASH && p[paths::under(dir).len() as int] != text::SLASH
        && p[paths::under(dir).len() as int] != components::DOT
}

/// The file of an entry is somewhere under `p`.
pub open spec fn covers(dir: Seq<u8>, p: Seq<u8>, n: Seq<char>) -> bool {
    paths::under(p).is_prefix_of(store::entry_at(dir, n))
}

/// The names that were found are entries, none twice; every other entry is under
/// exactly one of the directories that are still to be listed.
pub open spec fn on_track(d: Disk, dir: Seq<u8>, trail: Trail) -> bool {
    &&& forall|i: int|
        0 <= i < trail.names.len() ==> disk::is_entry(d, dir, #[trigger] trail.names[i])
    &&& trail.names.no_duplicates()
    &&& forall|i: int, k: int|
        0 <= i < trail.names.len() && 0 <= k < trail.pending.len() ==> !covers(
            dir,
            #[trigger] trail.pending[k],
            #[trigger] trail.names[i],
        )
    &&& forall|j: int, k: int, n: Seq<char>|
        #![trigger covers(dir, trail.pending[j], n), covers(dir, trail.pending[k], n)]
        0 <= j < k < trail.pending.len() && name::valid(n) ==> !(covers(dir, trail.pending[j], n)
            && covers(dir, trail.pending[k], n))
    &&& forall|n: Seq<char>| #[trigger]
        disk::is_entry(d, dir, n) ==> trail.names.contains(n) || exists|k: int|
            0 <= k < trail.pending.len() && covers(dir, #[trigger] trail.pending[k], n)
    &&& forall|k: int|
        0 <= k < trail.pending.len() ==> is_inside(dir, #[trigger] trail.pending[k])
}

// ---------------------------------------------------------------------------
// Paths

/// What is under a directory of the store, on the way to an entry, starts with a
/// component of the entry's name.
proof fn the_way_starts_a_component(dir: Seq<u8>, p: Seq<u8>, n: Seq<char>)
    requires
        name::valid(n),
        is_inside(dir, p),
        covers(dir, p, n),
    ensures
        paths::under(dir).len() <= paths::under(p).len(),
        paths::under(p).len() - paths::under(dir).len() < n.len(),
        n[paths::under(p).len() - paths::under(dir).len()] != '/',
        n[paths::under(p).len() - paths::under(dir).len()] != '.',
{
    layout::an_entry_stays_in_the_store(dir, n);
    layout::relative_is_ascii(n);
    let k = paths::under(p).len() - paths::under(dir).len();
    let r = layout::relative(n);
    let path = store::entry_at(dir, n);
    if p == dir {
        assert(name::component_starts(n, 0));
    } else {
        let q = paths::under(p);
        assert(q == p.push(text::SLASH));
        assert(path.subrange(0, q.len() as int) == q);
        assert(path.subrange(0, q.len() as int)[q.len() - 1] == path[q.len() - 1]);
        assert(path[q.len() - 1] == text::utf8(r)[k - 1]);
        assert(r[k - 1] as u8 == text::SLASH);
        assert(r[k - 1] == '/');
        reveal_strlit(".age");
        assert(k - 1 < n.len()) by {
            if k - 1 >= n.len() {
                assert(r[k - 1] == ".age"@[k - 1 - n.len()]);
            }
        }
        assert(n[k - 1] == '/');
        assert(name::component_starts(n, k));
    }
}

/// The next thing on the way from a directory of the store to an entry.
spec fn next_on_the_way(dir: Seq<u8>, p: Seq<u8>, n: Seq<char>) -> Seq<u8> {
    let rest = store::entry_at(dir, n).skip(paths::under(p).len() as int);
    rest.take(components::to_slash(rest))
}

proof fn the_way_leads_on(dir: Seq<u8>, p: Seq<u8>, n: Seq<char>)
    requires
        name::valid(n),
        is_inside(dir, p),
        covers(dir, p, n),
    ensures
        ({
            let f = next_on_the_way(dir, p, n);
            let c = paths::under(p) + f;
            let path = store::entry_at(dir, n);
            &&& f.len() > 0
            &&& !f.contains(text::SLASH)
            &&& walk::of_interest(f)
            &&& paths::joined(p, f) == c
            &&& c == path || (disk::above(c, path) && covers(dir, c, n))
        }),
{
    the_way_starts_a_component(dir, p, n);
    layout::an_entry_stays_in_the_store(dir, n);
    layout::relative_is_ascii(n);
    let k = paths::under(p).len() - paths::under(dir).len();
    let r = layout::relative(n);
    let path = store::entry_at(dir, n);
    let q = paths::under(p);
    let rest = path.skip(q.len() as int);
    let m = components::to_slash(rest);
    let f = rest.take(m);
    let c = q + f;
    components::to_slash_is_first(rest);
    assert(path.subrange(0, q.len() as int) == q);
    assert(rest =~= text::utf8(r).skip(k));
    assert(rest[0] == r[k] as u8);
    assert(r[k] == n[k]);
    assert(name::allowed(n[k]) || n[k] == '/');
    assert(m > 0);
    assert(f[0] == rest[0]);
    let g = r.subrange(k, k + m);
    assert(f =~= text::utf8(g)) by {
        assert forall|i: int| 0 <= i < g.len() implies '\0' <= #[trigger] g[i] <= '\u{7f}' by {
            assert(g[i] == r[k + i]);
        }
        vstd::utf8::is_ascii_chars_encode_utf8(g);
        assert forall|i: int| 0 <= i < f.len() implies f[i] == text::utf8(g)[i] by {
            assert(f[i] == text::utf8(r)[k + i]);
            assert(g[i] == r[k + i]);
        }
    }
    vstd::utf8::encode_utf8_valid_utf8(g);
    assert(path =~= q + rest);
    assert(path.take(c.len() as int) =~= c);
    if m == rest.len() {
        assert(f =~= rest);
    } else {
        assert(path[c.len() as int] == rest[m]);
        assert(c.last() == f[m - 1]);
        assert(f[m - 1] == rest[m - 1]);
        assert(paths::under(c) == c.push(text::SLASH));
        assert(path.subrange(0, c.len() as int + 1) =~= c.push(text::SLASH));
    }
}

/// Whatever is directly in a directory of the store and on the way to an entry is
/// the next thing on that way.
proof fn the_way_is_one(dir: Seq<u8>, p: Seq<u8>, f: Seq<u8>, n: Seq<char>)
    requires
        name::valid(n),
        is_inside(dir, p),
        f.len() > 0,
        !f.contains(text::SLASH),
        covers(dir, paths::under(p) + f, n) || paths::under(p) + f == store::entry_at(dir, n),
    ensures
        covers(dir, p, n),
        f == next_on_the_way(dir, p, n),
{
    let q = paths::under(p);
    let c = q + f;
    let path = store::entry_at(dir, n);
    assert(c.last() == f.last());
    assert(f.contains(f.last()));
    if c == path {
        assert(path.subrange(0, q.len() as int) =~= q);
    } else {
        let u = paths::under(c);
        assert(u == c.push(text::SLASH));
        assert(path.subrange(0, u.len() as int) == u);
        assert forall|i: int| 0 <= i < u.len() implies path[i] == u[i] by {
            assert(path.subrange(0, u.len() as int)[i] == u[i]);
        }
        assert(path.subrange(0, q.len() as int) =~= q);
    }
    let rest = path.skip(q.len() as int);
    let m = components::to_slash(rest);
    components::to_slash_is_first(rest);
    assert(forall|i: int| 0 <= i < f.len() ==> rest[i] == f[i]);
    assert forall|i: int| 0 <= i < f.len() implies f[i] != text::SLASH by {
        assert(f.contains(f[i]));
    }
    if c == path {
        assert(rest =~= f);
    } else {
        assert(rest[f.len() as int] == text::SLASH);
    }
    assert(m == f.len());
    assert(rest.take(m) =~= f);
}

// ---------------------------------------------------------------------------
// What a visit gathers

proof fn what_was_found(root: Seq<u8>, dir: Seq<u8>, items: Seq<Item>)
    ensures
        forall|n: Seq<char>| #[trigger]
            walk::found(root, dir, items).contains(n) <==> exists|i: int|
                0 <= i < items.len() && walk::visit(root, dir, #[trigger] items[i])
                    == Visit::Entry(n),
    decreases items.len(),
{
    if items.len() > 0 {
        let rest = items.drop_last();
        what_was_found(root, dir, rest);
        let before = walk::found(root, dir, rest);
        let all = walk::found(root, dir, items);
        assert forall|n: Seq<char>| #[trigger] all.contains(n) <==> exists|i: int|
            0 <= i < items.len() && walk::visit(root, dir, #[trigger] items[i])
                == Visit::Entry(n) by {
            if all.contains(n) {
                let j = choose|j: int| 0 <= j < all.len() && all[j] == n;
                if j < before.len() {
                    assert(before[j] == n);
                    assert(before.contains(n));
                    let i = choose|i: int|
                        0 <= i < rest.len() && walk::visit(root, dir, #[trigger] rest[i])
                            == Visit::Entry(n);
                    assert(items[i] == rest[i]);
                } else {
                    assert(walk::visit(root, dir, items[items.len() - 1]) == Visit::Entry(n));
                }
            }
            if exists|i: int|
                0 <= i < items.len() && walk::visit(root, dir, #[trigger] items[i])
                    == Visit::Entry(n) {
                let i = choose|i: int|
                    0 <= i < items.len() && walk::visit(root, dir, #[trigger] items[i])
                        == Visit::Entry(n);
                if i < rest.len() {
                    assert(rest[i] == items[i]);
                    assert(before.contains(n));
                    let j = choose|j: int| 0 <= j < before.len() && before[j] == n;
                    assert(all[j] == n);
                } else {
                    assert(all[before.len() as int] == n);
                }
            }
        }
    }
}

proof fn what_was_entered(root: Seq<u8>, dir: Seq<u8>, items: Seq<Item>)
    ensures
        forall|c: Seq<u8>| #[trigger]
            walk::entered(root, dir, items).contains(c) <==> exists|i: int|
                0 <= i < items.len() && walk::visit(root, dir, #[trigger] items[i])
                    == Visit::Enter(c),
    decreases items.len(),
{
    if items.len() > 0 {
        let rest = items.drop_last();
        what_was_entered(root, dir, rest);
        let before = walk::entered(root, dir, rest);
        let all = walk::entered(root, dir, items);
        assert forall|c: Seq<u8>| #[trigger] all.contains(c) <==> exists|i: int|
            0 <= i < items.len() && walk::visit(root, dir, #[trigger] items[i])
                == Visit::Enter(c) by {
            if all.contains(c) {
                let j = choose|j: int| 0 <= j < all.len() && all[j] == c;
                if j < before.len() {
                    assert(before[j] == c);
                    assert(before.contains(c));
                    let i = choose|i: int|
                        0 <= i < rest.len() && walk::visit(root, dir, #[trigger] rest[i])
                            == Visit::Enter(c);
                    assert(items[i] == rest[i]);
                } else {
                    assert(walk::visit(root, dir, items[items.len() - 1]) == Visit::Enter(c));
                }
            }
            if exists|i: int|
                0 <= i < items.len() && walk::visit(root, dir, #[trigger] items[i])
                    == Visit::Enter(c) {
                let i = choose|i: int|
                    0 <= i < items.len() && walk::visit(root, dir, #[trigger] items[i])
                        == Visit::Enter(c);
                if i < rest.len() {
                    assert(rest[i] == items[i]);
                    assert(before.contains(c));
                    let j = choose|j: int| 0 <= j < before.len() && before[j] == c;
                    assert(all[j] == c);
                } else {
                    assert(all[before.len() as int] == c);
                }
            }
        }
    }
}

/// A name that comes out of a visit is that of the entry whose file was visited.
proof fn a_visit_names_an_entry(root: Seq<u8>, d: Disk, dir: Seq<u8>, f: Seq<u8>, n: Seq<char>)
    requires
        is_inside(root, dir),
        child(d, dir, f),
        walk::of_interest(f),
        store::name_at(root, paths::under(dir) + f) == Some(n),
    ensures
        name::valid(n),
        paths::under(dir) + f == store::entry_at(root, n),
{
    let u = paths::under(root);
    let q = paths::under(dir);
    let path = q + f;
    let k = u.len() as int;
    let rest = path.skip(k);
    assert(f.contains(f[0]));
    assert(f.contains(f.last()));
    if dir == root {
        assert(rest =~= f);
    } else {
        assert(q == dir.push(text::SLASH));
        assert(dir.subrange(0, k) == u);
        assert(path.subrange(0, k) =~= dir.subrange(0, k));
        assert(rest[0] == dir[k]);
    }
    assert(path =~= u + rest);
    assert(rest.last() == f.last());
    if f.len() > 1 {
        assert(rest[rest.len() - 2] == f[f.len() - 2]);
        assert(f.contains(f[f.len() - 2]));
    } else {
        assert(f.last() == f[0]);
    }
    layout::a_named_path_is_an_entry(root, rest, n);
}

/// Different items lead to different names and different directories.
proof fn visits_differ(root: Seq<u8>, d: Disk, dir: Seq<u8>, items: Seq<Item>)
    requires
        is_inside(root, dir),
        items_differ(items),
        forall|i: int| 0 <= i < items.len() ==> item_shows(#[trigger] items[i], d, dir),
    ensures
        walk::found(root, dir, items).no_duplicates(),
        walk::entered(root, dir, items).no_duplicates(),
        walk::first_fault(root, dir, items) is None,
    decreases items.len(),
{
    if items.len() > 0 {
        let rest = items.drop_last();
        let last = items.last();
        assert forall|i: int| 0 <= i < rest.len() implies item_shows(
            #[trigger] rest[i],
            d,
            dir,
        ) by {
            assert(rest[i] == items[i]);
        }
        visits_differ(root, d, dir, rest);
        what_was_found(root, dir, rest);
        what_was_entered(root, dir, rest);
        assert(item_shows(items[items.len() - 1], d, dir));
        let f = item_name(last);
        assert forall|i: int| 0 <= i < rest.len() implies paths::joined(
            dir,
            item_name(#[trigger] rest[i]),
        ) != paths::joined(dir, f) by {
            assert(rest[i] == items[i]);
            let g = item_name(rest[i]);
            a_child_is_joined(d, dir, f);
            a_child_is_joined(d, dir, g);
            let q = paths::under(dir);
            if q + f == q + g {
                assert((q + f).skip(q.len() as int) =~= f);
                assert((q + g).skip(q.len() as int) =~= g);
            }
        }
        match walk::visit(root, dir, last) {
            Visit::Entry(n) => {
                assert(!walk::found(root, dir, rest).contains(n)) by {
                    if walk::found(root, dir, rest).contains(n) {
                        let i = choose|i: int|
                            0 <= i < rest.len() && walk::visit(root, dir, #[trigger] rest[i])
                                == Visit::Entry(n);
                        let g = item_name(rest[i]);
                        assert(item_shows(rest[i], d, dir));
                        a_child_is_joined(d, dir, f);
                        a_child_is_joined(d, dir, g);
                        a_visit_names_an_entry(root, d, dir, f, n);
                        a_visit_names_an_entry(root, d, dir, g, n);
                    }
                }
            },
            Visit::Enter(c) => {
                assert(!walk::entered(root, dir, rest).contains(c)) by {
                    if walk::entered(root, dir, rest).contains(c) {
                        let i = choose|i: int|
                            0 <= i < rest.len() && walk::visit(root, dir, #[trigger] rest[i])
                                == Visit::Enter(c);
                        assert(paths::joined(dir, item_name(rest[i])) == c);
                    }
                }
            },
            _ => {},
        }
    }
}

proof fn a_child_is_joined(d: Disk, dir: Seq<u8>, f: Seq<u8>)
    requires
        child(d, dir, f),
    ensures
        paths::joined(dir, f) == paths::under(dir) + f,
{
    assert(f.contains(f[0]));
}

// ---------------------------------------------------------------------------
// The walk

/// Listing a directory keeps the walk on track.
pub proof fn a_listing_keeps_the_track(d: Disk, dir: Seq<u8>, trail: Trail, listing: Listing)
    requires
        laws::is_tree(d),
        on_track(d, dir, trail),
        trail.pending.len() > 0,
        listing_shows(listing, d, trail.pending.last()),
    ensures
        walk::after_listing(dir, trail, listing) matches Ok(next) && on_track(d, dir, next),
{
    let p = trail.pending.last();
    let last = trail.pending.len() - 1;
    let old = trail.pending.drop_last();
    let items = listing->Items_0@;
    let q = paths::under(p);
    assert(p == trail.pending[last]);
    what_was_found(dir, p, items);
    what_was_entered(dir, p, items);
    visits_differ(dir, d, p, items);
    let found = walk::found(dir, p, items);
    let entered = walk::entered(dir, p, items);
    let next = Trail { pending: old + entered, names: trail.names + found };
    assert(walk::after_listing(dir, trail, listing) == Ok::<Trail, Seq<char>>(next));

    // What was found is an entry directly in `p`.
    assert forall|n: Seq<char>| #[trigger] found.contains(n) implies disk::is_entry(d, dir, n)
        && covers(dir, p, n) && store::entry_at(dir, n) == q + next_on_the_way(dir, p, n) by {
        let i = choose|i: int|
            0 <= i < items.len() && walk::visit(dir, p, #[trigger] items[i]) == Visit::Entry(n);
        assert(item_shows(items[i], d, p));
        let f = item_name(items[i]);
        a_child_is_joined(d, p, f);
        a_visit_names_an_entry(dir, d, p, f, n);
        the_way_is_one(dir, p, f, n);
    }
    // What was entered is a directory directly in `p`.
    assert forall|c: Seq<u8>| #[trigger] entered.contains(c) implies is_inside(dir, c) && (forall|
        n: Seq<char>,
    |
        name::valid(n) && #[trigger] covers(dir, c, n) ==> covers(dir, p, n) && c == q
            + next_on_the_way(dir, p, n) && store::entry_at(dir, n) != c) by {
        let i = choose|i: int|
            0 <= i < items.len() && walk::visit(dir, p, #[trigger] items[i]) == Visit::Enter(c);
        assert(item_shows(items[i], d, p));
        let f = item_name(items[i]);
        a_child_is_joined(d, p, f);
        assert(f.contains(f.last()));
        assert(c.last() == f.last());
        let root = paths::under(dir);
        assert(root.is_prefix_of(q)) by {
            if p != dir {
                assert(q == p.push(text::SLASH));
                assert(p.subrange(0, root.len() as int) == root);
                assert(q.subrange(0, root.len() as int) =~= p.subrange(0, root.len() as int));
            } else {
                assert(q.subrange(0, root.len() as int) =~= root);
            }
        }
        assert(q.subrange(0, root.len() as int) == root);
        assert(c.subrange(0, root.len() as int) =~= q.subrange(0, root.len() as int));
        assert forall|n: Seq<char>| name::valid(n) && #[trigger] covers(dir, c, n) implies covers(
            dir,
            p,
            n,
        ) && c == q + next_on_the_way(dir, p, n) && store::entry_at(dir, n) != c by {
            the_way_is_one(dir, p, f, n);
            assert(paths::under(c) == c.push(text::SLASH));
        }
    }
    assert forall|i: int| 0 <= i < next.names.len() implies disk::is_entry(
        d,
        dir,
        #[trigger] next.names[i],
    ) by {
        if i >= trail.names.len() {
            assert(found.contains(found[i - trail.names.len()]));
        } else {
            assert(next.names[i] == trail.names[i]);
        }
    }
    assert(next.names.no_duplicates()) by {
        assert forall|i: int, j: int|
            0 <= i < j < next.names.len() implies next.names[i] != next.names[j] by {
            let k = trail.names.len();
            if j >= k {
                assert(found.contains(found[j - k]));
                if i < k {
                    assert(!covers(dir, trail.pending[last], trail.names[i]));
                }
            }
        }
    }
    assert forall|i: int, k: int|
        0 <= i < next.names.len() && 0 <= k < next.pending.len() implies !covers(
        dir,
        #[trigger] next.pending[k],
        #[trigger] next.names[i],
    ) by {
        let n = next.names[i];
        assert(disk::is_entry(d, dir, n));
        if i < trail.names.len() {
            assert(n == trail.names[i]);
            assert(!covers(dir, trail.pending[last], trail.names[i]));
            if k < old.len() {
                assert(next.pending[k] == trail.pending[k]);
                assert(!covers(dir, trail.pending[k], trail.names[i]));
            } else {
                assert(entered.contains(entered[k - old.len()]));
            }
        } else {
            assert(found.contains(found[i - trail.names.len()]));
            assert(covers(dir, trail.pending[last], n));
            if k < old.len() {
                assert(next.pending[k] == trail.pending[k]);
                if covers(dir, trail.pending[k], n) {
                    assert(false);
                }
            } else {
                assert(entered.contains(entered[k - old.len()]));
            }
        }
    }
    assert forall|j: int, k: int, n: Seq<char>|
        #![trigger covers(dir, next.pending[j], n), covers(dir, next.pending[k], n)]
        0 <= j < k < next.pending.len() && name::valid(n) implies !(covers(dir, next.pending[j], n)
        && covers(dir, next.pending[k], n)) by {
        if covers(dir, next.pending[j], n) && covers(dir, next.pending[k], n) {
            if k >= old.len() {
                assert(entered.contains(entered[k - old.len()]));
                assert(covers(dir, trail.pending[last], n));
                if j >= old.len() {
                    assert(entered.contains(entered[j - old.len()]));
                } else {
                    assert(next.pending[j] == trail.pending[j]);
                    assert(covers(dir, trail.pending[j], n));
                }
            } else {
                assert(next.pending[j] == trail.pending[j]);
                assert(next.pending[k] == trail.pending[k]);
                assert(covers(dir, trail.pending[j], n));
                assert(covers(dir, trail.pending[k], n));
            }
        }
    }
    assert forall|n: Seq<char>| #[trigger] disk::is_entry(d, dir, n) implies next.names.contains(n)
        || exists|k: int|
        0 <= k < next.pending.len() && covers(dir, #[trigger] next.pending[k], n) by {
        if trail.names.contains(n) {
            let i = choose|i: int| 0 <= i < trail.names.len() && trail.names[i] == n;
            assert(next.names[i] == n);
        } else {
            let k = choose|k: int|
                0 <= k < trail.pending.len() && covers(dir, #[trigger] trail.pending[k], n);
            if k < last {
                assert(next.pending[k] == trail.pending[k]);
            } else {
                the_way_leads_on(dir, p, n);
                let f = next_on_the_way(dir, p, n);
                let path = store::entry_at(dir, n);
                assert(d.contains_key(path));
                assert(child(d, p, f));
                let i = choose|i: int|
                    0 <= i < items.len() && item_name(#[trigger] items[i]) == f;
                assert(item_shows(items[i], d, p));
                if q + f == path {
                    layout::an_entry_is_named_by_its_path(dir, n);
                    assert(walk::visit(dir, p, items[i]) == Visit::Entry(n));
                    assert(found.contains(n));
                    let j = choose|j: int| 0 <= j < found.len() && found[j] == n;
                    assert(next.names[trail.names.len() + j] == n);
                } else {
                    let c = q + f;
                    assert(disk::above(c, path));
                    assert(disk::is_dir(d, c));
                    assert(walk::visit(dir, p, items[i]) == Visit::Enter(c));
                    assert(entered.contains(c));
                    let j = choose|j: int| 0 <= j < entered.len() && entered[j] == c;
                    assert(next.pending[old.len() + j] == c);
                }
            }
        }
    }
    assert forall|k: int| 0 <= k < next.pending.len() implies is_inside(
        dir,
        #[trigger] next.pending[k],
    ) by {
        if k >= old.len() {
            assert(entered.contains(entered[k - old.len()]));
        } else {
            assert(next.pending[k] == trail.pending[k]);
        }
    }
}

/// A walk starts on track.
pub proof fn a_walk_starts_on_track(d: Disk, dir: Seq<u8>)
    ensures
        on_track(d, dir, Trail { pending: seq![dir], names: Seq::empty() }),
{
    let trail = Trail { pending: seq![dir], names: Seq::<Seq<char>>::empty() };
    assert forall|n: Seq<char>| #[trigger] disk::is_entry(d, dir, n) implies exists|k: int|
        0 <= k < trail.pending.len() && covers(dir, #[trigger] trail.pending[k], n) by {
        layout::an_entry_stays_in_the_store(dir, n);
        assert(covers(dir, trail.pending[0], n));
    }
}

/// A walk that kept on track to its end has found the entries: in order, each
/// once, all of them and nothing else.
pub proof fn a_walk_finds_the_entries(
    d: Disk,
    dir: Seq<u8>,
    trail: Trail,
    sorted: Seq<Seq<char>>,
)
    requires
        on_track(d, dir, trail),
        trail.pending.len() == 0,
        order::ascending(sorted),
        sorted.to_multiset() == trail.names.to_multiset(),
    ensures
        order::strictly_ascending(sorted),
        forall|n: Seq<char>| #[trigger] sorted.contains(n) <==> disk::is_entry(d, dir, n),
{
    broadcast use vstd::seq_lib::group_to_multiset_ensures;

    let names = trail.names;
    names.lemma_multiset_has_no_duplicates();
    sorted.lemma_multiset_has_no_duplicates_conv();
    assert forall|n: Seq<char>| #[trigger] sorted.contains(n) <==> disk::is_entry(d, dir, n) by {
        assert(sorted.contains(n) <==> sorted.to_multiset().count(n) > 0);
        assert(names.contains(n) <==> names.to_multiset().count(n) > 0);
        if names.contains(n) {
            let i = choose|i: int| 0 <= i < names.len() && names[i] == n;
            assert(disk::is_entry(d, dir, names[i]));
        }
    }
    assert forall|i: int, j: int| 0 <= i < j < sorted.len() implies text::less(
        #[trigger] sorted[i],
        #[trigger] sorted[j],
    ) by {
        text::less_is_total(sorted[i], sorted[j]);
    }
}

} // verus!
