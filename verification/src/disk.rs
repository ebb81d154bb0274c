//! A model of the file system, and what the operations of a store come to on it.

use vstd::prelude::*;
use vstd::string::*;

use crate::host::{Effect, Seen, Sight};
use crate::name;
use crate::order;
use crate::paths;
use crate::store;
use crate::text;

verus! {

// ---------------------------------------------------------------------------
// The model

/// What stands at a path.
pub enum Node {
    File(Seq<u8>),
    Dir,
}

/// The paths that exist.
pub type Disk = Map<Seq<u8>, Node>;

pub open spec fn is_file(disk: Disk, path: Seq<u8>) -> bool {
    disk.contains_key(path) && disk[path] is File
}

pub open spec fn is_dir(disk: Disk, path: Seq<u8>) -> bool {
    disk.contains_key(path) && disk[path] is Dir
}

/// `a` is a directory above `path`.
pub open spec fn above(a: Seq<u8>, path: Seq<u8>) -> bool {
    0 < a.len() < path.len() && path[a.len() as int] == text::SLASH && path.take(a.len() as int)
        == a
}

/// No file is in the way of the directories above `path`.
pub open spec fn reachable(disk: Disk, path: Seq<u8>) -> bool {
    forall|a: Seq<u8>| #[trigger] above(a, path) && disk.contains_key(a) ==> disk[a] is Dir
}

/// With the directories above `path`.
pub open spec fn with_parents(disk: Disk, path: Seq<u8>) -> Disk {
    Map::new(
        |p: Seq<u8>| disk.contains_key(p) || above(p, path),
        |p: Seq<u8>|
            if disk.contains_key(p) {
                disk[p]
            } else {
                Node::Dir
            },
    )
}

/// Whether a change can be made.
pub open spec fn possible(disk: Disk, effect: Effect) -> bool {
    match effect {
        Effect::Create { path, .. } => reachable(disk, path) && !disk.contains_key(path),
        Effect::Replace { path, .. } => reachable(disk, path) && !is_dir(disk, path),
        Effect::Rename { from, to } => is_file(disk, from) && reachable(disk, to) && !is_dir(
            disk,
            to,
        ),
        Effect::Remove { path } => is_file(disk, path),
        Effect::RemoveDir { path } => is_dir(disk, path) && forall|p: Seq<u8>| #[trigger]
            disk.contains_key(p) ==> !above(path, p),
    }
}

/// The disk after a change.
pub open spec fn after(disk: Disk, effect: Effect) -> Disk {
    match effect {
        Effect::Create { path, bytes } => with_parents(disk, path).insert(path, Node::File(bytes)),
        Effect::Replace { path, bytes } => with_parents(disk, path).insert(
            path,
            Node::File(bytes),
        ),
        Effect::Rename { from, to } => with_parents(disk, to).remove(from).insert(to, disk[from]),
        Effect::Remove { path } => disk.remove(path),
        Effect::RemoveDir { path } => disk.remove(path),
    }
}

/// Whether changes can be made one after the other.
pub open spec fn all_possible(disk: Disk, effects: Seq<Effect>) -> bool
    decreases effects.len(),
{
    effects.len() > 0 ==> possible(disk, effects[0]) && all_possible(
        after(disk, effects[0]),
        effects.drop_first(),
    )
}

/// The disk after changes that were made one after the other.
pub open spec fn after_all(disk: Disk, effects: Seq<Effect>) -> Disk
    decreases effects.len(),
{
    if effects.len() == 0 {
        disk
    } else {
        after_all(after(disk, effects[0]), effects.drop_first())
    }
}

/// Changes in two parts.
pub proof fn after_both(disk: Disk, a: Seq<Effect>, b: Seq<Effect>)
    ensures
        after_all(disk, a + b) == after_all(after_all(disk, a), b),
    decreases a.len(),
{
    if a.len() == 0 {
        assert(a + b =~= b);
    } else {
        assert((a + b).drop_first() =~= a.drop_first() + b);
        after_both(after(disk, a[0]), a.drop_first(), b);
    }
}

/// One change.
pub proof fn after_one(disk: Disk, a: Effect)
    ensures
        all_possible(disk, seq![a]) == possible(disk, a),
        after_all(disk, seq![a]) == after(disk, a),
{
    reveal_with_fuel(all_possible, 2);
    reveal_with_fuel(after_all, 2);
    assert(seq![a].drop_first() =~= Seq::<Effect>::empty());
}

/// The disk after directories were removed, up to the first that cannot be.
pub open spec fn pruned(disk: Disk, dirs: Seq<Seq<u8>>) -> Disk
    decreases dirs.len(),
{
    if dirs.len() == 0 || !possible(disk, Effect::RemoveDir { path: dirs[0] }) {
        disk
    } else {
        pruned(disk.remove(dirs[0]), dirs.drop_first())
    }
}

// ---------------------------------------------------------------------------
// A store on it

/// What the file of an entry holds, if there is such a file.
pub open spec fn value_on(disk: Disk, dir: Seq<u8>, name: Seq<char>) -> Option<Seq<u8>> {
    let path = store::entry_at(dir, name);
    if is_file(disk, path) {
        Some(disk[path]->File_0)
    } else {
        None
    }
}

pub open spec fn is_entry(disk: Disk, dir: Seq<u8>, name: Seq<char>) -> bool {
    name::valid(name) && value_on(disk, dir, name) is Some
}

/// There is something at or under the directory.
pub open spec fn is_there(disk: Disk, dir: Seq<u8>) -> bool {
    exists|p: Seq<u8>| #[trigger]
        disk.contains_key(p) && (p == dir || paths::under(dir).is_prefix_of(p))
}

/// A store that has an entry has a marker.
pub open spec fn is_marked(disk: Disk, dir: Seq<u8>) -> bool {
    (exists|n: Seq<char>| #[trigger] is_entry(disk, dir, n)) ==> disk.contains_key(
        store::marker_at(dir),
    )
}

/// What was seen at a path is what is there.
pub open spec fn shows(sight: Sight, disk: Disk, path: Seq<u8>) -> bool {
    match sight {
        Sight::Bytes(bytes) => disk.contains_key(path) && disk[path] == Node::File(bytes),
        Sight::Missing(_) => !disk.contains_key(path),
        Sight::Failed(_) => is_dir(disk, path),
    }
}

/// What was seen of a store is what is there: whether it exists, its names in
/// order, its marker, and the entries that were asked for.
pub open spec fn faithful(
    seen: Seen,
    disk: Disk,
    dir: Seq<u8>,
    asked: spec_fn(Seq<char>) -> bool,
) -> bool {
    &&& seen.exists == is_there(disk, dir)
    &&& seen.listing() matches Ok(names) && order::strictly_ascending(names) && forall|n: Seq<char>|
        #[trigger] names.contains(n) <==> is_entry(disk, dir, n)
    &&& seen.marker == disk.contains_key(store::marker_at(dir))
    &&& shows(seen.file(store::marker_at(dir)), disk, store::marker_at(dir))
    &&& forall|n: Seq<char>| #[trigger]
        asked(n) ==> shows(seen.file(store::entry_at(dir, n)), disk, store::entry_at(dir, n))
}

} // verus!
