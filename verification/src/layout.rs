//! How a store is laid out on disk: what holds of the paths of its entries.

use vstd::prelude::*;
use vstd::string::*;

use crate::components;
use crate::disk;
use crate::name;
use crate::paths;
use crate::store;
use crate::text;

verus! {

/// The path of an entry within its store.
pub open spec fn relative(name: Seq<char>) -> Seq<char> {
    name + ".age"@
}

/// The path of an entry within its store is ASCII, one byte for each character.
pub proof fn relative_is_ascii(name: Seq<char>)
    requires
        name::valid(name),
    ensures
        name.len() > 0,
        relative(name).len() == name.len() + 4,
        text::utf8(relative(name)).len() == name.len() + 4,
        forall|i: int|
            0 <= i < name.len() + 4 ==> #[trigger] text::utf8(relative(name))[i] == relative(
                name,
            )[i] as u8,
        forall|i: int|
            0 <= i < name.len() + 4 ==> '\0' <= #[trigger] relative(name)[i] <= '\u{7f}',
{
    reveal_strlit(".age");
    let whole = relative(name);
    assert(name::component_starts(name, 0));
    assert forall|i: int| 0 <= i < whole.len() implies '\0' <= #[trigger] whole[i]
        <= '\u{7f}' by {
        if i < name.len() {
            assert(name::allowed(name[i]) || name[i] == '/');
        }
    }
    vstd::utf8::is_ascii_chars_encode_utf8(whole);
}

/// An entry's file stands under the store directory, at the entry's name.
pub proof fn an_entry_stays_in_the_store(dir: Seq<u8>, name: Seq<char>)
    requires
        name::valid(name),
    ensures
        store::entry_at(dir, name) == paths::under(dir) + text::utf8(relative(name)),
        paths::under(dir).is_prefix_of(store::entry_at(dir, name)),
{
    relative_is_ascii(name);
    assert(name::component_starts(name, 0));
    assert(relative(name)[0] == name[0]);
    assert(text::utf8(relative(name))[0] == name[0] as u8);
    assert(name::allowed(name[0]));
    let path = store::entry_at(dir, name);
    assert(path.subrange(0, paths::under(dir).len() as int) =~= paths::under(dir));
}

/// The name can be read off an entry's file.
pub proof fn an_entry_is_named_by_its_path(dir: Seq<u8>, name: Seq<char>)
    requires
        name::valid(name),
    ensures
        store::name_at(dir, store::entry_at(dir, name)) == Some(name),
{
    an_entry_stays_in_the_store(dir, name);
    relative_is_ascii(name);
    reveal_strlit(".age");
    let rest = text::utf8(relative(name));
    assert(components::is_bare(rest)) by {
        assert(name::component_starts(name, 0));
        assert(name::allowed(name[0]));
        assert(relative(name)[0] == name[0]);
        assert(rest[0] == name[0] as u8);
        assert(relative(name)[name.len() as int + 3] == 'e');
        assert(rest[name.len() as int + 3] == 'e' as u8);
    }
    components::what_is_under_is_within(dir, rest);
    vstd::utf8::encode_utf8_valid_utf8(relative(name));
    vstd::utf8::encode_utf8_decode_utf8(relative(name));
    assert(relative(name).skip(name.len() as int) =~= ".age"@);
    assert(relative(name).take(name.len() as int) =~= name);
}

/// Only an entry's file has an entry's name, where it is spelled without what
/// counts for nothing.
pub proof fn a_named_path_is_an_entry(dir: Seq<u8>, rest: Seq<u8>, name: Seq<char>)
    requires
        components::is_bare(rest),
        store::name_at(dir, paths::under(dir) + rest) == Some(name),
    ensures
        name::valid(name),
        paths::under(dir) + rest == store::entry_at(dir, name),
{
    components::what_is_under_is_within(dir, rest);
    let chars = vstd::utf8::decode_utf8(rest);
    vstd::utf8::decode_utf8_encode_utf8(rest);
    reveal_strlit(".age");
    assert(chars =~= relative(name)) by {
        let cut = chars.len() - 4;
        assert(chars =~= chars.take(cut) + chars.skip(cut));
    }
    an_entry_stays_in_the_store(dir, name);
}

/// Different names have different files.
pub proof fn entries_do_not_share_a_file(dir: Seq<u8>, a: Seq<char>, b: Seq<char>)
    requires
        name::valid(a),
        name::valid(b),
        store::entry_at(dir, a) == store::entry_at(dir, b),
    ensures
        a == b,
{
    an_entry_is_named_by_its_path(dir, a);
    an_entry_is_named_by_its_path(dir, b);
}

/// No entry's file is the marker or the lock.
pub proof fn an_entry_is_no_dot_file(dir: Seq<u8>, name: Seq<char>)
    requires
        name::valid(name),
    ensures
        store::entry_at(dir, name) != store::marker_at(dir),
        store::entry_at(dir, name) != store::lock_at(dir),
{
    an_entry_stays_in_the_store(dir, name);
    relative_is_ascii(name);
    dot_files_are_in_the_store(dir);
    assert(name::component_starts(name, 0));
    let root = paths::under(dir).len() as int;
    assert(relative(name)[0] == name[0]);
    assert(name::allowed(name[0]));
    assert(text::utf8(relative(name))[0] == name[0] as u8);
    assert(store::entry_at(dir, name)[root] == name[0] as u8);
    assert(store::marker_at(dir)[root] == '.' as u8);
    assert(store::lock_at(dir)[root] == '.' as u8);
}

/// The marker and the lock stand in the store directory, under names that start
/// with a dot.
pub proof fn dot_files_are_in_the_store(dir: Seq<u8>)
    ensures
        store::marker_at(dir) == paths::under(dir) + text::utf8(".keyjar-recipient"@),
        store::lock_at(dir) == paths::under(dir) + text::utf8(".keyjar.lock"@),
        text::utf8(".keyjar-recipient"@).len() == 17,
        text::utf8(".keyjar.lock"@).len() == 12,
        text::utf8(".keyjar-recipient"@)[0] == '.' as u8,
        text::utf8(".keyjar.lock"@)[0] == '.' as u8,
{
    reveal_strlit(".keyjar-recipient");
    reveal_strlit(".keyjar.lock");
    vstd::utf8::is_ascii_chars_encode_utf8(".keyjar-recipient"@);
    vstd::utf8::is_ascii_chars_encode_utf8(".keyjar.lock"@);
    assert(text::utf8(".keyjar-recipient"@)[0] == ".keyjar-recipient"@[0] as u8);
    assert(text::utf8(".keyjar.lock"@)[0] == ".keyjar.lock"@[0] as u8);
}

/// A text that can be the start of a name: ASCII, and not starting with a slash.
spec fn begins_a_name(s: Seq<char>) -> bool {
    &&& vstd::utf8::is_ascii_chars(s)
    &&& s.len() > 0 ==> s[0] != '/'
}

/// The directories of a text are above whatever its bytes lead to, each above
/// those that come before it, and all strictly inside the store.
proof fn directories_lie_above(dir: Seq<u8>, s: Seq<char>, path: Seq<u8>)
    requires
        begins_a_name(s),
        (paths::under(dir) + text::utf8(s)).is_prefix_of(path),
    ensures
        forall|j: int|
            0 <= j < store::parents(dir, s).len() ==> disk::above(
                #[trigger] store::parents(dir, s)[j],
                path,
            ) && paths::under(dir).len() < store::parents(dir, s)[j].len()
                && paths::under(dir).is_prefix_of(store::parents(dir, s)[j]),
        forall|j: int, k: int|
            0 <= j < k < store::parents(dir, s).len() ==> disk::above(
                #[trigger] store::parents(dir, s)[k],
                #[trigger] store::parents(dir, s)[j],
            ),
    decreases s.len(),
{
    if s.len() > 0 {
        let root = paths::under(dir);
        let t = s.drop_last();
        assert(begins_a_name(t)) by {
            assert forall|i: int| 0 <= i < t.len() implies '\0' <= #[trigger] t[i]
                <= '\u{7f}' by {
                assert(t[i] == s[i]);
            }
        }
        vstd::utf8::is_ascii_chars_encode_utf8(s);
        vstd::utf8::is_ascii_chars_encode_utf8(t);
        let short = root + text::utf8(t);
        let long = root + text::utf8(s);
        assert(path.subrange(0, long.len() as int) == long);
        assert(long.take(short.len() as int) =~= short) by {
            assert forall|i: int| 0 <= i < t.len() implies text::utf8(t)[i] == text::utf8(
                s,
            )[i] by {
                assert(t[i] == s[i]);
            }
        }
        assert(path.subrange(0, short.len() as int) =~= short) by {
            assert forall|i: int| 0 <= i < short.len() implies path[i] == short[i] by {
                assert(path.subrange(0, long.len() as int)[i] == path[i]);
                assert(long.take(short.len() as int)[i] == short[i]);
            }
        }
        if s.last() == '/' {
            assert(t.len() > 0);
            assert(s.last() == s[t.len() as int]);
            assert(text::utf8(s)[t.len() as int] == '/' as u8);
            assert(long[short.len() as int] == text::SLASH);
            assert(path.subrange(0, long.len() as int)[short.len() as int]
                == path[short.len() as int]);
            assert(t[0] == s[0]);
            assert(text::utf8(t)[0] == t[0] as u8);
            assert(!paths::absolute(text::utf8(t)));
            assert(path.take(short.len() as int) =~= short);
            assert(disk::above(short, path));
            assert(short.subrange(0, root.len() as int) =~= root);
            assert(short.subrange(0, short.len() as int) =~= short);
            directories_lie_above(dir, t, path);
            directories_lie_above(dir, t, short);
            let all = store::parents(dir, s);
            let rest = store::parents(dir, t);
            assert(all == seq![short] + rest);
            assert forall|j: int| 0 <= j < all.len() implies disk::above(#[trigger] all[j], path)
                && root.len() < all[j].len() && root.is_prefix_of(all[j]) by {
                if j > 0 {
                    assert(all[j] == rest[j - 1]);
                }
            }
            assert forall|j: int, k: int| 0 <= j < k < all.len() implies disk::above(
                #[trigger] all[k],
                #[trigger] all[j],
            ) by {
                assert(all[k] == rest[k - 1]);
                if j > 0 {
                    assert(all[j] == rest[j - 1]);
                }
            }
        } else {
            directories_lie_above(dir, t, path);
            assert(store::parents(dir, s) == store::parents(dir, t));
        }
    }
}

/// The directories of an entry are above its file, each above those that come
/// before it, and all strictly inside the store: the store itself is not one.
pub proof fn parents_lie_between(dir: Seq<u8>, name: Seq<char>)
    requires
        name::valid(name),
    ensures
        forall|j: int|
            0 <= j < store::parents(dir, name).len() ==> disk::above(
                #[trigger] store::parents(dir, name)[j],
                store::entry_at(dir, name),
            ) && paths::under(dir).len() < store::parents(dir, name)[j].len()
                && paths::under(dir).is_prefix_of(store::parents(dir, name)[j]),
        forall|j: int, k: int|
            0 <= j < k < store::parents(dir, name).len() ==> disk::above(
                #[trigger] store::parents(dir, name)[k],
                #[trigger] store::parents(dir, name)[j],
            ),
{
    an_entry_stays_in_the_store(dir, name);
    relative_is_ascii(name);
    let path = store::entry_at(dir, name);
    let root = paths::under(dir);
    assert(begins_a_name(name)) by {
        assert(name::component_starts(name, 0));
        assert forall|i: int| 0 <= i < name.len() implies '\0' <= #[trigger] name[i]
            <= '\u{7f}' by {
            assert(relative(name)[i] == name[i]);
        }
    }
    vstd::utf8::is_ascii_chars_encode_utf8(name);
    assert(path.subrange(0, (root + text::utf8(name)).len() as int) =~= root + text::utf8(name))
        by {
        assert forall|i: int| 0 <= i < name.len() implies text::utf8(name)[i] == text::utf8(
            relative(name),
        )[i] by {
            assert(relative(name)[i] == name[i]);
        }
    }
    directories_lie_above(dir, name, path);
}

} // verus!
