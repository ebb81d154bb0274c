//! Paths by their components. Repeated slashes, slashes at the end, and `.` count
//! for nothing, but for a `.` that a path starts with.

use vstd::prelude::*;

use crate::paths;
use crate::text;

verus! {

pub const DOT: u8 = 0x2e;

/// What comes before the components: the root, the current directory spelled out
/// as `.`, or nothing.
#[derive(Clone, Copy)]
pub enum Start {
    Root,
    Current,
    Plain,
}

/// The path starts with a `.` that is a component by itself.
pub open spec fn starts_with_dot(path: Seq<u8>) -> bool {
    path.len() > 0 && path[0] == DOT && (path.len() == 1 || path[1] == text::SLASH)
}

pub open spec fn start_of(path: Seq<u8>) -> Start {
    if paths::absolute(path) {
        Start::Root
    } else if starts_with_dot(path) {
        Start::Current
    } else {
        Start::Plain
    }
}

/// The path without what comes before its components.
pub open spec fn body_of(path: Seq<u8>) -> Seq<u8> {
    if start_of(path) is Plain {
        path
    } else {
        path.drop_first()
    }
}

/// Without what counts for nothing at the start.
pub open spec fn trimmed_left(s: Seq<u8>) -> Seq<u8>
    decreases s.len(),
{
    if s.len() > 0 && (s[0] == text::SLASH || starts_with_dot(s)) {
        trimmed_left(s.drop_first())
    } else {
        s
    }
}

/// The path ends with a `.` that is a component by itself.
pub open spec fn ends_with_dot(s: Seq<u8>) -> bool {
    s.len() > 0 && s.last() == DOT && (s.len() == 1 || s[s.len() - 2] == text::SLASH)
}

/// Without what counts for nothing at the end.
pub open spec fn trimmed_right(s: Seq<u8>) -> Seq<u8>
    decreases s.len(),
{
    if s.len() > 0 && (s.last() == text::SLASH || ends_with_dot(s)) {
        trimmed_right(s.drop_last())
    } else {
        s
    }
}

/// The number of bytes before the first slash, or all of them.
pub open spec fn to_slash(s: Seq<u8>) -> int
    decreases s.len(),
{
    if s.len() == 0 || s[0] == text::SLASH {
        0
    } else {
        1 + to_slash(s.drop_first())
    }
}

pub proof fn to_slash_is_first(s: Seq<u8>)
    ensures
        0 <= to_slash(s) <= s.len(),
        to_slash(s) < s.len() ==> s[to_slash(s)] == text::SLASH,
        forall|i: int| 0 <= i < to_slash(s) ==> s[i] != text::SLASH,
    decreases s.len(),
{
    if s.len() > 0 && s[0] != text::SLASH {
        to_slash_is_first(s.drop_first());
        let t = s.drop_first();
        assert(forall|i: int| 0 < i < s.len() ==> s[i] == t[i - 1]);
    }
}

proof fn to_slash_is_only(s: Seq<u8>, k: int)
    requires
        0 <= k <= s.len(),
        k < s.len() ==> s[k] == text::SLASH,
        forall|i: int| 0 <= i < k ==> s[i] != text::SLASH,
    ensures
        to_slash(s) == k,
{
    to_slash_is_first(s);
}

pub proof fn trimmed_left_is_bare(s: Seq<u8>)
    ensures
        trimmed_left(s).len() <= s.len(),
        trimmed_left(s).len() > 0 ==> trimmed_left(s)[0] != text::SLASH && !starts_with_dot(
            trimmed_left(s),
        ),
    decreases s.len(),
{
    if s.len() > 0 && (s[0] == text::SLASH || starts_with_dot(s)) {
        trimmed_left_is_bare(s.drop_first());
    }
}

/// What is left of a body after the components of another, as it is spelled, if
/// it starts with them.
pub open spec fn past(dir: Seq<u8>, path: Seq<u8>) -> Option<Seq<u8>>
    decreases dir.len(),
{
    let d = trimmed_left(dir);
    let p = trimmed_left(path);
    let k = to_slash(d);
    if d.len() == 0 {
        Some(trimmed_right(p))
    } else {
        proof {
            trimmed_left_is_bare(dir);
            to_slash_is_first(d);
        }
        if to_slash(p) == k && p.take(k) == d.take(k) {
            past(d.skip(k), p.skip(k))
        } else {
            None
        }
    }
}

/// The path of something within a directory, if it is in it: they start alike,
/// and the components of the directory come first.
pub open spec fn within(dir: Seq<u8>, path: Seq<u8>) -> Option<Seq<u8>> {
    if start_of(dir) == start_of(path) {
        past(body_of(dir), body_of(path))
    } else {
        None
    }
}

// ---------------------------------------------------------------------------
// Computing it

fn begins_with_dot(path: &[u8], from: usize) -> (r: bool)
    requires
        from <= path@.len(),
    ensures
        r == starts_with_dot(path@.skip(from as int)),
{
    from < path.len() && path[from] == DOT && (path.len() - from == 1 || path[from + 1]
        == text::SLASH)
}

fn start(path: &[u8]) -> (r: Start)
    ensures
        r == start_of(path@),
{
    proof {
        assert(path@.skip(0) =~= path@);
    }
    if paths::is_absolute(path) {
        Start::Root
    } else if begins_with_dot(path, 0) {
        Start::Current
    } else {
        Start::Plain
    }
}

fn skip_left(path: &[u8], from: usize) -> (r: usize)
    requires
        from <= path@.len(),
    ensures
        from <= r <= path@.len(),
        path@.skip(r as int) == trimmed_left(path@.skip(from as int)),
{
    let mut i: usize = from;
    while i < path.len() && (path[i] == text::SLASH || begins_with_dot(path, i))
        invariant
            from <= i <= path@.len(),
            trimmed_left(path@.skip(from as int)) == trimmed_left(path@.skip(i as int)),
        decreases path@.len() - i,
    {
        proof {
            assert(path@.skip(i as int).drop_first() =~= path@.skip(i + 1));
        }
        i = i + 1;
    }
    i
}

fn piece_end(path: &[u8], from: usize) -> (r: usize)
    requires
        from <= path@.len(),
    ensures
        from <= r <= path@.len(),
        r - from == to_slash(path@.skip(from as int)),
{
    let mut i: usize = from;
    while i < path.len() && path[i] != text::SLASH
        invariant
            from <= i <= path@.len(),
            to_slash(path@.skip(from as int)) == i - from + to_slash(path@.skip(i as int)),
        decreases path@.len() - i,
    {
        proof {
            assert(path@.skip(i as int).drop_first() =~= path@.skip(i + 1));
        }
        i = i + 1;
    }
    i
}

fn copy_trimmed(path: &[u8], from: usize) -> (r: Vec<u8>)
    requires
        from <= path@.len(),
    ensures
        r@ == trimmed_right(path@.skip(from as int)),
{
    let mut out: Vec<u8> = Vec::new();
    let mut i: usize = from;
    while i < path.len()
        invariant
            from <= i <= path@.len(),
            out@ == path@.subrange(from as int, i as int),
        decreases path@.len() - i,
    {
        out.push(path[i]);
        i = i + 1;
        proof {
            assert(out@ =~= path@.subrange(from as int, i as int));
        }
    }
    proof {
        assert(out@ =~= path@.skip(from as int));
    }
    let ghost whole = out@;
    while out.len() > 0 && (out[out.len() - 1] == text::SLASH || (out[out.len() - 1] == DOT && (
    out.len() == 1 || out[out.len() - 2] == text::SLASH)))
        invariant
            trimmed_right(whole) == trimmed_right(out@),
        decreases out@.len(),
    {
        let ghost before = out@;
        out.pop();
        proof {
            assert(out@ =~= before.drop_last());
        }
    }
    out
}

/// The path of something within a directory, as it is spelled, if it is in it.
pub fn strip_dir(dir: &[u8], path: &[u8]) -> (r: Option<Vec<u8>>)
    ensures
        match within(dir@, path@) {
            Some(rest) => r matches Some(bytes) && bytes@ == rest,
            None => r is None,
        },
{
    let mut i: usize = 0;
    let mut j: usize = 0;
    proof {
        assert(dir@.skip(0) =~= dir@);
        assert(path@.skip(0) =~= path@);
    }
    match (start(dir), start(path)) {
        (Start::Plain, Start::Plain) => {},
        (Start::Root, Start::Root) | (Start::Current, Start::Current) => {
            proof {
                assert(dir@.skip(1) =~= dir@.drop_first());
                assert(path@.skip(1) =~= path@.drop_first());
            }
            i = 1;
            j = 1;
        },
        _ => {
            return None;
        },
    }
    loop
        invariant
            i <= dir@.len(),
            j <= path@.len(),
            within(dir@, path@) == past(dir@.skip(i as int), path@.skip(j as int)),
        decreases dir@.len() - i,
    {
        let d: usize = skip_left(dir, i);
        let p: usize = skip_left(path, j);
        if d >= dir.len() {
            return Some(copy_trimmed(path, p));
        }
        let d_end: usize = piece_end(dir, d);
        let p_end: usize = piece_end(path, p);
        proof {
            trimmed_left_is_bare(dir@.skip(i as int));
            to_slash_is_first(dir@.skip(d as int));
        }
        if d_end - d != p_end - p {
            return None;
        }
        let mut k: usize = 0;
        proof {
            assert(dir@.subrange(d as int, d as int) =~= path@.subrange(p as int, p as int));
        }
        while k < d_end - d
            invariant
                k <= d_end - d == p_end - p,
                d <= d_end <= dir@.len(),
                p <= p_end <= path@.len(),
                d_end - d == to_slash(dir@.skip(d as int)),
                dir@.skip(d as int) == trimmed_left(dir@.skip(i as int)),
                path@.skip(p as int) == trimmed_left(path@.skip(j as int)),
                d < dir@.len(),
                p_end - p == to_slash(path@.skip(p as int)),
                within(dir@, path@) == past(dir@.skip(i as int), path@.skip(j as int)),
                dir@.subrange(d as int, d + k) == path@.subrange(p as int, p + k),
            decreases d_end - d - k,
        {
            if dir[d + k] != path[p + k] {
                proof {
                    let n = d_end - d;
                    assert(dir@.skip(d as int).take(n)[k as int] == dir@[d + k]);
                    assert(path@.skip(p as int).take(n)[k as int] == path@[p + k]);
                }
                return None;
            }
            k = k + 1;
            proof {
                assert(dir@.subrange(d as int, d + k) =~= dir@.subrange(
                    d as int,
                    d + k - 1,
                ).push(dir@[d + k - 1]));
                assert(path@.subrange(p as int, p + k) =~= path@.subrange(
                    p as int,
                    p + k - 1,
                ).push(path@[p + k - 1]));
            }
        }
        proof {
            let n = d_end - d;
            assert(dir@.skip(d as int).take(n) =~= dir@.subrange(d as int, d_end as int));
            assert(path@.skip(p as int).take(n) =~= path@.subrange(p as int, p_end as int));
            assert(dir@.skip(d as int).skip(n) =~= dir@.skip(d_end as int));
            assert(path@.skip(p as int).skip(n) =~= path@.skip(p_end as int));
        }
        i = d_end;
        j = p_end;
    }
}

// ---------------------------------------------------------------------------
// Paths under a directory

/// Nothing at either end of a path counts for nothing.
pub open spec fn is_bare(rest: Seq<u8>) -> bool {
    &&& rest.len() > 0
    &&& rest[0] != text::SLASH
    &&& rest[0] != DOT
    &&& rest.last() != text::SLASH
    &&& !ends_with_dot(rest)
}

/// A body and what is put under it.
proof fn what_is_under_a_body(b: Seq<u8>, gap: Seq<u8>, rest: Seq<u8>)
    requires
        is_bare(rest),
        gap == seq![text::SLASH] || (gap.len() == 0 && (b.len() == 0 || b.last() == text::SLASH)),
    ensures
        past(b, b + gap + rest) == Some(rest),
    decreases b.len(),
{
    let m = gap + rest;
    let whole = b + gap + rest;
    assert(whole =~= b + m);
    if b.len() == 0 {
        assert(whole =~= m);
        if gap.len() > 0 {
            assert(m.drop_first() =~= rest);
        } else {
            assert(m =~= rest);
        }
        assert(trimmed_left(m) == rest) by {
            reveal_with_fuel(trimmed_left, 2);
        }
    } else if b[0] == text::SLASH || starts_with_dot(b) {
        let c = b.drop_first();
        assert(whole.drop_first() =~= c + gap + rest);
        assert(whole[0] == b[0]);
        if b.len() > 1 {
            assert(whole[1] == b[1]);
            assert(c.last() == b.last());
        } else if b[0] == DOT {
            assert(whole[1] == text::SLASH);
        }
        what_is_under_a_body(c, gap, rest);
        assert(trimmed_left(b) == trimmed_left(c));
        assert(trimmed_left(whole) == trimmed_left(c + gap + rest));
        assert(past(b, whole) == past(c, c + gap + rest));
    } else {
        to_slash_is_first(b);
        let k = to_slash(b);
        assert(whole[0] == b[0]);
        if b.len() > 1 {
            assert(whole[1] == b[1]);
        } else {
            assert(b[0] != DOT);
        }
        assert(trimmed_left(whole) == whole);
        assert forall|i: int| 0 <= i < k implies whole[i] != text::SLASH by {
            assert(whole[i] == b[i]);
        }
        if k < b.len() {
            assert(whole[k] == b[k]);
        } else {
            assert(b[b.len() - 1] != text::SLASH);
            assert(gap.len() == 1);
            assert(whole[k] == text::SLASH);
        }
        to_slash_is_only(whole, k);
        assert(whole.take(k) =~= b.take(k));
        let c = b.skip(k);
        assert(whole.skip(k) =~= c + gap + rest);
        if c.len() > 0 {
            assert(c.last() == b.last());
        }
        what_is_under_a_body(c, gap, rest);
    }
}

/// What is put under a directory is found within it, as it was spelled.
pub proof fn what_is_under_is_within(dir: Seq<u8>, rest: Seq<u8>)
    requires
        is_bare(rest),
    ensures
        within(dir, paths::under(dir) + rest) == Some(rest),
{
    let path = paths::under(dir) + rest;
    let gap = if dir.len() > 0 && dir.last() != text::SLASH {
        seq![text::SLASH]
    } else {
        Seq::<u8>::empty()
    };
    assert(path =~= dir + gap + rest);
    if dir.len() == 0 {
        assert(path =~= rest);
    } else {
        assert(path[0] == dir[0]);
        if dir.len() > 1 {
            assert(path[1] == dir[1]);
        } else if dir[0] == DOT {
            assert(path[1] == text::SLASH);
        }
    }
    assert(start_of(path) == start_of(dir));
    let b = body_of(dir);
    assert(body_of(path) =~= b + gap + rest);
    if b.len() > 0 {
        assert(b.last() == dir.last());
    }
    what_is_under_a_body(b, gap, rest);
}

// ---------------------------------------------------------------------------
// Components one by one

/// What stands between the slashes of a path, without what is empty and what is a
/// single dot.
pub open spec fn parts(s: Seq<u8>) -> Seq<Seq<u8>>
    decreases s.len(),
{
    if s.len() == 0 {
        Seq::empty()
    } else {
        let k = to_slash(s);
        let piece = s.take(k);
        let rest = if k < s.len() {
            s.skip(k + 1)
        } else {
            Seq::empty()
        };
        proof {
            to_slash_is_first(s);
        }
        if piece.len() == 0 || piece == seq![0x2eu8] {
            parts(rest)
        } else {
            seq![piece] + parts(rest)
        }
    }
}

/// The components of two paths with a slash between them are those of the first and
/// those of the second. A path without a slash is one component, unless it counts
/// for nothing.
pub proof fn a_slash_parts_components(a: Seq<u8>, b: Seq<u8>)
    ensures
        parts(a + seq![0x2fu8] + b) == parts(a) + parts(b),
        a.len() == 0 || a == seq![0x2eu8] ==> parts(a).len() == 0,
        a.len() > 0 && a != seq![0x2eu8] && !a.contains(0x2f) ==> parts(a) == seq![a],
    decreases a.len(),
{
    let whole = a + seq![0x2fu8] + b;
    let k = to_slash(a);
    to_slash_is_first(a);
    assert forall|i: int| 0 <= i < k implies whole[i] != text::SLASH by {
        assert(whole[i] == a[i]);
    }
    assert(whole[a.len() as int] == text::SLASH);
    if k < a.len() {
        assert(whole[k] == a[k]);
        assert(a.contains(a[k]));
    }
    to_slash_is_only(whole, k);
    assert(whole.take(k) =~= a.take(k));
    reveal_with_fuel(parts, 2);
    if k < a.len() {
        let rest = a.skip(k + 1);
        assert(whole.skip(k + 1) =~= rest + seq![0x2fu8] + b);
        a_slash_parts_components(rest, b);
        assert(parts(whole) =~= parts(a) + parts(b));
        if a == seq![0x2eu8] {
            assert(a[0] == 0x2e);
        }
    } else {
        assert(whole.skip(k + 1) =~= b);
        assert(a.take(k) =~= a);
        assert(parts(whole) =~= parts(a) + parts(b));
        assert(parts(a) =~= if a.len() == 0 || a == seq![0x2eu8] {
            Seq::<Seq<u8>>::empty()
        } else {
            seq![a]
        });
    }
}

/// What counts for nothing at the start is no component, and stands in front.
proof fn the_start_counts_for_nothing(s: Seq<u8>) -> (k: int)
    ensures
        0 <= k <= s.len(),
        trimmed_left(s) == s.skip(k),
        parts(trimmed_left(s)) == parts(s),
    decreases s.len(),
{
    if s.len() > 0 && (s[0] == text::SLASH || starts_with_dot(s)) {
        let t = s.drop_first();
        let k = the_start_counts_for_nothing(t);
        assert(t.skip(k) =~= s.skip(k + 1));
        if s[0] == text::SLASH {
            assert(s =~= Seq::<u8>::empty() + seq![0x2fu8] + t);
            a_slash_parts_components(Seq::empty(), t);
            assert(parts(s) =~= parts(t));
        } else if s.len() == 1 {
            assert(s =~= seq![0x2eu8]);
            a_slash_parts_components(s, t);
            assert(parts(s) =~= parts(t));
        } else {
            let u = s.skip(2);
            assert(s =~= seq![0x2eu8] + seq![0x2fu8] + u);
            assert(t =~= Seq::<u8>::empty() + seq![0x2fu8] + u);
            a_slash_parts_components(seq![0x2eu8], u);
            a_slash_parts_components(Seq::empty(), u);
            assert(parts(s) =~= parts(t));
        }
        k + 1
    } else {
        assert(s.skip(0) =~= s);
        0
    }
}

/// What counts for nothing at the end is no component, and stands behind.
proof fn the_end_counts_for_nothing(s: Seq<u8>) -> (m: int)
    ensures
        0 <= m <= s.len(),
        trimmed_right(s) == s.take(m),
        parts(trimmed_right(s)) == parts(s),
        parts(s.skip(m)).len() == 0,
        m > 0 ==> s[m - 1] != text::SLASH && !ends_with_dot(s.take(m)),
    decreases s.len(),
{
    if s.len() > 0 && (s.last() == text::SLASH || ends_with_dot(s)) {
        let t = s.drop_last();
        let m = the_end_counts_for_nothing(t);
        let n = s.len() as int;
        assert(t.take(m) =~= s.take(m));
        assert(parts(Seq::<u8>::empty()).len() == 0);
        if s.last() == text::SLASH {
            assert(s =~= t + seq![0x2fu8] + Seq::<u8>::empty());
            a_slash_parts_components(t, Seq::empty());
            assert(parts(s) =~= parts(t));
            let x = t.skip(m);
            assert(s.skip(m) =~= x + seq![0x2fu8] + Seq::<u8>::empty());
            a_slash_parts_components(x, Seq::empty());
        } else if n == 1 {
            assert(s =~= seq![0x2eu8]);
            a_slash_parts_components(s, Seq::empty());
            assert(m == 0);
            assert(s.skip(0) =~= s);
            assert(parts(s) =~= parts(t));
        } else {
            let u = s.take(n - 2);
            assert(s =~= u + seq![0x2fu8] + seq![0x2eu8]);
            assert(t =~= u + seq![0x2fu8] + Seq::<u8>::empty());
            a_slash_parts_components(u, seq![0x2eu8]);
            a_slash_parts_components(u, Seq::empty());
            a_slash_parts_components(seq![0x2eu8], Seq::empty());
            assert(parts(s) =~= parts(t));
            assert(m <= n - 2) by {
                if m == n - 1 {
                    assert(t[m - 1] == text::SLASH);
                }
            }
            let y = u.skip(m);
            assert(t.skip(m) =~= y + seq![0x2fu8] + Seq::<u8>::empty());
            assert(s.skip(m) =~= y + seq![0x2fu8] + seq![0x2eu8]);
            a_slash_parts_components(y, seq![0x2eu8]);
            a_slash_parts_components(y, Seq::empty());
        }
        assert(m > 0 ==> s[m - 1] == t[m - 1]);
        m
    } else {
        assert(s.take(s.len() as int) =~= s);
        assert(s.skip(s.len() as int) =~= Seq::<u8>::empty());
        assert(parts(s.skip(s.len() as int)).len() == 0);
        s.len() as int
    }
}

/// What does not start with what counts for nothing starts with a component.
proof fn a_component_comes_first(s: Seq<u8>)
    requires
        s.len() > 0,
        s[0] != text::SLASH,
        !starts_with_dot(s),
    ensures
        0 < to_slash(s) <= s.len(),
        parts(s) == seq![s.take(to_slash(s))] + parts(s.skip(to_slash(s))),
{
    let k = to_slash(s);
    to_slash_is_first(s);
    let piece = s.take(k);
    let tail = s.skip(k);
    if piece == seq![0x2eu8] {
        assert(piece.len() == 1);
        assert(k == 1);
        assert(seq![0x2eu8][0] == s[0]);
        assert(starts_with_dot(s));
    }
    if k < s.len() {
        assert(tail =~= Seq::<u8>::empty() + seq![0x2fu8] + s.skip(k + 1));
        a_slash_parts_components(Seq::empty(), s.skip(k + 1));
        assert(parts(tail) =~= parts(s.skip(k + 1)));
    } else {
        assert(tail =~= Seq::<u8>::empty());
    }
}

/// What is left past a directory is a stretch of the path that runs to its end, but
/// for what counts for nothing.
pub open spec fn is_stretch(rest: Seq<u8>, path: Seq<u8>) -> bool {
    exists|i: int, j: int|
        0 <= i <= j <= path.len() && rest == #[trigger] path.subrange(i, j) && parts(
            path.skip(j),
        ).len() == 0
}

proof fn past_goes_by_components(dir: Seq<u8>, path: Seq<u8>)
    ensures
        past(dir, path) is Some <==> parts(dir).is_prefix_of(parts(path)),
        past(dir, path) matches Some(rest) ==> {
            &&& parts(rest) == parts(path).skip(parts(dir).len() as int)
            &&& is_stretch(rest, path)
            &&& rest.len() > 0 ==> rest[0] != 0x2f && !starts_with_dot(rest) && rest.last() != 0x2f
                && !ends_with_dot(rest)
        },
    decreases dir.len(),
{
    let d = trimmed_left(dir);
    let p = trimmed_left(path);
    let k = to_slash(d);
    let di = the_start_counts_for_nothing(dir);
    let pi = the_start_counts_for_nothing(path);
    trimmed_left_is_bare(dir);
    trimmed_left_is_bare(path);
    if d.len() == 0 {
        let m = the_end_counts_for_nothing(p);
        let rest = p.take(m);
        assert(parts(d) =~= Seq::<Seq<u8>>::empty());
        assert(parts(path).skip(0) =~= parts(path));
        assert(parts(path).subrange(0, 0) =~= parts(dir));
        assert(rest =~= path.subrange(pi, pi + m));
        assert(p.skip(m) =~= path.skip(pi + m));
        if m > 0 {
            assert(rest[0] == p[0]);
            if m > 1 {
                assert(rest[1] == p[1]);
            } else {
                assert(rest.last() == rest[0]);
            }
        }
    } else {
        a_component_comes_first(d);
        let dt = d.skip(k);
        let all = parts(path);
        let some = parts(dir);
        assert(some[0] == d.take(k));
        if p.len() == 0 {
            assert(parts(p).len() == 0);
        } else {
            a_component_comes_first(p);
            let pk = to_slash(p);
            assert(all[0] == p.take(pk));
            let same = pk == k && p.take(k) == d.take(k);
            if same {
                let pt = p.skip(k);
                past_goes_by_components(dt, pt);
                let n = parts(dt).len() as int;
                if parts(dt).is_prefix_of(parts(pt)) {
                    assert(all.subrange(0, n + 1) =~= some) by {
                        assert forall|i: int| 0 <= i < n + 1 implies all[i] == some[i] by {
                            if i > 0 {
                                assert(parts(pt).subrange(0, n)[i - 1] == parts(dt)[i - 1]);
                            }
                        }
                    }
                    assert(all.skip(n + 1) =~= parts(pt).skip(n));
                    let rest = past(dt, pt)->0;
                    let (i, j) = choose|i: int, j: int|
                        0 <= i <= j <= pt.len() && rest == #[trigger] pt.subrange(i, j) && parts(
                            pt.skip(j),
                        ).len() == 0;
                    assert(pt =~= path.skip(pi + k));
                    assert(rest =~= path.subrange(pi + k + i, pi + k + j));
                    assert(pt.skip(j) =~= path.skip(pi + k + j));
                } else if some.is_prefix_of(all) {
                    assert(parts(pt).subrange(0, n) =~= parts(dt)) by {
                        assert forall|i: int| 0 <= i < n implies parts(pt)[i] == parts(dt)[i] by {
                            assert(all.subrange(0, n + 1)[i + 1] == some[i + 1]);
                        }
                    }
                }
            } else if some.is_prefix_of(all) {
                assert(all.subrange(0, some.len() as int)[0] == some[0]);
                assert(d.take(k).len() == k && p.take(pk).len() == pk);
            }
        }
    }
}

/// A path is within a directory exactly if both start alike, at the root, with a
/// single dot or with neither, and the components of the directory come first in
/// it. What is left has the other components, as they are spelled in the path.
pub proof fn within_goes_by_components(dir: Seq<u8>, path: Seq<u8>)
    ensures
        within(dir, path) is Some <==> start_of(dir) == start_of(path) && parts(dir).is_prefix_of(
            parts(path),
        ),
        within(dir, path) matches Some(rest) ==> {
            &&& parts(rest) == parts(path).skip(parts(dir).len() as int)
            &&& is_stretch(rest, path)
            &&& rest.len() > 0 ==> rest[0] != 0x2f && !starts_with_dot(rest) && rest.last() != 0x2f
                && !ends_with_dot(rest)
        },
        start_of(path) is Root <==> path.len() > 0 && path[0] == 0x2f,
        start_of(path) is Current <==> path == seq![0x2eu8] || (path.len() > 1 && path[0] == 0x2e
            && path[1] == 0x2f),
{
    let b = body_of(dir);
    let c = body_of(path);
    past_goes_by_components(b, c);
    a_body_has_the_components(dir);
    a_body_has_the_components(path);
    if start_of(path) is Current && path.len() == 1 {
        assert(path =~= seq![0x2eu8]);
    }
    if within(dir, path) is Some {
        let rest = within(dir, path)->0;
        let (i, j) = choose|i: int, j: int|
            0 <= i <= j <= c.len() && rest == #[trigger] c.subrange(i, j) && parts(c.skip(j)).len()
                == 0;
        if start_of(path) is Plain {
            assert(rest == path.subrange(i, j));
        } else {
            assert(rest =~= path.subrange(i + 1, j + 1));
            assert(c.skip(j) =~= path.skip(j + 1));
        }
    }
}

proof fn a_body_has_the_components(path: Seq<u8>)
    ensures
        parts(body_of(path)) == parts(path),
{
    if !(start_of(path) is Plain) {
        let t = path.drop_first();
        the_start_counts_for_nothing(path);
        the_start_counts_for_nothing(t);
        assert(trimmed_left(path) == trimmed_left(t));
    }
}

} // verus!
