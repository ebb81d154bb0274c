//! What text, names, variables and input come to, said of the characters
//! themselves.

use vstd::prelude::*;
use vstd::string::*;

use crate::env;
use crate::name;
use crate::name::Fault;
use crate::text;
use crate::tty;

verus! {

// ---------------------------------------------------------------------------
// Pieces of a text

/// Splitting undoes joining: a text without the separator is one piece, and two
/// texts with a separator between them are the pieces of the first and those of the
/// second.
pub proof fn splitting_undoes_joining(a: Seq<char>, c: char, b: Seq<char>)
    ensures
        !a.contains(c) ==> text::split(a, c) == seq![a],
        text::split(a + seq![c] + b, c) == text::split(a, c) + text::split(b, c),
    decreases a.len(),
{
    let whole = a + seq![c] + b;
    let k = text::run(a, c);
    text::run_is_first(a, c);
    if k >= a.len() {
        assert forall|i: int| 0 <= i < a.len() implies whole[i] != c by {
            assert(whole[i] == a[i]);
        }
        assert(whole[a.len() as int] == c);
        text::run_is_only(whole, c, a.len() as int);
        assert(whole.take(a.len() as int) =~= a);
        assert(whole.skip(a.len() as int + 1) =~= b);
    } else {
        assert(a.contains(a[k]));
        assert forall|i: int| 0 <= i < k implies whole[i] != c by {
            assert(whole[i] == a[i]);
        }
        assert(whole[k] == a[k]);
        text::run_is_only(whole, c, k);
        assert(whole.take(k) =~= a.take(k));
        let rest = a.skip(k + 1);
        assert(whole.skip(k + 1) =~= rest + seq![c] + b);
        splitting_undoes_joining(rest, c, b);
        assert(text::split(whole, c) =~= text::split(a, c) + text::split(b, c));
    }
}

/// A text is made of its pieces: if its first pieces are those of another text and
/// there are more, it is that text, the separator and a rest.
proof fn pieces_make_the_text(s: Seq<char>, c: char, prefix: Seq<char>)
    requires
        text::split(prefix, c).len() <= text::split(s, c).len(),
        text::split(s, c).take(text::split(prefix, c).len() as int) == text::split(prefix, c),
    ensures
        text::split(prefix, c).len() == text::split(s, c).len() ==> s == prefix,
        text::split(prefix, c).len() < text::split(s, c).len() ==> prefix.len() < s.len()
            && s[prefix.len() as int] == c && s.take(prefix.len() as int) == prefix,
    decreases prefix.len(),
{
    let p = text::split(prefix, c);
    let all = text::split(s, c);
    let k = text::run(prefix, c);
    let m = text::run(s, c);
    text::run_is_first(prefix, c);
    text::run_is_first(s, c);
    split_is_not_empty(prefix, c);
    assert(all.take(p.len() as int)[0] == p[0]);
    if k >= prefix.len() {
        assert(p =~= seq![prefix]);
        if m >= s.len() {
            assert(all =~= seq![s]);
        } else {
            split_is_not_empty(s.skip(m + 1), c);
            assert(s.take(m) == prefix);
        }
    } else {
        let p1 = prefix.skip(k + 1);
        split_is_not_empty(p1, c);
        assert(p.len() >= 2);
        assert(m < s.len());
        let s1 = s.skip(m + 1);
        assert(all[0] == s.take(m));
        assert(p[0] == prefix.take(k));
        assert(m == k);
        assert(p.drop_first() =~= text::split(p1, c));
        assert(all.drop_first() =~= text::split(s1, c));
        assert(text::split(s1, c).take(text::split(p1, c).len() as int) =~= text::split(p1, c)) by {
            assert forall|i: int| 0 <= i < text::split(p1, c).len() implies text::split(s1, c)[i]
                == text::split(p1, c)[i] by {
                assert(all.take(p.len() as int)[i + 1] == p[i + 1]);
            }
        }
        pieces_make_the_text(s1, c, p1);
        assert(s =~= s.take(k) + seq![c] + s1);
        assert(prefix =~= prefix.take(k) + seq![c] + p1);
        if text::split(p1, c).len() < text::split(s1, c).len() {
            assert(s[prefix.len() as int] == s1[p1.len() as int]);
            assert(s.take(prefix.len() as int) =~= prefix) by {
                assert forall|i: int| 0 <= i < prefix.len() implies s[i] == prefix[i] by {
                    if i > k {
                        assert(s[i] == s1[i - k - 1]);
                        assert(s1.take(p1.len() as int)[i - k - 1] == p1[i - k - 1]);
                        assert(prefix[i] == p1[i - k - 1]);
                    } else if i < k {
                        assert(s.take(k)[i] == prefix.take(k)[i]);
                    }
                }
            }
        }
    }
}

proof fn split_is_not_empty(s: Seq<char>, c: char)
    ensures
        text::split(s, c).len() > 0,
{
}

/// All white space.
pub open spec fn blank(s: Seq<char>) -> bool {
    forall|i: int| 0 <= i < s.len() ==> text::white_space(#[trigger] s[i])
}

/// Trimming takes away the white space around a text, and nothing else.
pub proof fn trimming_keeps_the_middle(before: Seq<char>, s: Seq<char>, after: Seq<char>)
    requires
        blank(before),
        blank(after),
        s.len() > 0 ==> !text::white_space(s[0]) && !text::white_space(s.last()),
    ensures
        text::trimmed(before + s + after) == s,
{
    let rest = s + after;
    assert(before + s + after =~= before + rest);
    trimming_at_the_start(before, rest);
    if s.len() > 0 {
        assert(text::trimmed_start(rest) == rest);
        trimming_at_the_end(s, after);
    } else {
        assert(rest =~= after);
        trimming_at_the_start(after, Seq::empty());
        assert(after + Seq::<char>::empty() =~= after);
        assert(text::trimmed_start(after) =~= Seq::<char>::empty());
        assert(s =~= Seq::<char>::empty());
    }
}

proof fn trimming_at_the_start(before: Seq<char>, rest: Seq<char>)
    requires
        blank(before),
    ensures
        text::trimmed_start(before + rest) == text::trimmed_start(rest),
    decreases before.len(),
{
    if before.len() > 0 {
        let less = before.drop_first();
        assert((before + rest).drop_first() =~= less + rest);
        assert((before + rest)[0] == before[0]);
        assert forall|i: int| 0 <= i < less.len() implies text::white_space(#[trigger] less[i]) by {
            assert(less[i] == before[i + 1]);
        }
        trimming_at_the_start(less, rest);
    } else {
        assert(before + rest =~= rest);
    }
}

proof fn trimming_at_the_end(s: Seq<char>, after: Seq<char>)
    requires
        blank(after),
        s.len() > 0,
        !text::white_space(s.last()),
    ensures
        text::trimmed_end(s + after) == s,
    decreases after.len(),
{
    if after.len() > 0 {
        let less = after.drop_last();
        assert((s + after).drop_last() =~= s + less);
        assert((s + after).last() == after.last());
        trimming_at_the_end(s, less);
    } else {
        assert(s + after =~= s);
    }
}

/// Words are what white space parts: a text without any is one word, and two texts
/// with white space between them are the words of the first and those of the second.
pub proof fn words_are_parted_by_white_space(a: Seq<char>, c: char, b: Seq<char>)
    requires
        text::white_space(c),
    ensures
        text::words(Seq::empty()) == Seq::<Seq<char>>::empty(),
        a.len() > 0 && (forall|i: int| 0 <= i < a.len() ==> !text::white_space(#[trigger] a[i]))
            ==> text::words(a) == seq![a],
        text::words(a + seq![c] + b) == text::words(a) + text::words(b),
    decreases a.len(),
{
    let whole = a + seq![c] + b;
    let u = text::trimmed_start(a);
    text::trimmed_start_is_suffix(a);
    if a.len() > 0 && (forall|i: int| 0 <= i < a.len() ==> !text::white_space(#[trigger] a[i])) {
        assert(!text::white_space(a[0]));
        text::word_length_is_first(a);
        assert(text::word_length(a) == a.len());
        assert(a.take(a.len() as int) =~= a);
        assert(a.skip(a.len() as int) =~= Seq::<char>::empty());
        assert(text::words(Seq::empty()) =~= Seq::<Seq<char>>::empty());
        assert(text::words(a) =~= seq![a]);
    }
    trimmed_start_of_a_joint(a, c, b);
    if u.len() == 0 {
        words_go_by_the_trimmed(whole, b);
        assert(text::words(a) =~= Seq::<Seq<char>>::empty());
        assert(text::words(a) + text::words(b) =~= text::words(b));
    } else {
        let w = u + seq![c] + b;
        let k = text::word_length(u);
        text::word_length_is_first(u);
        text::word_length_is_first(w);
        assert(text::word_length(w) == k) by {
            let m = text::word_length(w);
            if m < k {
                assert(w[m] == u[m]);
            } else if m > k {
                if k < u.len() {
                    assert(w[k] == u[k]);
                } else {
                    assert(w[k] == c);
                }
            }
        }
        assert(w.take(k) =~= u.take(k));
        let rest = u.skip(k);
        assert(w.skip(k) =~= rest + seq![c] + b);
        words_are_parted_by_white_space(rest, c, b);
        assert(text::trimmed_start(whole) == w);
        assert(text::words(whole) == seq![w.take(k)] + text::words(w.skip(k)));
        assert(text::words(a) == seq![u.take(k)] + text::words(rest));
        assert(text::words(whole) =~= text::words(a) + text::words(b));
    }
}

proof fn words_go_by_the_trimmed(a: Seq<char>, b: Seq<char>)
    requires
        text::trimmed_start(a) == text::trimmed_start(b),
    ensures
        text::words(a) == text::words(b),
{
}

proof fn trimmed_start_of_a_joint(a: Seq<char>, c: char, b: Seq<char>)
    requires
        text::white_space(c),
    ensures
        text::trimmed_start(a).len() == 0 ==> text::trimmed_start(a + seq![c] + b)
            == text::trimmed_start(b),
        text::trimmed_start(a).len() > 0 ==> text::trimmed_start(a + seq![c] + b)
            == text::trimmed_start(a) + seq![c] + b,
    decreases a.len(),
{
    let whole = a + seq![c] + b;
    if a.len() == 0 {
        assert(whole.drop_first() =~= b);
    } else {
        assert(whole[0] == a[0]);
        if text::white_space(a[0]) {
            assert(whole.drop_first() =~= a.drop_first() + seq![c] + b);
            trimmed_start_of_a_joint(a.drop_first(), c, b);
        }
    }
}

/// One text comes before another where they part: at the first place in which they
/// differ it has the smaller character, or it ends there.
pub proof fn texts_are_ordered_where_they_part(a: Seq<char>, b: Seq<char>, k: int)
    requires
        0 <= k <= a.len(),
        k <= b.len(),
        a.take(k) == b.take(k),
        k < a.len() && k < b.len() ==> a[k] != b[k],
    ensures
        text::less(a, b) <==> k < b.len() && (k == a.len() || a[k] < b[k]),
    decreases k,
{
    if k > 0 {
        assert(a.take(k)[0] == b.take(k)[0]);
        let x = a.drop_first();
        let y = b.drop_first();
        assert(x.take(k - 1) =~= y.take(k - 1)) by {
            assert forall|i: int| 0 <= i < k - 1 implies x[i] == y[i] by {
                assert(a.take(k)[i + 1] == b.take(k)[i + 1]);
                assert(a.take(k)[i + 1] == a[i + 1]);
                assert(b.take(k)[i + 1] == b[i + 1]);
            }
        }
        assert(a[0] == a.take(k)[0]);
        assert(b[0] == b.take(k)[0]);
        texts_are_ordered_where_they_part(x, y, k - 1);
    }
}

/// The number that decimal digits stand for.
pub open spec fn number(s: Seq<char>) -> int
    decreases s.len(),
{
    if s.len() == 0 {
        0
    } else {
        10 * number(s.drop_last()) + (s.last() as int - '0' as int)
    }
}

/// A number is written in decimal digits that stand for it, without a zero in front.
pub proof fn a_decimal_stands_for_its_number(n: nat)
    ensures
        number(text::decimal(n)) == n,
        text::decimal(n).len() > 0,
        forall|i: int|
            0 <= i < text::decimal(n).len() ==> '0' <= #[trigger] text::decimal(n)[i] <= '9',
        text::decimal(n)[0] == '0' ==> n == 0,
    decreases n,
{
    let s = text::decimal(n);
    if n < 10 {
        assert(s.drop_last() =~= Seq::<char>::empty());
        reveal_with_fuel(number, 2);
    } else {
        a_decimal_stands_for_its_number(n / 10);
        assert(s.drop_last() =~= text::decimal(n / 10));
        assert(s[0] == text::decimal(n / 10)[0]);
        assert forall|i: int| 0 <= i < s.len() implies '0' <= #[trigger] s[i] <= '9' by {
            if i < s.len() - 1 {
                assert(s[i] == text::decimal(n / 10)[i]);
            }
        }
    }
}

// ---------------------------------------------------------------------------
// Names

/// A component that a name may have: not empty, not hidden, and of letters, digits,
/// dots, underscores and hyphens.
pub open spec fn good(component: Seq<char>) -> bool {
    &&& component.len() > 0
    &&& component[0] != '.'
    &&& forall|j: int| 0 <= j < component.len() ==> plain(#[trigger] component[j])
}

/// A character that a component may have.
pub open spec fn plain(c: char) -> bool {
    'a' <= c <= 'z' || 'A' <= c <= 'Z' || '0' <= c <= '9' || c == '.' || c == '_' || c == '-'
}

/// A text is a name exactly if all its components are good.
pub proof fn a_name_has_good_components(s: Seq<char>)
    ensures
        name::valid(s) <==> forall|i: int|
            0 <= i < text::split(s, '/').len() ==> good(#[trigger] text::split(s, '/')[i]),
{
    name::faultless_is_valid(s);
    faultless_components_are_good(text::split(s, '/'));
    if s.len() == 0 {
        assert(text::split(s, '/') =~= seq![s]);
        assert(!good(text::split(s, '/')[0]));
    }
}

proof fn first_refused_is_first(s: Seq<char>)
    ensures
        name::first_refused(s) is None <==> forall|j: int|
            0 <= j < s.len() ==> plain(#[trigger] s[j]),
        name::first_refused(s) matches Some(c) ==> exists|j: int|
            0 <= j < s.len() && #[trigger] s[j] == c && !plain(c) && forall|i: int|
                0 <= i < j ==> plain(#[trigger] s[i]),
    decreases s.len(),
{
    if s.len() > 0 {
        let t = s.drop_first();
        first_refused_is_first(t);
        assert(forall|i: int| 0 <= i < t.len() ==> t[i] == s[i + 1]);
        if !plain(s[0]) {
            assert(name::first_refused(s) == Some(s[0]));
        } else {
            match name::first_refused(t) {
                Some(c) => {
                    let j = choose|j: int|
                        0 <= j < t.len() && #[trigger] t[j] == c && !plain(c) && forall|i: int|
                            0 <= i < j ==> plain(#[trigger] t[i]);
                    assert(s[j + 1] == c);
                    assert forall|i: int| 0 <= i < j + 1 implies plain(#[trigger] s[i]) by {
                        if i > 0 {
                            assert(plain(t[i - 1]));
                        }
                    }
                },
                None => {
                    assert forall|i: int| 0 <= i < s.len() implies plain(#[trigger] s[i]) by {
                        if i > 0 {
                            assert(plain(t[i - 1]));
                        }
                    }
                },
            }
        }
    }
}

proof fn faultless_components_are_good(components: Seq<Seq<char>>)
    ensures
        name::first_fault(components) is None <==> forall|i: int|
            0 <= i < components.len() ==> good(#[trigger] components[i]),
    decreases components.len(),
{
    if components.len() > 0 {
        let rest = components.drop_first();
        faultless_components_are_good(rest);
        first_refused_is_first(components[0]);
        assert(forall|i: int| 0 <= i < rest.len() ==> rest[i] == components[i + 1]);
        if name::first_fault(components) is None {
            assert forall|i: int| 0 <= i < components.len() implies good(
                #[trigger] components[i],
            ) by {
                if i > 0 {
                    assert(good(rest[i - 1]));
                }
            }
        } else if forall|i: int| 0 <= i < components.len() ==> good(#[trigger] components[i]) {
            assert(good(components[0]));
            assert forall|i: int| 0 <= i < rest.len() implies good(#[trigger] rest[i]) by {
                assert(good(components[i + 1]));
            }
        }
    }
}

/// What is wrong with a component.
pub open spec fn is_wrong(component: Seq<char>, fault: Fault) -> bool {
    match fault {
        Fault::Empty => false,
        Fault::EmptyComponent => component.len() == 0,
        Fault::Dot => component.len() > 0 && component[0] == '.',
        Fault::Character(c) => component.len() > 0 && component[0] != '.' && exists|j: int|
            0 <= j < component.len() && #[trigger] component[j] == c && !plain(c) && forall|i: int|
                0 <= i < j ==> plain(#[trigger] component[i]),
    }
}

/// The complaint about a refused text is about what is first wrong with it: its
/// first component that is not good, and in that the first character that is not
/// allowed.
pub proof fn the_first_fault_is_named(s: Seq<char>)
    ensures
        name::fault(s) is Some <==> !name::valid(s),
        s.len() == 0 ==> name::fault(s) == Some(Fault::Empty),
        s.len() > 0 ==> (name::fault(s) matches Some(fault) ==> exists|k: int|
            {
                &&& 0 <= k < text::split(s, '/').len()
                &&& is_wrong(#[trigger] text::split(s, '/')[k], fault)
                &&& forall|i: int| 0 <= i < k ==> good(#[trigger] text::split(s, '/')[i])
            }),
{
    name::faultless_is_valid(s);
    if s.len() > 0 && name::fault(s) is Some {
        the_first_faulty_component(text::split(s, '/'));
    }
}

proof fn the_first_faulty_component(components: Seq<Seq<char>>)
    requires
        name::first_fault(components) is Some,
    ensures
        exists|k: int|
            {
                &&& 0 <= k < components.len()
                &&& is_wrong(#[trigger] components[k], name::first_fault(components)->0)
                &&& forall|i: int| 0 <= i < k ==> good(#[trigger] components[i])
            },
    decreases components.len(),
{
    let rest = components.drop_first();
    first_refused_is_first(components[0]);
    if name::component_fault(components[0]) is Some {
        assert(is_wrong(components[0], name::first_fault(components)->0));
    } else {
        the_first_faulty_component(rest);
        let fault = name::first_fault(components)->0;
        let k = choose|k: int|
            {
                &&& 0 <= k < rest.len()
                &&& is_wrong(#[trigger] rest[k], fault)
                &&& forall|i: int| 0 <= i < k ==> good(#[trigger] rest[i])
            };
        assert(is_wrong(components[k + 1], fault));
        assert(good(components[0]));
        assert forall|i: int| 0 <= i < k + 1 implies good(#[trigger] components[i]) by {
            if i > 0 {
                assert(good(rest[i - 1]));
            }
        }
    }
}

/// The words of a complaint about a refused text.
pub proof fn a_complaint_quotes_the_text(s: Seq<char>, c: char)
    ensures
        name::fault_text(s, Fault::Empty) == "empty name"@,
        name::fault_text(s, Fault::EmptyComponent) == "invalid name "@ + text::debug_text(s)
            + ": empty path component"@,
        name::fault_text(s, Fault::Dot) == "invalid name "@ + text::debug_text(s)
            + ": components must not start with a dot"@,
        name::fault_text(s, Fault::Character(c)) == "invalid name "@ + text::debug_text(s)
            + ": character "@ + text::debug_char_text(c) + " not allowed"@,
{
}

/// What is below a prefix is the rest behind the prefix and a slash, and nothing
/// else is below it.
pub proof fn below_is_behind_a_slash(s: Seq<char>, prefix: Seq<char>, rest: Seq<char>)
    ensures
        name::below(s, prefix) == Some(rest) <==> s == prefix + seq!['/'] + rest,
        name::below(s, prefix) is Some ==> s == prefix + seq!['/'] + name::below(s, prefix)->0,
{
    let whole = prefix + seq!['/'] + rest;
    let k = prefix.len() as int;
    if name::below(s, prefix) is Some {
        assert(s =~= s.take(k) + seq!['/'] + s.skip(k + 1));
    }
    assert(whole.take(k) =~= prefix);
    assert(whole.skip(k + 1) =~= rest);
}

/// The name is the prefix and a slash with something behind it.
pub open spec fn is_below(name: Seq<char>, prefix: Seq<char>) -> bool {
    exists|rest: Seq<char>| name == prefix + seq!['/'] + rest
}

/// A name is strictly below a prefix exactly if it is the prefix, a slash and a rest.
pub proof fn below_is_below(name: Seq<char>, prefix: Seq<char>)
    ensures
        name::below(name, prefix) is Some <==> is_below(name, prefix),
{
    if name::below(name, prefix) is Some {
        below_is_behind_a_slash(name, prefix, name::below(name, prefix)->0);
    }
    if is_below(name, prefix) {
        let rest = choose|rest: Seq<char>| name == prefix + seq!['/'] + rest;
        below_is_behind_a_slash(name, prefix, rest);
    }
}

/// A name is strictly below a prefix exactly if it has more components than the
/// prefix and its first components are those of the prefix; at or below it, if its
/// first components are those of the prefix.
pub proof fn below_goes_by_components(s: Seq<char>, prefix: Seq<char>)
    ensures
        ({
            let all = text::split(s, '/');
            let first = text::split(prefix, '/');
            &&& name::below(s, prefix) is Some <==> first.len() < all.len() && all.take(
                first.len() as int,
            ) == first
            &&& name::at_or_below(s, prefix) <==> first.len() <= all.len() && all.take(
                first.len() as int,
            ) == first
        }),
{
    let all = text::split(s, '/');
    let first = text::split(prefix, '/');
    let n = first.len() as int;
    if name::below(s, prefix) is Some {
        let rest = name::below(s, prefix)->0;
        below_is_behind_a_slash(s, prefix, rest);
        splitting_undoes_joining(prefix, '/', rest);
        split_is_not_empty(rest, '/');
        assert(all.take(n) =~= first);
    }
    if s == prefix {
        assert(all.take(n) =~= first);
    }
    if n <= all.len() && all.take(n) == first {
        pieces_make_the_text(s, '/', prefix);
    }
}

// ---------------------------------------------------------------------------
// Variables

/// A variable is made of a text character by character: letters in upper case,
/// digits as they are, an underscore for anything else.
pub open spec fn is_variable(var: Seq<char>, s: Seq<char>) -> bool {
    &&& var.len() == s.len()
    &&& forall|i: int|
        0 <= i < s.len() ==> {
            let c = #[trigger] s[i];
            if 'a' <= c <= 'z' {
                var[i] as int == c as int - 32
            } else if 'A' <= c <= 'Z' || '0' <= c <= '9' {
                var[i] == c
            } else {
                var[i] == '_'
            }
        }
}

/// The variable of a name under a namespace is made of what is behind the namespace
/// and a slash; without a namespace, of the whole name.
pub proof fn a_variable_is_made_of_the_rest(namespace: Seq<char>, rest: Seq<char>)
    ensures
        is_variable(
            env::variable(
                env::stripped(namespace + seq!['/'] + rest, Some(namespace)),
            ),
            rest,
        ),
        is_variable(env::variable(env::stripped(rest, None)), rest),
{
    below_is_behind_a_slash(namespace + seq!['/'] + rest, namespace, rest);
}

/// Some pair is for the name.
pub open spec fn has_pair(pairs: Seq<(Seq<char>, Seq<char>)>, name: Seq<char>) -> bool {
    exists|j: int| 0 <= j < pairs.len() && (#[trigger] pairs[j]).1 == name
}

/// The pairs of some names: as many as names, each name with the variable made of
/// what is left of it, sorted by variable, none twice.
pub proof fn every_name_gets_its_variable(
    names: Seq<Seq<char>>,
    namespace: Option<Seq<char>>,
    pairs: Seq<(Seq<char>, Seq<char>)>,
)
    requires
        env::is_pairing(names, namespace, pairs),
    ensures
        pairs.len() == names.len(),
        forall|i: int| 0 <= i < names.len() ==> has_pair(pairs, #[trigger] names[i]),
        forall|j: int| 0 <= j < pairs.len() ==> names.contains((#[trigger] pairs[j]).1),
        forall|j: int|
            0 <= j < pairs.len() ==> (#[trigger] pairs[j]).0 == env::variable(
                env::stripped(pairs[j].1, namespace),
            ),
        forall|i: int, j: int|
            0 <= i < j < pairs.len() ==> text::less(
                (#[trigger] pairs[i]).0,
                (#[trigger] pairs[j]).0,
            ),
{
    broadcast use vstd::seq_lib::group_to_multiset_ensures;

    let all = env::paired(names, namespace);
    assert(pairs.len() == pairs.to_multiset().len());
    assert(all.len() == all.to_multiset().len());
    assert forall|i: int| 0 <= i < names.len() implies has_pair(pairs, #[trigger] names[i]) by {
        assert(all.contains(all[i]));
        assert(all.to_multiset().count(all[i]) > 0);
        assert(pairs.contains(all[i]));
        let j = choose|j: int| 0 <= j < pairs.len() && pairs[j] == all[i];
        assert(pairs[j].1 == names[i]);
    }
    assert forall|j: int| 0 <= j < pairs.len() implies names.contains((#[trigger] pairs[j]).1)
        && pairs[j].0 == env::variable(env::stripped(pairs[j].1, namespace)) by {
        assert(pairs.contains(pairs[j]));
        assert(pairs.to_multiset().count(pairs[j]) > 0);
        assert(all.contains(pairs[j]));
        let i = choose|i: int| 0 <= i < all.len() && all[i] == pairs[j];
        assert(names[i] == pairs[j].1);
    }
}

/// Names can have variables exactly if no variable starts with a digit and no two
/// are the same.
pub proof fn names_clash_by_their_variables(names: Seq<Seq<char>>, namespace: Option<Seq<char>>)
    ensures
        env::usable(names, namespace) <==> {
            &&& forall|i: int|
                0 <= i < names.len() ==> {
                    let var = env::variable(env::stripped(#[trigger] names[i], namespace));
                    var.len() > 0 ==> !('0' <= var[0] <= '9')
                }
            &&& forall|i: int, j: int|
                0 <= i < j < names.len() ==> env::variable(
                    env::stripped(#[trigger] names[i], namespace),
                ) != env::variable(env::stripped(#[trigger] names[j], namespace))
        },
{
    if env::usable(names, namespace) {
        assert forall|i: int| 0 <= i < names.len() implies {
            let var = env::variable(env::stripped(#[trigger] names[i], namespace));
            var.len() > 0 ==> !('0' <= var[0] <= '9')
        } by {
            assert(!env::unusable(names, namespace, i));
        }
        assert forall|i: int, j: int| 0 <= i < j < names.len() implies env::variable(
            env::stripped(#[trigger] names[i], namespace),
        ) != env::variable(env::stripped(#[trigger] names[j], namespace)) by {
            assert(!env::unusable(names, namespace, j));
            assert(!env::collides(names, namespace, i, j));
        }
    } else {
        let i = choose|i: int| 0 <= i < names.len() && env::unusable(names, namespace, i);
        if !env::starts_with_digit(env::var_of(names, namespace, i)) {
            let j = choose|j: int| env::collides(names, namespace, j, i);
            assert(env::collides(names, namespace, j, i));
            let a = names[j];
            let b = names[i];
        } else {
            let b = names[i];
        }
    }
}

/// The complaint about names that cannot have variables is about the first of them:
/// it names the name and the variable, and where two clash the earlier name too.
pub proof fn the_first_clash_is_named(
    names: Seq<Seq<char>>,
    namespace: Option<Seq<char>>,
    message: Seq<char>,
)
    requires
        env::first_complaint(names, namespace, message),
    ensures
        exists|i: int|
            {
                let var = env::variable(env::stripped(#[trigger] names[i], namespace));
                &&& 0 <= i < names.len()
                &&& env::usable(names.take(i), namespace)
                &&& {
                    ||| var.len() > 0 && '0' <= var[0] <= '9' && message == names[i]
                        + " maps to variable "@ + var + ", which starts with a digit"@
                    ||| exists|j: int|
                        0 <= j < i && env::variable(env::stripped(#[trigger] names[j], namespace))
                            == var && message == names[j] + " and "@ + names[i] + " both map to "@
                            + var
                }
            },
{
    let i = choose|i: int|
        {
            &&& 0 <= i < names.len()
            &&& #[trigger] env::unusable(names, namespace, i)
            &&& forall|j: int| 0 <= j < i ==> !env::unusable(names, namespace, j)
            &&& env::complaint(names, namespace, i, message)
        };
    let before = names.take(i);
    assert(env::usable(before, namespace)) by {
        assert forall|k: int| 0 <= k < before.len() implies !env::unusable(
            before,
            namespace,
            k,
        ) by {
            assert(!env::unusable(names, namespace, k));
            assert(before[k] == names[k]);
            if exists|j: int| env::collides(before, namespace, j, k) {
                let j = choose|j: int| env::collides(before, namespace, j, k);
                assert(before[j] == names[j]);
                assert(env::collides(names, namespace, j, k));
            }
        }
    }
    let n = names[i];
    if !env::starts_with_digit(env::var_of(names, namespace, i)) {
        let j = choose|j: int| #[trigger]
            env::collides(names, namespace, j, i) && message == env::collision_text(
                names[j],
                names[i],
                env::var_of(names, namespace, i),
            );
        assert(env::collides(names, namespace, j, i));
        let m = names[j];
    }
}

// ---------------------------------------------------------------------------
// Input

/// In single-line mode the secret is the line, whatever its length and whatever
/// comes after it: without the newline that ends it, be it spelled with a carriage
/// return or not.
pub proof fn a_line_is_read_whole(s: Seq<u8>, rest: Seq<u8>)
    requires
        forall|i: int| 0 <= i < s.len() ==> s[i] != 0x0a,
    ensures
        tty::without_newline(tty::first_line(s)) == s,
        s.len() > 0 && s.last() == 0x0d ==> tty::without_newline(
            tty::first_line(s + seq![0x0au8] + rest),
        ) == s.drop_last(),
        s.len() == 0 || s.last() != 0x0d ==> tty::without_newline(
            tty::first_line(s + seq![0x0au8] + rest),
        ) == s && tty::without_newline(tty::first_line(s + seq![0x0du8, 0x0au8] + rest)) == s,
{
    a_first_line_ends_at_its_newline(s, rest);
    let ended = s + seq![0x0au8];
    assert(ended.drop_last() =~= s);
    if s.len() > 0 {
        assert(ended[ended.len() - 2] == s.last());
        assert(ended.take(ended.len() - 2) =~= s.drop_last());
    }
    if s.len() == 0 || s.last() != 0x0d {
        let t = s + seq![0x0du8];
        a_first_line_ends_at_its_newline(t, rest);
        assert(s + seq![0x0du8, 0x0au8] + rest =~= t + seq![0x0au8] + rest);
        let crlf = t + seq![0x0au8];
        assert(crlf.take(crlf.len() - 2) =~= s);
    }
}

/// A newline is taken away once, from the end, with the carriage return that belongs
/// to it; what does not end in a newline stays as it is.
pub proof fn a_newline_is_taken_away_once(s: Seq<u8>)
    ensures
        s.len() == 0 || s.last() != 0x0a ==> tty::without_newline(s) == s,
        s.len() == 0 || s.last() != 0x0d ==> tty::without_newline(s.push(0x0a)) == s,
        tty::without_newline(s.push(0x0d).push(0x0a)) == s,
{
    let ended = s.push(0x0a);
    assert(ended.drop_last() =~= s);
    if s.len() > 0 {
        assert(ended[ended.len() - 2] == s.last());
    }
    let crlf = s.push(0x0d).push(0x0a);
    assert(crlf.take(crlf.len() - 2) =~= s);
}

proof fn a_first_line_ends_at_its_newline(s: Seq<u8>, rest: Seq<u8>)
    requires
        forall|i: int| 0 <= i < s.len() ==> s[i] != 0x0a,
    ensures
        tty::first_line(s) == s,
        tty::first_line(s + seq![0x0au8] + rest) == s + seq![0x0au8],
    decreases s.len(),
{
    let whole = s + seq![0x0au8] + rest;
    if s.len() == 0 {
        assert(whole.take(1) =~= s + seq![0x0au8]);
    } else {
        let t = s.drop_first();
        a_first_line_ends_at_its_newline(t, rest);
        assert(whole[0] == s[0]);
        assert(whole.drop_first() =~= t + seq![0x0au8] + rest);
        assert(seq![s[0]] + t =~= s);
        assert(seq![s[0]] + (t + seq![0x0au8]) =~= s + seq![0x0au8]);
    }
}

/// A character with an ASCII letter in lower case.
pub open spec fn lower(c: char) -> char {
    if 'A' <= c <= 'Z' {
        (c as u32 + 32) as char
    } else {
        c
    }
}

/// A text with its ASCII letters in lower case.
pub open spec fn lowered(s: Seq<char>) -> Seq<char> {
    Seq::new(s.len(), |i: int| lower(s[i]))
}

/// The answer is `y` or `yes`, but for white space around it and the case of its
/// letters.
pub open spec fn says_yes(answer: Seq<char>) -> bool {
    lowered(text::trimmed(answer)) == "y"@ || lowered(text::trimmed(answer)) == "yes"@
}

/// An answer means yes exactly if it says so.
pub proof fn yes_is_said(answer: Seq<char>)
    ensures
        tty::affirmative(answer) <==> says_yes(answer),
{
    reveal_strlit("y");
    reveal_strlit("yes");
    let a = text::trimmed(answer);
    let low = lowered(a);
    let y = "y"@;
    let yes = "yes"@;
    assert(low.len() == a.len());
    assert forall|i: int| 0 <= i < a.len() implies #[trigger] low[i] == lower(a[i]) by {}
    if low == y {
        assert(low[0] == 'y');
    }
    if low == yes {
        assert(low[0] == 'y' && low[1] == 'e' && low[2] == 's');
    }
    if tty::affirmative(answer) {
        if a.len() == 1 {
            assert(low[0] == 'y');
            assert(low =~= y);
        } else {
            assert(low[0] == 'y' && low[1] == 'e' && low[2] == 's');
            assert(low =~= yes);
        }
    }
}

/// An answer with white space around it means yes exactly if, in lower case, it is
/// `y` or `yes`. Whatever else it is, it means no.
pub proof fn only_yes_means_yes(before: Seq<char>, answer: Seq<char>, after: Seq<char>)
    requires
        blank(before),
        blank(after),
        answer.len() > 0 ==> !text::white_space(answer[0]) && !text::white_space(answer.last()),
    ensures
        tty::affirmative(before + answer + after) <==> lowered(answer) == "y"@ || lowered(answer)
            == "yes"@,
{
    trimming_keeps_the_middle(before, answer, after);
    yes_is_said(before + answer + after);
}

/// The prompt for a secret names the entry, and tells how a text of several lines is
/// ended.
pub proof fn a_prompt_names_the_entry(name: Seq<char>)
    ensures
        tty::secret_prompt_text(name, false) == "value for "@ + name + ": "@,
        tty::secret_prompt_text(name, true) == "value for "@ + name + " (end with ^D): "@,
{
}

} // verus!
