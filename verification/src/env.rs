//! Environment variables: which variable a name becomes, and how a value is
//! written so that a shell reads it back.

use vstd::prelude::*;
use vstd::string::*;

use crate::error::Error;
use crate::name;
use crate::name::{Name, Namespace};
use crate::order;
use crate::text;

verus! {

// ---------------------------------------------------------------------------
// Variables

pub open spec fn uppercase(c: char) -> char {
    if 'a' <= c <= 'z' {
        (c as u32 - 32) as char
    } else {
        c
    }
}

/// Letters and digits are kept, in upper case; anything else becomes `_`.
pub open spec fn variable(s: Seq<char>) -> Seq<char> {
    s.map_values(|c: char| if name::ascii_alphanumeric(c) { uppercase(c) } else { '_' })
}

/// The part of a name that its variable is made of.
pub open spec fn stripped(name: Seq<char>, namespace: Option<Seq<char>>) -> Seq<char> {
    match namespace {
        Some(namespace) => name::below(name, namespace)->0,
        None => name,
    }
}

pub open spec fn optional(namespace: Option<&Namespace>) -> Option<Seq<char>> {
    match namespace {
        Some(namespace) => Some(namespace@),
        None => None,
    }
}

/// All names stand strictly below the namespace, where there is one.
pub open spec fn selected(names: Seq<Seq<char>>, namespace: Option<Seq<char>>) -> bool {
    namespace matches Some(n) ==> forall|i: int|
        0 <= i < names.len() ==> name::below(#[trigger] names[i], n) is Some
}

pub open spec fn starts_with_digit(s: Seq<char>) -> bool {
    s.len() > 0 && name::ascii_digit(s[0])
}

pub open spec fn var_of(
    names: Seq<Seq<char>>,
    namespace: Option<Seq<char>>,
    i: int,
) -> Seq<char> {
    variable(stripped(names[i], namespace))
}

/// The name at `i` maps to the same variable as the one at `j`, before it.
pub open spec fn collides(
    names: Seq<Seq<char>>,
    namespace: Option<Seq<char>>,
    j: int,
    i: int,
) -> bool {
    0 <= j < i && var_of(names, namespace, j) == var_of(names, namespace, i)
}

/// The name at `i` cannot have a variable of its own.
pub open spec fn unusable(names: Seq<Seq<char>>, namespace: Option<Seq<char>>, i: int) -> bool {
    ||| starts_with_digit(var_of(names, namespace, i))
    ||| exists|j: int| collides(names, namespace, j, i)
}

pub open spec fn digit_text(name: Seq<char>, var: Seq<char>) -> Seq<char> {
    name + " maps to variable "@ + var + ", which starts with a digit"@
}

pub open spec fn collision_text(other: Seq<char>, name: Seq<char>, var: Seq<char>) -> Seq<char> {
    other + " and "@ + name + " both map to "@ + var
}

/// The complaint about the name at `i`.
pub open spec fn complaint(
    names: Seq<Seq<char>>,
    namespace: Option<Seq<char>>,
    i: int,
    message: Seq<char>,
) -> bool {
    let var = var_of(names, namespace, i);
    if starts_with_digit(var) {
        message == digit_text(names[i], var)
    } else {
        exists|j: int| #[trigger]
            collides(names, namespace, j, i) && message == collision_text(
                names[j],
                names[i],
                var,
            )
    }
}

/// The complaint about the first name that cannot have a variable of its own.
pub open spec fn first_complaint(
    names: Seq<Seq<char>>,
    namespace: Option<Seq<char>>,
    message: Seq<char>,
) -> bool {
    exists|i: int|
        {
            &&& 0 <= i < names.len()
            &&& #[trigger] unusable(names, namespace, i)
            &&& forall|j: int| 0 <= j < i ==> !unusable(names, namespace, j)
            &&& complaint(names, namespace, i, message)
        }
}

/// Every name can have a variable of its own.
pub open spec fn usable(names: Seq<Seq<char>>, namespace: Option<Seq<char>>) -> bool {
    forall|i: int| 0 <= i < names.len() ==> !unusable(names, namespace, i)
}

/// Each name with its variable.
pub open spec fn paired(names: Seq<Seq<char>>, namespace: Option<Seq<char>>) -> Seq<
    (Seq<char>, Seq<char>),
> {
    Seq::new(names.len(), |i: int| (var_of(names, namespace, i), names[i]))
}

pub open spec fn pair_texts(pairs: Seq<(String, Name)>) -> Seq<(Seq<char>, Seq<char>)> {
    pairs.map_values(|p: (String, Name)| (p.0@, p.1@))
}

/// Each pair's variable strictly after those before it.
pub open spec fn by_variable(pairs: Seq<(Seq<char>, Seq<char>)>) -> bool {
    forall|i: int, j: int|
        0 <= i < j < pairs.len() ==> text::less((#[trigger] pairs[i]).0, (#[trigger] pairs[j]).0)
}

/// The pairs of some names: each name with its variable, sorted by variable.
pub open spec fn is_pairing(
    names: Seq<Seq<char>>,
    namespace: Option<Seq<char>>,
    pairs: Seq<(Seq<char>, Seq<char>)>,
) -> bool {
    by_variable(pairs) && pairs.to_multiset() == paired(names, namespace).to_multiset()
}

fn upper(c: char) -> (r: char)
    requires
        name::ascii_alphanumeric(c),
    ensures
        r == uppercase(c),
{
    if 'a' <= c && c <= 'z' {
        ((c as u8) - 32) as char
    } else {
        c
    }
}

fn variable_of(s: &str) -> (r: String)
    ensures
        r@ == variable(s@),
{
    let chars: Vec<char> = text::chars_of(s);
    let mut out: String = String::new();
    let mut i: usize = 0;
    while i < chars.len()
        invariant
            i <= chars@.len(),
            out@ == variable(chars@).take(i as int),
        decreases chars@.len() - i,
    {
        let c: char = chars[i];
        let v: char = if name::is_ascii_alphanumeric(c) {
            upper(c)
        } else {
            '_'
        };
        out.push(v);
        proof {
            assert(variable(chars@).take(i + 1) =~= variable(chars@).take(i as int).push(v));
        }
        i = i + 1;
    }
    proof {
        assert(variable(chars@).take(i as int) =~= variable(chars@));
    }
    out
}

/// Map names to environment variable names, stripping the namespace when
/// given. The pairs come sorted by variable. Collisions and digit-leading
/// variables are errors: silently dropping a secret is worse than stopping.
pub fn env_pairs(names: &[Name], namespace: Option<&Namespace>) -> (r: Result<
    Vec<(String, Name)>,
    Error,
>)
    requires
        selected(order::texts(names@), optional(namespace)),
    ensures
        r is Ok <==> usable(order::texts(names@), optional(namespace)),
        r matches Ok(pairs) ==> is_pairing(
            order::texts(names@),
            optional(namespace),
            pair_texts(pairs@),
        ),
        r matches Err(e) ==> first_complaint(order::texts(names@), optional(namespace), e@),
{
    let ghost all = order::texts(names@);
    let ghost space = optional(namespace);
    let mut pairs: Vec<(String, Name)> = Vec::new();
    let mut i: usize = 0;
    proof {
        assert(pair_texts(pairs@) =~= paired(all, space).take(0));
    }
    while i < names.len()
        invariant
            i <= names@.len(),
            all == order::texts(names@),
            space == optional(namespace),
            selected(all, space),
            by_variable(pair_texts(pairs@)),
            pair_texts(pairs@).to_multiset() == paired(all, space).take(i as int).to_multiset(),
            forall|j: int| 0 <= j < i ==> !unusable(all, space, j),
        decreases names@.len() - i,
    {
        let name: &Name = &names[i];
        assert(all[i as int] == name@);
        let rest: &str = match namespace {
            Some(namespace) => match namespace.strip(name) {
                Some(rest) => rest,
                None => name.as_str(),
            },
            None => name.as_str(),
        };
        let var: String = variable_of(rest);
        assert(var@ == var_of(all, space, i as int));
        let digit: bool = match text::first_char(var.as_str()) {
            Some(c) => '0' <= c && c <= '9',
            None => false,
        };
        if digit {
            assert(unusable(all, space, i as int));
            let mut message: String = name.as_str().to_owned();
            message.append(" maps to variable ");
            message.append(var.as_str());
            message.append(", which starts with a digit");
            return Err(Error::new(message));
        }
        let mut p: usize = 0;
        while p < pairs.len() && text::comes_before(pairs[p].0.as_str(), var.as_str())
            invariant
                p <= pairs@.len(),
                forall|k: int|
                    0 <= k < p ==> text::less((#[trigger] pair_texts(pairs@)[k]).0, var@),
            decreases pairs@.len() - p,
        {
            p = p + 1;
        }
        let ghost before = pair_texts(pairs@);
        let ghost here = p as int;
        let ghost done = paired(all, space).take(i as int);
        if p < pairs.len() && pairs[p].0 == var {
            let other: &Name = &pairs[p].1;
            proof {
                // The pair came from one of the names before.
                assert(before[here] == (var@, other@));
                vstd::seq_lib::to_multiset_contains(before, before[here]);
                vstd::seq_lib::to_multiset_contains(done, before[here]);
                assert(before.contains(before[here]));
                let j = choose|j: int| 0 <= j < done.len() && done[j] == before[here];
                assert(collides(all, space, j, i as int));
                assert(unusable(all, space, i as int));
            }
            let mut message: String = other.as_str().to_owned();
            message.append(" and ");
            message.append(name.as_str());
            message.append(" both map to ");
            message.append(var.as_str());
            return Err(Error::new(message));
        }
        let ghost item = (var@, name@);
        pairs.insert(p, (var, name.clone()));
        proof {
            let after = pair_texts(pairs@);
            assert(after =~= before.insert(here, item));
            vstd::seq_lib::to_multiset_insert(before, here, item);
            assert(paired(all, space).take(i + 1) =~= done.push(item));
            vstd::seq_lib::to_multiset_build(done, item);
            // From the insertion point on every variable comes after this one.
            assert forall|k: int| here <= k < before.len() implies text::less(
                item.0,
                (#[trigger] before[k]).0,
            ) by {
                text::less_is_total(item.0, before[here].0);
                if k > here {
                    text::less_is_transitive(item.0, before[here].0, before[k].0);
                }
            }
            assert forall|a: int, b: int| 0 <= a < b < after.len() implies text::less(
                (#[trigger] after[a]).0,
                (#[trigger] after[b]).0,
            ) by {
                let x = if a < here {
                    before[a]
                } else if a == here {
                    item
                } else {
                    before[a - 1]
                };
                let y = if b < here {
                    before[b]
                } else if b == here {
                    item
                } else {
                    before[b - 1]
                };
                assert(after[a] == x);
                assert(after[b] == y);
            }
            // No earlier name has this variable.
            if unusable(all, space, i as int) {
                let j = choose|j: int| collides(all, space, j, i as int);
                assert(done[j] == (item.0, all[j]));
                vstd::seq_lib::to_multiset_contains(done, done[j]);
                vstd::seq_lib::to_multiset_contains(before, done[j]);
                assert(done.contains(done[j]));
                let k = choose|k: int| 0 <= k < before.len() && before[k] == done[j];
                text::less_is_irreflexive(item.0);
            }
        }
        i = i + 1;
    }
    proof {
        assert(paired(all, space).take(i as int) =~= paired(all, space));
    }
    Ok(pairs)
}

// ---------------------------------------------------------------------------
// Quoting

/// A character as it stands inside single quotes: a quote closes them, stands
/// escaped, and opens them again.
pub open spec fn quoted_char(c: char) -> Seq<char> {
    if c == '\'' {
        seq!['\'', '\\', '\'', '\'']
    } else {
        seq![c]
    }
}

pub open spec fn quoted_chars(value: Seq<char>) -> Seq<char>
    decreases value.len(),
{
    if value.len() == 0 {
        Seq::empty()
    } else {
        quoted_chars(value.drop_last()) + quoted_char(value.last())
    }
}

pub open spec fn quoted(value: Seq<char>) -> Seq<char> {
    seq!['\''] + quoted_chars(value) + seq!['\'']
}

/// Single quotes preserve newlines and every shell metacharacter, so values
/// survive `eval` character for character.
pub fn shell_quote(value: &str) -> (r: String)
    ensures
        r@ == quoted(value@),
{
    let chars: Vec<char> = text::chars_of(value);
    let mut out: String = String::new();
    out.push('\'');
    let mut i: usize = 0;
    proof {
        assert(out@ =~= seq!['\''] + quoted_chars(chars@.take(0)));
    }
    while i < chars.len()
        invariant
            i <= chars@.len(),
            out@ == seq!['\''] + quoted_chars(chars@.take(i as int)),
        decreases chars@.len() - i,
    {
        let c: char = chars[i];
        let ghost before = out@;
        if c == '\'' {
            out.push('\'');
            out.push('\\');
            out.push('\'');
            out.push('\'');
        } else {
            out.push(c);
        }
        proof {
            assert(out@ =~= before + quoted_char(c));
            assert(chars@.take(i + 1).drop_last() =~= chars@.take(i as int));
            assert(out@ =~= seq!['\''] + quoted_chars(chars@.take(i + 1)));
        }
        i = i + 1;
    }
    proof {
        assert(chars@.take(i as int) =~= value@);
    }
    out.push('\'');
    proof {
        assert(out@ =~= quoted(value@));
    }
    out
}

/// How a POSIX shell reads a word made of single-quoted parts and escaped
/// characters only: quoted parts stand for themselves, a backslash for the
/// character after it. Any other character outside quotes is not covered.
pub open spec fn shell_reads(s: Seq<char>) -> Option<Seq<char>>
    decreases s.len(),
{
    if s.len() == 0 {
        Some(Seq::empty())
    } else if s[0] == '\'' {
        let inner = s.drop_first();
        let k = text::run(inner, '\'');
        if k >= inner.len() {
            None
        } else {
            proof {
                text::run_is_first(inner, '\'');
            }
            match shell_reads(inner.skip(k + 1)) {
                Some(rest) => Some(inner.take(k) + rest),
                None => None,
            }
        }
    } else if s[0] == '\\' && s.len() >= 2 && s[1] != '\n' {
        match shell_reads(s.skip(2)) {
            Some(rest) => Some(seq![s[1]] + rest),
            None => None,
        }
    } else {
        None
    }
}

proof fn quoted_chars_concat(a: Seq<char>, b: Seq<char>)
    ensures
        quoted_chars(a + b) == quoted_chars(a) + quoted_chars(b),
    decreases b.len(),
{
    if b.len() == 0 {
        assert(a + b =~= a);
        assert(quoted_chars(a) + quoted_chars(b) =~= quoted_chars(a));
    } else {
        quoted_chars_concat(a, b.drop_last());
        assert((a + b).drop_last() =~= a + b.drop_last());
        assert((a + b).last() == b.last());
        assert(quoted_chars(a) + quoted_chars(b.drop_last()) + quoted_char(b.last())
            =~= quoted_chars(a) + (quoted_chars(b.drop_last()) + quoted_char(b.last())));
    }
}

proof fn quoted_chars_plain(a: Seq<char>)
    requires
        forall|i: int| 0 <= i < a.len() ==> a[i] != '\'',
    ensures
        quoted_chars(a) == a,
    decreases a.len(),
{
    if a.len() > 0 {
        quoted_chars_plain(a.drop_last());
        assert(quoted_chars(a) =~= a);
    }
}

/// Every value survives quoting: a shell reads the quoted word back as exactly
/// the value.
pub proof fn quoting_survives_the_shell(value: Seq<char>)
    ensures
        shell_reads(quoted(value)) == Some(value),
    decreases value.len(),
{
    let k = text::run(value, '\'');
    text::run_is_first(value, '\'');
    let head = value.take(k);
    quoted_chars_plain(head);
    let s = quoted(value);
    let inner = s.drop_first();
    assert(s[0] == '\'');
    if k == value.len() {
        assert(head =~= value);
        assert(inner =~= value + seq!['\'']);
        text::run_is_only(inner, '\'', k);
        assert(inner.take(k) =~= value);
        assert(inner.skip(k + 1) =~= Seq::<char>::empty());
        reveal_with_fuel(shell_reads, 2);
        assert(value + Seq::<char>::empty() =~= value);
    } else {
        let tail = value.skip(k + 1);
        let quote = seq!['\''];
        assert(value =~= head + (quote + tail));
        quoted_chars_concat(head, quote + tail);
        quoted_chars_concat(quote, tail);
        assert(quote.drop_last() =~= Seq::<char>::empty());
        assert(quoted_chars(quote) =~= quoted_char('\'')) by {
            reveal_with_fuel(quoted_chars, 2);
        }
        let back = seq!['\\', '\''];
        assert(inner =~= head + (quote + (back + quoted(tail))));
        text::run_is_only(inner, '\'', k);
        assert(inner.take(k) =~= head);
        let rest = inner.skip(k + 1);
        assert(rest =~= back + quoted(tail));
        assert(rest[0] == '\\' && rest[1] == '\'');
        assert(rest.skip(2) =~= quoted(tail));
        quoting_survives_the_shell(tail);
        assert(shell_reads(rest) == Some(quote + tail));
        assert(shell_reads(s) == Some(head + (quote + tail)));
    }
}

/// An identifier of the shell: upper-case letters, digits and underscores, not
/// starting with a digit.
pub open spec fn is_identifier(s: Seq<char>) -> bool {
    &&& s.len() > 0
    &&& !name::ascii_digit(s[0])
    &&& forall|i: int|
        0 <= i < s.len() ==> ('A' <= #[trigger] s[i] <= 'Z' || name::ascii_digit(s[i]) || s[i]
            == '_')
}

/// Every variable that comes out is an identifier that the shell can assign to.
pub proof fn variables_are_identifiers(
    names: Seq<Seq<char>>,
    namespace: Option<Seq<char>>,
    pairs: Seq<(Seq<char>, Seq<char>)>,
    i: int,
)
    requires
        forall|j: int| 0 <= j < names.len() ==> name::valid(#[trigger] names[j]),
        selected(names, namespace),
        usable(names, namespace),
        is_pairing(names, namespace, pairs),
        0 <= i < pairs.len(),
    ensures
        is_identifier(pairs[i].0),
{
    broadcast use vstd::seq_lib::group_to_multiset_ensures;

    let all = paired(names, namespace);
    assert(pairs.contains(pairs[i]));
    assert(pairs.to_multiset().count(pairs[i]) > 0);
    assert(all.contains(pairs[i]));
    let j = choose|j: int| 0 <= j < all.len() && all[j] == pairs[i];
    let rest = stripped(names[j], namespace);
    match namespace {
        Some(space) => {
            name::the_rest_of_a_name_is_valid(names[j], space);
        },
        None => {},
    }
    assert(name::valid(rest));
    assert(name::component_starts(rest, 0));
    assert(!unusable(names, namespace, j));
    let var = variable(rest);
    assert forall|k: int| 0 <= k < var.len() implies ('A' <= #[trigger] var[k] <= 'Z'
        || name::ascii_digit(var[k]) || var[k] == '_') by {
        assert(name::allowed(rest[k]) || rest[k] == '/');
    }
}

} // verus!
