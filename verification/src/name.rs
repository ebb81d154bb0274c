//! Secret-name rules. A valid name cannot escape the store directory: its
//! characters are on a whitelist and no component starts with a dot.

use vstd::prelude::*;
use vstd::string::*;

use crate::meaning;
use crate::text;

verus! {

// ---------------------------------------------------------------------------
// What a valid name is

pub open spec fn ascii_alphanumeric(c: char) -> bool {
    ||| 'a' <= c <= 'z'
    ||| 'A' <= c <= 'Z'
    ||| '0' <= c <= '9'
}

pub open spec fn ascii_digit(c: char) -> bool {
    '0' <= c <= '9'
}

/// The characters of a component.
pub open spec fn allowed(c: char) -> bool {
    ascii_alphanumeric(c) || c == '.' || c == '_' || c == '-'
}

/// A component begins at the start of the name and after each slash.
pub open spec fn component_starts(s: Seq<char>, i: int) -> bool {
    i == 0 || s[i - 1] == '/'
}

/// Components of allowed characters joined by single slashes; none is empty and
/// none starts with a dot.
pub open spec fn valid(s: Seq<char>) -> bool {
    &&& forall|i: int| 0 <= i < s.len() ==> allowed(#[trigger] s[i]) || s[i] == '/'
    &&& forall|i: int|
        0 <= i <= s.len() && #[trigger] component_starts(s, i) ==> i < s.len() && s[i] != '/'
            && s[i] != '.'
}

/// Why a name is refused.
pub enum Fault {
    Empty,
    EmptyComponent,
    Dot,
    Character(char),
}

/// The first character that no component may hold.
pub open spec fn first_refused(s: Seq<char>) -> Option<char>
    decreases s.len(),
{
    if s.len() == 0 {
        None
    } else if !allowed(s[0]) {
        Some(s[0])
    } else {
        first_refused(s.drop_first())
    }
}

pub open spec fn component_fault(s: Seq<char>) -> Option<Fault> {
    if s.len() == 0 {
        Some(Fault::EmptyComponent)
    } else if s[0] == '.' {
        Some(Fault::Dot)
    } else {
        match first_refused(s) {
            Some(c) => Some(Fault::Character(c)),
            None => None,
        }
    }
}

/// The fault of the first faulty component.
pub open spec fn first_fault(components: Seq<Seq<char>>) -> Option<Fault>
    decreases components.len(),
{
    if components.len() == 0 {
        None
    } else {
        match component_fault(components[0]) {
            Some(fault) => Some(fault),
            None => first_fault(components.drop_first()),
        }
    }
}

/// The reason a name is refused, if it is.
pub open spec fn fault(s: Seq<char>) -> Option<Fault> {
    if s.len() == 0 {
        Some(Fault::Empty)
    } else {
        first_fault(text::split(s, '/'))
    }
}

pub open spec fn fault_text(s: Seq<char>, fault: Fault) -> Seq<char> {
    match fault {
        Fault::Empty => "empty name"@,
        Fault::EmptyComponent => "invalid name "@ + text::debug_text(s)
            + ": empty path component"@,
        Fault::Dot => "invalid name "@ + text::debug_text(s)
            + ": components must not start with a dot"@,
        Fault::Character(c) => "invalid name "@ + text::debug_text(s) + ": character "@
            + text::debug_char_text(c) + " not allowed"@,
    }
}

proof fn first_refused_is_none(s: Seq<char>)
    ensures
        first_refused(s) is None <==> forall|i: int| 0 <= i < s.len() ==> allowed(#[trigger] s[i]),
    decreases s.len(),
{
    if s.len() > 0 && allowed(s[0]) {
        let t = s.drop_first();
        first_refused_is_none(t);
        assert(forall|i: int| 0 < i < s.len() ==> s[i] == t[i - 1]);
        if first_refused(s) is None {
            assert forall|i: int| 0 <= i < s.len() implies allowed(#[trigger] s[i]) by {
                if i > 0 {
                    assert(allowed(t[i - 1]));
                }
            }
        } else if forall|i: int| 0 <= i < s.len() ==> allowed(#[trigger] s[i]) {
            assert forall|i: int| 0 <= i < t.len() implies allowed(#[trigger] t[i]) by {
                assert(allowed(s[i + 1]));
            }
        }
    }
}

/// The fault-free names are the valid ones: no component has a fault exactly if
/// the characters and the component starts are as `valid` asks.
pub proof fn faultless_is_valid(s: Seq<char>)
    ensures
        fault(s) is None <==> valid(s),
{
    if s.len() == 0 {
        assert(component_starts(s, 0));
    } else {
        pieces_are_valid(s);
    }
}

proof fn pieces_are_valid(s: Seq<char>)
    ensures
        first_fault(text::split(s, '/')) is None <==> valid(s),
    decreases s.len(),
{
    let k = text::run(s, '/');
    text::run_is_first(s, '/');
    let head = s.take(k);
    first_refused_is_none(head);
    if k >= s.len() {
        reveal_with_fuel(first_fault, 2);
        assert(head =~= s);
        assert(text::split(s, '/') =~= seq![s]);
        assert(text::split(s, '/').drop_first() =~= Seq::<Seq<char>>::empty());
        assert(text::split(s, '/')[0] == s);
        assert(component_starts(s, 0));
        if component_fault(s) is None {
            assert forall|i: int| 0 <= i <= s.len() && #[trigger] component_starts(s, i) implies i
                < s.len() && s[i] != '/' && s[i] != '.' by {
                if i > 0 {
                    assert(s[i - 1] != '/');
                }
            }
        } else if valid(s) {
            assert forall|i: int| 0 <= i < s.len() implies allowed(#[trigger] s[i]) by {}
        }
    } else {
        let tail = s.skip(k + 1);
        pieces_are_valid(tail);
        assert(text::split(s, '/').drop_first() =~= text::split(tail, '/'));
        assert(text::split(s, '/')[0] == head);
        assert(component_starts(s, 0));
        assert(forall|i: int| k < i < s.len() ==> s[i] == tail[i - k - 1]);
        if valid(s) {
            assert forall|i: int| 0 <= i < head.len() implies allowed(#[trigger] head[i]) by {
                assert(head[i] == s[i]);
            }
            assert forall|i: int| 0 <= i < tail.len() implies allowed(#[trigger] tail[i]) || tail[i]
                == '/' by {
                assert(tail[i] == s[i + k + 1]);
            }
            assert forall|i: int| 0 <= i <= tail.len() && #[trigger] component_starts(
                tail,
                i,
            ) implies i < tail.len() && tail[i] != '/' && tail[i] != '.' by {
                assert(component_starts(s, i + k + 1));
            }
            assert(head.len() > 0);
        } else if first_fault(text::split(s, '/')) is None {
            assert(valid(tail));
            assert forall|i: int| 0 <= i < s.len() implies allowed(#[trigger] s[i]) || s[i]
                == '/' by {
                if i < k {
                    assert(s[i] == head[i]);
                } else if i > k {
                    assert(s[i] == tail[i - k - 1]);
                }
            }
            assert forall|i: int| 0 <= i <= s.len() && #[trigger] component_starts(s, i) implies i
                < s.len() && s[i] != '/' && s[i] != '.' by {
                if i == 0 {
                    assert(s[0] == head[0]);
                } else if i <= k {
                    assert(s[i - 1] == head[i - 1]);
                } else {
                    assert(component_starts(tail, i - k - 1));
                }
            }
        }
    }
}

// ---------------------------------------------------------------------------
// Checking a name

pub fn is_ascii_alphanumeric(c: char) -> (r: bool)
    ensures
        r == ascii_alphanumeric(c),
{
    ('a' <= c && c <= 'z') || ('A' <= c && c <= 'Z') || ('0' <= c && c <= '9')
}

fn is_allowed(c: char) -> (r: bool)
    ensures
        r == allowed(c),
{
    is_ascii_alphanumeric(c) || c == '.' || c == '_' || c == '-'
}

/// The fault of the component `chars[start..end]`.
fn check_component(chars: &Vec<char>, start: usize, end: usize) -> (r: Option<Fault>)
    requires
        start <= end <= chars@.len(),
    ensures
        r == component_fault(chars@.subrange(start as int, end as int)),
{
    let ghost piece = chars@.subrange(start as int, end as int);
    if start == end {
        return Some(Fault::EmptyComponent);
    }
    if chars[start] == '.' {
        return Some(Fault::Dot);
    }
    let mut i: usize = start;
    proof {
        assert(piece.skip(0) =~= piece);
    }
    while i < end
        invariant
            start <= i <= end <= chars@.len(),
            piece == chars@.subrange(start as int, end as int),
            first_refused(piece) == first_refused(piece.skip(i - start)),
            piece.len() > 0,
            piece[0] != '.',
        decreases end - i,
    {
        let c: char = chars[i];
        proof {
            assert(piece.skip(i - start)[0] == c);
            assert(piece.skip(i - start).drop_first() =~= piece.skip(i - start + 1));
        }
        if !is_allowed(c) {
            return Some(Fault::Character(c));
        }
        i = i + 1;
    }
    proof {
        assert(piece.skip(i - start).len() == 0);
    }
    None
}

/// The one gate between user input and a path under the store. Rejecting a
/// leading dot per component covers `.` and `..` and keeps names off the
/// store's own dot files.
pub fn validate(name: &str) -> (r: Result<(), String>)
    ensures
        r is Ok <==> valid(name@),
        r is Ok <==> fault(name@) is None,
        r matches Err(message) ==> message@ == fault_text(name@, fault(name@)->0),
{
    proof {
        faultless_is_valid(name@);
    }
    match find_fault(name) {
        None => Ok(()),
        Some(fault) => Err(fault_message(name, fault)),
    }
}

fn find_fault(name: &str) -> (r: Option<Fault>)
    ensures
        r == fault(name@),
{
    let chars: Vec<char> = text::chars_of(name);
    if chars.len() == 0 {
        return Some(Fault::Empty);
    }
    let mut start: usize = 0;
    proof {
        assert(chars@.skip(0) =~= chars@);
    }
    loop
        invariant
            start <= chars@.len(),
            chars@ == name@,
            chars@.len() > 0,
            fault(name@) == first_fault(text::split(chars@.skip(start as int), '/')),
        decreases chars@.len() - start,
    {
        let ghost rest = chars@.skip(start as int);
        let mut end: usize = start;
        while end < chars.len() && chars[end] != '/'
            invariant
                start <= end <= chars@.len(),
                rest == chars@.skip(start as int),
                forall|i: int| 0 <= i < end - start ==> rest[i] != '/',
            decreases chars@.len() - end,
        {
            proof {
                assert(rest[end - start] == chars@[end as int]);
            }
            end = end + 1;
        }
        proof {
            if end < chars@.len() {
                assert(rest[end - start] == chars@[end as int]);
            }
            text::run_is_only(rest, '/', end - start);
            assert(chars@.subrange(start as int, end as int) =~= rest.take(end - start));
            if end < chars@.len() {
                assert(rest.skip(end - start + 1) =~= chars@.skip(end + 1));
                assert(text::split(rest, '/')[0] == rest.take(end - start));
                assert(text::split(rest, '/').drop_first() =~= text::split(
                    chars@.skip(end + 1),
                    '/',
                ));
            } else {
                reveal_with_fuel(first_fault, 2);
                assert(rest.take(end - start) =~= rest);
                assert(text::split(rest, '/')[0] == rest);
                assert(text::split(rest, '/').drop_first() =~= Seq::<Seq<char>>::empty());
            }
        }
        match check_component(&chars, start, end) {
            Some(fault) => {
                return Some(fault);
            },
            None => {},
        }
        if end >= chars.len() {
            return None;
        }
        start = end + 1;
    }
}

fn fault_message(name: &str, fault: Fault) -> (r: String)
    ensures
        r@ == fault_text(name@, fault),
{
    let mut message: String = "invalid name ".to_owned();
    message.append(text::debug_of(name).as_str());
    match fault {
        Fault::Empty => {
            message = "empty name".to_owned();
        },
        Fault::EmptyComponent => {
            message.append(": empty path component");
        },
        Fault::Dot => {
            message.append(": components must not start with a dot");
        },
        Fault::Character(c) => {
            message.append(": character ");
            message.append(text::debug_of_char(c).as_str());
            message.append(" not allowed");
        },
    }
    message
}

// ---------------------------------------------------------------------------
// Names and namespaces

/// Names are relative paths: components of `[A-Za-z0-9._-]` joined by `/`, no
/// dot-prefixed components.
#[derive(Debug, Eq, Ord, PartialEq, PartialOrd)]
pub struct Name(String);

impl View for Name {
    type V = Seq<char>;

    closed spec fn view(&self) -> Seq<char> {
        self.0@
    }
}

impl Clone for Name {
    fn clone(&self) -> (r: Name)
        ensures
            r@ == self@,
    {
        proof {
            use_type_invariant(self);
        }
        Name(self.0.clone())
    }
}

/// `s` is `prefix` itself or has it as its leading components.
pub open spec fn at_or_below(s: Seq<char>, prefix: Seq<char>) -> bool {
    s == prefix || below(s, prefix) is Some
}

/// What follows `prefix` and a slash in `s`, if `s` starts so.
pub open spec fn below(s: Seq<char>, prefix: Seq<char>) -> Option<Seq<char>> {
    if prefix.len() < s.len() && s.take(prefix.len() as int) == prefix && s[prefix.len() as int]
        == '/' {
        Some(s.skip(prefix.len() as int + 1))
    } else {
        None
    }
}

impl Name {
    #[verifier::type_invariant]
    spec fn is_valid(self) -> bool {
        valid(self.0@)
    }

    /// The name a text spells, if the text is a valid name.
    pub fn parse(name: &str) -> (r: Result<Name, String>)
        ensures
            r is Ok <==> valid(name@),
            r matches Ok(n) ==> n@ == name@,
            r matches Err(message) ==> message@ == fault_text(name@, fault(name@)->0),
    {
        match validate(name) {
            Ok(()) => Ok(Name(name.to_owned())),
            Err(message) => Err(message),
        }
    }

    pub fn as_str(&self) -> (r: &str)
        ensures
            r@ == self@,
            valid(r@),
    {
        proof {
            use_type_invariant(self);
        }
        self.0.as_str()
    }

    pub fn same_as(&self, other: &Name) -> (r: bool)
        ensures
            r == (self@ == other@),
    {
        self.0 == other.0
    }

    /// Prefix match on whole components, so `work` covers `work/aws` but not
    /// `workshop`.
    pub fn is_at_or_below(&self, prefix: &Name) -> (r: bool)
        ensures
            r == at_or_below(self@, prefix@),
            r == (self@ == prefix@ || meaning::is_below(self@, prefix@)),
    {
        proof {
            meaning::below_is_below(self@, prefix@);
        }
        self.0 == prefix.0 || strip_below(self, prefix).is_some()
    }
}

impl std::str::FromStr for Name {
    type Err = String;

    fn from_str(name: &str) -> (r: Result<Name, String>)
        ensures
            r is Ok <==> valid(name@),
            r matches Ok(n) ==> n@ == name@,
            r matches Err(message) ==> message@ == fault_text(name@, fault(name@)->0),
    {
        Name::parse(name)
    }
}

proof fn valid_is_ascii(s: Seq<char>)
    requires
        valid(s),
    ensures
        vstd::utf8::is_ascii_chars(s),
{
    assert forall|i: int| 0 <= i < s.len() implies 0 <= #[trigger] s[i] < 128 by {
        assert(allowed(s[i]) || s[i] == '/');
    }
}

/// The part of `name` below `prefix`, or `None` if it is not below.
fn strip_below<'a>(name: &'a Name, prefix: &Name) -> (r: Option<&'a str>)
    ensures
        r matches Some(rest) ==> below(name@, prefix@) == Some(rest@),
        r is None ==> below(name@, prefix@) is None,
        r matches Some(rest) ==> name@ == prefix@ + seq!['/'] + rest@,
        r is None ==> !meaning::is_below(name@, prefix@),
{
    proof {
        meaning::below_is_below(name@, prefix@);
        if below(name@, prefix@) is Some {
            meaning::below_is_behind_a_slash(name@, prefix@, below(name@, prefix@)->0);
        }
    }
    let whole: Vec<char> = text::chars_of(name.as_str());
    let head: Vec<char> = text::chars_of(prefix.as_str());
    if whole.len() <= head.len() {
        return None;
    }
    let mut i: usize = 0;
    while i < head.len()
        invariant
            i <= head@.len() < whole@.len(),
            whole@ == name@,
            head@ == prefix@,
            forall|j: int| 0 <= j < i ==> whole@[j] == head@[j],
        decreases head@.len() - i,
    {
        if whole[i] != head[i] {
            proof {
                assert(name@.take(prefix@.len() as int)[i as int] != prefix@[i as int]);
            }
            return None;
        }
        i = i + 1;
    }
    proof {
        assert(name@.take(prefix@.len() as int) =~= prefix@);
    }
    if whole[i] != '/' {
        return None;
    }
    let text: &'a str = name.as_str();
    proof {
        valid_is_ascii(text@);
        assert(name@.subrange(i + 1, name@.len() as int) =~= name@.skip(i + 1));
    }
    Some(text.substring_ascii(i + 1, whole.len()))
}

/// A namespace is the strict descendants of one valid name.
#[derive(Debug, Eq, PartialEq)]
pub struct Namespace(Name);

impl View for Namespace {
    type V = Seq<char>;

    closed spec fn view(&self) -> Seq<char> {
        self.0@
    }
}

impl Clone for Namespace {
    fn clone(&self) -> (r: Namespace)
        ensures
            r@ == self@,
    {
        Namespace(self.0.clone())
    }
}

impl Namespace {
    pub fn parse(value: &str) -> (r: Result<Namespace, String>)
        ensures
            r is Ok <==> valid(value@),
            r matches Ok(n) ==> n@ == value@,
            r matches Err(message) ==> message@ == fault_text(value@, fault(value@)->0),
    {
        match Name::parse(value) {
            Ok(name) => Ok(Namespace(name)),
            Err(message) => Err(message),
        }
    }

    pub fn as_str(&self) -> (r: &str)
        ensures
            r@ == self@,
            valid(r@),
    {
        self.0.as_str()
    }

    pub fn contains(&self, name: &Name) -> (r: bool)
        ensures
            r == (below(name@, self@) is Some),
            r == meaning::is_below(name@, self@),
    {
        proof {
            meaning::below_is_below(name@, self@);
        }
        self.strip(name).is_some()
    }

    /// The part of the name below the namespace, or `None` if it is outside.
    /// The namespace's own name has no remainder, so it is outside.
    pub fn strip<'a>(&self, name: &'a Name) -> (r: Option<&'a str>)
        ensures
            r matches Some(rest) ==> below(name@, self@) == Some(rest@),
            r is None ==> below(name@, self@) is None,
            r matches Some(rest) ==> name@ == self@ + seq!['/'] + rest@,
            r is None ==> !meaning::is_below(name@, self@),
    {
        strip_below(name, &self.0)
    }
}

impl std::str::FromStr for Namespace {
    type Err = String;

    fn from_str(value: &str) -> (r: Result<Namespace, String>)
        ensures
            r is Ok <==> valid(value@),
            r matches Ok(n) ==> n@ == value@,
            r matches Err(message) ==> message@ == fault_text(value@, fault(value@)->0),
    {
        Namespace::parse(value)
    }
}

// ---------------------------------------------------------------------------
// Laws

/// A valid name cannot lead out of the store: none of its components is empty,
/// hidden, `.` or `..`, and none holds a slash.
pub proof fn a_valid_name_does_not_climb(s: Seq<char>)
    requires
        valid(s),
    ensures
        forall|i: int|
            0 <= i < text::split(s, '/').len() ==> {
                let component = #[trigger] text::split(s, '/')[i];
                &&& component.len() > 0
                &&& component[0] != '.'
                &&& !component.contains('/')
            },
{
    faultless_is_valid(s);
    components_are_faultless(text::split(s, '/'));
}

proof fn components_are_faultless(components: Seq<Seq<char>>)
    requires
        first_fault(components) is None,
    ensures
        forall|i: int|
            0 <= i < components.len() ==> {
                let component = #[trigger] components[i];
                &&& component.len() > 0
                &&& component[0] != '.'
                &&& !component.contains('/')
            },
    decreases components.len(),
{
    if components.len() > 0 {
        let rest = components.drop_first();
        components_are_faultless(rest);
        first_refused_is_none(components[0]);
        assert forall|i: int| 0 <= i < components.len() implies {
            let component = #[trigger] components[i];
            &&& component.len() > 0
            &&& component[0] != '.'
            &&& !component.contains('/')
        } by {
            if i > 0 {
                assert(rest[i - 1] == components[i]);
            }
        }
    }
}

/// A namespace contains strict descendants only: never its own name, and nothing
/// that a prefix of the same name would not cover.
pub proof fn a_namespace_is_strict(n: Seq<char>, namespace: Seq<char>)
    ensures
        below(namespace, namespace) is None,
        below(n, namespace) is Some <==> at_or_below(n, namespace) && n != namespace,
{
}

/// What is left of a valid name below a namespace is a valid name.
pub proof fn the_rest_of_a_name_is_valid(n: Seq<char>, namespace: Seq<char>)
    requires
        valid(n),
        below(n, namespace) is Some,
    ensures
        valid(below(n, namespace)->0),
{
    let k = namespace.len() as int + 1;
    let rest = n.skip(k);
    assert forall|i: int| 0 <= i < rest.len() implies allowed(#[trigger] rest[i]) || rest[i]
        == '/' by {
        assert(rest[i] == n[k + i]);
    }
    assert forall|i: int| 0 <= i <= rest.len() && #[trigger] component_starts(rest, i) implies i
        < rest.len() && rest[i] != '/' && rest[i] != '.' by {
        assert(component_starts(n, k + i));
    }
}

} // verus!
