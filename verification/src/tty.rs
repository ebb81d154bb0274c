//! What is read from a terminal or a pipe: the secret, and the answer to a
//! question.

use vstd::prelude::*;
use vstd::string::*;

use crate::meaning;
use crate::name::Name;
use crate::text;

verus! {

/// Without the newline that ends a line, be it `\n` or `\r\n`.
pub open spec fn without_newline(line: Seq<u8>) -> Seq<u8> {
    if line.len() == 0 || line.last() != text::NEWLINE {
        line
    } else if line.len() >= 2 && line[line.len() - 2] == text::RETURN {
        line.take(line.len() - 2)
    } else {
        line.drop_last()
    }
}

/// The bytes up to the first newline, with it, or all of them.
pub open spec fn first_line(input: Seq<u8>) -> Seq<u8>
    decreases input.len(),
{
    if input.len() == 0 {
        input
    } else if input[0] == text::NEWLINE {
        input.take(1)
    } else {
        seq![input[0]] + first_line(input.drop_first())
    }
}

/// Drop a trailing `\n` or `\r\n`. The newline ends the entry; it is not part of
/// the secret.
pub fn strip_one_line(line: Vec<u8>) -> (r: Vec<u8>)
    ensures
        r@ == without_newline(line@),
{
    let ghost whole = line@;
    let mut line: Vec<u8> = line;
    if line.len() > 0 && line[line.len() - 1] == text::NEWLINE {
        line.pop();
        if line.len() > 0 && line[line.len() - 1] == text::RETURN {
            line.pop();
        }
    }
    proof {
        assert(line@ =~= without_newline(whole));
    }
    line
}

/// The secret in what was read: all of it in multiline mode, else the first
/// line without its newline.
pub fn read_plain(input: &[u8], multiline: bool) -> (r: Vec<u8>)
    ensures
        r@ == (if multiline {
            input@
        } else {
            without_newline(first_line(input@))
        }),
{
    if multiline {
        return text::copy_of(input);
    }
    let mut line: Vec<u8> = Vec::new();
    let mut i: usize = 0;
    proof {
        assert(input@.skip(0) =~= input@);
        assert(line@ + first_line(input@) =~= first_line(input@));
        if input@.len() == 0 {
            assert(line@ =~= first_line(input@));
        }
    }
    while i < input.len()
        invariant_except_break
            i <= input@.len(),
            first_line(input@) == line@ + first_line(input@.skip(i as int)),
        ensures
            first_line(input@) == line@,
        decreases input@.len() - i,
    {
        let ghost rest = input@.skip(i as int);
        let ghost before = line@;
        line.push(input[i]);
        if input[i] == text::NEWLINE {
            proof {
                assert(before + rest.take(1) =~= line@);
            }
            break;
        }
        proof {
            assert(rest.drop_first() =~= input@.skip(i + 1));
            assert(before + (seq![rest[0]] + first_line(input@.skip(i + 1))) =~= line@ + first_line(
                input@.skip(i + 1),
            ));
        }
        i = i + 1;
        proof {
            if i == input@.len() {
                assert(line@ + first_line(input@.skip(i as int)) =~= line@);
            }
        }
    }
    strip_one_line(line)
}

/// Whether an answer means yes: `y` or `yes`, in either case, with white space
/// around it. Anything else means no.
pub open spec fn affirmative(answer: Seq<char>) -> bool {
    let a = text::trimmed(answer);
    ||| a.len() == 1 && is_letter(a[0], 'y', 'Y')
    ||| a.len() == 3 && is_letter(a[0], 'y', 'Y') && is_letter(a[1], 'e', 'E') && is_letter(
        a[2],
        's',
        'S',
    )
}

pub open spec fn is_letter(c: char, lower: char, upper: char) -> bool {
    c == lower || c == upper
}

/// Whether the answer to a question is yes. The default is no.
pub fn confirmed(answer: &str) -> (r: bool)
    ensures
        r == affirmative(answer@),
        r == meaning::says_yes(answer@),
{
    proof {
        meaning::yes_is_said(answer@);
    }
    let chars: Vec<char> = text::chars_of(answer);
    let a: Vec<char> = text::trim(chars.as_slice());
    if a.len() == 1 {
        a[0] == 'y' || a[0] == 'Y'
    } else if a.len() == 3 {
        (a[0] == 'y' || a[0] == 'Y') && (a[1] == 'e' || a[1] == 'E') && (a[2] == 's' || a[2]
            == 'S')
    } else {
        false
    }
}

pub open spec fn secret_prompt_text(name: Seq<char>, multiline: bool) -> Seq<char> {
    if multiline {
        "value for "@ + name + " (end with ^D): "@
    } else {
        "value for "@ + name + ": "@
    }
}

/// What to ask on a terminal before the secret is typed; nothing when quiet.
pub fn secret_prompt(name: &Name, multiline: bool, quiet: bool) -> (r: Option<String>)
    ensures
        r is None <==> quiet,
        r matches Some(s) ==> s@ == secret_prompt_text(name@, multiline),
{
    if quiet {
        return None;
    }
    let mut prompt: String = "value for ".to_owned();
    prompt.append(name.as_str());
    if multiline {
        prompt.append(" (end with ^D): ");
    } else {
        prompt.append(": ");
    }
    Some(prompt)
}

/// The terminal's local modes with echo off and everything else as it was, so
/// that line editing keeps working while the secret is typed.
pub fn without_echo(modes: u64, echo: u64) -> (r: u64)
    ensures
        r == modes & !echo,
        r & echo == 0,
        forall|other: u64| #![trigger r & other] other & echo == 0 ==> r & other == modes & other,
{
    let r: u64 = modes & !echo;
    proof {
        assert((modes & !echo) & echo == 0) by (bit_vector);
        assert forall|other: u64| #![trigger r & other] other & echo == 0 implies r & other == modes
            & other by {
            assert(other & echo == 0 ==> (modes & !echo) & other == modes & other) by (bit_vector);
        }
    }
    r
}

} // verus!
