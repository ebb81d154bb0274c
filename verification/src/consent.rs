//! Consent: what cannot be undone is done only if the user forces it or says yes
//! on a terminal.

use vstd::prelude::*;
use vstd::string::*;

use crate::error::Error;
use crate::meaning;
use crate::tty;

verus! {

/// The proof that the user agreed to one thing: that which a question asks. There is
/// no other way to get one than to force the command or to answer that question
/// with yes.
pub struct Permit {
    question: String,
    force: bool,
    answer: Option<String>,
}

impl Permit {
    #[verifier::type_invariant]
    spec fn is_given(self) -> bool {
        self.forced() || self.affirmed()
    }

    /// The question whose thing is permitted.
    pub closed spec fn question(&self) -> Seq<char> {
        self.question@
    }

    /// The answer that was given, if the question was asked.
    pub closed spec fn answer(&self) -> Option<Seq<char>> {
        match self.answer {
            Some(answer) => Some(answer@),
            None => None,
        }
    }

    pub closed spec fn forced(&self) -> bool {
        self.force
    }

    pub closed spec fn affirmed(&self) -> bool {
        self.answer matches Some(answer) && tty::affirmative(answer@)
    }

    /// The permit is for what this question asks, and was given.
    pub open spec fn allows(&self, question: Seq<char>) -> bool {
        self.question() == question && (self.forced() || self.affirmed())
    }

    /// Refuse a permit that was given for something else.
    pub fn check(&self, question: String) -> (r: Result<(), Error>)
        ensures
            r is Ok <==> self.question() == question@,
            r is Ok ==> self.allows(question@),
            r matches Err(e) ==> e@ == "consent was given to something else"@,
    {
        proof {
            use_type_invariant(self);
        }
        if self.question == question {
            Ok(())
        } else {
            Err(Error::of("consent was given to something else"))
        }
    }
}

/// A permit that was not forced stands for an answer that says yes.
pub proof fn only_yes_gives_a_permit(permit: Permit, question: Seq<char>)
    requires
        permit.allows(question),
    ensures
        permit.question() == question,
        permit.forced() || (permit.answer() matches Some(answer) && meaning::says_yes(answer)),
        permit.affirmed() <==> (permit.answer() matches Some(answer) && meaning::says_yes(answer)),
{
    if permit.answer is Some {
        meaning::yes_is_said(permit.answer->0@);
    }
}

/// A question to put to the user on a terminal.
pub struct Question {
    prompt: String,
}

impl View for Question {
    type V = Seq<char>;

    closed spec fn view(&self) -> Seq<char> {
        self.prompt@
    }
}

impl Question {
    pub fn prompt(&self) -> (r: &str)
        ensures
            r@ == self@,
    {
        self.prompt.as_str()
    }

    /// Only yes gives a permit; declining is no error.
    pub fn answer(self, answer: String) -> (r: Option<Permit>)
        ensures
            r is Some <==> tty::affirmative(answer@),
            r is Some <==> meaning::says_yes(answer@),
            r matches Some(permit) ==> permit.answer() == Some(answer@),
            r matches Some(permit) ==> permit.affirmed() && permit.question() == self@,
    {
        if tty::confirmed(answer.as_str()) {
            Some(Permit { question: self.prompt, force: false, answer: Some(answer) })
        } else {
            None
        }
    }
}

pub enum Consent {
    Given(Permit),
    Ask(Question),
}

/// What seeking consent comes to. A pipe cannot answer, so it is refused.
pub open spec fn is_sought(
    force: bool,
    stdin_is_tty: bool,
    refusal: Seq<char>,
    prompt: Seq<char>,
    r: Result<Consent, Error>,
) -> bool {
    if force {
        r matches Ok(Consent::Given(permit)) && permit.forced() && permit.question() == prompt
    } else if stdin_is_tty {
        r matches Ok(Consent::Ask(question)) && question@ == prompt
    } else {
        r matches Err(e) && e@ == refusal
    }
}

/// Seek consent: by force, or by a question on a terminal.
pub fn seek(force: bool, stdin_is_tty: bool, refusal: String, prompt: String) -> (r: Result<
    Consent,
    Error,
>)
    ensures
        is_sought(force, stdin_is_tty, refusal@, prompt@, r),
{
    if force {
        Ok(Consent::Given(Permit { question: prompt, force: true, answer: None }))
    } else if stdin_is_tty {
        Ok(Consent::Ask(Question { prompt }))
    } else {
        Err(Error::new(refusal))
    }
}

} // verus!
