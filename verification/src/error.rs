//! What a parser reports when the text does not match.
use vstd::prelude::*;

verus! {

/// The stage of a rule that was being read.
#[derive(Debug, PartialEq, Eq, Clone, Copy)]
pub enum Context {
    Target,
    Delimiter,
    Prereqs,
    Recipe,
}

/// What was expected at a position and not found there.
#[derive(Debug, PartialEq, Eq, Clone, Copy)]
pub enum Expected {
    /// A fixed piece of text.
    Tag,
    /// One of several alternatives.
    Alt,
    /// A line ending.
    CrLf,
    /// A space or a tab.
    Space,
    /// A name, where the text had none left.
    Eof,
    /// At least one repetition.
    Many1,
    /// A stage of a rule; it wraps the mismatches inside that stage.
    Context(Context),
}

/// A grammar mismatch: the chain of expectations that failed, innermost
/// first. Each entry holds the text that was left where its expectation
/// was tried, a slice of the text that was parsed.
#[derive(Debug, PartialEq, Clone)]
pub struct ParseError<'a> {
    pub errors: Vec<(&'a str, Expected)>,
}

/// A chain of failed expectations over sequences of characters.
pub type Trace = Seq<(Seq<char>, Expected)>;

impl DeepView for Expected {
    type V = Expected;

    open spec fn deep_view(&self) -> Expected {
        *self
    }
}

impl<'a> DeepView for ParseError<'a> {
    type V = Trace;

    open spec fn deep_view(&self) -> Trace {
        self.errors.deep_view()
    }
}

impl<'a> View for ParseError<'a> {
    type V = Trace;

    open spec fn view(&self) -> Trace {
        self.deep_view()
    }
}

impl<'a> ParseError<'a> {
    /// The mismatch of one expectation at `input`.
    pub fn new(input: &'a str, expected: Expected) -> (e: Self)
        ensures
            e@ == seq![(input@, expected)],
    {
        let mut errors: Vec<(&'a str, Expected)> = Vec::new();
        errors.push((input, expected));
        let e = ParseError { errors };
        assert(e@ =~= seq![(input@, expected)]);
        e
    }

    /// This chain with one more expectation around it, tried at `input`.
    pub fn append(self, input: &'a str, expected: Expected) -> (e: Self)
        ensures
            e@ == self@.push((input@, expected)),
    {
        let mut errors = self.errors;
        errors.push((input, expected));
        let e = ParseError { errors };
        assert(e@ =~= self@.push((input@, expected)));
        e
    }
}

} // verus!
