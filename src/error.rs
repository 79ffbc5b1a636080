//! Errors and warnings gathered while reading a source.
use vstd::prelude::*;
use crate::token::{Span, Token};

verus! {

#[derive(Debug, Clone)]
pub enum ErrorKind {
    BadChar(Span),
    UnclosedString(Span),
    Expected(String, Token),
}

impl ErrorKind {
    /// `found` stood where a token described by `expected` was wanted.
    pub fn expected(expected: &str, found: Token) -> (r: Self)
        ensures
            r matches ErrorKind::Expected(s, t) && s@ == expected@ && t == found,
    {
        ErrorKind::Expected(expected.to_owned(), found)
    }
}

/// One reported problem; a warning does not make the compilation fail.
#[derive(Debug, Clone)]
pub struct Error {
    pub kind: ErrorKind,
    pub warning: bool,
}

/// The problems reported so far, in the order they were reported.
#[derive(Debug, Clone)]
pub struct Diagnostic {
    errors: Vec<Error>,
}

impl View for Diagnostic {
    type V = Seq<Error>;

    closed spec fn view(&self) -> Seq<Error> {
        self.errors@
    }
}

impl Diagnostic {
    pub fn new() -> (r: Self)
        ensures
            r@ == Seq::<Error>::empty(),
    {
        Diagnostic { errors: Vec::new() }
    }

    pub fn raise(&mut self, kind: ErrorKind)
        ensures
            final(self)@ == old(self)@.push(Error { kind, warning: false }),
    {
        self.errors.push(Error { kind, warning: false });
    }

    pub fn warn(&mut self, kind: ErrorKind)
        ensures
            final(self)@ == old(self)@.push(Error { kind, warning: true }),
    {
        self.errors.push(Error { kind, warning: true });
    }

    pub fn errors(&self) -> (r: &[Error])
        ensures
            r@ == self@,
    {
        self.errors.as_slice()
    }

    pub fn take_errors(self) -> (r: Vec<Error>)
        ensures
            r@ == self@,
    {
        self.errors
    }

    /// How many of the problems are errors rather than warnings.
    pub fn error_count(&self) -> (r: usize)
        ensures
            r == self@.filter(|e: Error| !e.warning).len(),
    {
        let mut n: usize = 0;
        let mut i: usize = 0;
        while i < self.errors.len()
            invariant
                i <= self.errors@.len(),
                n == self.errors@.subrange(0, i as int).filter(|e: Error| !e.warning).len(),
                n <= i,
            decreases self.errors@.len() - i,
        {
            proof {
                let s = self.errors@.subrange(0, i + 1);
                assert(s.drop_last() =~= self.errors@.subrange(0, i as int));
                assert(s.last() == self.errors@[i as int]);
                reveal(Seq::filter);
            }
            if !self.errors[i].warning {
                n = n + 1;
            }
            i = i + 1;
        }
        assert(self.errors@.subrange(0, i as int) =~= self.errors@);
        n
    }
}

} // verus!
