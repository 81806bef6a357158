//! The error model: a uniform error kind with wrap/chain and an
//! aggregate-list variant, so reconciling many listeners can report
//! every fault instead of only the first.

use vstd::prelude::*;

verus! {

#[derive(Debug)]
pub enum AardvarkError {
    /// A free-form contextual error.
    Message(String),
    /// An underlying file, socket, or pipe failure, described in text.
    IOError(String),
    /// A malformed IP literal.
    AddrParseError(String),
    /// A message plus a wrapped inner error, used to annotate context.
    Chain(String, Box<AardvarkError>),
    /// An aggregate collecting errors from reconciling multiple listeners.
    List(AardvarkErrorList),
}

pub type AardvarkResult<T> = Result<T, AardvarkError>;

impl AardvarkError {
    /// A free-form error with the given message.
    pub fn msg(m: String) -> (r: Self)
        ensures
            r == AardvarkError::Message(m),
    {
        AardvarkError::Message(m)
    }

    /// Wrap the error value with additional context.
    pub fn wrap(m: String, chained: Self) -> (r: Self)
        ensures
            r matches AardvarkError::Chain(s, e) && s == m && *e == chained,
    {
        AardvarkError::Chain(m, Box::new(chained))
    }
}

#[derive(Debug)]
pub struct AardvarkErrorList {
    pub errors: Vec<AardvarkError>,
}

impl AardvarkErrorList {
    pub fn new() -> (r: Self)
        ensures
            r.errors@.len() == 0,
    {
        AardvarkErrorList { errors: Vec::new() }
    }

    pub fn push(&mut self, err: AardvarkError)
        ensures
            final(self).errors@ == old(self).errors@.push(err),
    {
        self.errors.push(err)
    }

    pub fn is_empty(&self) -> (r: bool)
        ensures
            r == (self.errors@.len() == 0),
    {
        self.errors.len() == 0
    }
}

} // verus!
