//! Error values surfaced by the pipeline.

use vstd::prelude::*;

verus! {

/// A required command line argument or upstream artifact was not given.
#[derive(Debug, Clone)]
pub struct MissingCommandLineArgumentError {
    argument: String,
}

impl MissingCommandLineArgumentError {
    pub closed spec fn spec_argument(&self) -> Seq<char> {
        self.argument@
    }

    pub fn new(argument: &str) -> (r: Self)
        ensures
            r.spec_argument() == argument@,
    {
        Self { argument: argument.to_owned() }
    }

    /// The flag whose value was missing.
    pub fn argument(&self) -> (r: &str)
        ensures
            r@ == self.spec_argument(),
    {
        self.argument.as_str()
    }
}

/// A malformed input file.
#[derive(Debug, Clone)]
pub struct ParseError {
    message: Vec<u8>,
}

impl ParseError {
    pub closed spec fn spec_message(&self) -> Seq<u8> {
        self.message@
    }

    pub fn new(message: Vec<u8>) -> (r: Self)
        ensures
            r.spec_message() == message@,
    {
        Self { message }
    }

    /// What went wrong, as a byte string.
    pub fn message(&self) -> (r: &Vec<u8>)
        ensures
            r@ == self.spec_message(),
    {
        &self.message
    }
}

} // verus!
