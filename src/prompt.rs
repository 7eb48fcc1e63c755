use vstd::prelude::*;

verus! {

#[verifier::external_type_specification]
#[verifier::external_body]
pub struct ExIoError(std::io::Error);

/// Why a terminal prompt failed.
#[derive(Debug)]
pub enum Error {
    /// The platform has no way of prompting in the terminal.
    UnsupportedPlatform,
    /// The terminal could not be opened for the prompt, or written to.
    TtyWrite { source: std::io::Error },
}

/// How to prompt.
#[derive(Default, Clone, Copy, Debug)]
pub struct Options {
    /// What is asked for is a secret: what is typed is not shown.
    pub secret: bool,
}

} // verus!
