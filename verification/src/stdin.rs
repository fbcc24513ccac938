//! The standard-input capabilities the classifier consumes: whether standard
//! input is an interactive terminal, and the piped text when it is not.

use vstd::prelude::*;

verus! {

/// A probe of standard input. `is_terminal` answers whether standard input
/// is attached to an interactive terminal; when it is not, `read_piped`
/// drains the redirected stream into one string, every line read followed by
/// a newline, or reports that a line could not be read by returning `None`.
pub trait Terminal {
    spec fn spec_is_terminal(&self) -> bool;

    fn is_terminal(&self) -> (r: bool)
        ensures
            r == self.spec_is_terminal(),
    ;

    fn read_piped(&self) -> (r: Option<String>);
}

/// A substitute probe with a fixed terminal status; its redirected stream is
/// always empty.
pub struct StdinServiceMock {
    pub is_terminal: bool,
}

impl Terminal for StdinServiceMock {
    open spec fn spec_is_terminal(&self) -> bool {
        self.is_terminal
    }

    fn is_terminal(&self) -> bool {
        self.is_terminal
    }

    fn read_piped(&self) -> Option<String> {
        Some(String::new())
    }
}

/// A substitute probe whose standard input is redirected but cannot be read;
/// it exercises the piped-read failure path.
pub struct BrokenPipeMock {}

impl Terminal for BrokenPipeMock {
    open spec fn spec_is_terminal(&self) -> bool {
        false
    }

    fn is_terminal(&self) -> bool {
        false
    }

    fn read_piped(&self) -> Option<String> {
        None
    }
}

} // verus!
