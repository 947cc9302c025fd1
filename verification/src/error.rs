//! The library's error type.

use vstd::prelude::*;

verus! {

/// Every failure of the library: a message meant for the user. The
/// command-line front end prints it and exits with code 2.
#[derive(Debug, Clone)]
pub struct TcError {
    pub msg: String,
}

impl TcError {
    /// An error with the message `msg`.
    pub fn new(msg: String) -> (e: TcError)
        ensures
            e.msg@ == msg@,
    {
        TcError { msg }
    }
}

} // verus!
