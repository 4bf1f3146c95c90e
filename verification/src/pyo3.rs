//! Stand-ins for the interpreter's types in a build without an interpreter:
//! errors are texts, and calls run at once.

use vstd::prelude::*;

verus! {

/// An error of the interpreter, which is just its text.
pub struct PyRuntimeError;

impl PyRuntimeError {
    /// The error with a text: the text.
    pub fn new_err(msg: String) -> (r: String)
        ensures
            r == msg,
    {
        msg
    }
}

/// The interpreter's lock, of which there is none.
#[derive(Clone, Copy)]
pub struct Python;

impl Python {
    /// Calls `f` at once and gives back what it returns.
    pub fn with_gil<F, R>(f: F) -> (r: R) where F: FnOnce(Python) -> R
        requires
            f.requires((Python,)),
        ensures
            f.ensures((Python,), r),
    {
        f(Python)
    }

    /// Calls `f` at once and gives back what it returns.
    pub fn allow_threads<F, R>(self, f: F) -> (r: R) where F: FnOnce() -> R
        requires
            f.requires(()),
        ensures
            f.ensures((), r),
    {
        f()
    }

    /// There is no signal to look for.
    pub fn check_signals(&self) -> (r: Result<(), String>)
        ensures
            r is Ok,
    {
        Ok(())
    }
}

} // verus!
