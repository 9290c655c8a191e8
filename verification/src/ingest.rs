//! The answer the editor gets when it submits a graph file: whether it
//! loaded, and the error text when it did not.
use vstd::prelude::*;

verus! {

/// Whether a submitted graph file loaded, and the error text when not.
#[derive(Debug)]
pub struct CompileResult {
    result: bool,
    error_log: String,
}

impl View for CompileResult {
    type V = (bool, Seq<char>);

    /// Whether the file loaded, and the error text.
    closed spec fn view(&self) -> (bool, Seq<char>) {
        (self.result, self.error_log@)
    }
}

impl CompileResult {
    /// The outcome of loading a file: success with an empty log, or failure
    /// with the error's text.
    pub fn from_outcome(outcome: Result<(), String>) -> (r: CompileResult)
        ensures
            r@ == (outcome is Ok, match outcome {
                Ok(_) => Seq::<char>::empty(),
                Err(e) => e@,
            }),
    {
        match outcome {
            Ok(()) => CompileResult { result: true, error_log: String::new() },
            Err(e) => CompileResult { result: false, error_log: e },
        }
    }

    /// The error text (empty after a success).
    pub fn error_log(&self) -> (r: String)
        ensures
            r@ == self@.1,
    {
        self.error_log.clone()
    }

    /// Whether the file loaded.
    pub fn result(&self) -> (r: bool)
        ensures
            r == self@.0,
    {
        self.result
    }
}

} // verus!
