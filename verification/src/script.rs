//! Source text handed to a realm for evaluation.

use vstd::prelude::*;

verus! {

/// A piece of source text and the path it is known under in diagnostics.
#[derive(Debug)]
pub struct Script {
    pub path: String,
    pub code: String,
}

impl Script {
    pub fn new(path: &str, code: &str) -> (script: Script)
        ensures
            script.path@ == path@,
            script.code@ == code@,
    {
        Script { path: path.to_owned(), code: code.to_owned() }
    }

    pub fn get_path(&self) -> (path: &str)
        ensures
            path@ == self.path@,
    {
        self.path.as_str()
    }

    pub fn get_code(&self) -> (code: &str)
        ensures
            code@ == self.code@,
    {
        self.code.as_str()
    }
}

} // verus!
