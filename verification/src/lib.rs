//! An interactive single-line command editor with live autocompletion: a
//! text buffer with a byte cursor over variable-width characters, a parser
//! that splits a line into command and arguments, completion providers for
//! executable names and filesystem paths, and the popup state machine that
//! stays synchronized with the buffer as the user keeps typing.

use vstd::prelude::*;

pub mod autocomplete;
pub mod command;
pub mod autocompleteview;
pub mod file;
pub mod strings;
pub mod view;

verus! {

/// Runtime configuration chosen when the application starts.
pub struct Config {
    pub debug: bool,
}

impl Config {
    pub fn new(debug: bool) -> (c: Config)
        ensures
            c.debug == debug,
    {
        Config { debug }
    }
}

/// State carried while the application runs.
pub struct RunState {
    pub current_dir: String,
}

impl RunState {
    pub fn new(current_dir: String) -> (s: RunState)
        ensures
            s.current_dir@ == current_dir@,
    {
        RunState { current_dir }
    }
}

} // verus!
