//! The choice that the program is run with.
use vstd::prelude::*;

verus! {

/// The language to leave the installation in.
#[derive(Debug, Clone, Copy, PartialEq, Eq, Structural)]
pub enum Language {
    /// Overlay the localized files.
    Chinese,
    /// Restore the original files from the backup.
    English,
}

impl Default for Language {
    fn default() -> (r: Language)
        ensures
            r == Language::Chinese,
    {
        Language::Chinese
    }
}

/// The program's arguments.
#[derive(Debug, Clone, Copy)]
pub struct Alien {
    pub language: Language,
}

} // verus!
