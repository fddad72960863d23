//! The roots that links are placed under.

use vstd::prelude::*;

verus! {

/// A symbolic destination root. It is carried through unresolved.
#[derive(Clone, Copy, Debug, PartialEq, Eq, Structural)]
pub enum BaseDir {
    /// The user's configuration directory.
    Config,
    /// The user's home directory.
    Home,
}

} // verus!
