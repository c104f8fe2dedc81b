//! Which of the two lists the operator is acting on.

use vstd::prelude::*;

verus! {

/// The list that navigation and tagging keys apply to.
#[derive(PartialEq, Eq, Structural, Clone, Copy, Debug)]
pub enum Focus {
    Sessions,
    Files,
}

impl Default for Focus {
    /// A fresh screen starts on the sessions list.
    fn default() -> (r: Self)
        ensures
            r == Focus::Sessions,
    {
        Focus::Sessions
    }
}

} // verus!
