//! User settings.

use vstd::prelude::*;

verus! {

/// The indices of the single resources that user settings read: the user
/// commands, the class sheet and the fragments.
#[derive(Clone, Copy, Debug, PartialEq, Eq, Structural, Hash)]
pub struct SingleId {
    pub user_commands: usize,
    pub class_sheet: usize,
    pub fragments: usize,
}

} // verus!
