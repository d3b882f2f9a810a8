use vstd::prelude::*;

verus! {

/// What the Find / Replace dialog was closed with.
#[derive(Debug, Clone, Copy, PartialEq, Eq, Structural)]
pub enum FindAction {
    FindNext,
    Replace,
    ReplaceAll,
}

/// The Find / Replace dialog's fields when it was closed.
#[derive(Debug, Clone)]
pub struct FindReplaceResult {
    pub find: String,
    pub replace: String,
    pub case_sensitive: bool,
    pub action: FindAction,
}

} // verus!
