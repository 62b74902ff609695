//! The action values a session emits when a label key is pressed: jump to
//! the entry and close, or jump to the entry and open it.

use vstd::prelude::*;

verus! {

/// Jump to the entry with this identifier, then close the popup.
#[derive(Clone, Copy, Debug, PartialEq, Eq, Structural)]
pub struct JumpAndClose {
    pub id: usize,
}

impl JumpAndClose {
    pub fn new(id: usize) -> (r: Self)
        ensures
            r.id == id,
    {
        Self { id }
    }
}

/// Jump to the entry with this identifier, then open it.
#[derive(Clone, Copy, Debug, PartialEq, Eq, Structural)]
pub struct JumpAndOpen {
    pub id: usize,
}

impl JumpAndOpen {
    pub fn new(id: usize) -> (r: Self)
        ensures
            r.id == id,
    {
        Self { id }
    }
}

/// The one discriminated action a label keypress produces.
#[derive(Clone, Copy, Debug, PartialEq, Eq, Structural)]
pub enum JumpAction {
    Close(JumpAndClose),
    Open(JumpAndOpen),
}

/// The action a session with the given jump mode emits for an entry.
pub open spec fn jump_action_for(open_on_jump: bool, id: usize) -> JumpAction {
    if open_on_jump {
        JumpAction::Open(JumpAndOpen { id })
    } else {
        JumpAction::Close(JumpAndClose { id })
    }
}

/// Builds the action for the entry `id` under the given jump mode.
pub fn make_jump_action(open_on_jump: bool, id: usize) -> (r: JumpAction)
    ensures
        r == jump_action_for(open_on_jump, id),
{
    if open_on_jump {
        JumpAction::Open(JumpAndOpen::new(id))
    } else {
        JumpAction::Close(JumpAndClose::new(id))
    }
}

impl JumpAction {
    /// The identifier of the entry the action targets.
    pub fn target_id(&self) -> (r: usize)
        ensures
            self == jump_action_for(self is Open, r),
    {
        match self {
            JumpAction::Close(a) => a.id,
            JumpAction::Open(a) => a.id,
        }
    }
}

} // verus!
