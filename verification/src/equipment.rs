//! Equipment and the slots in which it is worn.

use vstd::prelude::*;

verus! {

/// Where on the body a piece of equipment is worn.
#[derive(Clone, Copy, Debug, PartialEq, Eq, Structural)]
pub enum Slot {
    LeftHand,
    RightHand,
    Head,
}

/// A piece of equipment and whether it is worn.
#[derive(Clone, Copy, Debug, PartialEq, Eq, Structural)]
pub struct Equipment {
    pub slot: Slot,
    pub equipped: bool,
}

/// The facet of an object that can be equipped, yielding bonuses.
#[derive(Clone, Copy, Debug, PartialEq, Eq, Structural)]
pub struct Equippable {
    pub slot: Slot,
    pub equipped: bool,
}

impl Slot {
    /// The words that name this slot.
    pub open spec fn label(self) -> Seq<char> {
        match self {
            Slot::LeftHand => "left hand"@,
            Slot::RightHand => "right hand"@,
            Slot::Head => "head"@,
        }
    }

    /// The slot's name as text: "left hand", "right hand" or "head".
    pub fn name(&self) -> (text: String)
        ensures
            text@ == self.label(),
    {
        match self {
            Slot::LeftHand => String::from_str("left hand"),
            Slot::RightHand => String::from_str("right hand"),
            Slot::Head => String::from_str("head"),
        }
    }
}

} // verus!
