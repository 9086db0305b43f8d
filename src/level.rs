use vstd::prelude::*;

verus! {

/// The logic level of one digital line.
#[derive(Clone, Copy, Debug, PartialEq, Eq, Structural)]
pub enum Level {
    Low,
    High,
}

impl Level {
    /// The level that a line driven from a bit value takes.
    pub open spec fn spec_from_bit(bit: bool) -> Level {
        if bit {
            Level::High
        } else {
            Level::Low
        }
    }

    /// The level of a line driven from `bit`: high for a one, low for a zero.
    pub fn from_bit(bit: bool) -> (r: Level)
        ensures
            r == Level::spec_from_bit(bit),
    {
        if bit {
            Level::High
        } else {
            Level::Low
        }
    }

    /// Whether the level reads as a one bit.
    pub fn is_high(&self) -> (r: bool)
        ensures
            r <==> *self == Level::High,
    {
        match self {
            Level::High => true,
            Level::Low => false,
        }
    }
}

} // verus!
