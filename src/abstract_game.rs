use vstd::prelude::*;
use crate::game::{DiceSlot, MoveIndex, OutcomeIndex, SlotIndex, SlotMask};
use crate::outcome::UnorderedDiceOutcome;
use crate::reroll::DiceReroll;

verus! {

/// An outcome of a roll, with its index among the game's outcomes.
pub trait Outcome {
    fn index(&self) -> OutcomeIndex;

    /// Ordered rolls giving this outcome, out of all rolls of the dice.
    fn initial_weight(&self) -> u64;
}

/// A move between rolls, with its index among the game's moves.
pub trait Move {
    fn index(&self) -> MoveIndex;
}

/// A scoring category, with its index and its bit in a [`SlotMask`].
pub trait Slot {
    fn slot_mask(&self) -> SlotMask;

    fn index(&self) -> SlotIndex;

    /// Counts towards the bonus.
    fn bonus(&self) -> bool;
}

impl Outcome for UnorderedDiceOutcome {
    fn index(&self) -> OutcomeIndex {
        self.index
    }

    fn initial_weight(&self) -> u64 {
        self.initial_weight
    }
}

impl Move for DiceReroll {
    fn index(&self) -> MoveIndex {
        self.index
    }
}

impl Slot for DiceSlot {
    fn slot_mask(&self) -> SlotMask {
        self.slot_mask
    }

    fn index(&self) -> SlotIndex {
        self.index
    }

    fn bonus(&self) -> bool {
        self.bonus
    }
}

} // verus!
