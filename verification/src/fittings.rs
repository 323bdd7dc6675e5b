//! Presentation types for the fitting list the waitlist publishes.

use vstd::prelude::*;

verus! {

/// A reference fit rendered for display: its name and its loadout in the
/// game's ship-DNA text encoding.
pub struct DNAFitting {
    pub name: String,
    pub dna: String,
}

/// An advisory note shown beside the fitting list.
pub struct FittingNote {
    pub name: String,
    pub description: String,
}

} // verus!
