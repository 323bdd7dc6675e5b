//! Ship-fitting conformance engine: a module-equivalence tier graph built from
//! declarative rules, a structural differ that compares a submitted loadout
//! against a reference loadout, a best-match selector, and an approval pipeline
//! that folds skill, tag and business-rule checks over the diff.

use vstd::prelude::*;

pub mod categories;
pub mod fitcheck;
pub mod fitdiffer;
pub mod fitmatch;
pub mod fits;
pub mod fitting;
pub mod fittings;
pub mod idmap;
pub mod skills;
pub mod tags;
pub mod variations;

verus! {

/// Identifies a game item, skill or ship hull. Equality and ordering are by
/// value, so iteration over id-keyed structures is deterministic.
pub type TypeID = i64;

} // verus!
