//! Mutation core of a study-card collection: notes and their generated cards,
//! shared deck configurations, and attached media with a trash area.
use vstd::prelude::*;

pub mod changes;
pub mod cloze;
pub mod collection;
pub mod deckconfig;
pub mod error;
pub mod ids;
pub mod media;
pub mod mediacheck;
pub mod notequery;
pub mod notes;
pub mod noteupdate;

verus! {

} // verus!
