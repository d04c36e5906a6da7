//! The scoring and leveling engine of a terminal flashcard drill: questions
//! keyed by a per-question score, partitioned into score levels, drilled by
//! an adaptive streak rule (consecutive correct answers raise the score ever
//! faster; a miss lowers it by one and resets the streak), and written back
//! through a plain record format.
//!
//! Every function here carries a contract checked by Verus. The surrounding
//! terminal work — picking a file, reading lines, coloring the diff, JSON —
//! lives outside the library and hands in plain values.

use vstd::prelude::*;

pub mod interrogate;
pub mod question;
pub mod question_level;
pub mod question_roster;
pub mod record;
pub mod selection;

verus! {

/// Score attached to every question; small signed integers keep saved files
/// readable and let sessions lower a score below zero before normalization.
pub type ScoreType = i32;

/// Default streak counter for a freshly loaded question record.
pub fn score_zero() -> (r: ScoreType)
    ensures
        r == 0,
{
    0
}

} // verus!
