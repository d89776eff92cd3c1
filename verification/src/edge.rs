//! The records the edge detector consumes and produces.
//!
//! The detector never looks inside an entropy value. All it needs to know
//! about a reading is how it is ordered relative to the two thresholds, so a
//! [`Sample`] carries that ordering next to the value itself, and the value
//! is handed through untouched into the [`EntropyEdge`] it may give rise to.

use std::cmp::Ordering;
use vstd::prelude::*;

verus! {

/// The direction of a detected transition.
#[derive(Debug, Clone, Copy, PartialEq, Eq, Structural)]
pub enum EdgeType {
    Rising,
    Falling,
}

/// A transition confirmed by the detector: the block at which it was
/// confirmed, its direction, and the normalized entropy of that block.
#[derive(Debug, Clone, Copy, PartialEq)]
pub struct EntropyEdge<F> {
    /// Block index where the edge was detected.
    pub block_index: usize,
    /// Direction of the edge.
    pub edge_type: EdgeType,
    /// Normalized entropy of the block at this edge.
    pub entropy: F,
}

/// Where a value stands relative to a threshold.
///
/// `Unordered` is the outcome of a partial order that cannot relate the two,
/// as when either of them is not a number.
#[derive(Debug, Clone, Copy, PartialEq, Eq, Structural)]
pub enum Placement {
    Below,
    At,
    Above,
    Unordered,
}

impl Placement {
    /// The placement that a partial comparison of a value with a threshold
    /// stands for.
    pub open spec fn of_comparison(outcome: Option<Ordering>) -> Placement {
        match outcome {
            Some(Ordering::Less) => Placement::Below,
            Some(Ordering::Equal) => Placement::At,
            Some(Ordering::Greater) => Placement::Above,
            None => Placement::Unordered,
        }
    }

    /// Turns the outcome of `value.partial_cmp(&threshold)` into the
    /// placement of `value`.
    pub fn from_ordering(outcome: Option<Ordering>) -> (placement: Placement)
        ensures
            placement == Placement::of_comparison(outcome),
    {
        match outcome {
            Some(Ordering::Less) => Placement::Below,
            Some(Ordering::Equal) => Placement::At,
            Some(Ordering::Greater) => Placement::Above,
            None => Placement::Unordered,
        }
    }
}

/// One reading handed to the detector: a block's normalized entropy together
/// with its placement relative to the high and the low threshold.
#[derive(Debug, Clone, Copy)]
pub struct Sample<F> {
    /// Index of the block the reading was taken from.
    pub block_index: usize,
    /// Normalized entropy of the block.
    pub entropy: F,
    /// Placement of the normalized entropy relative to the high threshold.
    pub high: Placement,
    /// Placement of the normalized entropy relative to the low threshold.
    pub low: Placement,
}

impl<F> Sample<F> {
    /// The reading of block `block_index` with normalized entropy `entropy`,
    /// placed by the outcomes of comparing `entropy` with the high and with
    /// the low threshold.
    pub fn placed(
        block_index: usize,
        entropy: F,
        against_high: Option<Ordering>,
        against_low: Option<Ordering>,
    ) -> (sample: Sample<F>)
        ensures
            sample == (Sample {
                block_index,
                entropy,
                high: Placement::of_comparison(against_high),
                low: Placement::of_comparison(against_low),
            }),
    {
        Sample {
            block_index,
            entropy,
            high: Placement::from_ordering(against_high),
            low: Placement::from_ordering(against_low),
        }
    }

    /// The reading is at or above the high threshold.
    pub open spec fn reaches_high(self) -> bool {
        self.high == Placement::At || self.high == Placement::Above
    }

    /// The reading is strictly below the high threshold.
    pub open spec fn below_high(self) -> bool {
        self.high == Placement::Below
    }

    /// The reading is at or below the low threshold.
    pub open spec fn reaches_low(self) -> bool {
        self.low == Placement::Below || self.low == Placement::At
    }

    /// The reading is strictly above the low threshold.
    pub open spec fn above_low(self) -> bool {
        self.low == Placement::Above
    }

    /// The edge that this reading gives rise to when the detector confirms a
    /// transition of the given direction at it.
    pub open spec fn edge(self, edge_type: EdgeType) -> EntropyEdge<F> {
        EntropyEdge { block_index: self.block_index, edge_type, entropy: self.entropy }
    }
}

} // verus!
