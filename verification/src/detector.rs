//! Hysteresis edge detection over a series of entropy readings.
//!
//! The detector is a two-threshold discriminator. It confirms a rising edge
//! when a reading is at or above the high threshold and a falling edge when a
//! reading is at or below the low threshold, and after either it stays
//! disarmed until the signal has moved back: below the high threshold after a
//! rising edge, above the low threshold after a falling edge or before any
//! edge.
//!
//! Callers are expected to choose thresholds with the high one no smaller
//! than the low one. The detector is nevertheless defined for every pair of
//! placements: a reading that reaches both thresholds counts as rising.

use crate::edge::{EdgeType, EntropyEdge, Placement, Sample};
use vstd::prelude::*;

verus! {

/// The state carried from one reading to the next.
#[derive(Debug, Clone, Copy)]
pub struct Detector {
    /// Direction of the most recently confirmed edge, if any.
    pub last_edge: Option<EdgeType>,
    /// Whether a new edge may be confirmed.
    pub armed: bool,
}

impl Detector {
    /// The state every run starts from: no edge seen, armed.
    pub open spec fn start() -> Detector {
        Detector { last_edge: None, armed: true }
    }

    /// A detector is only ever disarmed by confirming an edge.
    pub open spec fn wf(self) -> bool {
        self.last_edge is None ==> self.armed
    }

    /// Whether the reading moves the signal back far enough to arm the
    /// detector again.
    pub open spec fn rearms<F>(self, sample: Sample<F>) -> bool {
        match self.last_edge {
            Some(EdgeType::Rising) => sample.below_high(),
            Some(EdgeType::Falling) => sample.above_low(),
            None => sample.above_low(),
        }
    }

    /// Whether the detector is armed when it judges the reading.
    pub open spec fn armed_for<F>(self, sample: Sample<F>) -> bool {
        self.armed || self.rearms(sample)
    }

    /// The direction of the edge confirmed at the reading, if any. Reaching
    /// the high threshold is tested first.
    pub open spec fn verdict<F>(self, sample: Sample<F>) -> Option<EdgeType> {
        if !self.armed_for(sample) {
            None
        } else if sample.reaches_high() {
            Some(EdgeType::Rising)
        } else if sample.reaches_low() {
            Some(EdgeType::Falling)
        } else {
            None
        }
    }

    /// The edge reported for the reading, if any.
    pub open spec fn emitted<F>(self, sample: Sample<F>) -> Option<EntropyEdge<F>> {
        match self.verdict(sample) {
            Some(edge_type) => Some(sample.edge(edge_type)),
            None => None,
        }
    }

    /// The state after the reading has been judged.
    pub open spec fn advance<F>(self, sample: Sample<F>) -> Detector {
        match self.verdict(sample) {
            Some(edge_type) => Detector { last_edge: Some(edge_type), armed: false },
            None => Detector { last_edge: self.last_edge, armed: self.armed_for(sample) },
        }
    }

    /// A detector in its starting state.
    pub fn new() -> (detector: Detector)
        ensures
            detector == Detector::start(),
            detector.wf(),
    {
        Detector { last_edge: None, armed: true }
    }

    /// Judges one reading: updates the state and returns the edge confirmed
    /// at this reading, if there is one.
    pub fn feed<F: Copy>(&mut self, sample: &Sample<F>) -> (edge: Option<EntropyEdge<F>>)
        ensures
            *final(self) == old(self).advance(*sample),
            edge == old(self).emitted(*sample),
            old(self).wf() ==> final(self).wf(),
    {
        let rearms = match self.last_edge {
            Some(EdgeType::Rising) => sample.high == Placement::Below,
            _ => sample.low == Placement::Above,
        };
        if rearms {
            self.armed = true;
        }
        if !self.armed {
            return None;
        }
        let reaches_high = sample.high == Placement::At || sample.high == Placement::Above;
        let reaches_low = sample.low == Placement::Below || sample.low == Placement::At;
        let edge_type = if reaches_high {
            EdgeType::Rising
        } else if reaches_low {
            EdgeType::Falling
        } else {
            return None;
        };
        self.last_edge = Some(edge_type);
        self.armed = false;
        Some(EntropyEdge { block_index: sample.block_index, edge_type, entropy: sample.entropy })
    }
}

/// The state of a detector that started fresh and has judged `samples` in
/// order.
pub open spec fn state_after<F>(samples: Seq<Sample<F>>) -> Detector
    decreases samples.len(),
{
    if samples.len() == 0 {
        Detector::start()
    } else {
        state_after(samples.drop_last()).advance(samples.last())
    }
}

/// The direction of the edge confirmed at reading `i` of a run over
/// `samples`, if any.
pub open spec fn verdict_at<F>(samples: Seq<Sample<F>>, i: int) -> Option<EdgeType>
    recommends
        0 <= i < samples.len(),
{
    state_after(samples.take(i)).verdict(samples[i])
}

/// The edges a fresh detector reports over `samples`, in the order of the
/// readings that gave rise to them.
pub open spec fn detected<F>(samples: Seq<Sample<F>>) -> Seq<EntropyEdge<F>>
    decreases samples.len(),
{
    if samples.len() == 0 {
        Seq::empty()
    } else {
        let earlier = detected(samples.drop_last());
        match state_after(samples.drop_last()).emitted(samples.last()) {
            Some(edge) => earlier.push(edge),
            None => earlier,
        }
    }
}

/// Runs a fresh detector over the readings once, in order, and returns the
/// edges it confirms.
pub fn detect_edges<F: Copy>(samples: &[Sample<F>]) -> (edges: Vec<EntropyEdge<F>>)
    ensures
        edges@ == detected(samples@),
        samples@.len() == 0 ==> edges@.len() == 0,
        edges@.len() <= samples@.len(),
{
    let mut detector = Detector::new();
    let mut edges: Vec<EntropyEdge<F>> = Vec::new();
    let mut i: usize = 0;
    while i < samples.len()
        invariant
            i <= samples.len(),
            detector == state_after(samples@.take(i as int)),
            edges@ == detected(samples@.take(i as int)),
            edges@.len() <= i,
        decreases samples.len() - i,
    {
        proof {
            assert(samples@.take(i + 1).drop_last() == samples@.take(i as int));
        }
        match detector.feed(&samples[i]) {
            Some(edge) => {
                edges.push(edge);
            },
            None => {},
        }
        i += 1;
    }
    proof {
        assert(samples@.take(i as int) == samples@);
    }
    edges
}

/// An empty series of readings yields no edge.
pub proof fn lemma_empty_series_has_no_edges<F>()
    ensures
        detected(Seq::<Sample<F>>::empty()) == Seq::<EntropyEdge<F>>::empty(),
{
}

/// Every reading yields at most one edge, so a run never reports more edges
/// than it was given readings.
pub proof fn lemma_at_most_one_edge_per_sample<F>(samples: Seq<Sample<F>>)
    ensures
        detected(samples).len() <= samples.len(),
    decreases samples.len(),
{
    if samples.len() > 0 {
        lemma_at_most_one_edge_per_sample(samples.drop_last());
    }
}

/// Extending a run by one reading keeps every edge reported so far and adds
/// the edge confirmed at the new reading, if any.
pub proof fn lemma_detected_extends<F>(samples: Seq<Sample<F>>, next: Sample<F>)
    ensures
        state_after(samples.push(next)) == state_after(samples).advance(next),
        detected(samples.push(next)) == match state_after(samples).emitted(next) {
            Some(edge) => detected(samples).push(edge),
            None => detected(samples),
        },
{
    assert(samples.push(next).drop_last() == samples);
}

/// The edges of a run up to and including reading `j` are those of the run
/// before `j`, followed by the edge confirmed at `j`, if any.
pub proof fn lemma_detected_step<F>(samples: Seq<Sample<F>>, j: int)
    requires
        0 <= j < samples.len(),
    ensures
        detected(samples.take(j + 1)) == match verdict_at(samples, j) {
            Some(edge_type) => detected(samples.take(j)).push(samples[j].edge(edge_type)),
            None => detected(samples.take(j)),
        },
        state_after(samples.take(j + 1)) == state_after(samples.take(j)).advance(samples[j]),
{
    lemma_detected_extends(samples.take(j), samples[j]);
    assert(samples.take(j).push(samples[j]) == samples.take(j + 1));
}

/// An edge, once reported, stays: the edges of the first `n` readings open
/// the edges of the whole series.
pub proof fn lemma_reported_edges_stay<F>(samples: Seq<Sample<F>>, n: int)
    requires
        0 <= n <= samples.len(),
    ensures
        detected(samples.take(n)).is_prefix_of(detected(samples)),
    decreases samples.len(),
{
    if n == samples.len() {
        assert(samples.take(n) == samples);
    } else {
        let earlier = samples.drop_last();
        assert(earlier.take(n) == samples.take(n));
        lemma_reported_edges_stay(earlier, n);
    }
}

/// Edges come in the order of their readings: where the block indices of the
/// readings never decrease, neither do those of the edges, and none exceeds
/// the block index of the last reading.
pub proof fn lemma_edges_keep_block_order<F>(samples: Seq<Sample<F>>)
    requires
        forall|i: int, j: int|
            0 <= i <= j < samples.len() ==> (#[trigger] samples[i]).block_index <= (
            #[trigger] samples[j]).block_index,
    ensures
        forall|a: int, b: int|
            0 <= a <= b < detected(samples).len() ==> (#[trigger] detected(
                samples,
            )[a]).block_index <= (#[trigger] detected(samples)[b]).block_index,
        forall|a: int|
            0 <= a < detected(samples).len() ==> (#[trigger] detected(samples)[a]).block_index
                <= samples.last().block_index,
    decreases samples.len(),
{
    if samples.len() > 0 {
        let earlier = samples.drop_last();
        assert forall|i: int, j: int| 0 <= i <= j < earlier.len() implies (
        #[trigger] earlier[i]).block_index <= (#[trigger] earlier[j]).block_index by {
            assert(earlier[i] == samples[i] && earlier[j] == samples[j]);
        }
        lemma_edges_keep_block_order(earlier);
        if earlier.len() > 0 {
            assert(earlier.last() == samples[samples.len() - 2]);
            assert(samples[samples.len() - 2].block_index <= samples[samples.len() - 1].block_index);
        }
    }
}

/// A run of readings that all stay at or above the high threshold yields
/// exactly one edge, however long the run is: a rising edge at its first
/// reading.
pub proof fn lemma_sustained_high_yields_one_rising_edge<F>(samples: Seq<Sample<F>>)
    requires
        samples.len() > 0,
        forall|i: int| 0 <= i < samples.len() ==> (#[trigger] samples[i]).reaches_high(),
    ensures
        detected(samples) == seq![samples[0].edge(EdgeType::Rising)],
        state_after(samples) == (Detector { last_edge: Some(EdgeType::Rising), armed: false }),
    decreases samples.len(),
{
    let earlier = samples.drop_last();
    assert(samples.last().reaches_high());
    if samples.len() == 1 {
        assert(detected(earlier) == Seq::<EntropyEdge<F>>::empty());
        assert(state_after(earlier) == Detector::start());
    } else {
        assert(forall|i: int| 0 <= i < earlier.len() ==> earlier[i] == samples[i]);
        lemma_sustained_high_yields_one_rising_edge(earlier);
    }
}

/// Hysteresis on the way down: once a falling edge has been confirmed at
/// reading `i`, no edge of either direction is confirmed at a later reading
/// `j` unless some reading after `i`, up to and including `j`, stands above
/// the low threshold. Until then the run reports nothing new: its edges up
/// to `j` are its edges up to `i`, the last of them that falling edge.
pub proof fn lemma_falling_edge_holds_until_recovery<F>(samples: Seq<Sample<F>>, i: int, j: int)
    requires
        0 <= i < j < samples.len(),
        verdict_at(samples, i) == Some(EdgeType::Falling),
        forall|k: int| i < k <= j ==> !(#[trigger] samples[k]).above_low(),
    ensures
        verdict_at(samples, j) is None,
        detected(samples.take(j + 1)) == detected(samples.take(i + 1)),
        detected(samples.take(i + 1)).last() == samples[i].edge(EdgeType::Falling),
    decreases j - i,
{
    lemma_state_after_falling(samples, i, j);
    assert(!samples[j].above_low());
    lemma_detected_step(samples, j);
    lemma_detected_step(samples, i);
    if j > i + 1 {
        lemma_falling_edge_holds_until_recovery(samples, i, j - 1);
    }
}

/// Hysteresis on the way up: once a rising edge has been confirmed at
/// reading `i`, no edge of either direction is confirmed at a later reading
/// `j` unless some reading after `i`, up to and including `j`, stands below
/// the high threshold. Until then the run reports nothing new: its edges up
/// to `j` are its edges up to `i`, the last of them that rising edge.
pub proof fn lemma_rising_edge_holds_until_dip<F>(samples: Seq<Sample<F>>, i: int, j: int)
    requires
        0 <= i < j < samples.len(),
        verdict_at(samples, i) == Some(EdgeType::Rising),
        forall|k: int| i < k <= j ==> !(#[trigger] samples[k]).below_high(),
    ensures
        verdict_at(samples, j) is None,
        detected(samples.take(j + 1)) == detected(samples.take(i + 1)),
        detected(samples.take(i + 1)).last() == samples[i].edge(EdgeType::Rising),
    decreases j - i,
{
    lemma_state_after_rising(samples, i, j);
    assert(!samples[j].below_high());
    lemma_detected_step(samples, j);
    lemma_detected_step(samples, i);
    if j > i + 1 {
        lemma_rising_edge_holds_until_dip(samples, i, j - 1);
    }
}

/// A detector that started fresh is never disarmed without having confirmed
/// an edge.
pub proof fn lemma_state_after_is_wf<F>(samples: Seq<Sample<F>>)
    ensures
        state_after(samples).wf(),
    decreases samples.len(),
{
    if samples.len() > 0 {
        lemma_state_after_is_wf(samples.drop_last());
    }
}

/// While no reading after a falling edge rises above the low threshold, the
/// detector rests disarmed with that falling edge as its last.
proof fn lemma_state_after_falling<F>(samples: Seq<Sample<F>>, i: int, j: int)
    requires
        0 <= i < j <= samples.len(),
        verdict_at(samples, i) == Some(EdgeType::Falling),
        forall|k: int| i < k < j ==> !(#[trigger] samples[k]).above_low(),
    ensures
        state_after(samples.take(j)) == (Detector {
            last_edge: Some(EdgeType::Falling),
            armed: false,
        }),
    decreases j - i,
{
    lemma_detected_step(samples, j - 1);
    if j > i + 1 {
        lemma_state_after_falling(samples, i, j - 1);
        assert(!samples[j - 1].above_low());
    }
}

/// While no reading after a rising edge dips below the high threshold, the
/// detector rests disarmed with that rising edge as its last.
proof fn lemma_state_after_rising<F>(samples: Seq<Sample<F>>, i: int, j: int)
    requires
        0 <= i < j <= samples.len(),
        verdict_at(samples, i) == Some(EdgeType::Rising),
        forall|k: int| i < k < j ==> !(#[trigger] samples[k]).below_high(),
    ensures
        state_after(samples.take(j)) == (Detector {
            last_edge: Some(EdgeType::Rising),
            armed: false,
        }),
    decreases j - i,
{
    lemma_detected_step(samples, j - 1);
    if j > i + 1 {
        lemma_state_after_rising(samples, i, j - 1);
        assert(!samples[j - 1].below_high());
    }
}

} // verus!
