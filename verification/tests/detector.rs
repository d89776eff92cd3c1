use shannon::{detect_edges, Detector, EdgeType, EntropyEdge, Placement, Sample};
use std::cmp::Ordering;

/// A reading of `bits` bits per byte, normalized and placed against the two
/// thresholds.
fn reading(block_index: usize, bits: f64, high: f64, low: f64) -> Sample<f64> {
    let normalized = bits / 8.0;
    Sample::placed(
        block_index,
        normalized,
        normalized.partial_cmp(&high),
        normalized.partial_cmp(&low),
    )
}

fn series(bits: &[f64], high: f64, low: f64) -> Vec<Sample<f64>> {
    let mut samples = Vec::new();
    for (block_index, value) in bits.iter().enumerate() {
        samples.push(reading(block_index, *value, high, low));
    }
    samples
}

fn kinds(edges: &[EntropyEdge<f64>]) -> Vec<(usize, EdgeType)> {
    edges.iter().map(|edge| (edge.block_index, edge.edge_type)).collect()
}

#[test]
fn high_then_low_gives_rising_then_falling() {
    let samples = series(&[7.8, 7.9, 2.0, 1.0], 0.95, 0.85);
    let edges = detect_edges(&samples);
    assert_eq!(edges.len(), 2);
    assert_eq!(edges[0].edge_type, EdgeType::Rising);
    assert_eq!(edges[0].block_index, 0);
    assert_eq!(edges[1].edge_type, EdgeType::Falling);
    assert_eq!(edges[1].block_index, 2);
}

#[test]
fn edge_carries_the_normalized_entropy_of_its_block() {
    let samples = series(&[7.8, 7.9, 2.0, 1.0], 0.95, 0.85);
    let edges = detect_edges(&samples);
    assert_eq!(
        edges,
        vec![
            EntropyEdge { block_index: 0, edge_type: EdgeType::Rising, entropy: 0.975 },
            EntropyEdge { block_index: 2, edge_type: EdgeType::Falling, entropy: 0.25 },
        ]
    );
}

#[test]
fn empty_series_gives_no_edges() {
    let samples: Vec<Sample<f64>> = Vec::new();
    assert!(detect_edges(&samples).is_empty());
}

#[test]
fn sustained_high_run_gives_one_rising_edge() {
    for length in [1usize, 2, 3, 10, 1000] {
        let bits = vec![7.9; length];
        let edges = detect_edges(&series(&bits, 0.95, 0.85));
        assert_eq!(kinds(&edges), vec![(0, EdgeType::Rising)]);
    }
}

#[test]
fn sustained_low_run_gives_one_falling_edge() {
    let edges = detect_edges(&series(&[1.0, 0.5, 0.0, 2.0, 6.8], 0.95, 0.85));
    assert_eq!(kinds(&edges), vec![(0, EdgeType::Falling)]);
}

#[test]
fn first_reading_at_the_high_threshold_rises_at_once() {
    let edges = detect_edges(&series(&[4.0], 0.5, 0.25));
    assert_eq!(kinds(&edges), vec![(0, EdgeType::Rising)]);
}

#[test]
fn first_reading_at_the_low_threshold_falls_at_once() {
    let edges = detect_edges(&series(&[2.0], 0.5, 0.25));
    assert_eq!(kinds(&edges), vec![(0, EdgeType::Falling)]);
}

#[test]
fn reading_between_the_thresholds_gives_no_edge() {
    let edges = detect_edges(&series(&[7.2, 7.3, 7.1], 0.95, 0.85));
    assert!(edges.is_empty());
}

#[test]
fn no_edge_after_falling_until_the_signal_recovers() {
    // After the falling edge at block 1 the readings stay at or below the
    // low threshold up to block 4; block 5 is the first above it.
    let bits = [7.8, 1.0, 0.5, 6.8, 0.2, 7.9, 7.95];
    let edges = detect_edges(&series(&bits, 0.95, 0.85));
    assert_eq!(
        kinds(&edges),
        vec![(0, EdgeType::Rising), (1, EdgeType::Falling), (5, EdgeType::Rising)]
    );
}

#[test]
fn recovery_above_low_arms_for_another_falling_edge() {
    // 7.2 bits is above the low threshold and below the high one: it arms
    // the detector without giving an edge.
    let bits = [1.0, 7.2, 1.0];
    let edges = detect_edges(&series(&bits, 0.95, 0.85));
    assert_eq!(kinds(&edges), vec![(0, EdgeType::Falling), (2, EdgeType::Falling)]);
}

#[test]
fn dip_below_high_arms_for_another_rising_edge() {
    let bits = [7.8, 7.2, 7.8];
    let edges = detect_edges(&series(&bits, 0.95, 0.85));
    assert_eq!(kinds(&edges), vec![(0, EdgeType::Rising), (2, EdgeType::Rising)]);
}

#[test]
fn dip_from_high_straight_to_low_falls_at_the_dip() {
    let bits = [7.8, 7.9, 0.1];
    let edges = detect_edges(&series(&bits, 0.95, 0.85));
    assert_eq!(kinds(&edges), vec![(0, EdgeType::Rising), (2, EdgeType::Falling)]);
}

#[test]
fn reading_that_reaches_both_thresholds_counts_as_rising() {
    // With the thresholds the wrong way round, 4.0 bits is at or above the
    // high one and at or below the low one.
    let edges = detect_edges(&series(&[4.0], 0.25, 0.75));
    assert_eq!(kinds(&edges), vec![(0, EdgeType::Rising)]);
}

#[test]
fn equal_thresholds_need_a_reading_strictly_above_to_recover() {
    // Block 2 is at the shared threshold, not above it, so it does not arm
    // the detector after the falling edge at block 1.
    let bits = [4.0, 3.0, 4.0, 5.0, 1.0];
    let edges = detect_edges(&series(&bits, 0.5, 0.5));
    assert_eq!(
        kinds(&edges),
        vec![(0, EdgeType::Rising), (1, EdgeType::Falling), (3, EdgeType::Rising), (4, EdgeType::Falling)]
    );
}

#[test]
fn unordered_reading_gives_no_edge_and_changes_nothing() {
    let bits = [f64::NAN, 7.9, f64::NAN, 1.0];
    let samples = series(&bits, 0.95, 0.85);
    assert_eq!(samples[0].high, Placement::Unordered);
    assert_eq!(samples[0].low, Placement::Unordered);
    let edges = detect_edges(&samples);
    assert_eq!(kinds(&edges), vec![(1, EdgeType::Rising), (3, EdgeType::Falling)]);
}

#[test]
fn block_indices_are_handed_through_as_given() {
    let samples = vec![
        reading(40, 7.9, 0.95, 0.85),
        reading(40, 7.9, 0.95, 0.85),
        reading(7, 0.0, 0.95, 0.85),
    ];
    let edges = detect_edges(&samples);
    assert_eq!(kinds(&edges), vec![(40, EdgeType::Rising), (7, EdgeType::Falling)]);
}

#[test]
fn single_precision_readings() {
    let bits: [f32; 4] = [7.8, 7.9, 2.0, 1.0];
    let mut samples = Vec::new();
    for (block_index, value) in bits.iter().enumerate() {
        let normalized = value / 8.0;
        samples.push(Sample::placed(
            block_index,
            normalized,
            normalized.partial_cmp(&0.95),
            normalized.partial_cmp(&0.85),
        ));
    }
    let edges = detect_edges(&samples);
    assert_eq!(edges.len(), 2);
    assert_eq!(edges[0], EntropyEdge { block_index: 0, edge_type: EdgeType::Rising, entropy: 0.975f32 });
    assert_eq!(edges[1], EntropyEdge { block_index: 2, edge_type: EdgeType::Falling, entropy: 0.25f32 });
}

#[test]
fn feeding_one_by_one_agrees_with_the_batch() {
    let bits = [7.8, 7.2, 7.8, 1.0, 0.5, 6.9, 0.1, 7.7, 7.9, 3.0];
    let samples = series(&bits, 0.95, 0.85);
    let mut detector = Detector::new();
    let mut fed = Vec::new();
    for sample in &samples {
        if let Some(edge) = detector.feed(sample) {
            fed.push(edge);
        }
    }
    assert_eq!(fed, detect_edges(&samples));
    assert_eq!(
        kinds(&fed),
        vec![
            (0, EdgeType::Rising),
            (2, EdgeType::Rising),
            (3, EdgeType::Falling),
            (6, EdgeType::Falling),
            (7, EdgeType::Rising),
            (9, EdgeType::Falling),
        ]
    );
}

#[test]
fn detector_starts_armed_without_a_last_edge() {
    let detector = Detector::new();
    assert!(detector.armed);
    assert_eq!(detector.last_edge, None);
}

#[test]
fn feed_disarms_on_an_edge_and_remembers_its_direction() {
    let mut detector = Detector::new();
    let edge = detector.feed(&reading(3, 7.9, 0.95, 0.85));
    assert_eq!(edge, Some(EntropyEdge { block_index: 3, edge_type: EdgeType::Rising, entropy: 0.9875 }));
    assert!(!detector.armed);
    assert_eq!(detector.last_edge, Some(EdgeType::Rising));
    assert_eq!(detector.feed(&reading(4, 7.9, 0.95, 0.85)), None);
    assert!(!detector.armed);
    assert_eq!(detector.feed(&reading(5, 7.2, 0.95, 0.85)), None);
    assert!(detector.armed);
    assert_eq!(detector.last_edge, Some(EdgeType::Rising));
}

#[test]
fn placement_follows_the_comparison() {
    assert_eq!(Placement::from_ordering(Some(Ordering::Less)), Placement::Below);
    assert_eq!(Placement::from_ordering(Some(Ordering::Equal)), Placement::At);
    assert_eq!(Placement::from_ordering(Some(Ordering::Greater)), Placement::Above);
    assert_eq!(Placement::from_ordering(None), Placement::Unordered);
}

#[test]
fn placed_keeps_high_and_low_apart() {
    let sample = Sample::placed(9, 0.9f64, Some(Ordering::Less), Some(Ordering::Greater));
    assert_eq!(sample.block_index, 9);
    assert_eq!(sample.entropy, 0.9);
    assert_eq!(sample.high, Placement::Below);
    assert_eq!(sample.low, Placement::Above);
}
