//! The empirical distribution of a byte window.
//!
//! Shannon entropy depends on a window only through how often each byte value
//! occurs in it. This module counts: [`histogram`] gives the 256 counts, one
//! per byte value, and [`frequencies`] gives the counts of the values that do
//! occur, which are the terms a caller sums over. With `n` the length of the
//! window, each frequency `c` stands for the probability `c / n`; the
//! contracts state what makes that sound: every frequency is at least 1 and
//! at most `n`, and together they add up to `n`.

use vstd::multiset::*;
use vstd::prelude::*;
use vstd::seq_lib::*;

verus! {

/// How many times `value` occurs in `data`.
pub open spec fn occurrences(data: Seq<u8>, value: u8) -> nat {
    data.to_multiset().count(value)
}

/// The histogram of `data`: 256 counts, the one at position `v` being the
/// number of occurrences of the byte value `v`.
pub open spec fn histogram_of(data: Seq<u8>) -> Seq<nat> {
    Seq::new(256, |value: int| occurrences(data, value as u8))
}

/// The test that a count is not zero.
pub open spec fn positive() -> spec_fn(nat) -> bool {
    |count: nat| count > 0
}

/// The counts that are not zero, in their order.
pub open spec fn occupied(counts: Seq<nat>) -> Seq<nat> {
    counts.filter(positive())
}

/// The frequencies of `data`: the counts of the byte values that occur in
/// it, in ascending order of byte value.
pub open spec fn frequencies_of(data: Seq<u8>) -> Seq<nat> {
    occupied(histogram_of(data))
}

/// The sum of a sequence of counts.
pub open spec fn sum(counts: Seq<nat>) -> nat
    decreases counts.len(),
{
    if counts.len() == 0 {
        0
    } else {
        sum(counts.drop_last()) + counts.last()
    }
}

/// The numbers that a sequence of machine counts holds.
pub open spec fn as_nats(counts: Seq<usize>) -> Seq<nat> {
    counts.map_values(|count: usize| count as nat)
}

/// Whether `relabel` and `back` rename the byte values one for one, each
/// undoing the other.
pub open spec fn is_relabelling(relabel: spec_fn(u8) -> u8, back: spec_fn(u8) -> u8) -> bool {
    &&& forall|value: u8| #[trigger] back(relabel(value)) == value
    &&& forall|value: u8| #[trigger] relabel(back(value)) == value
}

/// Counts the occurrences of every byte value in `data`.
pub fn histogram(data: &[u8]) -> (counts: [usize; 256])
    ensures
        as_nats(counts@) == histogram_of(data@),
        forall|value: u8| counts@[value as int] == #[trigger] occurrences(data@, value),
{
    let mut counts = [0usize; 256];
    let mut i: usize = 0;
    proof {
        data@.take(0).to_multiset_ensures();
        assert(as_nats(counts@) =~= histogram_of(data@.take(0)));
    }
    while i < data.len()
        invariant
            i <= data.len(),
            as_nats(counts@) == histogram_of(data@.take(i as int)),
        decreases data.len() - i,
    {
        let byte = data[i];
        let bucket = byte as usize;
        proof {
            let seen = data@.take(i as int);
            lemma_occurrences_bounded(seen, byte);
            assert(as_nats(counts@)[bucket as int] == occurrences(seen, byte));
            assert(data@.take(i + 1) == seen.push(byte));
            assert forall|value: int| 0 <= value < 256 implies histogram_of(seen.push(byte))[value]
                == if value == bucket {
                histogram_of(seen)[value] + 1
            } else {
                histogram_of(seen)[value]
            } by {
                lemma_occurrences_push(seen, byte, value as u8);
            }
        }
        counts[bucket] = counts[bucket] + 1;
        i += 1;
        proof {
            assert(as_nats(counts@) =~= histogram_of(data@.take(i as int)));
        }
    }
    proof {
        assert(data@.take(i as int) == data@);
        assert forall|value: u8| counts@[value as int] == #[trigger] occurrences(
            data@,
            value,
        ) by {
            assert(as_nats(counts@)[value as int] == histogram_of(data@)[value as int]);
        }
    }
    counts
}

/// Counts the byte values that occur in `data`: one count for each value
/// that occurs, in ascending order of byte value.
pub fn frequencies(data: &[u8]) -> (found: Vec<usize>)
    ensures
        as_nats(found@) == frequencies_of(data@),
        found@.len() <= 256,
        forall|k: int| 0 <= k < found@.len() ==> 1 <= #[trigger] found@[k] <= data@.len(),
        sum(as_nats(found@)) == data@.len(),
        data@.len() == 0 ==> found@.len() == 0,
{
    let counts = histogram(data);
    let ghost exact = histogram_of(data@);
    let mut found: Vec<usize> = Vec::new();
    let mut value: usize = 0;
    proof {
        reveal(Seq::filter);
        assert(as_nats(found@) =~= occupied(exact.take(0)));
    }
    while value < 256
        invariant
            value <= 256,
            as_nats(counts@) == exact,
            exact.len() == 256,
            as_nats(found@) == occupied(exact.take(value as int)),
        decreases 256 - value,
    {
        let count = counts[value];
        proof {
            reveal(Seq::filter);
            assert(exact.take(value + 1).drop_last() == exact.take(value as int));
            assert(exact.take(value + 1).last() == as_nats(counts@)[value as int]);
            assert(as_nats(found@.push(count)) =~= as_nats(found@).push(count as nat));
        }
        if count != 0 {
            found.push(count);
        }
        value += 1;
    }
    proof {
        assert(exact.take(256) == exact);
        lemma_frequencies_form_distribution(data@);
        assert(as_nats(found@).len() == found@.len());
        assert forall|k: int| 0 <= k < found@.len() implies 1 <= #[trigger] found@[k]
            <= data@.len() by {
            assert(as_nats(found@)[k] == frequencies_of(data@)[k]);
        }
    }
    found
}

/// Appending a byte raises the count of that byte's value by one and leaves
/// every other count as it was.
pub proof fn lemma_occurrences_push(data: Seq<u8>, byte: u8, value: u8)
    ensures
        occurrences(data.push(byte), value) == occurrences(data, value) + if byte == value {
            1nat
        } else {
            0nat
        },
{
    broadcast use {to_multiset_build, group_multiset_axioms};

}

/// No byte value occurs more often than the window is long.
pub proof fn lemma_occurrences_bounded(data: Seq<u8>, value: u8)
    ensures
        occurrences(data, value) <= data.len(),
    decreases data.len(),
{
    if data.len() == 0 {
        data.to_multiset_ensures();
    } else {
        lemma_occurrences_bounded(data.drop_last(), value);
        lemma_occurrences_push(data.drop_last(), data.last(), value);
        assert(data.drop_last().push(data.last()) == data);
    }
}

/// The counts of a histogram add up to the length of the window.
pub proof fn lemma_histogram_total(data: Seq<u8>)
    ensures
        sum(histogram_of(data)) == data.len(),
    decreases data.len(),
{
    if data.len() == 0 {
        data.to_multiset_ensures();
        lemma_sum_of_zeros(histogram_of(data));
    } else {
        let earlier = data.drop_last();
        assert(earlier.push(data.last()) == data);
        lemma_histogram_total(earlier);
        lemma_histogram_push(earlier, data.last());
        lemma_sum_update(
            histogram_of(earlier),
            data.last() as int,
            histogram_of(earlier)[data.last() as int] + 1,
        );
    }
}

/// What holds of the frequencies of every window: there are at most 256 of
/// them, each is at least 1 and at most the length of the window, and they
/// add up to that length. Read as probabilities `c / n`, they lie in `(0, 1]`
/// and add up to 1.
pub proof fn lemma_frequencies_form_distribution(data: Seq<u8>)
    ensures
        frequencies_of(data).len() <= 256,
        forall|k: int|
            0 <= k < frequencies_of(data).len() ==> 1 <= #[trigger] frequencies_of(data)[k]
                <= data.len(),
        sum(frequencies_of(data)) == data.len(),
{
    let counts = histogram_of(data);
    counts.lemma_filter_len(positive());
    lemma_occupied_keeps_sum(counts);
    lemma_histogram_total(data);
    assert forall|k: int| 0 <= k < frequencies_of(data).len() implies 1 <= #[trigger] frequencies_of(
        data,
    )[k] <= data.len() by {
        let count = frequencies_of(data)[k];
        counts.lemma_filter_pred(positive(), k);
        assert(frequencies_of(data).contains(count));
        counts.lemma_filter_contains_rev(positive(), count);
        let value = choose|value: int| 0 <= value < counts.len() && counts[value] == count;
        lemma_occurrences_bounded(data, value as u8);
    }
}

/// An empty window has no frequencies.
pub proof fn lemma_empty_window_has_no_frequencies()
    ensures
        frequencies_of(Seq::<u8>::empty()) == Seq::<nat>::empty(),
{
    lemma_frequencies_form_distribution(Seq::<u8>::empty());
    let found = frequencies_of(Seq::<u8>::empty());
    if found.len() > 0 {
        assert(1 <= found[0] <= 0);
    }
    assert(found =~= Seq::<nat>::empty());
}

/// In a window that repeats one byte value, that value occurs as often as
/// the window is long and no other value occurs.
pub proof fn lemma_constant_window_occurrences(data: Seq<u8>, value: u8, other: u8)
    requires
        forall|i: int| 0 <= i < data.len() ==> data[i] == value,
    ensures
        occurrences(data, other) == if other == value {
            data.len()
        } else {
            0
        },
    decreases data.len(),
{
    if data.len() == 0 {
        data.to_multiset_ensures();
    } else {
        let earlier = data.drop_last();
        assert(earlier.push(data.last()) == data);
        lemma_constant_window_occurrences(earlier, value, other);
        lemma_occurrences_push(earlier, data.last(), other);
    }
}

/// A window that repeats one byte value has a single frequency: its length.
pub proof fn lemma_constant_window_has_one_frequency(data: Seq<u8>, value: u8)
    requires
        data.len() > 0,
        forall|i: int| 0 <= i < data.len() ==> data[i] == value,
    ensures
        frequencies_of(data) == seq![data.len()],
{
    let counts = histogram_of(data);
    assert forall|other: int| 0 <= other < 256 implies counts[other] == if other == value {
        data.len()
    } else {
        0
    } by {
        lemma_constant_window_occurrences(data, value, other as u8);
    }
    lemma_single_occupied(counts, value as int, 256);
    assert(counts.take(256) == counts);
}

/// Renaming the bytes of a window moves each count to the new name of its
/// byte value.
pub proof fn lemma_relabelled_occurrences(
    data: Seq<u8>,
    relabel: spec_fn(u8) -> u8,
    back: spec_fn(u8) -> u8,
    value: u8,
)
    requires
        is_relabelling(relabel, back),
    ensures
        occurrences(data.map_values(relabel), relabel(value)) == occurrences(data, value),
    decreases data.len(),
{
    if data.len() == 0 {
        lemma_occurrences_bounded(data, value);
        lemma_occurrences_bounded(data.map_values(relabel), relabel(value));
    } else {
        let earlier = data.drop_last();
        lemma_relabelled_occurrences(earlier, relabel, back, value);
        assert(earlier.push(data.last()) == data);
        assert(data.map_values(relabel) =~= earlier.map_values(relabel).push(relabel(data.last())));
        lemma_occurrences_push(earlier, data.last(), value);
        lemma_occurrences_push(earlier.map_values(relabel), relabel(data.last()), relabel(value));
        assert(back(relabel(data.last())) == data.last());
        assert(back(relabel(value)) == value);
    }
}

/// Entropy depends on a window only through its frequencies, taken without
/// regard to order, and renaming the byte values one for one leaves those
/// unchanged: the renamed window has the same frequencies, each as often.
pub proof fn lemma_relabelling_keeps_frequencies(
    data: Seq<u8>,
    relabel: spec_fn(u8) -> u8,
    back: spec_fn(u8) -> u8,
)
    requires
        is_relabelling(relabel, back),
    ensures
        frequencies_of(data.map_values(relabel)).to_multiset() == frequencies_of(
            data,
        ).to_multiset(),
        histogram_of(data.map_values(relabel)).to_multiset() == histogram_of(data).to_multiset(),
{
    let counts = histogram_of(data);
    let renamed = histogram_of(data.map_values(relabel));
    let to = |position: int| back(position as u8) as int;
    let from = |position: int| relabel(position as u8) as int;
    assert forall|i: int| 0 <= i < counts.len() implies 0 <= #[trigger] to(i) < counts.len()
        && from(to(i)) == i && renamed[i] == counts[to(i)] by {
        assert(relabel(back(i as u8)) == i as u8);
        lemma_relabelled_occurrences(data, relabel, back, back(i as u8));
    }
    assert forall|k: int| 0 <= k < counts.len() implies 0 <= #[trigger] from(k) < counts.len()
        && to(from(k)) == k by {
        assert(back(relabel(k as u8)) == k as u8);
    }
    lemma_rearranged_holds_the_same(counts, renamed, to, from);
    assert forall|count: nat|
        occupied(renamed).to_multiset().count(count) == occupied(counts).to_multiset().count(
            count,
        ) by {
        lemma_occupied_holds_positive_counts(renamed, count);
        lemma_occupied_holds_positive_counts(counts, count);
    }
    assert(occupied(renamed).to_multiset() =~= occupied(counts).to_multiset());
}

/// Appending a byte to a window raises the histogram by one at that byte's
/// value and nowhere else.
proof fn lemma_histogram_push(data: Seq<u8>, byte: u8)
    ensures
        histogram_of(data.push(byte)) == histogram_of(data).update(
            byte as int,
            histogram_of(data)[byte as int] + 1,
        ),
{
    assert forall|value: int| 0 <= value < 256 implies histogram_of(data.push(byte))[value]
        == histogram_of(data).update(byte as int, histogram_of(data)[byte as int] + 1)[value] by {
        lemma_occurrences_push(data, byte, value as u8);
    }
    assert(histogram_of(data.push(byte)) =~= histogram_of(data).update(
        byte as int,
        histogram_of(data)[byte as int] + 1,
    ));
}

/// Replacing one count changes the sum by the difference.
proof fn lemma_sum_update(counts: Seq<nat>, position: int, count: nat)
    requires
        0 <= position < counts.len(),
    ensures
        sum(counts.update(position, count)) + counts[position] == sum(counts) + count,
    decreases counts.len(),
{
    let updated = counts.update(position, count);
    if position == counts.len() - 1 {
        assert(updated.drop_last() == counts.drop_last());
    } else {
        lemma_sum_update(counts.drop_last(), position, count);
        assert(updated.drop_last() == counts.drop_last().update(position, count));
    }
}

/// Counts that are all zero add up to zero.
proof fn lemma_sum_of_zeros(counts: Seq<nat>)
    requires
        forall|k: int| 0 <= k < counts.len() ==> counts[k] == 0,
    ensures
        sum(counts) == 0,
    decreases counts.len(),
{
    if counts.len() > 0 {
        lemma_sum_of_zeros(counts.drop_last());
    }
}

/// Leaving out the counts that are zero does not change the sum.
proof fn lemma_occupied_keeps_sum(counts: Seq<nat>)
    ensures
        sum(occupied(counts)) == sum(counts),
    decreases counts.len(),
{
    reveal(Seq::filter);
    if counts.len() > 0 {
        let earlier = counts.drop_last();
        lemma_occupied_keeps_sum(earlier);
        if counts.last() > 0 {
            assert(occupied(counts).drop_last() == occupied(earlier));
        }
    }
}

/// Of counts that are zero everywhere but at one position, the first `end`
/// hold an occupied count exactly when they reach past that position.
proof fn lemma_single_occupied(counts: Seq<nat>, position: int, end: int)
    requires
        0 <= position < counts.len(),
        0 <= end <= counts.len(),
        counts[position] > 0,
        forall|k: int| 0 <= k < counts.len() && k != position ==> counts[k] == 0,
    ensures
        occupied(counts.take(end)) == if position < end {
            seq![counts[position]]
        } else {
            Seq::<nat>::empty()
        },
    decreases end,
{
    reveal(Seq::filter);
    if end > 0 {
        lemma_single_occupied(counts, position, end - 1);
        assert(counts.take(end).drop_last() == counts.take(end - 1));
    }
}

/// A count occurs among the occupied counts as often as among all counts,
/// unless it is zero, which is left out.
proof fn lemma_occupied_holds_positive_counts(counts: Seq<nat>, count: nat)
    ensures
        occupied(counts).to_multiset().count(count) == if count > 0 {
            counts.to_multiset().count(count)
        } else {
            0
        },
    decreases counts.len(),
{
    broadcast use {to_multiset_build, group_multiset_axioms};

    reveal(Seq::filter);
    if counts.len() == 0 {
        counts.to_multiset_ensures();
    } else {
        let earlier = counts.drop_last();
        lemma_occupied_holds_positive_counts(earlier, count);
        assert(earlier.push(counts.last()) == counts);
    }
}

/// Two sequences of which one lists the items of the other in another order
/// hold the same items equally often. The order is given by `to`, which
/// sends each position of `rearranged` to the position in `items` that it
/// shows, and by `from`, which sends it back.
proof fn lemma_rearranged_holds_the_same<A>(
    items: Seq<A>,
    rearranged: Seq<A>,
    to: spec_fn(int) -> int,
    from: spec_fn(int) -> int,
)
    requires
        items.len() == rearranged.len(),
        forall|i: int|
            0 <= i < items.len() ==> 0 <= #[trigger] to(i) < items.len() && from(to(i)) == i
                && rearranged[i] == items[to(i)],
        forall|k: int|
            0 <= k < items.len() ==> 0 <= #[trigger] from(k) < items.len() && to(from(k)) == k,
    ensures
        rearranged.to_multiset() == items.to_multiset(),
    decreases items.len(),
{
    let n = items.len() as int;
    if n == 0 {
        assert(rearranged =~= items);
    } else {
        let shown = to(n - 1);
        let fewer = items.remove(shown);
        let earlier = rearranged.drop_last();
        let to_fewer = |i: int|
            if to(i) < shown {
                to(i)
            } else {
                to(i) - 1
            };
        let from_fewer = |k: int|
            from(
                if k < shown {
                    k
                } else {
                    k + 1
                },
            );
        assert forall|i: int| 0 <= i < fewer.len() implies 0 <= #[trigger] to_fewer(i)
            < fewer.len() && from_fewer(to_fewer(i)) == i && earlier[i] == fewer[to_fewer(i)] by {
            assert(from(to(i)) == i);
            assert(from(to(n - 1)) == n - 1);
        }
        assert forall|k: int| 0 <= k < fewer.len() implies 0 <= #[trigger] from_fewer(k)
            < fewer.len() && to_fewer(from_fewer(k)) == k by {
            let kept = if k < shown {
                k
            } else {
                k + 1
            };
            assert(to(from(kept)) == kept);
            assert(to(n - 1) == shown);
        }
        lemma_rearranged_holds_the_same(fewer, earlier, to_fewer, from_fewer);
        assert(rearranged =~= earlier.push(items[shown]));
        to_multiset_build(earlier, items[shown]);
        to_multiset_remove(items, shown);
        items.to_multiset_ensures();
        assert(items.contains(items[shown]));
        assert(rearranged.to_multiset() =~= items.to_multiset());
    }
}

} // verus!
