//! Bayesian breakpoint detection for binary sequences.
//!
//! A binary sequence is modelled as a run of segments, each an independent Bernoulli source
//! with its own probability of a one under a Beta prior. A detection selects the most probable
//! number of breakpoints between segments, up to a maximum, and then their most probable
//! positions.
//!
//! The evidences are computed in a number type of the caller's choice, see [`number`]; the
//! values of the special functions come in [`tables::Tables`].

pub mod decoder;
pub mod engine;
pub mod error;
pub mod grid;
pub mod number;
pub mod exact;
pub mod sequence;
pub mod tables;
pub mod util;

use crate::decoder::{
    ascending_within, decode, decode_breakpoints, lemma_decode_ascending, lemma_decode_error,
    lemma_ranking_in_range,
    positions, posterior, posterior_weights, rank, ranking,
};
use crate::engine::{base_rows, lemma_stage_len, stage, stage_zero, stages};
use crate::error::BreakpointError;
use crate::grid::nested;
use crate::number::{number_laws, Number};
use crate::sequence::{is_binary, validate};
use crate::tables::{most_breakpoints, reach, Tables, TablesView};
use vstd::prelude::*;

verus! {

/// The stages `0 ..= top` of the base evidences `rows`.
pub open spec fn all_stages<T: Number>(rows: Seq<Seq<T>>, top: nat) -> Seq<Seq<T>> {
    Seq::new(top + 1, |k: int| stage(rows, k as nat))
}

/// What a detection on `seq` yields when the output region has `capacity` slots and at most
/// `kmax` breakpoints are allowed: the positions of the breakpoints from left to right, or the
/// reason why there are none.
///
/// A symbol other than 0 and 1 is refused before anything else, then a region with fewer than
/// `kmax` slots. An empty sequence has no breakpoints. Otherwise the number of breakpoints is
/// the one with the last maximal posterior weight among `0 ..= reach(n, kmax)`, and the
/// positions are decoded from left to right.
pub open spec fn detection<T: Number>(
    seq: Seq<usize>,
    capacity: nat,
    kmax: nat,
    tables: TablesView<T>,
) -> Result<Seq<int>, BreakpointError> {
    if !is_binary(seq) {
        Err(BreakpointError::InvalidInput)
    } else if capacity < kmax {
        Err(BreakpointError::CapacityError)
    } else if seq.len() == 0 {
        Ok(Seq::empty())
    } else {
        let rows = base_rows(seq, tables.gamma);
        let edges = all_stages(rows, reach(seq.len(), kmax));
        match ranking(posterior(edges, tables, seq.len())) {
            Err(e) => Err(e),
            Ok(count) => decode(rows, edges, tables.segmentation, 0, count as nat),
        }
    }
}

/// `r` and the region `after` are what a detection on `seq` leaves behind when it starts with
/// the region `before`: the number of breakpoints and their positions in the first slots of
/// the region, the other slots unchanged; or the error and the region unchanged.
pub open spec fn is_outcome<T: Number>(
    seq: Seq<usize>,
    before: Seq<usize>,
    kmax: nat,
    tables: TablesView<T>,
    r: Result<usize, BreakpointError>,
    after: Seq<usize>,
) -> bool {
    match detection(seq, before.len(), kmax, tables) {
        Ok(b) => {
            &&& r matches Ok(count) && count == b.len()
            &&& after.len() == before.len()
            &&& forall|t: int| 0 <= t < b.len() ==> #[trigger] after[t] == b[t]
            &&& forall|t: int| b.len() <= t < after.len() ==> #[trigger] after[t] == before[t]
        },
        Err(e) => r == Err::<usize, BreakpointError>(e) && after == before,
    }
}

/// With no breakpoint allowed, none is found, whatever the sequence and the tables hold.
pub proof fn lemma_none_allowed<T: Number>(seq: Seq<usize>, capacity: nat, tables: TablesView<T>)
    requires
        is_binary(seq),
    ensures
        detection(seq, capacity, 0, tables) == Ok::<Seq<int>, BreakpointError>(Seq::empty()),
{
}

/// A detection refuses a sequence exactly where a symbol is neither 0 nor 1, and a region
/// exactly where the sequence is binary and the region has fewer than `kmax` slots; any other
/// failure is one of numbers that cannot be compared.
pub proof fn lemma_detection_errors<T: Number>(
    seq: Seq<usize>,
    capacity: nat,
    kmax: nat,
    tables: TablesView<T>,
)
    ensures
        detection(seq, capacity, kmax, tables) == Err::<Seq<int>, BreakpointError>(
            BreakpointError::InvalidInput,
        ) <==> !is_binary(seq),
        detection(seq, capacity, kmax, tables) == Err::<Seq<int>, BreakpointError>(
            BreakpointError::CapacityError,
        ) <==> is_binary(seq) && capacity < kmax,
{
    if is_binary(seq) && capacity >= kmax && seq.len() > 0 {
        let rows = base_rows(seq, tables.gamma);
        let edges = all_stages(rows, reach(seq.len(), kmax));
        if let Ok(count) = ranking(posterior(edges, tables, seq.len())) {
            lemma_decode_error(rows, edges, tables.segmentation, 0, count as nat);
        }
    }
}

/// A detection finds at most `kmax` breakpoints, and fewer than the sequence has symbols; their
/// positions are strictly increasing and lie in `1 ..= n - 1`.
pub proof fn lemma_detection_ascending<T: Number>(
    seq: Seq<usize>,
    capacity: nat,
    kmax: nat,
    tables: TablesView<T>,
)
    requires
        number_laws::<T>(),
    ensures
        detection(seq, capacity, kmax, tables) matches Ok(b) ==> b.len() <= reach(seq.len(), kmax)
            && b.len() <= kmax && ascending_within(b, 0, seq.len() - 1),
{
    if is_binary(seq) && capacity >= kmax && seq.len() > 0 {
        let rows = base_rows(seq, tables.gamma);
        let edges = all_stages(rows, reach(seq.len(), kmax));
        let weights = posterior(edges, tables, seq.len());
        lemma_ranking_in_range(weights);
        if let Ok(count) = ranking(weights) {
            lemma_decode_ascending(rows, edges, tables.segmentation, 0, count as nat);
        }
    }
}

/// A detection is a function of the sequence, the region, the maximum and the tables: two
/// outcomes of the same inputs are equal.
pub proof fn lemma_deterministic<T: Number>(
    seq: Seq<usize>,
    before: Seq<usize>,
    kmax: nat,
    tables: TablesView<T>,
    first: Result<usize, BreakpointError>,
    first_after: Seq<usize>,
    second: Result<usize, BreakpointError>,
    second_after: Seq<usize>,
)
    requires
        is_outcome(seq, before, kmax, tables, first, first_after),
        is_outcome(seq, before, kmax, tables, second, second_after),
    ensures
        first == second,
        first_after == second_after,
{
    if let Ok(b) = detection(seq, before.len(), kmax, tables) {
        assert forall|t: int| 0 <= t < first_after.len() implies first_after[t]
            == second_after[t] by {
            if t < b.len() {
                assert(first_after[t] == b[t]);
                assert(second_after[t] == b[t]);
            } else {
                assert(first_after[t] == before[t]);
                assert(second_after[t] == before[t]);
            }
        }
        assert(first_after =~= second_after);
    }
}

/// Finds the most probable breakpoints of the binary sequence `seq`, at most `kmax` of them.
///
/// Returns their number and writes their positions, in increasing order, to the first slots
/// of `buf`. Fails, and leaves `buf` as it is, on a symbol other than 0 and 1, on a region
/// with fewer than `kmax` slots, and where weights or scores that have to be ranked cannot be
/// compared.
pub fn find_breakpoints<T: Number>(
    seq: &[usize],
    buf: &mut [usize],
    kmax: usize,
    tables: &Tables<T>,
) -> (r: Result<usize, BreakpointError>)
    requires
        number_laws::<T>(),
        tables@.covers(seq@.len(), kmax as nat),
    ensures
        is_outcome(seq@, old(buf)@, kmax as nat, tables@, r, final(buf)@),
        r matches Ok(count) ==> count <= kmax && count <= reach(seq@.len(), kmax as nat)
            && ascending_within(positions(final(buf)@.take(count as int)), 0, seq@.len() - 1),
        kmax == 0 && is_binary(seq@) ==> r == Ok::<usize, BreakpointError>(0),
        r == Err::<usize, BreakpointError>(BreakpointError::InvalidInput) <==> !is_binary(seq@),
        r == Err::<usize, BreakpointError>(BreakpointError::CapacityError) <==> is_binary(seq@)
            && old(buf)@.len() < kmax,
{
    proof {
        lemma_detection_ascending(seq@, buf@.len(), kmax as nat, tables@);
        lemma_detection_errors(seq@, buf@.len(), kmax as nat, tables@);
    }
    if let Err(e) = validate(seq) {
        return Err(e);
    }
    if buf.len() < kmax {
        return Err(BreakpointError::CapacityError);
    }
    let n = seq.len();
    if n == 0 {
        assert(positions(buf@.take(0)) =~= Seq::<int>::empty());
        return Ok(0);
    }
    let top = most_breakpoints(n, kmax);
    let base = stage_zero(seq, tables.gamma.as_slice());
    let edges = stages(&base, top);
    proof {
        assert(nested(edges@) =~= all_stages(base@, top as nat));
        assert forall|k: int| 0 <= k < nested(edges@).len() implies (#[trigger] nested(
            edges@,
        )[k]).len() == n - k by {
            lemma_stage_len(base@, k as nat);
        }
        tables@.lemma_covers_splits(n as nat, kmax as nat, top as nat);
        assert forall|k: nat| k < top implies tables@.covers_splits(n as nat, k) by {
            tables@.lemma_covers_splits(n as nat, kmax as nat, k);
        }
    }
    let weights = posterior_weights(&edges, tables, n);
    let count = match rank(weights.as_slice()) {
        Err(e) => {
            return Err(e);
        },
        Ok(count) => count,
    };
    let found = match decode_breakpoints(&base, &edges, tables, count) {
        Err(e) => {
            return Err(e);
        },
        Ok(found) => found,
    };
    let ghost b = positions(found@);
    proof {
        lemma_decode_ascending(base@, nested(edges@), tables@.segmentation, 0, count as nat);
    }
    let mut t: usize = 0;
    while t < count
        invariant
            t <= count == found@.len(),
            count <= buf@.len() == old(buf)@.len(),
            forall|a: int| 0 <= a < t ==> #[trigger] buf@[a] == found@[a],
            forall|a: int| t <= a < buf@.len() ==> #[trigger] buf@[a] == old(buf)@[a],
        decreases count - t,
    {
        buf[t] = found[t];
        t += 1;
    }
    assert(positions(buf@.take(count as int)) =~= b);
    Ok(count)
}

} // verus!
