//! The decoder: the most probable number of breakpoints, then their positions from left to
//! right.

use crate::error::BreakpointError;
use crate::grid::{cell, nested, Triangle};
use crate::number::{multiply, number_laws, product, Number};
use crate::tables::{Tables, TablesView};
use crate::util::{
    all_comparable, comparable, is_comparable, is_last_max, last_max, lemma_comparable_totally_ordered,
    lemma_last_max_exists, np_argmax,
};
use vstd::prelude::*;

verus! {

/// `edges` holds stages of a sequence of `n` symbols: column `k` has an entry for every suffix
/// `[j, n)` with `j < n - k`.
pub open spec fn stepped<T>(edges: Seq<Seq<T>>, n: nat) -> bool {
    &&& 0 < edges.len() <= n
    &&& forall|k: int| 0 <= k < edges.len() ==> (#[trigger] edges[k]).len() == n - k
}

/// The unnormalised posterior weight of every number of breakpoints `k` that `edges` has a
/// stage for: the evidence of `k` breakpoints in the whole sequence, times the prior of one
/// placement of `k` breakpoints among `n - 1` slots, times the prior of `k` breakpoints.
pub open spec fn posterior<T: Number>(edges: Seq<Seq<T>>, tables: TablesView<T>, n: nat) -> Seq<T> {
    Seq::new(
        edges.len(),
        |k: int|
            product(
                product(edges[k][0], tables.segmentation[n - 1][k]),
                tables.num_breaks[k],
            ),
    )
}

/// The position that a ranking of `scores` selects: that of the last maximal score. A single
/// score is selected without being compared; of several, each must be comparable.
pub open spec fn ranking<T: PartialOrd>(scores: Seq<T>) -> Result<int, BreakpointError> {
    if scores.len() == 1 {
        Ok(0)
    } else if all_comparable(scores) {
        Ok(last_max(scores))
    } else {
        Err(BreakpointError::NumericDegeneracy)
    }
}

/// The scores of the splits `j` in `m + 1 ..= n - q` for the first of `q` breakpoints to the
/// right of `m`: the evidence that `[m, j)` is one segment, times the evidence `edge[j]` of
/// `q - 1` breakpoints in `[j, n)`, times the prior of one placement of `q - 1` breakpoints
/// among `n - j - 1` slots.
pub open spec fn split_scores<T: Number>(
    rows: Seq<Seq<T>>,
    edge: Seq<T>,
    segmentation: Seq<Seq<T>>,
    m: int,
    q: int,
) -> Seq<T> {
    Seq::new(
        (rows.len() - q - m) as nat,
        |i: int|
            product(
                product(cell(rows, m, m + 1 + i), edge[m + 1 + i]),
                segmentation[rows.len() - (m + 1 + i) - 1][q - 1],
            ),
    )
}

/// The positions of `q` breakpoints to the right of `m`, from left to right: each is the split
/// that the ranking of the split scores selects, and the next is sought to the right of it.
pub open spec fn decode<T: Number>(
    rows: Seq<Seq<T>>,
    edges: Seq<Seq<T>>,
    segmentation: Seq<Seq<T>>,
    m: int,
    q: nat,
) -> Result<Seq<int>, BreakpointError>
    decreases q,
{
    if q == 0 {
        Ok(Seq::empty())
    } else {
        match ranking(split_scores(rows, edges[q - 1], segmentation, m, q as int)) {
            Err(e) => Err(e),
            Ok(i) => match decode(rows, edges, segmentation, m + 1 + i, (q - 1) as nat) {
                Err(e) => Err(e),
                Ok(rest) => Ok(seq![m + 1 + i] + rest),
            },
        }
    }
}

/// `found` put in front of the positions `rest`, where there are any.
pub open spec fn after<T>(found: Seq<int>, rest: Result<Seq<int>, T>) -> Result<Seq<int>, T> {
    match rest {
        Ok(b) => Ok(found + b),
        Err(e) => Err(e),
    }
}

/// The positions are strictly increasing and lie in `low + 1 ..= high`.
pub open spec fn ascending_within(positions: Seq<int>, low: int, high: int) -> bool {
    &&& forall|t: int| 0 <= t < positions.len() ==> low < #[trigger] positions[t] <= high
    &&& forall|t: int, u: int| 0 <= t < u < positions.len() ==> positions[t] < positions[u]
}

/// The machine integers `v` as mathematical integers.
pub open spec fn positions(v: Seq<usize>) -> Seq<int> {
    v.map_values(|x: usize| x as int)
}

/// A ranking that succeeds selects one of the scores.
pub proof fn lemma_ranking_in_range<T: Number>(scores: Seq<T>)
    requires
        number_laws::<T>(),
        scores.len() > 0,
    ensures
        ranking(scores) matches Ok(i) ==> 0 <= i < scores.len() && (scores.len() > 1
            ==> is_last_max(scores, i)),
{
    if scores.len() > 1 && all_comparable(scores) {
        lemma_comparable_totally_ordered(scores);
        lemma_last_max_exists(scores);
    }
}

/// Decoding fails only where scores cannot be compared.
pub proof fn lemma_decode_error<T: Number>(
    rows: Seq<Seq<T>>,
    edges: Seq<Seq<T>>,
    segmentation: Seq<Seq<T>>,
    m: int,
    q: nat,
)
    ensures
        decode(rows, edges, segmentation, m, q) matches Err(e) ==> e
            == BreakpointError::NumericDegeneracy,
    decreases q,
{
    if q > 0 {
        if let Ok(i) = ranking(split_scores(rows, edges[q - 1], segmentation, m, q as int)) {
            lemma_decode_error(rows, edges, segmentation, m + 1 + i, (q - 1) as nat);
        }
    }
}

/// Decoding `q` breakpoints to the right of `m` yields, where it succeeds, `q` strictly
/// increasing positions in `m + 1 ..= n - 1` that leave room for the breakpoints after them.
pub proof fn lemma_decode_ascending<T: Number>(
    rows: Seq<Seq<T>>,
    edges: Seq<Seq<T>>,
    segmentation: Seq<Seq<T>>,
    m: int,
    q: nat,
)
    requires
        number_laws::<T>(),
        0 <= m,
        m + q < rows.len(),
    ensures
        decode(rows, edges, segmentation, m, q) matches Ok(b) ==> b.len() == q && ascending_within(
            b,
            m,
            rows.len() - 1,
        ),
    decreases q,
{
    if q > 0 {
        let scores = split_scores(rows, edges[q - 1], segmentation, m, q as int);
        lemma_ranking_in_range(scores);
        if let Ok(i) = ranking(scores) {
            let j = m + 1 + i;
            lemma_decode_ascending(rows, edges, segmentation, j, (q - 1) as nat);
            if let Ok(rest) = decode(rows, edges, segmentation, j, (q - 1) as nat) {
                let b = seq![j] + rest;
                assert forall|t: int| 0 <= t < b.len() implies m < #[trigger] b[t] <= rows.len()
                    - 1 by {
                    if t > 0 {
                        assert(b[t] == rest[t - 1]);
                    }
                }
                assert forall|t: int, u: int| 0 <= t < u < b.len() implies b[t] < b[u] by {
                    assert(b[u] == rest[u - 1]);
                    if t > 0 {
                        assert(b[t] == rest[t - 1]);
                    }
                }
            }
        }
    }
}

/// Computes the posterior weight of every number of breakpoints that `edges` has a stage for.
pub fn posterior_weights<T: Number>(edges: &Vec<Vec<T>>, tables: &Tables<T>, n: usize) -> (w: Vec<T>)
    requires
        number_laws::<T>(),
        stepped(nested(edges@), n as nat),
        tables@.segmentation.len() >= n,
        tables@.segmentation[n - 1].len() >= edges@.len(),
        tables@.num_breaks.len() >= edges@.len(),
    ensures
        w@ == posterior(nested(edges@), tables@, n as nat),
{
    let mut w: Vec<T> = Vec::new();
    let mut k: usize = 0;
    while k < edges.len()
        invariant
            number_laws::<T>(),
            stepped(nested(edges@), n as nat),
            tables@.segmentation.len() >= n,
            tables@.segmentation[n - 1].len() >= edges@.len(),
            tables@.num_breaks.len() >= edges@.len(),
            k <= edges@.len(),
            w@.len() == k,
            forall|a: int|
                0 <= a < k ==> #[trigger] w@[a] == posterior(nested(edges@), tables@, n as nat)[a],
        decreases edges@.len() - k,
    {
        assert(nested(edges@)[k as int].len() == n - k);
        let placed = multiply(&edges[k][0], &tables.segmentation[n - 1][k]);
        w.push(multiply(&placed, &tables.num_breaks[k]));
        k += 1;
    }
    assert(w@ =~= posterior(nested(edges@), tables@, n as nat));
    w
}

/// Selects the last maximal score. A single score is selected without being compared; of
/// several, each must be comparable.
pub fn rank<T: Number>(scores: &[T]) -> (r: Result<usize, BreakpointError>)
    requires
        number_laws::<T>(),
        scores@.len() > 0,
    ensures
        match ranking(scores@) {
            Ok(i) => r == Ok::<usize, BreakpointError>(i as usize) && 0 <= i < scores@.len(),
            Err(e) => r == Err::<usize, BreakpointError>(e),
        },
{
    if scores.len() == 1 {
        return Ok(0);
    }
    let mut i: usize = 0;
    while i < scores.len()
        invariant
            number_laws::<T>(),
            scores@.len() != 1,
            i <= scores@.len(),
            forall|a: int| 0 <= a < i ==> comparable(#[trigger] scores@[a], scores@[a]),
        decreases scores@.len() - i,
    {
        if !is_comparable(&scores[i]) {
            assert(!comparable(scores@[i as int], scores@[i as int]));
            return Err(BreakpointError::NumericDegeneracy);
        }
        i += 1;
    }
    proof {
        lemma_comparable_totally_ordered(scores@);
    }
    Ok(np_argmax(scores))
}

/// Computes the scores of the splits for the first of `q` breakpoints to the right of `m`.
pub fn split_scores_at<T: Number>(
    base: &Triangle<T>,
    edge: &[T],
    tables: &Tables<T>,
    m: usize,
    q: usize,
) -> (scores: Vec<T>)
    requires
        number_laws::<T>(),
        base.wf(),
        1 <= q,
        m + q < base.side(),
        edge@.len() > base.side() - q,
        tables@.covers_splits(base.side(), (q - 1) as nat),
    ensures
        scores@ == split_scores(base@, edge@, tables@.segmentation, m as int, q as int),
{
    let n = base.side_len();
    let last = n - q;
    let mut scores: Vec<T> = Vec::new();
    let mut j: usize = m + 1;
    while j <= last
        invariant
            number_laws::<T>(),
            base.wf(),
            n == base.side(),
            1 <= q,
            last == n - q,
            m < j <= last + 1,
            edge@.len() > last,
            tables@.covers_splits(n as nat, (q - 1) as nat),
            scores@.len() == j - m - 1,
            forall|i: int|
                0 <= i < j - m - 1 ==> #[trigger] scores@[i] == split_scores(
                    base@,
                    edge@,
                    tables@.segmentation,
                    m as int,
                    q as int,
                )[i],
        decreases last + 1 - j,
    {
        assert(tables@.segmentation[n - j - 1].len() > q - 1);
        let joint = multiply(base.get(m, j), &edge[j]);
        scores.push(multiply(&joint, &tables.segmentation[n - j - 1][q - 1]));
        j += 1;
    }
    assert(scores@ =~= split_scores(base@, edge@, tables@.segmentation, m as int, q as int));
    scores
}

/// Finds the positions of `count` breakpoints from left to right.
pub fn decode_breakpoints<T: Number>(
    base: &Triangle<T>,
    edges: &Vec<Vec<T>>,
    tables: &Tables<T>,
    count: usize,
) -> (r: Result<Vec<usize>, BreakpointError>)
    requires
        number_laws::<T>(),
        base.wf(),
        stepped(nested(edges@), base.side()),
        count < edges@.len(),
        forall|k: nat| k < count ==> tables@.covers_splits(base.side(), k),
    ensures
        match decode(base@, nested(edges@), tables@.segmentation, 0, count as nat) {
            Ok(b) => r matches Ok(v) && positions(v@) == b,
            Err(e) => r == Err::<Vec<usize>, BreakpointError>(e),
        },
{
    let n = base.side_len();
    let ghost whole = decode(base@, nested(edges@), tables@.segmentation, 0, count as nat);
    let mut found: Vec<usize> = Vec::new();
    let mut m: usize = 0;
    let mut q: usize = count;
    while q > 0
        invariant
            number_laws::<T>(),
            base.wf(),
            n == base.side(),
            stepped(nested(edges@), n as nat),
            count < edges@.len(),
            forall|k: nat| k < count ==> tables@.covers_splits(n as nat, k),
            q <= count,
            m + q < n,
            whole == decode(base@, nested(edges@), tables@.segmentation, 0, count as nat),
            whole == after(
                positions(found@),
                decode(base@, nested(edges@), tables@.segmentation, m as int, q as nat),
            ),
        decreases q,
    {
        assert(nested(edges@)[q - 1].len() == n - (q - 1));
        assert(tables@.covers_splits(n as nat, (q - 1) as nat));
        let scores = split_scores_at(base, edges[q - 1].as_slice(), tables, m, q);
        match rank(scores.as_slice()) {
            Err(e) => {
                return Err(e);
            },
            Ok(i) => {
                let ghost before = positions(found@);
                let ghost rest = decode(
                    base@,
                    nested(edges@),
                    tables@.segmentation,
                    m + 1 + i,
                    (q - 1) as nat,
                );
                m = m + 1 + i;
                found.push(m);
                q -= 1;
                proof {
                    assert(positions(found@) =~= before + seq![m as int]);
                    match rest {
                        Ok(b) => {
                            assert((before + seq![m as int]) + b =~= before + (seq![m as int] + b));
                        },
                        Err(_) => {},
                    }
                }
            },
        }
    }
    assert(positions(found@) + Seq::<int>::empty() =~= positions(found@));
    Ok(found)
}

} // verus!
