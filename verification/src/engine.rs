//! The evidence engine: base evidences of all subsequences, then, stage by stage, the evidence
//! of `k` breakpoints in every suffix.

use crate::grid::{cell, triangular, with_cell, Triangle};
use crate::number::{
    accumulate, divide, duplicate, multiply, number_laws, product, quotient, sum, Number,
};
use crate::sequence::heads;
use vstd::prelude::*;

verus! {

/// First shape parameter of the Beta prior on a segment's probability of a one.
pub const PRIOR_A: usize = 1;

/// Second shape parameter of the Beta prior on a segment's probability of a one.
pub const PRIOR_B: usize = 1;

/// The Beta-Bernoulli evidence of a segment of `len` symbols, `h` of them ones, from the table
/// `gamma` of the gamma function at the integers: `gamma(h + A) * gamma(len - h + B) /
/// gamma(len + A + B)`. With `A = B = 1` the prior's normaliser is 1 and is left out.
pub open spec fn base_evidence<T: Number>(gamma: Seq<T>, h: int, len: int) -> T {
    quotient(
        product(gamma[h + PRIOR_A], gamma[len - h + PRIOR_B]),
        gamma[len + PRIOR_A + PRIOR_B],
    )
}

/// Row `j` of the base evidences of `seq`: the evidences of `[j, j + 1)`, .., `[j, n)`.
pub open spec fn base_row<T: Number>(seq: Seq<usize>, gamma: Seq<T>, j: int) -> Seq<T> {
    Seq::new(
        (seq.len() - j) as nat,
        |i: int| base_evidence(gamma, heads(seq, j, j + 1 + i) as int, i + 1),
    )
}

/// The base evidences of `seq`: for all `j < v <= n`, the evidence that `[j, v)` is one segment.
pub open spec fn base_rows<T: Number>(seq: Seq<usize>, gamma: Seq<T>) -> Seq<Seq<T>> {
    Seq::new(seq.len(), |j: int| base_row(seq, gamma, j))
}

/// The evidences of the suffixes `[j, n)` as single segments: the right edge of the triangle.
pub open spec fn right_edge<T>(rows: Seq<Seq<T>>) -> Seq<T> {
    Seq::new(rows.len(), |j: int| cell(rows, j, rows.len() as int))
}

/// The sum over the splits `s` in `j + 1 ..= last` of the evidence that `[j, s)` is one segment
/// times `prev[s]`, added up from the smallest split.
pub open spec fn split_sum<T: Number>(rows: Seq<Seq<T>>, prev: Seq<T>, j: int, last: int) -> T
    decreases last - j,
{
    if last <= j + 1 {
        product(cell(rows, j, j + 1), prev[j + 1])
    } else {
        sum(split_sum(rows, prev, j, last - 1), product(cell(rows, j, last), prev[last]))
    }
}

/// Stage `k` from the base evidences and stage `k - 1`: for every `j < n - k`, the evidence of
/// `k` breakpoints in `[j, n)`, the first of them at some `s` in `j + 1 ..= n - k`.
pub open spec fn next_stage_row<T: Number>(rows: Seq<Seq<T>>, prev: Seq<T>, k: nat) -> Seq<T> {
    Seq::new((rows.len() - k) as nat, |j: int| split_sum(rows, prev, j, rows.len() - k))
}

/// Stage `k` of the base evidences `rows`: entry `j` is the evidence of `k` breakpoints in
/// `[j, n)`.
pub open spec fn stage<T: Number>(rows: Seq<Seq<T>>, k: nat) -> Seq<T>
    decreases k,
{
    if k == 0 {
        right_edge(rows)
    } else {
        next_stage_row(rows, stage(rows, (k - 1) as nat), k)
    }
}

/// Stage `k` holds an entry for every suffix that is long enough for `k` breakpoints.
pub proof fn lemma_stage_len<T: Number>(rows: Seq<Seq<T>>, k: nat)
    requires
        k <= rows.len(),
    ensures
        stage(rows, k).len() == rows.len() - k,
{
}

/// A split sum reads row `j` of the triangle and the entries of the previous stage at the
/// splits, and nothing else.
pub proof fn lemma_split_sum_local<T: Number>(
    rows: Seq<Seq<T>>,
    prev: Seq<T>,
    other_rows: Seq<Seq<T>>,
    other_prev: Seq<T>,
    j: int,
    last: int,
)
    requires
        forall|s: int| j < s <= last ==> cell(rows, j, s) == cell(other_rows, j, s),
        forall|s: int| j < s <= last ==> prev[s] == other_prev[s],
        j < last,
    ensures
        split_sum(rows, prev, j, last) == split_sum(other_rows, other_prev, j, last),
    decreases last - j,
{
    if last > j + 1 {
        lemma_split_sum_local(rows, prev, other_rows, other_prev, j, last - 1);
    }
}

/// Replacing the base evidence of `[j0, v0)` changes, in a stage computed afterwards from the
/// same previous stage, at most the entry `j0`, and not even that one where the stage has no
/// split at `v0`.
pub proof fn lemma_next_stage_perturbed<T: Number>(
    rows: Seq<Seq<T>>,
    prev: Seq<T>,
    k: nat,
    j0: int,
    v0: int,
    x: T,
    j: int,
)
    requires
        triangular(rows),
        0 <= j0 < v0 <= rows.len(),
        1 <= k < rows.len(),
        0 <= j < rows.len() - k,
        j != j0 || v0 > rows.len() - k,
    ensures
        next_stage_row(with_cell(rows, j0, v0, x), prev, k)[j] == next_stage_row(rows, prev, k)[j],
{
    let perturbed = with_cell(rows, j0, v0, x);
    assert forall|s: int| j < s <= rows.len() - k implies cell(perturbed, j, s) == cell(
        rows,
        j,
        s,
    ) by {
        assert(rows[j0].len() == rows.len() - j0);
    }
    lemma_split_sum_local(perturbed, prev, rows, prev, j, rows.len() - k);
}

/// Replacing the base evidence of `[j0, v0)` leaves, in every stage, the evidences of the
/// suffixes that start to the right of `j0` as they were.
pub proof fn lemma_stage_perturbed<T: Number>(
    rows: Seq<Seq<T>>,
    k: nat,
    j0: int,
    v0: int,
    x: T,
    j: int,
)
    requires
        triangular(rows),
        0 <= j0 < v0 <= rows.len(),
        k < rows.len(),
        j0 < j < rows.len() - k,
    ensures
        stage(with_cell(rows, j0, v0, x), k)[j] == stage(rows, k)[j],
    decreases k,
{
    let perturbed = with_cell(rows, j0, v0, x);
    let n = rows.len() as int;
    assert(rows[j0].len() == n - j0);
    if k > 0 {
        let prev = stage(rows, (k - 1) as nat);
        let other = stage(perturbed, (k - 1) as nat);
        assert forall|s: int| j < s <= n - k implies other[s] == prev[s] by {
            lemma_stage_perturbed(rows, (k - 1) as nat, j0, v0, x, s);
        }
        lemma_split_sum_local(perturbed, other, rows, prev, j, n - k);
    }
}

/// Computes the base evidences of `seq`, keeping a running count of ones along each row.
pub fn stage_zero<T: Number>(seq: &[usize], gamma: &[T]) -> (base: Triangle<T>)
    requires
        number_laws::<T>(),
        seq@.len() + PRIOR_A + PRIOR_B < gamma@.len(),
    ensures
        base.wf(),
        base@ == base_rows(seq@, gamma@),
{
    let n = seq.len();
    let size = gamma.len();
    let mut rows: Vec<Vec<T>> = Vec::new();
    let mut j: usize = 0;
    while j < n
        invariant
            number_laws::<T>(),
            n == seq@.len(),
            size == gamma@.len(),
            n + 2 < size,
            j <= n,
            rows@.len() == j,
            forall|a: int| 0 <= a < j ==> (#[trigger] rows@[a])@ == base_row(seq@, gamma@, a),
        decreases n - j,
    {
        let mut row: Vec<T> = Vec::new();
        let mut h: usize = 0;
        let mut v: usize = j;
        while v < n
            invariant
                number_laws::<T>(),
                n == seq@.len(),
                size == gamma@.len(),
                n + 2 < size,
                j <= v <= n,
                h == heads(seq@, j as int, v as int),
                h <= v - j,
                row@.len() == v - j,
                forall|i: int|
                    0 <= i < v - j ==> #[trigger] row@[i] == base_evidence(
                        gamma@,
                        heads(seq@, j as int, j + 1 + i) as int,
                        i + 1,
                    ),
            decreases n - v,
        {
            if seq[v] == 1 {
                h += 1;
            }
            v += 1;
            let len = v - j;
            let p = multiply(&gamma[h + PRIOR_A], &gamma[len - h + PRIOR_B]);
            let e = divide(&p, &gamma[len + PRIOR_A + PRIOR_B]);
            row.push(e);
        }
        assert(row@ =~= base_row(seq@, gamma@, j as int));
        rows.push(row);
        j += 1;
    }
    let base = Triangle::from_rows(rows);
    assert(base@ =~= base_rows(seq@, gamma@));
    base
}

/// Copies the right edge of the triangle: stage 0.
pub fn first_stage<T: Number>(base: &Triangle<T>) -> (col: Vec<T>)
    requires
        number_laws::<T>(),
        base.wf(),
    ensures
        col@ == stage(base@, 0),
{
    let n = base.side_len();
    let mut col: Vec<T> = Vec::new();
    let mut j: usize = 0;
    while j < n
        invariant
            number_laws::<T>(),
            base.wf(),
            n == base.side(),
            j <= n,
            col@.len() == j,
            forall|a: int| 0 <= a < j ==> #[trigger] col@[a] == cell(base@, a, n as int),
        decreases n - j,
    {
        col.push(duplicate(base.get(j, n)));
        j += 1;
    }
    assert(col@ =~= stage(base@, 0));
    col
}

/// Computes stage `k` from the base evidences and stage `k - 1`.
pub fn next_stage<T: Number>(base: &Triangle<T>, prev: &[T], k: usize) -> (col: Vec<T>)
    requires
        number_laws::<T>(),
        base.wf(),
        1 <= k < base.side(),
        prev@.len() > base.side() - k,
    ensures
        col@ == next_stage_row(base@, prev@, k as nat),
{
    let n = base.side_len();
    let last = n - k;
    let mut col: Vec<T> = Vec::new();
    let mut j: usize = 0;
    while j < last
        invariant
            number_laws::<T>(),
            base.wf(),
            n == base.side(),
            last == n - k,
            1 <= k < n,
            prev@.len() > last,
            j <= last,
            col@.len() == j,
            forall|a: int|
                0 <= a < j ==> #[trigger] col@[a] == split_sum(base@, prev@, a, last as int),
        decreases last - j,
    {
        let mut s: usize = j + 1;
        let mut acc = multiply(base.get(j, s), &prev[s]);
        while s < last
            invariant
                number_laws::<T>(),
                base.wf(),
                n == base.side(),
                last < n,
                prev@.len() > last,
                j < s <= last,
                acc == split_sum(base@, prev@, j as int, s as int),
            decreases last - s,
        {
            s += 1;
            acc = accumulate(acc, base.get(j, s), &prev[s]);
        }
        col.push(acc);
        j += 1;
    }
    assert(col@ =~= next_stage_row(base@, prev@, k as nat));
    col
}

/// Computes the stages `0 ..= top`, each from the one before it.
pub fn stages<T: Number>(base: &Triangle<T>, top: usize) -> (edges: Vec<Vec<T>>)
    requires
        number_laws::<T>(),
        base.wf(),
        top < base.side(),
    ensures
        edges@.len() == top + 1,
        forall|k: int| 0 <= k <= top ==> (#[trigger] edges@[k])@ == stage(base@, k as nat),
{
    let n = base.side_len();
    let mut edges: Vec<Vec<T>> = Vec::new();
    edges.push(first_stage(base));
    let mut k: usize = 1;
    while k <= top
        invariant
            number_laws::<T>(),
            base.wf(),
            n == base.side(),
            top < n,
            1 <= k <= top + 1,
            edges@.len() == k,
            forall|a: int| 0 <= a < k ==> (#[trigger] edges@[a])@ == stage(base@, a as nat),
        decreases top + 1 - k,
    {
        proof {
            lemma_stage_len(base@, (k - 1) as nat);
        }
        let col = next_stage(base, edges[k - 1].as_slice(), k);
        edges.push(col);
        k += 1;
    }
    edges
}

} // verus!
