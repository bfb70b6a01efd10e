//! The detection on exact arithmetic.
//!
//! Where the operators of the number type are those of the real numbers and the tables hold the
//! true values of the special functions, a sequence of equal symbols has no breakpoint: every
//! way to cut it into more than one segment lowers the evidence at least as much as the prior
//! of the segmentation makes up for, and the prior of the number of breakpoints decides.

use crate::decoder::{decode, posterior, ranking, split_scores};
use crate::engine::{base_evidence, base_rows, split_sum, stage};
use crate::error::BreakpointError;
use crate::grid::cell;
use crate::number::{number_laws, product, quotient, sum, Number};
use crate::sequence::{heads, is_binary};
use crate::tables::{reach, TablesView};
use crate::util::{
    all_comparable, comparable, is_above, is_at_least, is_last_max, last_max,
    lemma_comparable_totally_ordered, lemma_last_max_unique,
};
use crate::{all_stages, detection};
use vstd::prelude::*;

verus! {

/// `n!`
pub open spec fn factorial(n: nat) -> nat
    decreases n,
{
    if n == 0 {
        1
    } else {
        n * factorial((n - 1) as nat)
    }
}

/// The number of ways to place `k` breakpoints in `n` slots: the binomial coefficient.
pub open spec fn placements(n: nat, k: nat) -> nat
    decreases n,
{
    if k == 0 {
        1
    } else if n == 0 {
        0
    } else {
        placements((n - 1) as nat, (k - 1) as nat) + placements((n - 1) as nat, k)
    }
}

/// `val` reads the numbers of `T` as real numbers such that the operators of `T` are those of
/// the reals, and so is the comparison.
pub open spec fn exact<T: Number>(val: spec_fn(T) -> real) -> bool {
    &&& forall|a: T, b: T| val(#[trigger] product(a, b)) == val(a) * val(b)
    &&& forall|a: T, b: T| val(#[trigger] sum(a, b)) == val(a) + val(b)
    &&& forall|a: T, b: T| val(b) != 0real ==> val(#[trigger] quotient(a, b)) == val(a) / val(b)
    &&& forall|a: T, b: T| #[trigger] comparable(a, b)
    &&& forall|a: T, b: T| #[trigger] is_above(a, b) <==> val(a) > val(b)
    &&& forall|a: T, b: T| #[trigger] is_at_least(a, b) <==> val(a) >= val(b)
}

/// The table `gamma` holds the gamma function at `1 ..= n + 2`: the factorials.
pub open spec fn true_gamma<T: Number>(val: spec_fn(T) -> real, gamma: Seq<T>, n: nat) -> bool {
    forall|i: int| 1 <= i <= n + 2 ==> val(#[trigger] gamma[i]) == factorial((i - 1) as nat) as real
}

/// The tables hold the true values of what the posterior weights read: the factorials,
/// `1 / (2 (k + 1))` as the prior of `k` breakpoints, and one over the number of placements of
/// `k` breakpoints among `n - 1` slots as the prior of a segmentation of the whole sequence.
pub open spec fn true_tables<T: Number>(
    val: spec_fn(T) -> real,
    tables: TablesView<T>,
    n: nat,
    top: nat,
) -> bool {
    &&& true_gamma(val, tables.gamma, n)
    &&& forall|k: int|
        0 <= k <= top ==> val(#[trigger] tables.num_breaks[k]) * ((2 * (k + 1)) as real) == 1real
    &&& forall|k: int|
        0 <= k <= top && k < n ==> val(#[trigger] tables.segmentation[n - 1][k]) * (placements(
            (n - 1) as nat,
            k as nat,
        ) as real) == 1real
}

/// All symbols of `seq` are 0, or all are 1.
pub open spec fn is_constant(seq: Seq<usize>) -> bool {
    ||| forall|i: int| 0 <= i < seq.len() ==> #[trigger] seq[i] == 0
    ||| forall|i: int| 0 <= i < seq.len() ==> #[trigger] seq[i] == 1
}

/// There is no way to place more breakpoints than there are slots.
pub proof fn lemma_placements_beyond(n: nat, k: nat)
    requires
        n < k,
    ensures
        placements(n, k) == 0,
    decreases n,
{
    if n > 0 {
        lemma_placements_beyond((n - 1) as nat, (k - 1) as nat);
        lemma_placements_beyond((n - 1) as nat, k);
    }
}

/// A factorial is positive.
pub proof fn lemma_factorial_positive(n: nat)
    ensures
        factorial(n) > 0,
    decreases n,
{
    if n > 0 {
        lemma_factorial_positive((n - 1) as nat);
        assert(n * factorial((n - 1) as nat) > 0) by (nonlinear_arith)
            requires
                n > 0,
                factorial((n - 1) as nat) > 0,
        ;
    }
}

/// A part of a sequence of equal symbols holds no one, or nothing else.
pub proof fn lemma_heads_constant(seq: Seq<usize>, j: int, v: int)
    requires
        is_constant(seq),
        0 <= j <= v <= seq.len(),
    ensures
        heads(seq, j, v) == 0 || heads(seq, j, v) == v - j,
        v > j && seq[j] == 0 ==> heads(seq, j, v) == 0,
        v > j && seq[j] != 0 ==> heads(seq, j, v) == v - j,
    decreases v - j,
{
    if j < v {
        lemma_heads_constant(seq, j, v - 1);
        assert(seq[v - 1] == seq[j]);
    }
}

/// With all symbols of a segment equal, its evidence is one over its length plus one.
pub proof fn lemma_base_value<T: Number>(
    val: spec_fn(T) -> real,
    gamma: Seq<T>,
    n: nat,
    h: int,
    len: int,
)
    requires
        exact(val),
        true_gamma(val, gamma, n),
        1 <= len <= n,
        h == 0 || h == len,
    ensures
        val(base_evidence(gamma, h, len)) > 0real,
        val(base_evidence(gamma, h, len)) * ((len + 1) as real) == 1real,
{
    let f = factorial(len as nat) as real;
    let c = (len + 1) as real;
    lemma_factorial_positive(len as nat);
    assert(factorial(0) == 1);
    assert(val(gamma[1]) == 1real);
    assert(val(gamma[len + 1]) == f);
    assert(factorial((len + 1) as nat) == (len + 1) * factorial(len as nat));
    assert(((len + 1) * factorial(len as nat)) as real == c * f) by (nonlinear_arith)
        requires
            c == (len + 1) as real,
            f == factorial(len as nat) as real,
    ;
    assert(val(gamma[len + 2]) == c * f);
    let p = product(gamma[h + 1], gamma[len - h + 1]);
    assert(val(p) == f) by {
        if h == 0 {
            assert(val(p) == val(gamma[1]) * val(gamma[len + 1]));
        } else {
            assert(val(p) == val(gamma[len + 1]) * val(gamma[1]));
        }
    }
    assert(c * f != 0real) by (nonlinear_arith)
        requires
            c > 0real,
            f > 0real,
    ;
    let q = quotient(p, gamma[len + 2]);
    assert(val(q) == f / (c * f));
    assert((f / (c * f)) * c == 1real && f / (c * f) > 0real) by (nonlinear_arith)
        requires
            c > 0real,
            f > 0real,
    ;
}

/// The bound of one term of a split sum: the product of an evidence `a` of a segment of `l`
/// equal symbols and an evidence `p` of the `r` symbols after it.
proof fn lemma_term_bound(a: real, p: real, l: int, r: int, c: int)
    requires
        a > 0real,
        p > 0real,
        l >= 0,
        r >= 0,
        a * ((l + 1) as real) == 1real,
        p * ((r + 1) as real) <= c as real,
    ensures
        a * p > 0real,
        (a * p) * ((l + r + 1) as real) <= c as real,
{
    let x = a * p;
    let lr = l as real;
    let rr = r as real;
    assert(((l + 1) as real) == lr + 1real);
    assert(((r + 1) as real) == rr + 1real);
    assert(((l + r + 1) as real) == lr + rr + 1real);
    assert(x > 0real && x * (lr + rr + 1real) <= c as real) by (nonlinear_arith)
        requires
            x == a * p,
            a > 0real,
            p > 0real,
            lr >= 0real,
            rr >= 0real,
            a * (lr + 1real) == 1real,
            p * (rr + 1real) <= c as real,
    ;
}

/// In a sequence of `n` equal symbols, the evidence of `k` breakpoints in the suffix `[j, n)`
/// of `len = n - j` symbols is positive and at most `placements(len - 1, k) / (len + 1)`.
pub proof fn lemma_stage_bound<T: Number>(
    val: spec_fn(T) -> real,
    seq: Seq<usize>,
    gamma: Seq<T>,
    k: nat,
    j: int,
)
    requires
        exact(val),
        true_gamma(val, gamma, seq.len()),
        is_constant(seq),
        0 <= j,
        j + k < seq.len(),
    ensures
        val(stage(base_rows(seq, gamma), k)[j]) > 0real,
        val(stage(base_rows(seq, gamma), k)[j]) * ((seq.len() - j + 1) as real) <= placements(
            (seq.len() - j - 1) as nat,
            k,
        ) as real,
    decreases k, 1nat, 0nat,
{
    let n = seq.len() as int;
    let rows = base_rows(seq, gamma);
    if k == 0 {
        lemma_heads_constant(seq, j, n);
        lemma_base_value(val, gamma, seq.len(), heads(seq, j, n) as int, n - j);
        assert(stage(rows, 0)[j] == cell(rows, j, n));
        assert(cell(rows, j, n) == base_evidence(gamma, heads(seq, j, n) as int, n - j));
    } else {
        lemma_split_bound(val, seq, gamma, k, j, n - k);
        lemma_placements_beyond((k - 1) as nat, k);
    }
}

/// The partial sums of the splits obey the bound of the whole sum, less the placements that
/// the splits to come account for.
pub proof fn lemma_split_bound<T: Number>(
    val: spec_fn(T) -> real,
    seq: Seq<usize>,
    gamma: Seq<T>,
    k: nat,
    j: int,
    last: int,
)
    requires
        exact(val),
        true_gamma(val, gamma, seq.len()),
        is_constant(seq),
        1 <= k,
        0 <= j < last,
        last + k <= seq.len(),
    ensures
        val(split_sum(base_rows(seq, gamma), stage(base_rows(seq, gamma), (k - 1) as nat), j, last))
            > 0real,
        val(split_sum(base_rows(seq, gamma), stage(base_rows(seq, gamma), (k - 1) as nat), j, last))
            * ((seq.len() - j + 1) as real) + (placements((seq.len() - last - 1) as nat, k) as real)
            <= placements((seq.len() - j - 1) as nat, k) as real,
    decreases k, 0nat, last - j,
{
    let n = seq.len() as int;
    let rows = base_rows(seq, gamma);
    let prev = stage(rows, (k - 1) as nat);
    let whole = (n - j + 1) as real;

    // the term of the split at `last`
    lemma_heads_constant(seq, j, last);
    lemma_base_value(val, gamma, seq.len(), heads(seq, j, last) as int, last - j);
    assert(cell(rows, j, last) == base_evidence(gamma, heads(seq, j, last) as int, last - j));
    lemma_stage_bound(val, seq, gamma, (k - 1) as nat, last);
    let a = val(cell(rows, j, last));
    let p = val(prev[last]);
    let here = placements((n - last - 1) as nat, (k - 1) as nat);
    lemma_term_bound(a, p, last - j, n - last, here as int);
    let term = product(cell(rows, j, last), prev[last]);
    assert(val(term) == a * p);
    assert(val(term) * whole <= here as real);

    // the placements with the first breakpoint at `last` or to the right of it
    assert(placements((n - last) as nat, k) == here + placements((n - last - 1) as nat, k));

    if last <= j + 1 {
        assert(split_sum(rows, prev, j, last) == term);
    } else {
        lemma_split_bound(val, seq, gamma, k, j, last - 1);
        let before = split_sum(rows, prev, j, last - 1);
        assert(split_sum(rows, prev, j, last) == sum(before, term));
        assert(val(sum(before, term)) == val(before) + val(term));
        assert((val(before) + val(term)) * whole == val(before) * whole + val(term) * whole)
            by (nonlinear_arith);
    }
}

/// On exact arithmetic every score can be compared, so decoding succeeds.
pub proof fn lemma_exact_decode<T: Number>(
    val: spec_fn(T) -> real,
    rows: Seq<Seq<T>>,
    edges: Seq<Seq<T>>,
    segmentation: Seq<Seq<T>>,
    m: int,
    q: nat,
)
    requires
        exact(val),
    ensures
        decode(rows, edges, segmentation, m, q) is Ok,
    decreases q,
{
    if q > 0 {
        let scores = split_scores(rows, edges[q - 1], segmentation, m, q as int);
        assert(all_comparable(scores));
        if let Ok(i) = ranking(scores) {
            lemma_exact_decode(val, rows, edges, segmentation, m + 1 + i, (q - 1) as nat);
        }
    }
}

/// On exact arithmetic a detection fails only on a symbol other than 0 and 1 and on a region
/// with fewer than `kmax` slots.
pub proof fn lemma_exact_detection<T: Number>(
    val: spec_fn(T) -> real,
    seq: Seq<usize>,
    capacity: nat,
    kmax: nat,
    tables: TablesView<T>,
)
    requires
        exact(val),
        is_binary(seq),
        capacity >= kmax,
    ensures
        detection(seq, capacity, kmax, tables) is Ok,
{
    if seq.len() > 0 {
        let rows = base_rows(seq, tables.gamma);
        let edges = all_stages(rows, reach(seq.len(), kmax));
        let weights = posterior(edges, tables, seq.len());
        assert(all_comparable(weights));
        if let Ok(count) = ranking(weights) {
            lemma_exact_decode(val, rows, edges, tables.segmentation, 0, count as nat);
        }
    }
}

/// A sequence of equal symbols has no breakpoint, whatever the maximum, where the arithmetic
/// is exact and the tables hold the true values.
pub proof fn lemma_constant_sequence<T: Number>(
    val: spec_fn(T) -> real,
    seq: Seq<usize>,
    capacity: nat,
    kmax: nat,
    tables: TablesView<T>,
)
    requires
        number_laws::<T>(),
        exact(val),
        tables.covers(seq.len(), kmax),
        true_tables(val, tables, seq.len(), reach(seq.len(), kmax)),
        is_constant(seq),
        capacity >= kmax,
    ensures
        detection(seq, capacity, kmax, tables) == Ok::<Seq<int>, BreakpointError>(Seq::empty()),
{
    assert(is_binary(seq));
    if seq.len() > 0 {
        let n = seq.len();
        let top = reach(n, kmax);
        let rows = base_rows(seq, tables.gamma);
        let edges = all_stages(rows, top);
        let weights = posterior(edges, tables, n);
        let whole = (n + 1) as real;
        if top > 0 {
            lemma_weight_bound(val, seq, tables, top, 0);
            let first = val(weights[0]);
            assert(placements((n - 1) as nat, 0) == 1);
            assert(first * (2real * whole) >= 1real);
            assert forall|k: int| 0 < k <= top implies val(#[trigger] weights[k]) < first by {
                lemma_weight_bound(val, seq, tables, top, k);
                let w = val(weights[k]);
                let steps = (2 * (k + 1)) as real;
                assert(steps >= 4real);
                assert(w < first) by (nonlinear_arith)
                    requires
                        w > 0real,
                        w * (steps * whole) <= 1real,
                        first * (2real * whole) >= 1real,
                        steps >= 4real,
                        whole > 0real,
                ;
            }
            assert(all_comparable(weights));
            assert(is_last_max(weights, 0));
            lemma_comparable_totally_ordered(weights);
            lemma_last_max_unique(weights, 0, last_max(weights));
        }
        assert(ranking(weights) == Ok::<int, BreakpointError>(0));
    }
}

/// The posterior weight of `k` breakpoints in a sequence of `n` equal symbols is positive and
/// at most `1 / (2 (k + 1) (n + 1))`; that of none is this value.
proof fn lemma_weight_bound<T: Number>(
    val: spec_fn(T) -> real,
    seq: Seq<usize>,
    tables: TablesView<T>,
    top: nat,
    k: int,
)
    requires
        exact(val),
        true_tables(val, tables, seq.len(), top),
        is_constant(seq),
        0 <= k <= top < seq.len(),
        tables.num_breaks.len() > top,
        tables.segmentation.len() >= seq.len(),
        tables.segmentation[seq.len() - 1].len() > top,
    ensures
        val(posterior(all_stages(base_rows(seq, tables.gamma), top), tables, seq.len())[k]) > 0real,
        val(posterior(all_stages(base_rows(seq, tables.gamma), top), tables, seq.len())[k]) * (((2
            * (k + 1)) as real) * ((seq.len() + 1) as real)) <= 1real,
        k == 0 ==> val(posterior(all_stages(base_rows(seq, tables.gamma), top), tables, seq.len())[k])
            * (2real * ((seq.len() + 1) as real)) >= 1real,
{
    let n = seq.len();
    let rows = base_rows(seq, tables.gamma);
    let edges = all_stages(rows, top);
    let whole = (n + 1) as real;
    let steps = (2 * (k + 1)) as real;
    let ways = placements((n - 1) as nat, k as nat) as real;
    lemma_stage_bound(val, seq, tables.gamma, k as nat, 0);
    let e = val(edges[k][0]);
    let s = val(tables.segmentation[n - 1][k]);
    let b = val(tables.num_breaks[k]);
    assert(e > 0real && e * whole <= ways);
    assert(s * ways == 1real);
    assert(b * steps == 1real);
    let placed = product(edges[k][0], tables.segmentation[n - 1][k]);
    let w = product(placed, tables.num_breaks[k]);
    assert(val(placed) == e * s);
    assert(val(w) == (e * s) * b);
    assert(posterior(edges, tables, n)[k] == w);
    assert(steps >= 2real);
    assert((e * s) * b > 0real && ((e * s) * b) * (steps * whole) <= 1real) by (nonlinear_arith)
        requires
            e > 0real,
            e * whole <= ways,
            s * ways == 1real,
            b * steps == 1real,
            ways >= 0real,
            steps >= 2real,
            whole > 0real,
    ;
    if k == 0 {
        lemma_heads_constant(seq, 0, n as int);
        lemma_base_value(val, tables.gamma, n, heads(seq, 0, n as int) as int, n as int);
        assert(edges[0][0] == cell(rows, 0, n as int));
        assert(cell(rows, 0, n as int) == base_evidence(
            tables.gamma,
            heads(seq, 0, n as int) as int,
            n as int,
        ));
        assert(e * whole == 1real);
        assert(ways == 1real);
        assert(steps == 2real);
        assert(s == 1real) by (nonlinear_arith)
            requires
                s * ways == 1real,
                ways == 1real,
        ;
        assert(((e * s) * b) * (2real * whole) >= 1real) by (nonlinear_arith)
            requires
                e * whole == 1real,
                s == 1real,
                b * 2real == 1real,
        ;
    }
}

} // verus!
