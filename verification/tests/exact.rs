use std::cmp::Ordering;
use std::ops::{Add, Div, Mul};

use breakpoints::decoder::posterior_weights;
use breakpoints::engine::{stage_zero, stages};
use breakpoints::find_breakpoints;
use breakpoints::tables::{most_breakpoints, Tables};

/// A non-negative fraction in lowest terms.
#[derive(Clone, Copy, Debug)]
struct Frac {
    num: u128,
    den: u128,
}

fn gcd(a: u128, b: u128) -> u128 {
    if b == 0 {
        a
    } else {
        gcd(b, a % b)
    }
}

fn frac(num: u128, den: u128) -> Frac {
    let d = gcd(num, den);
    Frac { num: num / d, den: den / d }
}

impl PartialEq for Frac {
    fn eq(&self, other: &Frac) -> bool {
        self.num == other.num && self.den == other.den
    }
}

impl PartialOrd for Frac {
    fn partial_cmp(&self, other: &Frac) -> Option<Ordering> {
        let left = self.num.checked_mul(other.den).unwrap();
        let right = other.num.checked_mul(self.den).unwrap();
        left.partial_cmp(&right)
    }
}

impl Mul for Frac {
    type Output = Frac;

    fn mul(self, rhs: Frac) -> Frac {
        let a = frac(self.num, rhs.den);
        let b = frac(rhs.num, self.den);
        Frac { num: a.num.checked_mul(b.num).unwrap(), den: a.den.checked_mul(b.den).unwrap() }
    }
}

impl Div for Frac {
    type Output = Frac;

    fn div(self, rhs: Frac) -> Frac {
        self * Frac { num: rhs.den, den: rhs.num }
    }
}

impl Add for Frac {
    type Output = Frac;

    fn add(self, rhs: Frac) -> Frac {
        let d = gcd(self.den, rhs.den);
        let left = self.num.checked_mul(rhs.den / d).unwrap();
        let right = rhs.num.checked_mul(self.den / d).unwrap();
        frac(left.checked_add(right).unwrap(), self.den.checked_mul(rhs.den / d).unwrap())
    }
}

/// The true tables as fractions. The entry of the gamma function at 0, where it has a pole, is
/// never read and stands as 0.
fn exact_tables(n: usize, kmax: usize) -> Tables<Frac> {
    let mut gamma = vec![frac(0, 1), frac(1, 1)];
    for i in 2..n + 3 {
        let last = gamma[i - 1];
        gamma.push(last * frac(i as u128 - 1, 1));
    }
    let top = most_breakpoints(n, kmax);
    let num_breaks = (0..top + 1).map(|k| frac(1, 2 * (k as u128 + 1))).collect();
    let mut choose: Vec<Vec<u128>> = Vec::new();
    for len in 0..n {
        let mut row = vec![1];
        for k in 1..len + 1 {
            let left = choose[len - 1][k - 1];
            let right = if k < len { choose[len - 1][k] } else { 0 };
            row.push(left + right);
        }
        choose.push(row);
    }
    let segmentation = choose
        .iter()
        .map(|row| row.iter().take(top + 1).map(|c| frac(1, *c)).collect())
        .collect();
    Tables { gamma, num_breaks, segmentation }
}

fn exact_weights(seq: &[usize], kmax: usize) -> Vec<Frac> {
    let tables = exact_tables(seq.len(), kmax);
    let base = stage_zero(seq, &tables.gamma);
    let edges = stages(&base, most_breakpoints(seq.len(), kmax));
    posterior_weights(&edges, &tables, seq.len())
}

fn exact_detect(seq: &[usize], kmax: usize) -> Vec<usize> {
    let tables = exact_tables(seq.len(), kmax);
    assert!(tables.covers(seq.len(), kmax));
    let mut buf = vec![0; kmax];
    let count = find_breakpoints(seq, &mut buf, kmax, &tables).unwrap();
    buf.truncate(count);
    buf
}

#[test]
fn exact_weights_of_three_equal_symbols() {
    assert_eq!(exact_weights(&[0, 0, 0], 2), vec![frac(1, 8), frac(1, 24), frac(1, 48)]);
    assert_eq!(exact_weights(&[1, 1, 1], 2), vec![frac(1, 8), frac(1, 24), frac(1, 48)]);
}

#[test]
fn exact_weights_of_equal_symbols_fall_below_that_of_no_breakpoint() {
    let weights = exact_weights(&[1; 7], 6);
    assert_eq!(
        weights,
        vec![
            frac(1, 16),
            frac(223, 15120),
            frac(241, 43200),
            frac(229, 86400),
            frac(5, 3456),
            frac(1, 1152),
            frac(1, 1792),
        ]
    );
    for k in 1..7 {
        // at most 1 / (2 (k + 1) (n + 1))
        assert!(weights[k] <= frac(1, 2 * (k as u128 + 1) * 8));
        assert!(weights[k] < weights[0]);
    }
}

#[test]
fn exact_constant_sequence_has_no_breakpoint() {
    for n in 1..9 {
        for kmax in 0..10 {
            assert_eq!(exact_detect(&vec![0; n], kmax), vec![]);
            assert_eq!(exact_detect(&vec![1; n], kmax), vec![]);
        }
    }
}

#[test]
fn exact_step_is_found_at_the_change() {
    let mut seq = vec![0; 6];
    seq.extend(vec![1; 6]);
    assert_eq!(
        exact_weights(&seq, 3),
        vec![
            frac(1, 24024),
            frac(1251, 1897280),
            frac(2496391, 5488560000),
            frac(1332503, 4790016000),
        ]
    );
    assert_eq!(exact_detect(&seq, 3), vec![6]);
}

#[test]
fn exact_three_breakpoints_in_ascending_order() {
    let mut seq = vec![0; 5];
    seq.extend(vec![1; 5]);
    seq.extend(vec![0; 5]);
    assert_eq!(exact_detect(&seq, 3), vec![5, 10, 14]);
}
