//! The tables that a detection reads: the gamma function at the integers, and the two priors.
//!
//! The caller evaluates the special functions once and hands their values over in the number
//! type that the evidences are computed in.

use crate::grid::nested;
use vstd::prelude::*;

verus! {

/// The special-function values of one detection.
pub struct Tables<T> {
    /// `gamma[i]` is the gamma function at `i`.
    pub gamma: Vec<T>,
    /// `num_breaks[k]` is the prior weight of `k` breakpoints.
    pub num_breaks: Vec<T>,
    /// `segmentation[len][k]` is the prior of one placement of `k` breakpoints among `len`
    /// slots, for `k <= len`.
    pub segmentation: Vec<Vec<T>>,
}

/// The contents of a [`Tables`].
pub ghost struct TablesView<T> {
    pub gamma: Seq<T>,
    pub num_breaks: Seq<T>,
    pub segmentation: Seq<Seq<T>>,
}

impl<T> View for Tables<T> {
    type V = TablesView<T>;

    open spec fn view(&self) -> TablesView<T> {
        TablesView {
            gamma: self.gamma@,
            num_breaks: self.num_breaks@,
            segmentation: nested(self.segmentation@),
        }
    }
}

/// The largest number of breakpoints that is considered in a sequence of `n` symbols when the
/// caller allows `kmax`: a sequence of `n` symbols has room for `n - 1`.
pub open spec fn reach(n: nat, kmax: nat) -> nat {
    if n == 0 {
        0
    } else if kmax < n {
        kmax
    } else {
        (n - 1) as nat
    }
}

/// The smaller of `a` and `b`.
pub open spec fn least(a: int, b: int) -> int {
    if a <= b {
        a
    } else {
        b
    }
}

impl<T> TablesView<T> {
    /// The tables hold every value that a detection on `n` symbols with at most `kmax`
    /// breakpoints reads.
    pub open spec fn covers(self, n: nat, kmax: nat) -> bool {
        n > 0 ==> {
            &&& self.gamma.len() > n + 2
            &&& self.num_breaks.len() > reach(n, kmax)
            &&& self.segmentation.len() >= n
            &&& forall|len: int|
                0 <= len < n ==> (#[trigger] self.segmentation[len]).len() > least(
                    len,
                    reach(n, kmax) as int,
                )
        }
    }
}

impl<T> TablesView<T> {
    /// The tables hold the segmentation prior of `k` breakpoints among `len` slots for every
    /// `len` in `k .. n`.
    pub open spec fn covers_splits(self, n: nat, k: nat) -> bool {
        &&& self.segmentation.len() >= n
        &&& forall|len: int| k <= len < n ==> (#[trigger] self.segmentation[len]).len() > k
    }

    /// Tables that cover a detection cover each of its steps.
    pub proof fn lemma_covers_splits(self, n: nat, kmax: nat, k: nat)
        requires
            self.covers(n, kmax),
            k <= reach(n, kmax),
        ensures
            self.covers_splits(n, k),
            n > 0 ==> self.num_breaks.len() > k,
    {
        if n > 0 {
            assert forall|len: int| k <= len < n implies (#[trigger] self.segmentation[len]).len()
                > k by {
                assert(least(len, reach(n, kmax) as int) >= k);
            }
        }
    }
}

/// The largest number of breakpoints that is considered in `n` symbols when the caller allows
/// `kmax`.
pub fn most_breakpoints(n: usize, kmax: usize) -> (top: usize)
    ensures
        top == reach(n as nat, kmax as nat),
{
    if n == 0 {
        0
    } else if kmax < n {
        kmax
    } else {
        n - 1
    }
}

impl<T> Tables<T> {
    /// Whether the tables hold every value that a detection on `n` symbols with at most `kmax`
    /// breakpoints reads.
    pub fn covers(&self, n: usize, kmax: usize) -> (b: bool)
        ensures
            b == self@.covers(n as nat, kmax as nat),
    {
        if n == 0 {
            return true;
        }
        let top = most_breakpoints(n, kmax);
        if self.gamma.len() < 3 || self.gamma.len() - 3 < n || self.num_breaks.len() <= top
            || self.segmentation.len() < n {
            return false;
        }
        let mut len: usize = 0;
        while len < n
            invariant
                len <= n <= self.segmentation@.len(),
                top == reach(n as nat, kmax as nat),
                forall|a: int|
                    0 <= a < len ==> (#[trigger] self@.segmentation[a]).len() > least(a, top as int),
            decreases n - len,
        {
            let need = if len < top {
                len
            } else {
                top
            };
            if self.segmentation[len].len() <= need {
                assert(!(self@.segmentation[len as int].len() > least(len as int, top as int)));
                return false;
            }
            len += 1;
        }
        true
    }
}

} // verus!
