//! Binary observation sequences.

use crate::error::BreakpointError;
use vstd::prelude::*;

verus! {

/// Every symbol of `seq` is 0 or 1.
pub open spec fn is_binary(seq: Seq<usize>) -> bool {
    forall|i: int| 0 <= i < seq.len() ==> #[trigger] seq[i] == 0 || seq[i] == 1
}

/// The number of ones among the symbols `seq[j]`, .., `seq[v - 1]`.
pub open spec fn heads(seq: Seq<usize>, j: int, v: int) -> nat
    decreases v - j,
{
    if v <= j {
        0
    } else if seq[v - 1] == 1 {
        heads(seq, j, v - 1) + 1
    } else {
        heads(seq, j, v - 1)
    }
}

/// Checks that every symbol is 0 or 1.
pub fn validate(seq: &[usize]) -> (r: Result<(), BreakpointError>)
    ensures
        is_binary(seq@) ==> r == Ok::<(), BreakpointError>(()),
        !is_binary(seq@) ==> r == Err::<(), BreakpointError>(BreakpointError::InvalidInput),
{
    let mut i: usize = 0;
    while i < seq.len()
        invariant
            i <= seq@.len(),
            forall|a: int| 0 <= a < i ==> #[trigger] seq@[a] == 0 || seq@[a] == 1,
        decreases seq@.len() - i,
    {
        if seq[i] != 0 && seq[i] != 1 {
            assert(!(seq@[i as int] == 0 || seq@[i as int] == 1));
            return Err(BreakpointError::InvalidInput);
        }
        i += 1;
    }
    Ok(())
}

} // verus!
