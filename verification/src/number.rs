//! The number type that evidences are computed in.
//!
//! The engine is generic over the representation of its numbers, so that the caller can run it
//! on an extended-precision floating-point type. Everything the engine proves is stated over the
//! specification functions of the type's operators.

use crate::util::{order_obeyed, total_on_comparable};
use core::ops::{Add, Div, Mul};
use vstd::prelude::*;
use vstd::std_specs::ops::{AddSpec, DivSpec, MulSpec};

verus! {

/// A type with the operations that the evidence computation uses.
pub trait Number: Sized + Clone + PartialOrd + Add<Output = Self> + Mul<Output = Self> + Div<
    Output = Self,
> {

}

impl<T> Number for T where
    T: Sized + Clone + PartialOrd + Add<Output = T> + Mul<Output = T> + Div<Output = T>,
 {

}

/// The product of `a` and `b`, as the type specifies it.
pub open spec fn product<T: Number>(a: T, b: T) -> T {
    a.mul_spec(b)
}

/// The quotient of `a` by `b`, as the type specifies it.
pub open spec fn quotient<T: Number>(a: T, b: T) -> T {
    a.div_spec(b)
}

/// The sum of `a` and `b`, as the type specifies it.
pub open spec fn sum<T: Number>(a: T, b: T) -> T {
    a.add_spec(b)
}

/// What the engine relies on in a number type: its operators are defined on all values and
/// compute what the type specifies, a clone equals its original, and the comparison is a total
/// preorder on the values that can be compared with themselves.
pub open spec fn number_laws<T: Number>() -> bool {
    &&& T::obeys_mul_spec()
    &&& T::obeys_div_spec()
    &&& T::obeys_add_spec()
    &&& forall|a: T, b: T| #[trigger] a.mul_req(b)
    &&& forall|a: T, b: T| #[trigger] a.div_req(b)
    &&& forall|a: T, b: T| #[trigger] a.add_req(b)
    &&& forall|a: T, b: T| #[trigger] cloned(a, b) ==> a == b
    &&& order_obeyed::<T>()
    &&& total_on_comparable::<T>()
}

/// A copy of `a`.
pub fn duplicate<T: Number>(a: &T) -> (r: T)
    requires
        number_laws::<T>(),
    ensures
        r == *a,
{
    let r = a.clone();
    assert(cloned(*a, r));
    r
}

/// `a * b`.
pub fn multiply<T: Number>(a: &T, b: &T) -> (r: T)
    requires
        number_laws::<T>(),
    ensures
        r == product(*a, *b),
{
    duplicate(a) * duplicate(b)
}

/// `a / b`.
pub fn divide<T: Number>(a: &T, b: &T) -> (r: T)
    requires
        number_laws::<T>(),
    ensures
        r == quotient(*a, *b),
{
    duplicate(a) / duplicate(b)
}

/// `acc + a * b`.
pub fn accumulate<T: Number>(acc: T, a: &T, b: &T) -> (r: T)
    requires
        number_laws::<T>(),
    ensures
        r == sum(acc, product(*a, *b)),
{
    acc + multiply(a, b)
}

} // verus!
