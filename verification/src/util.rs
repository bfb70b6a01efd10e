//! Selection of a maximal element.

use core::cmp::Ordering;
use vstd::prelude::*;
use vstd::std_specs::cmp::PartialOrdSpec;

verus! {

/// The comparison operators of `T` compute what the type specifies.
pub open spec fn order_obeyed<T: PartialOrd>() -> bool {
    T::obeys_partial_cmp_spec()
}

/// `a` and `b` can be compared.
pub open spec fn comparable<T: PartialOrd>(a: T, b: T) -> bool {
    a.partial_cmp_spec(&b) is Some
}

/// `a` is strictly greater than `b`.
pub open spec fn is_above<T: PartialOrd>(a: T, b: T) -> bool {
    a.partial_cmp_spec(&b) == Some(Ordering::Greater)
}

/// `a` is greater than or equal to `b`.
pub open spec fn is_at_least<T: PartialOrd>(a: T, b: T) -> bool {
    a.partial_cmp_spec(&b) matches Some(Ordering::Greater | Ordering::Equal)
}

/// Every element of `s` can be compared with itself.
pub open spec fn all_comparable<T: PartialOrd>(s: Seq<T>) -> bool {
    forall|i: int| 0 <= i < s.len() ==> comparable(#[trigger] s[i], s[i])
}

/// The comparison of `T` is a total preorder on the values that can be compared with themselves.
pub open spec fn total_on_comparable<T: PartialOrd>() -> bool {
    &&& forall|a: T, b: T| comparable(a, a) && comparable(b, b) ==> #[trigger] comparable(a, b)
    &&& forall|a: T, b: T| #[trigger] comparable(a, b) && !is_above(a, b) ==> is_at_least(b, a)
    &&& forall|a: T, b: T| #[trigger] is_above(a, b) ==> !is_at_least(b, a)
    &&& forall|a: T, b: T, c: T| #[trigger]
        is_at_least(a, b) && #[trigger] is_at_least(b, c) ==> is_at_least(a, c)
}

/// Any two elements of `s` at different positions can be compared, and the comparison is a
/// total preorder on the elements.
pub open spec fn totally_ordered<T: PartialOrd>(s: Seq<T>) -> bool {
    &&& forall|i: int, j: int|
        0 <= i < s.len() && 0 <= j < s.len() && i != j ==> #[trigger] comparable(s[i], s[j])
    &&& forall|i: int, j: int|
        0 <= i < s.len() && 0 <= j < s.len() && i != j && !is_above(s[i], s[j])
            ==> #[trigger] is_at_least(s[j], s[i])
    &&& forall|i: int, j: int|
        0 <= i < s.len() && 0 <= j < s.len() && #[trigger] is_above(s[i], s[j]) ==> !is_at_least(
            s[j],
            s[i],
        )
    &&& forall|i: int, j: int, k: int|
        0 <= i < s.len() && 0 <= j < s.len() && 0 <= k < s.len() && #[trigger] is_at_least(
            s[i],
            s[j],
        ) && #[trigger] is_at_least(s[j], s[k]) ==> is_at_least(s[i], s[k])
}

/// `idx` is the position of the last maximal element of `s`: no other element is greater, and
/// every later one is strictly smaller.
pub open spec fn is_last_max<T: PartialOrd>(s: Seq<T>, idx: int) -> bool {
    &&& 0 <= idx < s.len()
    &&& forall|j: int| 0 <= j < s.len() && j != idx ==> is_at_least(s[idx], #[trigger] s[j])
    &&& forall|j: int| idx < j < s.len() ==> is_above(s[idx], #[trigger] s[j])
}

/// The position of the last maximal element of `s`.
pub open spec fn last_max<T: PartialOrd>(s: Seq<T>) -> int {
    choose|idx: int| is_last_max(s, idx)
}

/// A totally ordered sequence has at most one last maximal element.
pub proof fn lemma_last_max_unique<T: PartialOrd>(s: Seq<T>, a: int, b: int)
    requires
        totally_ordered(s),
        is_last_max(s, a),
        is_last_max(s, b),
    ensures
        a == b,
{
    if a < b {
        assert(is_above(s[a], s[b]));
        assert(is_at_least(s[b], s[a]));
    } else if b < a {
        assert(is_above(s[b], s[a]));
        assert(is_at_least(s[a], s[b]));
    }
}

/// A non-empty totally ordered sequence has a last maximal element.
pub proof fn lemma_last_max_exists<T: PartialOrd>(s: Seq<T>)
    requires
        s.len() > 0,
        totally_ordered(s),
    ensures
        is_last_max(s, last_max(s)),
    decreases s.len(),
{
    let end = s.len() - 1;
    if end == 0 {
        assert(is_last_max(s, 0));
    } else {
        let front = s.drop_last();
        assert forall|i: int| 0 <= i < front.len() implies front[i] == s[i] by {}
        assert(totally_ordered(front));
        lemma_last_max_exists(front);
        let best = last_max(front);
        if is_above(s[best], s[end]) {
            assert forall|j: int| 0 <= j < s.len() && j != best implies #[trigger] is_at_least(
                s[best],
                s[j],
            ) by {
                if j != end {
                    assert(is_at_least(front[best], front[j]));
                }
            }
            assert forall|j: int| best < j < s.len() implies #[trigger] is_above(s[best], s[j]) by {
                if j != end {
                    assert(is_above(front[best], front[j]));
                }
            }
            assert(is_last_max(s, best));
        } else {
            assert(is_at_least(s[end], s[best]));
            assert forall|j: int| 0 <= j < s.len() && j != end implies #[trigger] is_at_least(
                s[end],
                s[j],
            ) by {
                if j != best {
                    assert(is_at_least(front[best], front[j]));
                    assert(is_at_least(s[best], s[j]));
                }
            }
            assert(is_last_max(s, end));
        }
    }
}

/// Elements that can each be compared with themselves are totally ordered, where the type's
/// comparison is total on such values.
pub proof fn lemma_comparable_totally_ordered<T: PartialOrd>(s: Seq<T>)
    requires
        total_on_comparable::<T>(),
        all_comparable(s),
    ensures
        totally_ordered(s),
{
    assert forall|i: int, j: int| 0 <= i < s.len() && 0 <= j < s.len() && i != j implies #[trigger] comparable(
        s[i],
        s[j],
    ) by {
        assert(comparable(s[i], s[i]) && comparable(s[j], s[j]));
    }
    assert forall|i: int, j: int|
        0 <= i < s.len() && 0 <= j < s.len() && i != j && !is_above(
            s[i],
            s[j],
        ) implies #[trigger] is_at_least(s[j], s[i]) by {
        assert(comparable(s[i], s[j]));
    }
}

/// Whether `a` can be compared with itself.
pub fn is_comparable<T: PartialOrd>(a: &T) -> (r: bool)
    requires
        order_obeyed::<T>(),
    ensures
        r == comparable(*a, *a),
{
    a.partial_cmp(a).is_some()
}

/// Whether `a` is strictly greater than `b`.
fn exceeds<T: PartialOrd>(a: &T, b: &T) -> (r: bool)
    requires
        order_obeyed::<T>(),
    ensures
        r == is_above(*a, *b),
{
    match a.partial_cmp(b) {
        Some(Ordering::Greater) => true,
        _ => false,
    }
}

/// Index of a maximal element; among several, the last one.
pub fn np_argmax<T: PartialOrd>(slice: &[T]) -> (idx: usize)
    requires
        slice@.len() > 0,
        order_obeyed::<T>(),
        totally_ordered(slice@),
    ensures
        is_last_max(slice@, idx as int),
        idx == last_max(slice@),
{
    let mut best: usize = 0;
    let mut i: usize = 1;
    while i < slice.len()
        invariant
            1 <= i <= slice@.len(),
            best < i,
            order_obeyed::<T>(),
            totally_ordered(slice@),
            forall|j: int|
                0 <= j < i && j != best ==> #[trigger] is_at_least(slice@[best as int], slice@[j]),
            forall|j: int| best < j < i ==> #[trigger] is_above(slice@[best as int], slice@[j]),
        decreases slice@.len() - i,
    {
        if !exceeds(&slice[best], &slice[i]) {
            proof {
                assert(comparable(slice@[best as int], slice@[i as int]));
                assert(is_at_least(slice@[i as int], slice@[best as int]));
                assert forall|j: int| 0 <= j < i + 1 && j != i implies #[trigger] is_at_least(
                    slice@[i as int],
                    slice@[j],
                ) by {
                    if j != best {
                        assert(is_at_least(slice@[best as int], slice@[j]));
                    }
                }
            }
            best = i;
        }
        i += 1;
    }
    proof {
        lemma_last_max_unique(slice@, best as int, last_max(slice@));
    }
    best
}

} // verus!
