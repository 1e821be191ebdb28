//! Predicates on how a generic parameter's `Clone` and `PartialEq` behave.
//!
//! The contracts of generic functions state what holds for every parameter type,
//! and state more under these predicates: that a clone is the value itself, and
//! that `==` is equality. Integers, `bool` and `char` meet both; `String` meets
//! the first, and what its `==` returns is given through `eq_gives`.

use vstd::prelude::*;
use vstd::pervasive::strictly_cloned;
use vstd::std_specs::cmp::PartialEqSpec;
use vstd::laws_cmp::obeys_cmp;

verus! {

/// Every clone of a value of `T` is that value.
pub open spec fn clones_exactly<T: Clone>() -> bool {
    forall|a: T, b: T| #[trigger] strictly_cloned(a, b) ==> a == b
}

/// `==` on `T` is specified, and is equality.
pub open spec fn eq_is_equality<T: PartialEq>() -> bool {
    &&& T::obeys_eq_spec()
    &&& forall|x: T, y: T| #[trigger] x.eq_spec(&y) <==> (x == y)
}

/// One call of `x == y` may return `e`: the contract of `T`'s `eq` admits it.
/// For a type whose `eq` has a contract that fixes the result, such as
/// `String` or the integers, `e` is that result.
pub open spec fn eq_gives<T: PartialEq>(x: T, y: T, e: bool) -> bool {
    call_ensures(<T as PartialEq>::eq, (&x, &y), e)
}

/// `T`'s `Ord` is specified and is a lawful total order, as for the integer types.
pub open spec fn lawful_order<T: Ord>() -> bool {
    obeys_cmp::<T>()
}

} // verus!
