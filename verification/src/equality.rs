//! Numbers are told apart by value alone: two expressions of different
//! shape and the same value are equal.

use crate::number::Number;
use vstd::prelude::*;
use vstd::std_specs::cmp::PartialEqSpecImpl;

verus! {

impl PartialEq for Number {
    fn eq(&self, other: &Number) -> (r: bool) {
        self.value() == other.value()
    }
}

impl PartialEqSpecImpl for Number {
    open spec fn obeys_eq_spec() -> bool {
        true
    }

    open spec fn eq_spec(&self, other: &Number) -> bool {
        self@.eval() == other@.eval()
    }
}

impl Eq for Number {

}

impl PartialEq<i32> for Number {
    fn eq(&self, other: &i32) -> (r: bool) {
        self.value() == *other
    }
}

impl PartialEqSpecImpl<i32> for Number {
    open spec fn obeys_eq_spec() -> bool {
        true
    }

    open spec fn eq_spec(&self, other: &i32) -> bool {
        self@.eval() == Some(*other as int)
    }
}

} // verus!
