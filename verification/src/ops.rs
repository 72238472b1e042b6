//! Comparison operators for decimals, backed by the verified comparator.

use vstd::prelude::*;
use core::cmp::Ordering;
use crate::decimal::Decimal;
use crate::decimal::decimal_cmp;

verus! {

impl vstd::std_specs::cmp::PartialEqSpecImpl for Decimal {
    open spec fn obeys_eq_spec() -> bool {
        true
    }

    open spec fn eq_spec(&self, other: &Self) -> bool {
        decimal_cmp(*self, *other) is Equal
    }
}

/// Equality of decimals is equality of mathematical values (NaN equals
/// NaN), so a differing display scale never breaks equality.
impl PartialEq for Decimal {
    fn eq(&self, other: &Self) -> (r: bool) {
        matches!(self.cmp_common(other), Ordering::Equal)
    }
}

impl Eq for Decimal {}

impl vstd::std_specs::cmp::PartialOrdSpecImpl for Decimal {
    open spec fn obeys_partial_cmp_spec() -> bool {
        true
    }

    open spec fn partial_cmp_spec(&self, other: &Self) -> Option<Ordering> {
        Some(decimal_cmp(*self, *other))
    }
}

/// Ordering of decimals follows their mathematical values; NaN is greater
/// than every non-NaN value.
impl PartialOrd for Decimal {
    fn partial_cmp(&self, other: &Self) -> (r: Option<Ordering>) {
        Some(self.cmp_common(other))
    }
}

} // verus!
