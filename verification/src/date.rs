//! Approximate release dates and their total order.
//!
//! A release date may have any of its components missing. A missing component
//! sorts after every present one ("missing sorts latest"), so titles with
//! unknown dates never appear artificially early.

use vstd::prelude::*;

verus! {

/// An approximate release date: any component may be unknown.
#[derive(Clone, Copy, Debug)]
pub struct FuzzyDate {
    pub year: Option<i32>,
    pub month: Option<i32>,
    pub day: Option<i32>,
}

/// One component is strictly earlier than another: a present value is earlier
/// than a missing one, and present values compare numerically.
pub open spec fn component_lt(a: Option<i32>, b: Option<i32>) -> bool {
    match (a, b) {
        (None, None) => false,
        (None, Some(_)) => false,
        (Some(_), None) => true,
        (Some(x), Some(y)) => x < y,
    }
}

/// The total order on dates: lexicographic by year, month, day, with a missing
/// component sorting after every present one.
pub open spec fn date_le(a: FuzzyDate, b: FuzzyDate) -> bool {
    if a.year != b.year {
        component_lt(a.year, b.year)
    } else if a.month != b.month {
        component_lt(a.month, b.month)
    } else if a.day != b.day {
        component_lt(a.day, b.day)
    } else {
        true
    }
}

/// `date_le` is reflexive, antisymmetric, transitive and total.
pub proof fn lemma_date_le_total_order(a: FuzzyDate, b: FuzzyDate, c: FuzzyDate)
    ensures
        date_le(a, a),
        date_le(a, b) || date_le(b, a),
        date_le(a, b) && date_le(b, a) ==> a == b,
        date_le(a, b) && date_le(b, c) ==> date_le(a, c),
{
}

impl FuzzyDate {
    /// Decides equality of two dates.
    pub fn same(&self, other: &FuzzyDate) -> (r: bool)
        ensures
            r == (*self == *other),
    {
        component_same(&self.year, &other.year) && component_same(&self.month, &other.month)
            && component_same(&self.day, &other.day)
    }

    /// Decides the total order on dates.
    pub fn le(&self, other: &FuzzyDate) -> (r: bool)
        ensures
            r == date_le(*self, *other),
    {
        if !component_same(&self.year, &other.year) {
            component_before(&self.year, &other.year)
        } else if !component_same(&self.month, &other.month) {
            component_before(&self.month, &other.month)
        } else if !component_same(&self.day, &other.day) {
            component_before(&self.day, &other.day)
        } else {
            true
        }
    }
}

fn component_same(a: &Option<i32>, b: &Option<i32>) -> (r: bool)
    ensures
        r == (a == b),
{
    match (a, b) {
        (None, None) => true,
        (Some(x), Some(y)) => x == y,
        _ => false,
    }
}

fn component_before(a: &Option<i32>, b: &Option<i32>) -> (r: bool)
    ensures
        r == component_lt(*a, *b),
{
    match (a, b) {
        (Some(x), Some(y)) => x < y,
        (Some(_), None) => true,
        _ => false,
    }
}

} // verus!
