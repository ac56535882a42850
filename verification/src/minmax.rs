//! The distance lattice: a four-variant ordered value used for relaxation
//! comparisons without magic sentinels.
//!
//! Ordering follows `Min < Value(x) < Max < NA`; `Max` stands for "unreached"
//! and `NA` renders out-of-domain queries.

use vstd::prelude::*;

verus! {

#[derive(Clone, Copy, Debug, PartialEq, Eq, Structural)]
pub enum MinMax<T> {
    Min,
    Value(T),
    Max,
    NA,
}

/// The variant's position in the lattice order.
pub open spec fn mm_rank(m: MinMax<int>) -> int {
    match m {
        MinMax::Min => 0,
        MinMax::Value(_) => 1,
        MinMax::Max => 2,
        MinMax::NA => 3,
    }
}

/// Strict order: `Min < Value(x) < Max < NA`, finite values by magnitude.
pub open spec fn mm_lt(a: MinMax<int>, b: MinMax<int>) -> bool {
    match (a, b) {
        (MinMax::Value(x), MinMax::Value(y)) => x < y,
        _ => mm_rank(a) < mm_rank(b),
    }
}

/// A machine value seen as its mathematical counterpart.
pub open spec fn mm_int(m: MinMax<i64>) -> MinMax<int> {
    match m {
        MinMax::Min => MinMax::Min,
        MinMax::Value(x) => MinMax::Value(x as int),
        MinMax::Max => MinMax::Max,
        MinMax::NA => MinMax::NA,
    }
}

/// Lattice addition: finite values add, `Max` absorbs; combinations with
/// `Min` or `NA` are undefined and mapped to `NA`.
pub open spec fn mm_plus(a: MinMax<int>, b: MinMax<int>) -> MinMax<int> {
    match (a, b) {
        (MinMax::Value(x), MinMax::Value(y)) => MinMax::Value(x + y),
        (MinMax::Value(_), MinMax::Max) => MinMax::Max,
        (MinMax::Max, MinMax::Value(_)) => MinMax::Max,
        (MinMax::Max, MinMax::Max) => MinMax::Max,
        _ => MinMax::NA,
    }
}

/// Lattice subtraction: finite values subtract, `Max` minus a finite value
/// stays `Max`; everything else is undefined and mapped to `NA`.
pub open spec fn mm_minus(a: MinMax<int>, b: MinMax<int>) -> MinMax<int> {
    match (a, b) {
        (MinMax::Value(x), MinMax::Value(y)) => MinMax::Value(x - y),
        (MinMax::Max, MinMax::Value(_)) => MinMax::Max,
        _ => MinMax::NA,
    }
}

/// The machine addition is defined: no `Min` or `NA` operand, and a finite
/// sum stays within `i64`.
pub open spec fn mm_plus_ok(a: MinMax<int>, b: MinMax<int>) -> bool {
    &&& (a is Value || a is Max)
    &&& (b is Value || b is Max)
    &&& (a is Value && b is Value ==> i64::MIN <= a->Value_0 + b->Value_0 <= i64::MAX)
}

/// The machine subtraction is defined: `Value - Value` within `i64`, or
/// `Max - Value`.
pub open spec fn mm_minus_ok(a: MinMax<int>, b: MinMax<int>) -> bool {
    &&& (a is Value || a is Max)
    &&& b is Value
    &&& (a is Value ==> i64::MIN <= a->Value_0 - b->Value_0 <= i64::MAX)
}

impl MinMax<i64> {
    /// Strict lattice comparison, `self < other`.
    pub fn lt(&self, other: &MinMax<i64>) -> (r: bool)
        ensures
            r == mm_lt(mm_int(*self), mm_int(*other)),
    {
        match (self, other) {
            (MinMax::Value(x), MinMax::Value(y)) => x < y,
            (MinMax::Min, MinMax::Min) => false,
            (MinMax::Min, _) => true,
            (_, MinMax::Min) => false,
            (MinMax::Value(_), _) => true,
            (_, MinMax::Value(_)) => false,
            (MinMax::Max, MinMax::Max) => false,
            (MinMax::Max, MinMax::NA) => true,
            (MinMax::NA, _) => false,
        }
    }

    /// Lattice addition; callers must keep finite sums inside `i64` and out
    /// of the undefined `Min`/`NA` combinations.
    pub fn plus(self, other: MinMax<i64>) -> (r: MinMax<i64>)
        requires
            mm_plus_ok(mm_int(self), mm_int(other)),
        ensures
            mm_int(r) == mm_plus(mm_int(self), mm_int(other)),
    {
        match (self, other) {
            (MinMax::Value(x), MinMax::Value(y)) => MinMax::Value(x + y),
            _ => MinMax::Max,
        }
    }

    /// Lattice subtraction; callers must keep finite differences inside
    /// `i64` and out of the undefined combinations.
    pub fn minus(self, other: MinMax<i64>) -> (r: MinMax<i64>)
        requires
            mm_minus_ok(mm_int(self), mm_int(other)),
        ensures
            mm_int(r) == mm_minus(mm_int(self), mm_int(other)),
    {
        match (self, other) {
            (MinMax::Value(x), MinMax::Value(y)) => MinMax::Value(x - y),
            _ => MinMax::Max,
        }
    }

}

} // verus!
