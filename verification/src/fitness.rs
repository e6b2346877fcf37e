//! The error between two pixel buffers, kept exactly.

use vstd::prelude::*;

verus! {

/// Largest buffer length whose summed squared error is sure to fit 64 bits.
pub const MAX_BUFFER_LEN: u64 = 0x1_0000_0000_0000;

/// Squared difference of two intensities.
pub open spec fn squared_error(a: u8, b: u8) -> nat {
    ((a as int - b as int) * (a as int - b as int)) as nat
}

/// Sum over all positions of the squared difference of the two buffers.
pub open spec fn sum_squared_error(a: Seq<u8>, b: Seq<u8>) -> nat
    decreases a.len(),
{
    if a.len() == 0 {
        0
    } else {
        sum_squared_error(a.drop_last(), b.drop_last()) + squared_error(a.last(), b.last())
    }
}

/// A mean squared error: the ratio `sum / count` of a summed squared error
/// to the number of pixels it was summed over. Lower is better.
#[derive(Clone, Copy, Debug, PartialEq, Eq, Structural)]
pub struct Mse {
    pub sum: u64,
    pub count: usize,
}

impl Mse {
    /// `self` is a strictly smaller ratio than `other`.
    pub open spec fn less_than(self, other: Mse) -> bool {
        self.sum * other.count < other.sum * self.count
    }

    /// Whether `self` is a strictly smaller error than `other`.
    pub fn lt(&self, other: &Mse) -> (r: bool)
        ensures
            r == self.less_than(*other),
    {
        assert(self.sum as int * other.count as int <= u128::MAX) by (nonlinear_arith)
            requires
                0 <= self.sum <= u64::MAX,
                0 <= other.count <= u64::MAX,
        ;
        assert(other.sum as int * self.count as int <= u128::MAX) by (nonlinear_arith)
            requires
                0 <= other.sum <= u64::MAX,
                0 <= self.count <= u64::MAX,
        ;
        (self.sum as u128) * (other.count as u128) < (other.sum as u128) * (self.count as u128)
    }
}

/// The error of a buffer against itself is zero.
pub proof fn lemma_error_of_same_is_zero(a: Seq<u8>)
    ensures
        sum_squared_error(a, a) == 0,
    decreases a.len(),
{
    if a.len() > 0 {
        lemma_error_of_same_is_zero(a.drop_last());
    }
}

/// The error does not depend on the order of the two buffers.
pub proof fn lemma_error_is_symmetric(a: Seq<u8>, b: Seq<u8>)
    requires
        a.len() == b.len(),
    ensures
        sum_squared_error(a, b) == sum_squared_error(b, a),
    decreases a.len(),
{
    if a.len() > 0 {
        lemma_error_is_symmetric(a.drop_last(), b.drop_last());
        let x = a.last() as int;
        let y = b.last() as int;
        assert((x - y) * (x - y) == (y - x) * (y - x)) by (nonlinear_arith);
    }
}

/// The error of a buffer against itself is zero, the error of two buffers
/// does not depend on their order, and no error is below zero.
pub proof fn lemma_error_laws(a: Seq<u8>, b: Seq<u8>)
    requires
        a.len() == b.len(),
    ensures
        sum_squared_error(a, a) == 0,
        sum_squared_error(a, b) == sum_squared_error(b, a),
        sum_squared_error(a, b) >= 0,
{
    lemma_error_of_same_is_zero(a);
    lemma_error_is_symmetric(a, b);
}

/// Each pixel adds at most `255 * 255` to the error.
pub proof fn lemma_error_bound(a: Seq<u8>, b: Seq<u8>)
    requires
        a.len() == b.len(),
    ensures
        sum_squared_error(a, b) <= 65025 * a.len(),
    decreases a.len(),
{
    if a.len() > 0 {
        lemma_error_bound(a.drop_last(), b.drop_last());
        let x = a.last() as int;
        let y = b.last() as int;
        assert(0 <= (x - y) * (x - y) <= 65025) by (nonlinear_arith)
            requires
                0 <= x <= 255,
                0 <= y <= 255,
        ;
    }
}

/// The error is zero only between identical buffers.
pub proof fn lemma_zero_error_means_same(a: Seq<u8>, b: Seq<u8>)
    requires
        a.len() == b.len(),
        sum_squared_error(a, b) == 0,
    ensures
        a == b,
    decreases a.len(),
{
    if a.len() > 0 {
        let x = a.last() as int;
        let y = b.last() as int;
        assert((x - y) * (x - y) >= 0) by (nonlinear_arith);
        assert(x == y) by (nonlinear_arith)
            requires
                (x - y) * (x - y) == 0,
        ;
        lemma_zero_error_means_same(a.drop_last(), b.drop_last());
        assert(a =~= a.drop_last().push(a.last()));
        assert(b =~= b.drop_last().push(b.last()));
    } else {
        assert(a =~= b);
    }
}

} // verus!
