//! Dot products over integer vectors, the similarity metric of the index.

use vstd::prelude::*;

verus! {

/// The error returned when both input sizes are not equal.
#[derive(Clone, Copy, Debug, PartialEq, Eq, Structural)]
pub struct SizeMismatch;

/// The sum of the pairwise products of the first `n` components of `a` and `b`.
pub open spec fn dot_prefix(a: Seq<i32>, b: Seq<i32>, n: int) -> int
    decreases n,
{
    if n <= 0 {
        0
    } else {
        dot_prefix(a, b, n - 1) + a[n - 1] * b[n - 1]
    }
}

/// The mathematical dot product of two equally long integer sequences.
pub open spec fn dot_seq(a: Seq<i32>, b: Seq<i32>) -> int {
    dot_prefix(a, b, a.len() as int)
}

/// Every pairwise product of two 32-bit components stays within 2^62,
/// so a prefix sum of `n` of them stays within `n * 2^62`.
pub proof fn lemma_dot_prefix_bound(a: Seq<i32>, b: Seq<i32>, n: int)
    requires
        0 <= n <= a.len(),
        n <= b.len(),
    ensures
        -n * 0x4000000000000000 <= dot_prefix(a, b, n) <= n * 0x4000000000000000,
    decreases n,
{
    if n > 0 {
        lemma_dot_prefix_bound(a, b, n - 1);
        let x = a[n - 1];
        let y = b[n - 1];
        assert(-0x4000000000000000 <= x * y <= 0x4000000000000000) by (nonlinear_arith)
            requires
                -0x80000000 <= x <= 0x7fffffff,
                -0x80000000 <= y <= 0x7fffffff,
        ;
    }
}

/// The dot product of two equally long sequences of 32-bit components
/// always fits in a 128-bit signed integer.
pub proof fn lemma_dot_seq_bound(a: Seq<i32>, b: Seq<i32>)
    requires
        a.len() == b.len(),
    ensures
        -(a.len() * 0x4000000000000000) <= dot_seq(a, b) <= a.len() * 0x4000000000000000,
{
    lemma_dot_prefix_bound(a, b, a.len() as int);
}

impl SizeMismatch {
    /// The message this error carries.
    pub fn message(&self) -> (s: String)
        ensures
            s@ == "Input Vecs were not the same size."@,
    {
        "Input Vecs were not the same size.".to_owned()
    }
}

/// A trait for any type that can have a dot product calculated from itself
/// and another of Self.
pub trait Dot {
    /// Whether the product of `self` and `other` is defined.
    spec fn dot_ok(&self, other: &Self) -> bool;

    /// The mathematical value of the product of `self` and `other`.
    spec fn dot_value(&self, other: &Self) -> int;

    /// Returns the dot product of self and other, or `SizeMismatch` exactly
    /// when the product is not defined.
    fn dot(&self, other: &Self) -> (r: Result<i128, SizeMismatch>)
        ensures
            r is Ok <==> self.dot_ok(other),
            r is Ok ==> r->Ok_0 == self.dot_value(other),
    ;
}

/// An implementation of Dot for Vec.
///
/// Gives the dot product of two vectors, and fails with `SizeMismatch`
/// exactly when the input vectors differ in length.
impl Dot for Vec<i32> {
    open spec fn dot_ok(&self, other: &Self) -> bool {
        self@.len() == other@.len()
    }

    open spec fn dot_value(&self, other: &Self) -> int {
        dot_seq(self@, other@)
    }

    fn dot(&self, other: &Self) -> (r: Result<i128, SizeMismatch>) {
        let len = self.len();

        if len != other.len() {
            return Err(SizeMismatch);
        }

        let mut output: i128 = 0;
        let mut i: usize = 0;

        while i < len
            invariant
                len == self@.len() == other@.len(),
                0 <= i <= len,
                output == dot_prefix(self@, other@, i as int),
                -(i as int) * 0x4000000000000000 <= output <= (i as int) * 0x4000000000000000,
            decreases len - i,
        {
            let x = self[i];
            let y = other[i];
            proof {
                assert(-0x4000000000000000 <= (x as int) * (y as int) <= 0x4000000000000000)
                    by (nonlinear_arith)
                    requires
                        -0x80000000 <= x <= 0x7fffffff,
                        -0x80000000 <= y <= 0x7fffffff,
                ;
            }
            let prod: i64 = (x as i64) * (y as i64);
            output = output + (prod as i128);
            i = i + 1;
        }

        proof {
            assert(self@.len() == other@.len());
            assert(self.dot_ok(other));
            assert(output == dot_seq(self@, other@));
            assert(output == self.dot_value(other));
        }
        Ok(output)
    }
}

} // verus!
