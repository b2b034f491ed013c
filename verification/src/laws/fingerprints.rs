//! Fingerprints tell computations apart.
use crate::scalar::Scalar;
use crate::trace::{mixed, Trace};
use vstd::prelude::*;

verus! {

/// Different operations on the same operands leave different fingerprints.
pub proof fn lemma_operations_told_apart(a: Trace, b: Trace)
    ensures
        ({
            let made = seq![a.plus(b), a.minus(b), a.times(b), a.over(b), a.power(b)];
            forall|i: int, j: int|
                0 <= i < j < made.len() ==> #[trigger] made[i] != #[trigger] made[j]
        }),
        a.root() != a.exponential(),
        a.root() != a.hyperbolic_tangent(),
        a.exponential() != a.hyperbolic_tangent(),
{
    let made = seq![a.plus(b), a.minus(b), a.times(b), a.over(b), a.power(b)];
    assert forall|i: int, j: int| 0 <= i < j < made.len() implies #[trigger] made[i]
        != #[trigger] made[j] by {
        let sum = 31 * a.mark + 1009 * b.mark;
        assert(made[i].mark == (3 + i + sum) % 0x1_0000_0000);
        assert(made[j].mark == (3 + j + sum) % 0x1_0000_0000);
    }
}

/// An operation on different operands leaves different fingerprints, whichever of the two differs.
pub proof fn lemma_operands_told_apart(tag: u32, a: u32, b: u32, c: u32)
    requires
        a != c,
    ensures
        mixed(tag, a, b) != mixed(tag, c, b),
        mixed(tag, b, a) != mixed(tag, b, c),
{
    let d = a - c;
    if mixed(tag, a, b) == mixed(tag, c, b) {
        let k = (tag + 31 * a + 1009 * b) / 0x1_0000_0000 - (tag + 31 * c + 1009 * b) / 0x1_0000_0000;
        assert(31 * d == 0x1_0000_0000 * k);
        assert(d % 0x1_0000_0000 == 0) by {
            lemma_multiple(31, 3186588639, d, k);
        }
    }
    if mixed(tag, b, a) == mixed(tag, b, c) {
        let k = (tag + 31 * b + 1009 * a) / 0x1_0000_0000 - (tag + 31 * b + 1009 * c) / 0x1_0000_0000;
        assert(1009 * d == 0x1_0000_0000 * k);
        assert(d % 0x1_0000_0000 == 0) by {
            lemma_multiple(1009, 2668924177, d, k);
        }
    }
}

/// A number whose product with `factor` is a multiple of a word's range is one itself, where `factor`
/// has an inverse there.
proof fn lemma_multiple(factor: int, inverse: int, d: int, k: int)
    requires
        factor * d == 0x1_0000_0000 * k,
        (factor * inverse) % 0x1_0000_0000 == 1,
    ensures
        d % 0x1_0000_0000 == 0,
{
    let q = (factor * inverse) / 0x1_0000_0000;
    let m = k * inverse - q * d;
    assert(d == 0x1_0000_0000 * m) by (nonlinear_arith)
        requires
            factor * d == 0x1_0000_0000 * k,
            factor * inverse == 0x1_0000_0000 * q + 1,
            m == k * inverse - q * d,
    ;
}

} // verus!
