//! The numbers that tensors hold.
use crate::blas::gapless;
use vstd::prelude::*;

verus! {

/// A run of numbers, as contracts speak of it.
pub type Line<S> = Seq<S>;

/// A number type.
///
/// Every executable operation is a function of its operands: beside it stands the specification
/// function that gives its result. Nothing is said of rounding, and no algebraic law is assumed:
/// sums are stated in the order in which they are taken.
pub trait Scalar: Copy {
    /// The number that stands for the count `n`.
    spec fn counted(n: usize) -> Self;

    /// A number that no other is below.
    spec fn lowest() -> Self;

    /// The ratio of a circle's circumference to its diameter.
    spec fn half_turn() -> Self;

    spec fn plus(self, other: Self) -> Self;

    spec fn minus(self, other: Self) -> Self;

    spec fn times(self, other: Self) -> Self;

    spec fn over(self, other: Self) -> Self;

    spec fn power(self, exponent: Self) -> Self;

    spec fn root(self) -> Self;

    spec fn exponential(self) -> Self;

    spec fn hyperbolic_tangent(self) -> Self;

    /// Whether `self` is greater than `other`.
    spec fn exceeds(self, other: Self) -> bool;

    /// Whether `self` and `other` compare equal.
    spec fn equals(self, other: Self) -> bool;

    /// Whether `self` is an ordinary number: neither infinite nor the result of a senseless operation.
    spec fn finite(self) -> bool;

    /// What the matrix product leaves in an output entry that held `self`, for the row of the left
    /// factor and the column of the right factor that meet there. How the products are summed is
    /// the number type's choice; it depends on these three alone.
    spec fn dotted(self, row: Line<Self>, column: Line<Self>) -> Self;

    /// The four bytes that hold `self` in memory.
    spec fn encoded(self) -> [u8; 4];

    /// The number that four bytes of memory hold.
    spec fn decoded(bytes: [u8; 4]) -> Self;

    /// What was written is read back.
    proof fn lemma_decode_encode(self)
        ensures
            Self::decoded(self.encoded()) == self,
    ;

    /// `exceeds` is a strict order.
    proof fn lemma_exceeds_is_strict_order(a: Self, b: Self, c: Self)
        ensures
            !a.exceeds(a),
            a.exceeds(b) && b.exceeds(c) ==> a.exceeds(c),
    ;

    /// Sums of numbers that compare equal compare equal, unless they compare unequal to themselves.
    proof fn lemma_plus_agrees(a: Self, b: Self, c: Self)
        ensures
            (a.equals(a) ==> a.equals(b)) ==> (a.plus(c).equals(a.plus(c)) ==> a.plus(c).equals(
                b.plus(c),
            )),
    ;

    /// Matrix products of numbers that compare equal compare equal, unless they compare unequal to
    /// themselves. Where the row holds zero, any two ordinary numbers of the columns will do.
    proof fn lemma_dotted_agrees(
        start: Self,
        row: Line<Self>,
        column: Line<Self>,
        other_row: Line<Self>,
        other_column: Line<Self>,
    )
        requires
            row.len() == column.len() == other_row.len() == other_column.len(),
            forall|p: int|
                0 <= p < row.len() ==> {
                    ||| {
                        &&& row[p].equals(row[p]) ==> (#[trigger] row[p]).equals(other_row[p])
                        &&& column[p].equals(column[p]) ==> column[p].equals(other_column[p])
                    }
                    ||| {
                        &&& row[p] == Self::counted(0)
                        &&& other_row[p] == Self::counted(0)
                        &&& column[p].finite()
                        &&& other_column[p].finite()
                    }
                },
        ensures
            start.dotted(row, column).equals(start.dotted(row, column)) ==> start.dotted(
                row,
                column,
            ).equals(start.dotted(other_row, other_column)),
    ;

    /// A row lengthened by zeros, beside a column lengthened by ordinary numbers, leaves what the row
    /// and the column leave, unless that compares unequal to itself.
    proof fn lemma_dotted_lengthened(
        start: Self,
        row: Line<Self>,
        column: Line<Self>,
        more: Line<Self>,
    )
        requires
            row.len() == column.len(),
            forall|p: int| 0 <= p < more.len() ==> (#[trigger] more[p]).finite(),
        ensures
            ({
                let zeros = Seq::new(more.len(), |p: int| Self::counted(0));
                let long = start.dotted(row + zeros, column + more);
                long.equals(long) ==> long.equals(start.dotted(row, column))
            }),
    ;

    /// The order is total on numbers that compare equal to themselves, only they are ordered, and
    /// those that compare equal are ordered alike.
    proof fn lemma_order_is_total(a: Self, b: Self, c: Self)
        ensures
            a.equals(a) && b.equals(b) ==> a.exceeds(b) || b.exceeds(a) || a.equals(b),
            a.exceeds(b) ==> a.equals(a) && b.equals(b),
            a.equals(b) && b.exceeds(c) ==> a.exceeds(c),
    ;

    fn from_usize(n: usize) -> (r: Self)
        ensures
            r == Self::counted(n),
    ;

    fn neg_infinity() -> (r: Self)
        ensures
            r == Self::lowest(),
    ;

    fn pi() -> (r: Self)
        ensures
            r == Self::half_turn(),
    ;

    fn add(self, other: Self) -> (r: Self)
        ensures
            r == self.plus(other),
    ;

    fn sub(self, other: Self) -> (r: Self)
        ensures
            r == self.minus(other),
    ;

    fn mul(self, other: Self) -> (r: Self)
        ensures
            r == self.times(other),
    ;

    fn div(self, other: Self) -> (r: Self)
        ensures
            r == self.over(other),
    ;

    fn powf(self, exponent: Self) -> (r: Self)
        ensures
            r == self.power(exponent),
    ;

    fn sqrt(self) -> (r: Self)
        ensures
            r == self.root(),
    ;

    fn exp(self) -> (r: Self)
        ensures
            r == self.exponential(),
    ;

    fn tanh(self) -> (r: Self)
        ensures
            r == self.hyperbolic_tangent(),
    ;

    fn gt(self, other: Self) -> (r: bool)
        ensures
            r == self.exceeds(other),
    ;

    fn same(self, other: Self) -> (r: bool)
        ensures
            r == self.equals(other),
    ;

    fn to_bytes(self) -> (r: [u8; 4])
        ensures
            r == self.encoded(),
    ;

    fn from_bytes(bytes: [u8; 4]) -> (r: Self)
        ensures
            r == Self::decoded(bytes),
    ;

    /// Adds the product of an `m` by `k` and a `k` by `n` matrix to the `m` by `n` matrix `c`.
    ///
    /// Entry `(i, p)` of the left factor is `a[i * rsa + p * csa]`, entry `(p, j)` of the right
    /// factor is `b[p * rsb + j * csb]`, and `c` holds its rows one after the other. The factors
    /// have no gaps, and every entry that is read lies inside its slice.
    fn gemm(
        m: usize,
        k: usize,
        n: usize,
        a: &[Self],
        rsa: usize,
        csa: usize,
        b: &[Self],
        rsb: usize,
        csb: usize,
        c: &mut [Self],
    )
        requires
            m > 0,
            n > 0,
            gapless(m, k, rsa, csa),
            gapless(k, n, rsb, csb),
            k > 0 ==> (m - 1) * rsa + (k - 1) * csa < a@.len(),
            k > 0 ==> (k - 1) * rsb + (n - 1) * csb < b@.len(),
            old(c)@.len() == m * n,
        ensures
            final(c)@ == Seq::new(
                old(c)@.len(),
                |x: int|
                    old(c)@[x].dotted(
                        line(a@, (x / n as int) * rsa, csa as int, k as nat),
                        line(b@, (x % n as int) * csb, rsb as int, k as nat),
                    ),
            ),
    ;
}

/// Whether `b` compares equal to `a`, or `a` compares unequal even to itself.
pub open spec fn agrees<S: Scalar>(a: S, b: S) -> bool {
    a.equals(a) ==> a.equals(b)
}

/// Where number `p` of a line stands.
pub open spec fn spot(start: int, step: int, p: int) -> int {
    start + p * step
}

/// The `k` numbers of `s` that stand `step` apart, from `start` on.
pub open spec fn line<S>(s: Seq<S>, start: int, step: int, k: nat) -> Line<S> {
    Seq::new(k, |p: int| s[spot(start, step, p)])
}

/// The number that stands for nothing.
pub open spec fn zero<S: Scalar>() -> S {
    S::counted(0)
}

/// The number that stands for the fraction `numerator / denominator`.
pub open spec fn fraction<S: Scalar>(numerator: usize, denominator: usize) -> S {
    S::counted(numerator).over(S::counted(denominator))
}

/// Divides two counts.
pub fn ratio<S: Scalar>(numerator: usize, denominator: usize) -> (r: S)
    ensures
        r == fraction::<S>(numerator, denominator),
{
    S::from_usize(numerator).div(S::from_usize(denominator))
}

} // verus!
