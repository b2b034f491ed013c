//! Numbers that remember how they were made.
use crate::scalar::{line, spot, Line, Scalar};
use crate::shape::lemma_place_2;
use vstd::prelude::*;

verus! {

/// A fingerprint of a computation.
///
/// Every operation folds the fingerprints of its operands into a new one. A network that runs on
/// fingerprints shows whether two runs do the same operations in the same order, without doing any
/// arithmetic on numbers.
#[derive(Clone, Copy, Debug, PartialEq, Eq, Structural)]
pub struct Trace {
    pub mark: u32,
}

/// The fingerprint of operation `tag` on operands `a` and `b`.
pub open spec fn mixed(tag: u32, a: u32, b: u32) -> u32 {
    ((tag + 31 * a + 1009 * b) % 0x1_0000_0000) as u32
}

fn mix(tag: u32, a: u32, b: u32) -> (r: Trace)
    ensures
        r.mark == mixed(tag, a, b),
{
    let sum: u64 = tag as u64 + 31 * (a as u64) + 1009 * (b as u64);
    Trace { mark: (sum % 0x1_0000_0000) as u32 }
}

/// The fingerprint of adding the first `upto` products of a row and a column to `start`. Where the
/// row holds zero, nothing is added.
pub open spec fn traced_dot(
    start: Trace,
    row: Line<Trace>,
    column: Line<Trace>,
    upto: nat,
) -> Trace
    decreases upto,
{
    if upto == 0 {
        start
    } else {
        let sum = traced_dot(start, row, column, (upto - 1) as nat);
        if row[upto - 1] == Trace::counted(0) {
            sum
        } else {
            sum.plus(row[upto - 1].times(column[upto - 1]))
        }
    }
}

/// What stands beside zero leaves no trace.
proof fn lemma_traced_dot_agrees(
    start: Trace,
    row: Line<Trace>,
    column: Line<Trace>,
    other: Line<Trace>,
    upto: nat,
)
    requires
        upto <= row.len(),
        forall|p: int|
            0 <= p < row.len() ==> #[trigger] row[p] == Trace::counted(0) || column[p] == other[p],
    ensures
        traced_dot(start, row, column, upto) == traced_dot(start, row, other, upto),
    decreases upto,
{
    if upto > 0 {
        lemma_traced_dot_agrees(start, row, column, other, (upto - 1) as nat);
        assert(row[upto - 1] == Trace::counted(0) || column[upto - 1] == other[upto - 1]);
    }
}

/// Zeros at the end of a row leave no trace.
proof fn lemma_traced_dot_lengthened(
    start: Trace,
    row: Line<Trace>,
    column: Line<Trace>,
    zeros: Line<Trace>,
    more: Line<Trace>,
    upto: nat,
)
    requires
        row.len() == column.len(),
        zeros.len() == more.len(),
        upto <= row.len() + zeros.len(),
        forall|p: int| 0 <= p < zeros.len() ==> #[trigger] zeros[p] == Trace::counted(0),
    ensures
        traced_dot(start, row + zeros, column + more, upto) == traced_dot(
            start,
            row,
            column,
            if upto <= row.len() {
                upto
            } else {
                row.len()
            },
        ),
    decreases upto,
{
    if upto > 0 {
        lemma_traced_dot_lengthened(start, row, column, zeros, more, (upto - 1) as nat);
        if upto > row.len() {
            assert((row + zeros)[upto - 1] == zeros[upto - 1 - row.len()]);
        } else {
            assert((row + zeros)[upto - 1] == row[upto - 1]);
            assert((column + more)[upto - 1] == column[upto - 1]);
        }
    }
}

/// An entry of a strided matrix lies no further than the last one.
proof fn lemma_strided(i: int, p: int, m: int, k: int, rs: int, cs: int, size: int)
    requires
        0 <= i < m,
        0 <= p < k,
        0 <= rs,
        0 <= cs,
        (m - 1) * rs + (k - 1) * cs < size,
    ensures
        0 <= i * rs,
        0 <= p * cs,
        i * rs + p * cs < size,
{
    assert(0 <= i * rs <= (m - 1) * rs && 0 <= p * cs <= (k - 1) * cs) by (nonlinear_arith)
        requires
            0 <= i < m,
            0 <= p < k,
            0 <= rs,
            0 <= cs,
    ;
}

impl Scalar for Trace {
    open spec fn counted(n: usize) -> Self {
        Trace {
            mark: mixed(
                1,
                (n as int % 0x1_0000_0000) as u32,
                (n as int / 0x1_0000_0000) as u32,
            ),
        }
    }

    open spec fn lowest() -> Self {
        Trace { mark: 0 }
    }

    open spec fn half_turn() -> Self {
        Trace { mark: mixed(2, 0, 0) }
    }

    open spec fn plus(self, other: Self) -> Self {
        Trace { mark: mixed(3, self.mark, other.mark) }
    }

    open spec fn minus(self, other: Self) -> Self {
        Trace { mark: mixed(4, self.mark, other.mark) }
    }

    open spec fn times(self, other: Self) -> Self {
        Trace { mark: mixed(5, self.mark, other.mark) }
    }

    open spec fn over(self, other: Self) -> Self {
        Trace { mark: mixed(6, self.mark, other.mark) }
    }

    open spec fn power(self, exponent: Self) -> Self {
        Trace { mark: mixed(7, self.mark, exponent.mark) }
    }

    open spec fn root(self) -> Self {
        Trace { mark: mixed(8, self.mark, 0) }
    }

    open spec fn exponential(self) -> Self {
        Trace { mark: mixed(9, self.mark, 0) }
    }

    open spec fn hyperbolic_tangent(self) -> Self {
        Trace { mark: mixed(10, self.mark, 0) }
    }

    open spec fn exceeds(self, other: Self) -> bool {
        self.mark > other.mark
    }

    open spec fn equals(self, other: Self) -> bool {
        self.mark == other.mark
    }

    open spec fn finite(self) -> bool {
        true
    }

    open spec fn dotted(self, row: Line<Self>, column: Line<Self>) -> Self {
        traced_dot(self, row, column, row.len())
    }

    open spec fn encoded(self) -> [u8; 4] {
        [
            (self.mark % 256) as u8,
            (self.mark / 256 % 256) as u8,
            (self.mark / 65536 % 256) as u8,
            (self.mark / 16777216) as u8,
        ]
    }

    open spec fn decoded(bytes: [u8; 4]) -> Self {
        Trace {
            mark: (bytes[0] + 256 * bytes[1] + 65536 * bytes[2] + 16777216 * bytes[3]) as u32,
        }
    }

    proof fn lemma_decode_encode(self) {
        let bytes = self.encoded();
        assert(bytes[0] == (self.mark % 256) as u8);
    }

    proof fn lemma_exceeds_is_strict_order(a: Self, b: Self, c: Self) {
    }

    proof fn lemma_plus_agrees(a: Self, b: Self, c: Self) {
    }

    proof fn lemma_dotted_agrees(
        start: Self,
        row: Line<Self>,
        column: Line<Self>,
        other_row: Line<Self>,
        other_column: Line<Self>,
    ) {
        assert forall|p: int| 0 <= p < row.len() implies #[trigger] row[p] == other_row[p] && (row[p]
            == Trace::counted(0) || column[p] == other_column[p]) by {
            assert(row[p].equals(row[p]));
        }
        assert(row =~= other_row);
        lemma_traced_dot_agrees(start, row, column, other_column, row.len());
    }

    proof fn lemma_dotted_lengthened(
        start: Self,
        row: Line<Self>,
        column: Line<Self>,
        more: Line<Self>,
    ) {
        let zeros = Seq::new(more.len(), |p: int| Trace::counted(0));
        lemma_traced_dot_lengthened(start, row, column, zeros, more, row.len() + more.len());
        assert((row + zeros).len() == row.len() + more.len());
    }

    proof fn lemma_order_is_total(a: Self, b: Self, c: Self) {
    }

    fn from_usize(n: usize) -> (r: Self) {
        let wide: u64 = n as u64;
        mix(1, (wide % 0x1_0000_0000) as u32, (wide / 0x1_0000_0000) as u32)
    }

    fn neg_infinity() -> (r: Self) {
        Trace { mark: 0 }
    }

    fn pi() -> (r: Self) {
        mix(2, 0, 0)
    }

    fn add(self, other: Self) -> (r: Self) {
        mix(3, self.mark, other.mark)
    }

    fn sub(self, other: Self) -> (r: Self) {
        mix(4, self.mark, other.mark)
    }

    fn mul(self, other: Self) -> (r: Self) {
        mix(5, self.mark, other.mark)
    }

    fn div(self, other: Self) -> (r: Self) {
        mix(6, self.mark, other.mark)
    }

    fn powf(self, exponent: Self) -> (r: Self) {
        mix(7, self.mark, exponent.mark)
    }

    fn sqrt(self) -> (r: Self) {
        mix(8, self.mark, 0)
    }

    fn exp(self) -> (r: Self) {
        mix(9, self.mark, 0)
    }

    fn tanh(self) -> (r: Self) {
        mix(10, self.mark, 0)
    }

    fn gt(self, other: Self) -> (r: bool) {
        self.mark > other.mark
    }

    fn same(self, other: Self) -> (r: bool) {
        self.mark == other.mark
    }

    fn to_bytes(self) -> (r: [u8; 4]) {
        [
            (self.mark % 256) as u8,
            (self.mark / 256 % 256) as u8,
            (self.mark / 65536 % 256) as u8,
            (self.mark / 16777216) as u8,
        ]
    }

    fn from_bytes(bytes: [u8; 4]) -> (r: Self) {
        Trace {
            mark: bytes[0] as u32 + 256 * (bytes[1] as u32) + 65536 * (bytes[2] as u32) + 16777216
                * (bytes[3] as u32),
        }
    }

    fn gemm(
        m: usize,
        k: usize,
        n: usize,
        a: &[Self],
        rsa: usize,
        csa: usize,
        b: &[Self],
        rsb: usize,
        csb: usize,
        c: &mut [Self],
    ) {
        let ghost before = c@;
        let ghost whole = Seq::new(
            before.len(),
            |x: int|
                before[x].dotted(
                    line(a@, (x / n as int) * rsa, csa as int, k as nat),
                    line(b@, (x % n as int) * csb, rsb as int, k as nat),
                ),
        );
        let mut i: usize = 0;
        while i < m
            invariant
                n > 0,
                i <= m,
                k > 0 ==> (m - 1) * rsa + (k - 1) * csa < a@.len(),
                k > 0 ==> (k - 1) * rsb + (n - 1) * csb < b@.len(),
                before.len() == m * n,
                c@.len() == before.len(),
                whole == Seq::new(
                    before.len(),
                    |x: int|
                        before[x].dotted(
                            line(a@, (x / n as int) * rsa, csa as int, k as nat),
                            line(b@, (x % n as int) * csb, rsb as int, k as nat),
                        ),
                ),
                forall|x: int|
                    0 <= x < c@.len() ==> #[trigger] c@[x] == if x < i * n {
                        whole[x]
                    } else {
                        before[x]
                    },
            decreases m - i,
        {
            let mut j: usize = 0;
            while j < n
                invariant
                    n > 0,
                    i < m,
                    j <= n,
                    k > 0 ==> (m - 1) * rsa + (k - 1) * csa < a@.len(),
                    k > 0 ==> (k - 1) * rsb + (n - 1) * csb < b@.len(),
                    before.len() == m * n,
                    c@.len() == before.len(),
                    whole == Seq::new(
                        before.len(),
                        |x: int|
                            before[x].dotted(
                                line(a@, (x / n as int) * rsa, csa as int, k as nat),
                                line(b@, (x % n as int) * csb, rsb as int, k as nat),
                            ),
                    ),
                    forall|x: int|
                        0 <= x < c@.len() ==> #[trigger] c@[x] == if x < i * n + j {
                            whole[x]
                        } else {
                            before[x]
                        },
                decreases n - j,
            {
                proof {
                    lemma_place_2(i as int, j as int, m as int, n as int);
                    assert(0 <= i * n) by (nonlinear_arith);
                    assert(c.len() == c@.len());
                }
                let at: usize = i * n + j;
                let ghost row = line(a@, i * rsa, csa as int, k as nat);
                let ghost column = line(b@, j * csb, rsb as int, k as nat);
                let start = c[at];
                let zero = Trace::from_usize(0);
                let mut sum = start;
                let mut p: usize = 0;
                while p < k
                    invariant
                        i < m,
                        j < n,
                        p <= k,
                        k > 0 ==> (m - 1) * rsa + (k - 1) * csa < a@.len(),
                        k > 0 ==> (k - 1) * rsb + (n - 1) * csb < b@.len(),
                        row == line(a@, i * rsa, csa as int, k as nat),
                        column == line(b@, j * csb, rsb as int, k as nat),
                        zero == Trace::counted(0),
                        sum == traced_dot(start, row, column, p as nat),
                    decreases k - p,
                {
                    proof {
                        lemma_strided(
                            i as int,
                            p as int,
                            m as int,
                            k as int,
                            rsa as int,
                            csa as int,
                            a@.len() as int,
                        );
                        lemma_strided(
                            p as int,
                            j as int,
                            k as int,
                            n as int,
                            rsb as int,
                            csb as int,
                            b@.len() as int,
                        );
                        assert(a.len() == a@.len() && b.len() == b@.len());
                        assert(row[p as int] == a@[spot(i * rsa, csa as int, p as int)]);
                        assert(column[p as int] == b@[spot(j * csb, rsb as int, p as int)]);
                    }
                    let weight = a[i * rsa + p * csa];
                    if !weight.same(zero) {
                        sum = sum.add(weight.mul(b[p * rsb + j * csb]));
                    }
                    p += 1;
                }
                c[at] = sum;
                assert(sum == whole[at as int]);
                j += 1;
            }
            proof {
                assert(i * n + n == (i + 1) * n) by (nonlinear_arith);
            }
            i += 1;
        }
        assert(c@ =~= whole);
    }
}

} // verus!
