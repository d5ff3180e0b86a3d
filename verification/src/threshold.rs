//! Recursive threshold (dither) matrices for ordered dithering: square
//! permutation matrices of [0, n*n) for the seven supported sizes, built from
//! hand-specified 2x2 and 3x3 bases by the quadrant construction
//! `4 * sub + offset{0, 2, 3, 1}`.

use vstd::prelude::*;
use vstd::arithmetic::div_mod::{
    lemma_div_is_ordered, lemma_fundamental_div_mod, lemma_fundamental_div_mod_converse_div,
};

verus! {

/// The sizes a threshold matrix can have.
pub open spec fn supported_size(n: int) -> bool {
    n == 2 || n == 3 || n == 4 || n == 6 || n == 8 || n == 12 || n == 16
}

/// The matrix entry at row `i`, column `j` of the size-`n` threshold matrix.
pub open spec fn matrix_entry(n: int, i: int, j: int) -> int
    recommends
        supported_size(n),
        0 <= i < n,
        0 <= j < n,
    decreases n,
{
    if n == 2 {
        if i == 0 && j == 0 {
            0
        } else if i == 0 && j == 1 {
            2
        } else if i == 1 && j == 0 {
            3
        } else {
            1
        }
    } else if n == 3 {
        if i == 0 && j == 0 {
            6
        } else if i == 0 && j == 1 {
            8
        } else if i == 0 && j == 2 {
            4
        } else if i == 1 && j == 0 {
            1
        } else if i == 1 && j == 1 {
            0
        } else if i == 1 && j == 2 {
            3
        } else if i == 2 && j == 0 {
            5
        } else if i == 2 && j == 1 {
            2
        } else {
            7
        }
    } else if n >= 4 {
        let h = n / 2;
        let si = if i < h { i } else { i - h };
        let sj = if j < h { j } else { j - h };
        let off: int = if i < h && j < h {
            0
        } else if i < h {
            2
        } else if j < h {
            3
        } else {
            1
        };
        4 * matrix_entry(h, si, sj) + off
    } else {
        0
    }
}

/// Every supported size above 3 is even and halves to a supported size.
proof fn lemma_half_supported(n: int)
    requires
        supported_size(n),
        n >= 4,
    ensures
        supported_size(n / 2),
        n == 2 * (n / 2),
{
}

/// Every entry lies in [0, n*n).
pub proof fn lemma_matrix_entry_range(n: int, i: int, j: int)
    requires
        supported_size(n),
        0 <= i < n,
        0 <= j < n,
    ensures
        0 <= matrix_entry(n, i, j) < n * n,
    decreases n,
{
    if n == 2 {
        assert(0 <= matrix_entry(2, i, j) < 4);
    } else if n == 3 {
        assert(0 <= matrix_entry(3, i, j) < 9);
    } else {
        let h = n / 2;
        lemma_half_supported(n);
        let si = if i < h { i } else { i - h };
        let sj = if j < h { j } else { j - h };
        lemma_matrix_entry_range(h, si, sj);
        assert(n * n == 4 * (h * h)) by (nonlinear_arith)
            requires
                n == 2 * h,
        ;
        assert(matrix_entry(n, i, j) == 4 * matrix_entry(h, si, sj) + (
            if i < h && j < h { 0int } else if i < h { 2int } else if j < h { 3int } else { 1int }
        ));
    }
}

/// Distinct positions hold distinct entries.
pub proof fn lemma_matrix_entry_injective(n: int, i1: int, j1: int, i2: int, j2: int)
    requires
        supported_size(n),
        0 <= i1 < n,
        0 <= j1 < n,
        0 <= i2 < n,
        0 <= j2 < n,
        matrix_entry(n, i1, j1) == matrix_entry(n, i2, j2),
    ensures
        i1 == i2 && j1 == j2,
    decreases n,
{
    if n >= 4 {
        let h = n / 2;
        lemma_half_supported(n);
        let si1 = if i1 < h { i1 } else { i1 - h };
        let sj1 = if j1 < h { j1 } else { j1 - h };
        let si2 = if i2 < h { i2 } else { i2 - h };
        let sj2 = if j2 < h { j2 } else { j2 - h };
        lemma_matrix_entry_range(h, si1, sj1);
        lemma_matrix_entry_range(h, si2, sj2);
        lemma_matrix_entry_injective(h, si1, sj1, si2, sj2);
    }
}

/// Some position holds the value `v`.
pub open spec fn appears(n: int, v: int) -> bool {
    exists|i: int, j: int|
        0 <= i < n && 0 <= j < n && #[trigger] matrix_entry(n, i, j) == v
}

/// Every value in [0, n*n) appears; with injectivity, each appears exactly
/// once.
pub proof fn lemma_matrix_entry_surjective(n: int, v: int)
    requires
        supported_size(n),
        0 <= v < n * n,
    ensures
        appears(n, v),
    decreases n,
{
    if n == 2 {
        if v == 0 {
            assert(matrix_entry(2, 0, 0) == 0);
        } else if v == 1 {
            assert(matrix_entry(2, 1, 1) == 1);
        } else if v == 2 {
            assert(matrix_entry(2, 0, 1) == 2);
        } else {
            assert(matrix_entry(2, 1, 0) == 3);
        }
    } else if n == 3 {
        if v == 0 {
            assert(matrix_entry(3, 1, 1) == 0);
        } else if v == 1 {
            assert(matrix_entry(3, 1, 0) == 1);
        } else if v == 2 {
            assert(matrix_entry(3, 2, 1) == 2);
        } else if v == 3 {
            assert(matrix_entry(3, 1, 2) == 3);
        } else if v == 4 {
            assert(matrix_entry(3, 0, 2) == 4);
        } else if v == 5 {
            assert(matrix_entry(3, 2, 0) == 5);
        } else if v == 6 {
            assert(matrix_entry(3, 0, 0) == 6);
        } else if v == 7 {
            assert(matrix_entry(3, 2, 2) == 7);
        } else {
            assert(matrix_entry(3, 0, 1) == 8);
        }
    } else {
        let h = n / 2;
        lemma_half_supported(n);
        let q = v / 4;
        let o = v % 4;
        lemma_fundamental_div_mod(v, 4);
        assert(q < h * h) by {
            assert(n * n == 4 * (h * h)) by (nonlinear_arith)
                requires
                    n == 2 * h,
            ;
            lemma_div_is_ordered(v, 4 * (h * h) - 1, 4);
            assert((4 * (h * h) - 1) / 4 == h * h - 1) by {
                lemma_fundamental_div_mod_converse_div(4 * (h * h) - 1, 4, h * h - 1, 3);
            }
        }
        lemma_matrix_entry_surjective(h, q);
        let (si, sj): (int, int) = choose|si: int, sj: int|
            0 <= si < h && 0 <= sj < h && #[trigger] matrix_entry(h, si, sj) == q;
        if o == 0 {
            assert(matrix_entry(n, si, sj) == v);
        } else if o == 2 {
            assert(matrix_entry(n, si, sj + h) == v);
        } else if o == 3 {
            assert(matrix_entry(n, si + h, sj) == v);
        } else {
            assert(matrix_entry(n, si + h, sj + h) == v);
        }
    }
}

/// The smallest supported size `n` with `n * n * (k - 1) >= 256`, or 16 when
/// even 16 falls short.
pub open spec fn spec_matrix_size(k: int) -> int {
    if 4 * (k - 1) >= 256 {
        2
    } else if 9 * (k - 1) >= 256 {
        3
    } else if 16 * (k - 1) >= 256 {
        4
    } else if 36 * (k - 1) >= 256 {
        6
    } else if 64 * (k - 1) >= 256 {
        8
    } else if 144 * (k - 1) >= 256 {
        12
    } else {
        16
    }
}

/// A square dither matrix holding each value in [0, size*size) exactly once.
pub struct ThresholdMatrix {
    pub size: u8,
    pub rows: Vec<Vec<u32>>,
}

impl ThresholdMatrix {
    /// The matrix matches the recursive construction for its size.
    pub open spec fn wf(&self) -> bool {
        &&& supported_size(self.size as int)
        &&& self.rows@.len() == self.size
        &&& forall|i: int| 0 <= i < self.size ==> #[trigger] self.rows@[i]@.len() == self.size
        &&& forall|i: int, j: int|
            0 <= i < self.size && 0 <= j < self.size
                ==> #[trigger] self.rows@[i]@[j] == matrix_entry(self.size as int, i, j) as u32
    }

    /// The matrix size used for a `k`-level channel: the smallest supported
    /// size whose matrix can address all `k - 1` rounding gaps, 16 at most.
    pub fn find_matrix_size(k: u8) -> (n: u8)
        requires
            k >= 2,
        ensures
            n as int == spec_matrix_size(k as int),
            supported_size(n as int),
    {
        let k1: u32 = k as u32 - 1;
        if 4 * k1 >= 256 {
            2
        } else if 9 * k1 >= 256 {
            3
        } else if 16 * k1 >= 256 {
            4
        } else if 36 * k1 >= 256 {
            6
        } else if 64 * k1 >= 256 {
            8
        } else if 144 * k1 >= 256 {
            12
        } else {
            16
        }
    }

    /// Builds the size-`n` threshold matrix.
    pub fn generate(n: u8) -> (r: ThresholdMatrix)
        requires
            supported_size(n as int),
        ensures
            r.wf(),
            r.size == n,
        decreases n,
    {
        if n == 2 {
            let rows = vec![vec![0u32, 2u32], vec![3u32, 1u32]];
            let m = ThresholdMatrix { size: 2, rows };
            proof {
                assert forall|i: int, j: int| 0 <= i < 2 && 0 <= j < 2
                    implies #[trigger] m.rows@[i]@[j] == matrix_entry(2, i, j) as u32 by {
                }
                assert forall|i: int| 0 <= i < 2
                    implies #[trigger] m.rows@[i]@.len() == 2 by {
                }
            }
            m
        } else if n == 3 {
            let rows = vec![
                vec![6u32, 8u32, 4u32],
                vec![1u32, 0u32, 3u32],
                vec![5u32, 2u32, 7u32],
            ];
            let m = ThresholdMatrix { size: 3, rows };
            proof {
                assert forall|i: int, j: int| 0 <= i < 3 && 0 <= j < 3
                    implies #[trigger] m.rows@[i]@[j] == matrix_entry(3, i, j) as u32 by {
                }
                assert forall|i: int| 0 <= i < 3
                    implies #[trigger] m.rows@[i]@.len() == 3 by {
                }
            }
            m
        } else {
            proof {
                lemma_half_supported(n as int);
            }
            let sub = Self::generate(n / 2);
            let nn = n as usize;
            let h = nn / 2;
            let mut rows: Vec<Vec<u32>> = Vec::new();
            let mut i: usize = 0;
            while i < nn
                invariant
                    supported_size(n as int),
                    n >= 4,
                    nn == n,
                    h == n as int / 2,
                    n == 2 * h,
                    sub.wf(),
                    sub.size == h,
                    0 <= i <= nn,
                    rows@.len() == i,
                    forall|a: int| 0 <= a < i ==> #[trigger] rows@[a]@.len() == nn,
                    forall|a: int, b: int|
                        0 <= a < i && 0 <= b < nn
                            ==> #[trigger] rows@[a]@[b] == matrix_entry(n as int, a, b) as u32,
                decreases nn - i,
            {
                let mut row: Vec<u32> = Vec::new();
                let mut j: usize = 0;
                while j < nn
                    invariant
                        supported_size(n as int),
                        n >= 4,
                        nn == n,
                        h == n as int / 2,
                        n == 2 * h,
                        sub.wf(),
                        sub.size == h,
                        0 <= i < nn,
                        0 <= j <= nn,
                        row@.len() == j,
                        forall|b: int|
                            0 <= b < j
                                ==> #[trigger] row@[b] == matrix_entry(n as int, i as int, b) as u32,
                    decreases nn - j,
                {
                    let si = if i < h { i } else { i - h };
                    let sj = if j < h { j } else { j - h };
                    let base = sub.rows[si][sj];
                    proof {
                        lemma_matrix_entry_range(h as int, si as int, sj as int);
                        assert((h as int) * (h as int) <= 64) by (nonlinear_arith)
                            requires
                                0 <= h <= 8,
                        ;
                    }
                    let off: u32 = if i < h && j < h {
                        0
                    } else if i < h {
                        2
                    } else if j < h {
                        3
                    } else {
                        1
                    };
                    row.push(4 * base + off);
                    j = j + 1;
                }
                rows.push(row);
                i = i + 1;
            }
            ThresholdMatrix { size: n, rows }
        }
    }
}

} // verus!
