//! Compressed sparse row storage of a pruned weight matrix. Values travel
//! as `f64` bit patterns: the conversion keeps every nonzero entry with its
//! row and column, and one cumulative offset per row.
use vstd::prelude::*;
use crate::checkpoint::{finite_bits, is_finite_bits, zero_bits};

verus! {

/// A matrix in compressed sparse row form.
#[derive(Clone, Debug)]
pub struct CsrMatrix {
    pub rows: usize,
    pub cols: usize,
    pub row_ptr: Vec<usize>,
    pub col_idx: Vec<usize>,
    pub values: Vec<u64>,
}

/// The positions of the nonzero entries among the first `n` of `dense`,
/// in order.
pub open spec fn nonzero_positions(dense: Seq<u64>, n: int) -> Seq<int>
    decreases n,
{
    if n <= 0 {
        Seq::empty()
    } else {
        let before = nonzero_positions(dense, n - 1);
        if zero_bits(dense[n - 1]) {
            before
        } else {
            before.push(n - 1)
        }
    }
}

/// `m` is the CSR form of the `rows x cols` row-major matrix `dense`: its
/// entries are the nonzero entries of `dense` in row-major order, each with
/// its column, and row `r` starts at the number of nonzero entries before
/// it.
pub open spec fn csr_of(m: CsrMatrix, dense: Seq<u64>, rows: int, cols: int) -> bool {
    let ps = nonzero_positions(dense, dense.len() as int);
    &&& m.rows == rows
    &&& m.cols == cols
    &&& m.col_idx@.len() == ps.len()
    &&& m.values@.len() == ps.len()
    &&& forall|k: int| 0 <= k < ps.len() ==> #[trigger] m.col_idx@[k] == ps[k] % cols && m.values@[k] == dense[ps[k]]
    &&& m.row_ptr@.len() == rows + 1
    &&& forall|r: int| 0 <= r <= rows ==> #[trigger] m.row_ptr@[r] == nonzero_positions(dense, r * cols).len()
}

/// Converts a row-major `rows x cols` matrix of `f64` bit patterns to CSR
/// form, refusing a shape that does not match or a value that is not
/// finite.
pub fn from_dense(dense: &[u64], rows: usize, cols: usize) -> (r: Result<CsrMatrix, &'static str>)
    ensures
        (rows == 0 || cols == 0 || rows * cols != dense@.len()) ==> r == Err::<CsrMatrix, &'static str>(
            "dense shape must be nonzero and match its data",
        ),
        (rows != 0 && cols != 0 && rows * cols == dense@.len() && exists|i: int|
            0 <= i < dense@.len() && !finite_bits(#[trigger] dense@[i])) ==> r == Err::<
            CsrMatrix,
            &'static str,
        >("matrix values must be finite"),
        (rows != 0 && cols != 0 && rows * cols == dense@.len() && forall|i: int|
            0 <= i < dense@.len() ==> finite_bits(#[trigger] dense@[i])) ==> (r matches Ok(m)
            && csr_of(m, dense@, rows as int, cols as int)),
{
    let len = dense.len();
    if rows == 0 || cols == 0 {
        return Err("dense shape must be nonzero and match its data");
    }
    match rows.checked_mul(cols) {
        Some(n) => {
            if n != len {
                return Err("dense shape must be nonzero and match its data");
            }
        },
        None => {
            return Err("dense shape must be nonzero and match its data");
        },
    }
    let mut k: usize = 0;
    while k < dense.len()
        invariant
            k <= dense@.len(),
            rows != 0 && cols != 0 && rows * cols == dense@.len(),
            forall|j: int| 0 <= j < k ==> finite_bits(#[trigger] dense@[j]),
        decreases dense.len() - k,
    {
        if !is_finite_bits(dense[k]) {
            return Err("matrix values must be finite");
        }
        k += 1;
    }
    let mut row_ptr: Vec<usize> = Vec::new();
    let mut col_idx: Vec<usize> = Vec::new();
    let mut values: Vec<u64> = Vec::new();
    row_ptr.push(0);
    let ghost d = dense@;
    let mut r: usize = 0;
    while r < rows
        invariant
            rows * cols == d.len(),
            d == dense@,
            d.len() == len,
            cols > 0,
            r <= rows,
            row_ptr@.len() == r + 1,
            forall|q: int| 0 <= q <= r ==> #[trigger] row_ptr@[q] == nonzero_positions(d, q * cols).len(),
            col_idx@.len() == nonzero_positions(d, r * cols).len(),
            values@.len() == col_idx@.len(),
            forall|j: int|
                0 <= j < col_idx@.len() ==> #[trigger] col_idx@[j] == nonzero_positions(d, r * cols)[j]
                    % (cols as int) && values@[j] == d[nonzero_positions(d, r * cols)[j]],
        decreases rows - r,
    {
        proof {
            assert((r as int) * (cols as int) + (cols as int) <= (rows as int) * (cols as int)) by (nonlinear_arith)
                requires
                    r < rows,
                    cols > 0,
            ;
            assert((r as int + 1) * (cols as int) == (r as int) * (cols as int) + cols) by (nonlinear_arith);
        }
        let base = r * cols;
        let mut c: usize = 0;
        while c < cols
            invariant
                rows * cols == d.len(),
                d == dense@,
                d.len() == len,
                cols > 0,
                r < rows,
                base == r * cols,
                base + cols <= d.len(),
                c <= cols,
                col_idx@.len() == nonzero_positions(d, base + c).len(),
                values@.len() == col_idx@.len(),
                forall|j: int|
                    0 <= j < col_idx@.len() ==> #[trigger] col_idx@[j] == nonzero_positions(d, base + c)[j]
                        % (cols as int) && values@[j] == d[nonzero_positions(d, base + c)[j]],
            decreases cols - c,
        {
            let v = dense[base + c];
            let ghost before = nonzero_positions(d, base + c);
            proof {
                lemma_positions_below(d, base + c);
                assert(nonzero_positions(d, base + c + 1) == if zero_bits(d[base + c]) {
                    before
                } else {
                    before.push(base + c)
                });
            }
            let ghost old_cols = col_idx@;
            let ghost old_vals = values@;
            if v & 0x7fff_ffff_ffff_ffff != 0 {
                proof {
                    let p = (base + c) as int;
                    assert(p % (cols as int) == c) by (nonlinear_arith)
                        requires
                            p == r * cols + c,
                            0 <= c < cols,
                            r >= 0,
                    ;
                }
                col_idx.push(c);
                values.push(v);
            }
            proof {
                let after = nonzero_positions(d, base + c + 1);
                assert forall|j: int| 0 <= j < col_idx@.len() implies #[trigger] col_idx@[j] == after[j]
                    % (cols as int) && values@[j] == d[after[j]] by {
                    if j < old_cols.len() {
                        assert(col_idx@[j] == old_cols[j]);
                        assert(values@[j] == old_vals[j]);
                        assert(after[j] == before[j]);
                    }
                }
            }
            c += 1;
        }
        r += 1;
        row_ptr.push(values.len());
    }
    Ok(CsrMatrix { rows, cols, row_ptr, col_idx, values })
}

/// Nonzero positions among the first `n` lie below `n`.
proof fn lemma_positions_below(dense: Seq<u64>, n: int)
    ensures
        forall|j: int| 0 <= j < nonzero_positions(dense, n).len() ==> 0 <= #[trigger] nonzero_positions(dense, n)[j] < n,
    decreases n,
{
    if n > 0 {
        lemma_positions_below(dense, n - 1);
        let before = nonzero_positions(dense, n - 1);
        assert forall|j: int| 0 <= j < nonzero_positions(dense, n).len() implies 0
            <= #[trigger] nonzero_positions(dense, n)[j] < n by {
            if j < before.len() {
                assert(nonzero_positions(dense, n)[j] == before[j]);
            }
        }
    }
}

} // verus!
