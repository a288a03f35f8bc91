use vstd::prelude::*;
use rusty_machine::linalg::Matrix;
use crate::pvalue::{PValue, Significance, exceeds, exceeds_spec};

verus! {

#[verifier::external_type_specification]
#[verifier::external_body]
#[verifier::reject_recursive_types(T)]
pub struct ExMatrix<T>(Matrix<T>);

/// The entries of a boolean matrix, row after row.
pub uninterp spec fn bool_matrix_cells(m: Matrix<bool>) -> Seq<bool>;

/// The number of rows and of columns of a boolean matrix.
pub uninterp spec fn bool_matrix_shape(m: Matrix<bool>) -> (nat, nat);

/// Relies on rulinalg's `Matrix::new`, re-exported by rusty-machine: it keeps
/// `data` as the row-major entries of a `rows` by `cols` matrix, and panics
/// unless `rows * cols == data.len()`.
#[verifier::external_body]
fn bool_matrix(rows: usize, cols: usize, data: Vec<bool>) -> (m: Matrix<bool>)
    requires
        rows * cols == data@.len(),
    ensures
        bool_matrix_cells(m) == data@,
        bool_matrix_shape(m) == (rows as nat, cols as nat),
{
    Matrix::new(rows, cols, data)
}

/// `cells` holds, row-major with `cols` columns, whether each entry of
/// `conf` exceeds `eps`.
pub open spec fn region_cells(
    cells: Seq<bool>,
    conf: Seq<Seq<PValue>>,
    cols: nat,
    eps: Significance,
) -> bool {
    &&& cells.len() == conf.len() * cols
    &&& forall|i: int, y: int|
        0 <= i < conf.len() && 0 <= y < cols ==> #[trigger] cells[i * cols + y] == exceeds_spec(
            conf[i][y],
            eps,
        )
}

/// `m` is the region prediction for the p-values `conf` with `cols` labels.
pub open spec fn is_region(m: Matrix<bool>, conf: Seq<Seq<PValue>>, cols: nat, eps: Significance) -> bool {
    &&& bool_matrix_shape(m) == (conf.len(), cols)
    &&& region_cells(bool_matrix_cells(m), conf, cols, eps)
}

proof fn lemma_index_below(i: int, y: int, k: int, l: int, n: int)
    requires
        0 <= k,
        0 <= l < n,
        0 <= y,
        k < i || (k == i && l < y),
    ensures
        k * n + l < i * n + y,
{
    if k < i {
        assert(k * n + l < (k + 1) * n) by (nonlinear_arith)
            requires
                l < n,
        ;
        assert((k + 1) * n <= i * n) by (nonlinear_arith)
            requires
                k + 1 <= i,
                0 <= n,
        ;
    }
}

/// The region prediction: entry `(i, y)` is true iff the p-value of label
/// `y` for object `i` is strictly greater than `epsilon`.
pub fn region_matrix(pvalues: &Vec<Vec<PValue>>, n_labels: usize, epsilon: Significance) -> (m:
    Matrix<bool>)
    requires
        forall|i: int| 0 <= i < pvalues@.len() ==> (#[trigger] pvalues@[i])@.len() == n_labels,
    ensures
        is_region(
            m,
            Seq::new(pvalues@.len(), |i: int| pvalues@[i]@),
            n_labels as nat,
            epsilon,
        ),
{
    let ghost conf = Seq::new(pvalues@.len(), |i: int| pvalues@[i]@);
    let n: usize = pvalues.len();
    let mut data: Vec<bool> = Vec::new();
    let mut i: usize = 0;
    while i < n
        invariant
            n == pvalues@.len(),
            conf == Seq::new(pvalues@.len(), |i: int| pvalues@[i]@),
            forall|k: int| 0 <= k < n ==> (#[trigger] pvalues@[k])@.len() == n_labels,
            i <= n,
            data@.len() == i * n_labels,
            forall|k: int, l: int|
                0 <= k < i && 0 <= l < n_labels ==> #[trigger] data@[k * n_labels + l]
                    == exceeds_spec(conf[k][l], epsilon),
        decreases n - i,
    {
        let row: &Vec<PValue> = &pvalues[i];
        let mut y: usize = 0;
        while y < n_labels
            invariant
                n == pvalues@.len(),
                conf == Seq::new(pvalues@.len(), |i: int| pvalues@[i]@),
                i < n,
                row@ == conf[i as int],
                row@.len() == n_labels,
                y <= n_labels,
                data@.len() == i * n_labels + y,
                forall|k: int, l: int|
                    0 <= k <= i && 0 <= l < n_labels && (k < i || l < y)
                        ==> #[trigger] data@[k * n_labels + l] == exceeds_spec(conf[k][l], epsilon),
            decreases n_labels - y,
        {
            let e: bool = exceeds(row[y], epsilon);
            let ghost before = data@;
            data.push(e);
            proof {
                assert forall|k: int, l: int|
                    0 <= k <= i && 0 <= l < n_labels && (k < i || l < y + 1)
                        implies #[trigger] data@[k * n_labels + l] == exceeds_spec(conf[k][l], epsilon) by {
                    if k < i || l < y {
                        lemma_index_below(i as int, y as int, k, l, n_labels as int);
                        assert(data@[k * n_labels + l] == before[k * n_labels + l]);
                    }
                }
            }
            y = y + 1;
        }
        assert((i + 1) * n_labels == i * n_labels + n_labels) by (nonlinear_arith);
        i = i + 1;
    }
    bool_matrix(n, n_labels, data)
}

} // verus!
