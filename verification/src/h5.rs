//! The compressed-sparse-column layout of a matrix: the four arrays that go
//! into the group `matrix` of an HDF5 container.

use crate::bits::{lemma_positions, set_bits};
use crate::codec::{
    cell_fault, cells_clean, check_matrix, concat_rows, counts, feature_ids, lemma_cell_sound,
    lemma_cells_fault, lemma_concat_index, lemma_total_grows, matrix_fault, rows, total,
    well_formed,
};
use crate::error::FormatError;
use vstd::prelude::*;

verus! {

/// The four datasets of the layout.
#[derive(Debug, Clone, PartialEq, Eq)]
pub struct CscMatrix {
    /// The number of features, then the number of cells.
    pub shape: Vec<u64>,
    /// For each cell the number of values of the cells before it, and the
    /// number of all values at the end.
    pub indptr: Vec<u32>,
    /// The values of all cells, in cell order.
    pub data: Vec<u32>,
    /// The feature of each value of `data`.
    pub indices: Vec<u32>,
}

/// The marked features of each bit vector.
pub open spec fn marked(bvs: Seq<Seq<u8>>) -> Seq<Seq<int>> {
    Seq::new(bvs.len(), |i: int| set_bits(bvs[i]))
}

/// Why a matrix has no such layout: it is not well formed, or it has more
/// features or more values than 32 bits count.
pub open spec fn csc_fault(bvs: Seq<Seq<u8>>, counts: Seq<int>, c: int, g: int) -> Option<
    FormatError,
> {
    if matrix_fault(bvs, counts, c, g) is Some {
        matrix_fault(bvs, counts, c, g)
    } else if g > u32::MAX || total(counts, c) > u32::MAX {
        Some(FormatError::TooLarge { limit: u32::MAX as usize })
    } else {
        None
    }
}

/// Whether `m` is the layout of the matrix of `c` cells and `g` features
/// with the bit vectors `bvs` and the values `values`.
pub open spec fn is_csc(m: CscMatrix, bvs: Seq<Seq<u8>>, values: Seq<Seq<u32>>, c: int, g: int) -> bool {
    &&& m.shape@ == seq![g as u64, c as u64]
    &&& m.indptr@.len() == c + 1
    &&& forall|k: int| 0 <= k <= c ==> #[trigger] m.indptr@[k] == total(counts(values), k)
    &&& m.data@ == concat_rows(values, c)
    &&& m.indices@.map_values(|p: u32| p as int) == concat_rows(marked(bvs), c)
}

/// Lays a matrix out in compressed-sparse-column form.
pub fn writer(
    expressions: Vec<Vec<u32>>,
    bit_vecs: Vec<Vec<u8>>,
    num_cells: usize,
    num_features: usize,
) -> (r: Result<CscMatrix, FormatError>)
    ensures
        match csc_fault(
            rows(bit_vecs@),
            counts(rows(expressions@)),
            num_cells as int,
            num_features as int,
        ) {
            Some(e) => r == Err::<CscMatrix, FormatError>(e),
            None => r is Ok && is_csc(
                r->Ok_0,
                rows(bit_vecs@),
                rows(expressions@),
                num_cells as int,
                num_features as int,
            ),
        },
{
    let ghost bvs = rows(bit_vecs@);
    let ghost values = rows(expressions@);
    let ghost cnts = counts(rows(expressions@));
    if let Err(e) = check_matrix(&bit_vecs, &expressions, num_cells, num_features) {
        return Err(e);
    }
    if num_features > u32::MAX as usize {
        return Err(FormatError::TooLarge { limit: u32::MAX as usize });
    }
    proof {
        lemma_cells_fault(bvs, cnts, num_features as int, 0);
    }
    let mut indptr: Vec<u32> = Vec::new();
    indptr.push(0);
    let mut cumm_sum: u32 = 0;
    let mut i: usize = 0;
    while i < num_cells
        invariant
            i <= num_cells,
            expressions.len() == num_cells,
            cnts == counts(rows(expressions@)),
            bvs == rows(bit_vecs@),
            num_features <= u32::MAX,
            matrix_fault(bvs, cnts, num_cells as int, num_features as int) is None,
            cumm_sum == total(cnts, i as int),
            indptr@.len() == i + 1,
            forall|k: int| 0 <= k <= i ==> #[trigger] indptr@[k] == total(cnts, k),
        decreases num_cells - i,
    {
        let n = expressions[i].len();
        if n > (u32::MAX - cumm_sum) as usize {
            proof {
                lemma_total_grows(cnts, i as int + 1, num_cells as int);
            }
            return Err(FormatError::TooLarge { limit: u32::MAX as usize });
        }
        cumm_sum = cumm_sum + n as u32;
        indptr.push(cumm_sum);
        i = i + 1;
    }
    let mut data: Vec<u32> = Vec::new();
    let mut i: usize = 0;
    while i < num_cells
        invariant
            i <= num_cells,
            expressions.len() == num_cells,
            values == rows(expressions@),
            data@ == concat_rows(values, i as int),
        decreases num_cells - i,
    {
        let exp = &expressions[i];
        let mut k: usize = 0;
        while k < exp.len()
            invariant
                k <= exp.len(),
                i < num_cells,
                i < values.len(),
                exp@ == values[i as int],
                data@ == concat_rows(values, i as int) + exp@.take(k as int),
            decreases exp.len() - k,
        {
            data.push(exp[k]);
            assert(exp@.take(k as int + 1) =~= exp@.take(k as int).push(exp@[k as int]));
            k = k + 1;
        }
        assert(exp@.take(k as int) =~= exp@);
        i = i + 1;
    }
    let mut indices: Vec<u32> = Vec::new();
    let mut i: usize = 0;
    while i < num_cells
        invariant
            i <= num_cells,
            bit_vecs.len() == num_cells,
            bvs == rows(bit_vecs@),
            cnts.len() == num_cells,
            num_features <= u32::MAX,
            cells_clean(bvs, cnts, num_features as int),
            indices@.map_values(|p: u32| p as int) == concat_rows(marked(bvs), i as int),
        decreases num_cells - i,
    {
        proof {
            lemma_cell_sound(bvs[i as int], cnts[i as int], num_features as int);
            lemma_positions(bvs[i as int], num_features as int);
        }
        let ids = feature_ids(&bit_vecs[i]);
        let ghost row = marked(bvs)[i as int];
        let mut k: usize = 0;
        while k < ids.len()
            invariant
                k <= ids.len(),
                i < num_cells,
                num_features <= u32::MAX,
                ids@.map_values(|p: usize| p as int) == row,
                forall|x: int| 0 <= x < row.len() ==> 0 <= #[trigger] row[x] < num_features,
                indices@.map_values(|p: u32| p as int) == concat_rows(marked(bvs), i as int)
                    + row.take(k as int),
            decreases ids.len() - k,
        {
            let ghost before = indices@;
            assert(row[k as int] == ids@[k as int]);
            indices.push(ids[k] as u32);
            assert(indices@.map_values(|p: u32| p as int) =~= before.map_values(
                |p: u32| p as int,
            ).push(row[k as int]));
            assert(row.take(k as int + 1) =~= row.take(k as int).push(row[k as int]));
            k = k + 1;
        }
        assert(row.take(k as int) =~= row);
        i = i + 1;
    }
    let mut shape: Vec<u64> = Vec::new();
    shape.push(num_features as u64);
    shape.push(num_cells as u64);
    assert(shape@ =~= seq![num_features as u64, num_cells as u64]);
    Ok(CscMatrix { shape, indptr, data, indices })
}

/// Where a cell stands in the layout: the values of the cell `cell` and
/// their features stand from `indptr[cell]` up to `indptr[cell + 1]`,
/// value `k` of the cell at `indptr[cell] + k`.
pub proof fn lemma_csc_cell(
    m: CscMatrix,
    bvs: Seq<Seq<u8>>,
    values: Seq<Seq<u32>>,
    c: int,
    g: int,
    cell: int,
    k: int,
)
    requires
        0 <= g,
        is_csc(m, bvs, values, c, g),
        well_formed(bvs, counts(values), c, g),
        0 <= cell < c,
        0 <= k < values[cell].len(),
    ensures
        m.indptr@[cell + 1] == m.indptr@[cell] + values[cell].len(),
        m.indptr@[cell] + k < m.data@.len(),
        m.data@.len() == m.indices@.len(),
        m.data@[m.indptr@[cell] + k] == values[cell][k],
        m.indices@[m.indptr@[cell] + k] == set_bits(bvs[cell])[k],
{
    let cnts = counts(values);
    let features = marked(bvs);
    lemma_cells_fault(bvs, cnts, g, 0);
    assert(m.indptr@[cell] == total(cnts, cell));
    assert(m.indptr@[cell + 1] == total(cnts, cell + 1));
    assert(m.indptr@[c] == total(cnts, c));
    assert(cnts[cell] == values[cell].len());
    assert(counts(features) =~= cnts) by {
        assert forall|i: int| 0 <= i < c implies counts(features)[i] == cnts[i] by {
            assert(cell_fault(bvs[i], cnts[i], g) is None);
            lemma_cell_sound(bvs[i], cnts[i], g);
            crate::bits::lemma_positions_len(bvs[i], crate::bits::bit_len(bvs[i]));
        }
    }
    lemma_concat_index(values, c, cell, k);
    lemma_concat_index(features, c, cell, k);
    let at = m.indptr@[cell] + k;
    assert(m.indices@.map_values(|p: u32| p as int)[at] == m.indices@[at]);
}

} // verus!
