//! The dense text form of a matrix: one line of feature names, then one
//! line per cell with a field for every feature. Also the change of a
//! whole matrix between its dense and its sparse form.
//!
//! In text a value is the token that stands in the file; what number a
//! token spells is not looked at here.

use crate::bits::{
    bit_at, byte_bit, byte_count, byte_len, get_bit, lemma_rank_bounds, rank, test_bit,
};
use crate::codec::{
    cell_fault, cells_clean, check_matrix, counts, dense_row, dense_to_sparse, holds_row,
    lemma_cell_sound, lemma_cells_fault, lemma_dense_round_trip, lemma_sparse_round_trip,
    matrix_fault, present, rows, sparse_to_dense, well_formed,
};
use crate::error::FormatError;
use crate::gzip::{compress, decompress, gzip_decoded, gzip_encoded};
use crate::text::{ascii, decimal, push_bytes, push_decimal, push_str, COMMA, NEWLINE, ZERO};
use vstd::prelude::*;

verus! {

/// The double quote.
pub const QUOTE: u8 = 34;

/// The tokens of a matrix: for each cell, for each of its values, the bytes of the token.
pub open spec fn texts(m: Seq<Vec<Vec<u8>>>) -> Seq<Seq<Seq<u8>>> {
    Seq::new(m.len(), |i: int| rows(m[i]@))
}

/// The first line without its end: an empty quoted name, then `,gene1` to `,geneG`.
pub open spec fn header_fields(g: int) -> Seq<u8>
    decreases g,
{
    if g <= 0 {
        seq![QUOTE, QUOTE]
    } else {
        header_fields(g - 1) + ascii(",gene"@) + decimal(g as nat)
    }
}

/// The fields of the first `n` features of a cell, a comma before each:
/// the token of the feature where the cell has one, `0` where it has none.
pub open spec fn row_fields(bv: Seq<u8>, tokens: Seq<Seq<u8>>, n: int) -> Seq<u8>
    decreases n,
{
    if n <= 0 {
        Seq::empty()
    } else {
        row_fields(bv, tokens, n - 1) + seq![COMMA] + if bit_at(bv, n - 1) {
            tokens[rank(bv, n - 1) as int]
        } else {
            seq![ZERO]
        }
    }
}

/// The line of cell `cell`, counted from 0: `cell`, its number counted from
/// 1, and its `g` fields.
pub open spec fn row_text(cell: int, bv: Seq<u8>, tokens: Seq<Seq<u8>>, g: int) -> Seq<u8> {
    ascii("cell"@) + decimal((cell + 1) as nat) + row_fields(bv, tokens, g) + seq![NEWLINE]
}

/// The lines of the first `n` cells.
pub open spec fn rows_text(bvs: Seq<Seq<u8>>, tokens: Seq<Seq<Seq<u8>>>, g: int, n: int) -> Seq<u8>
    decreases n,
{
    if n <= 0 {
        Seq::empty()
    } else {
        rows_text(bvs, tokens, g, n - 1) + row_text(n - 1, bvs[n - 1], tokens[n - 1], g)
    }
}

/// The whole text of a matrix of `c` cells and `g` features.
pub open spec fn csv_text(bvs: Seq<Seq<u8>>, tokens: Seq<Seq<Seq<u8>>>, c: int, g: int) -> Seq<u8> {
    header_fields(g) + seq![NEWLINE] + rows_text(bvs, tokens, g, c)
}

/// The fields of the `g` features of a cell: the token of the feature
/// where the cell has one, `0` where it has none.
pub open spec fn dense_fields(bv: Seq<u8>, tokens: Seq<Seq<u8>>, g: int) -> Seq<Seq<u8>> {
    Seq::new(
        g as nat,
        |j: int|
            if bit_at(bv, j) {
                tokens[rank(bv, j) as int]
            } else {
                seq![ZERO]
            },
    )
}

/// The first `n` of `fields`, a comma before each.
pub open spec fn comma_joined(fields: Seq<Seq<u8>>, n: int) -> Seq<u8>
    decreases n,
{
    if n <= 0 {
        Seq::empty()
    } else {
        comma_joined(fields, n - 1) + seq![COMMA] + fields[n - 1]
    }
}

/// The line of a cell holds a field for each of the `g` features,
/// whatever the cell marks: after the name, the fields of `dense_fields`,
/// a comma before each.
pub proof fn lemma_row_fields(bv: Seq<u8>, tokens: Seq<Seq<u8>>, g: int, n: int)
    requires
        0 <= n <= g,
    ensures
        row_fields(bv, tokens, n) == comma_joined(dense_fields(bv, tokens, g), n),
    decreases n,
{
    if n > 0 {
        lemma_row_fields(bv, tokens, g, n - 1);
    }
}

/// The dense text of a matrix, before compression.
pub fn to_text(
    expressions: &Vec<Vec<Vec<u8>>>,
    bit_vecs: &Vec<Vec<u8>>,
    num_cells: usize,
    num_features: usize,
) -> (r: Result<Vec<u8>, FormatError>)
    ensures
        match matrix_fault(
            rows(bit_vecs@),
            counts(texts(expressions@)),
            num_cells as int,
            num_features as int,
        ) {
            Some(e) => r == Err::<Vec<u8>, FormatError>(e),
            None => r is Ok && r->Ok_0@ == csv_text(
                rows(bit_vecs@),
                texts(expressions@),
                num_cells as int,
                num_features as int,
            ),
        },
{
    let ghost bvs = rows(bit_vecs@);
    let ghost tokens = texts(expressions@);
    let ghost cnts = counts(tokens);
    assert(cnts =~= counts(rows(expressions@)));
    if let Err(e) = check_matrix(bit_vecs, expressions, num_cells, num_features) {
        return Err(e);
    }
    proof {
        lemma_cells_fault(bvs, cnts, num_features as int, 0);
        reveal_strlit(",gene");
        reveal_strlit("cell");
    }
    let mut out: Vec<u8> = Vec::new();
    out.push(QUOTE);
    out.push(QUOTE);
    assert(out@ =~= header_fields(0));
    let mut gid: usize = 0;
    while gid < num_features
        invariant
            gid <= num_features,
            out@ == header_fields(gid as int),
        decreases num_features - gid,
    {
        gid = gid + 1;
        proof {
            reveal_strlit(",gene");
        }
        push_str(&mut out, ",gene");
        push_decimal(&mut out, gid);
    }
    out.push(NEWLINE);
    let ghost head = out@;
    assert(rows_text(bvs, tokens, num_features as int, 0) =~= Seq::<u8>::empty());
    assert(out@ =~= head + rows_text(bvs, tokens, num_features as int, 0));
    let mut cell_id: usize = 0;
    while cell_id < num_cells
        invariant
            cell_id <= num_cells,
            bit_vecs.len() == num_cells,
            expressions.len() == num_cells,
            bvs == rows(bit_vecs@),
            tokens == texts(expressions@),
            cnts == counts(texts(expressions@)),
            cells_clean(bvs, cnts, num_features as int),
            out@ == head + rows_text(bvs, tokens, num_features as int, cell_id as int),
        decreases num_cells - cell_id,
    {
        let bit_vec = &bit_vecs[cell_id];
        let exp = &expressions[cell_id];
        let ghost bv = bvs[cell_id as int];
        let ghost toks = tokens[cell_id as int];
        let ghost start = out@;
        proof {
            reveal_strlit("cell");
            lemma_cell_sound(bv, cnts[cell_id as int], num_features as int);
        }
        push_str(&mut out, "cell");
        push_decimal(&mut out, cell_id + 1);
        let ghost label = ascii("cell"@) + decimal((cell_id + 1) as nat);
        assert(out@ =~= start + label + row_fields(bv, toks, 0));
        let mut aidx: usize = 0;
        let mut j: usize = 0;
        while j < num_features
            invariant
                j <= num_features,
                bv == bit_vec@,
                toks == rows(exp@),
                exp@.len() == rank(bv, num_features as int),
                aidx == rank(bv, j as int),
                out@ == start + label + row_fields(bv, toks, j as int),
            decreases num_features - j,
        {
            proof {
                lemma_rank_bounds(bv, j as int + 1, num_features as int);
            }
            out.push(COMMA);
            let ghost before = out@;
            if get_bit(bit_vec, j) {
                push_bytes(&mut out, &exp[aidx]);
                aidx = aidx + 1;
            } else {
                out.push(ZERO);
                assert(out@ =~= before + seq![ZERO]);
            }
            assert(out@ =~= before + (if bit_at(bv, j as int) {
                toks[rank(bv, j as int) as int]
            } else {
                seq![ZERO]
            }));
            assert(out@ =~= start + label + row_fields(bv, toks, j as int + 1));
            j = j + 1;
        }
        out.push(NEWLINE);
        assert(out@ =~= start + row_text(cell_id as int, bv, toks, num_features as int));
        cell_id = cell_id + 1;
    }
    Ok(out)
}

/// The gzip file of the dense text of a matrix.
pub fn writer(
    expressions: Vec<Vec<Vec<u8>>>,
    bit_vecs: Vec<Vec<u8>>,
    num_cells: usize,
    num_features: usize,
) -> (r: Result<Vec<u8>, FormatError>)
    ensures
        match matrix_fault(
            rows(bit_vecs@),
            counts(texts(expressions@)),
            num_cells as int,
            num_features as int,
        ) {
            Some(e) => r == Err::<Vec<u8>, FormatError>(e),
            None => r is Ok && r->Ok_0@ == gzip_encoded(
                csv_text(
                    rows(bit_vecs@),
                    texts(expressions@),
                    num_cells as int,
                    num_features as int,
                ),
            ),
        },
{
    match to_text(&expressions, &bit_vecs, num_cells, num_features) {
        Ok(text) => Ok(compress(&text)),
        Err(e) => Err(e),
    }
}

/// The eight bits of a byte, the most significant first.
pub fn read_flag(flag: u8) -> (markers: Vec<bool>)
    ensures
        markers@.len() == 8,
        forall|k: int| 0 <= k < 8 ==> markers@[k] == byte_bit(flag, k),
{
    let mut markers: Vec<bool> = Vec::new();
    let mut k: usize = 0;
    while k < 8
        invariant
            k <= 8,
            markers@.len() == k,
            forall|x: int| 0 <= x < k ==> markers@[x] == byte_bit(flag, x),
        decreases 8 - k,
    {
        markers.push(test_bit(flag, k));
        k = k + 1;
    }
    markers
}

/// The dense rows of the cells of a matrix of `g` features.
pub open spec fn dense_matrix(bvs: Seq<Seq<u8>>, values: Seq<Seq<u32>>, g: int) -> Seq<Seq<u32>> {
    Seq::new(bvs.len(), |i: int| dense_row(bvs[i], values[i], g))
}

/// The dense form of a matrix of `num_cells` cells and `num_genes` features.
pub fn eds_sparse_to_dense(
    num_cells: usize,
    num_genes: usize,
    bit_vecs: Vec<Vec<u8>>,
    alphas: Vec<Vec<u32>>,
) -> (r: Result<Vec<Vec<u32>>, FormatError>)
    ensures
        match matrix_fault(
            rows(bit_vecs@),
            counts(rows(alphas@)),
            num_cells as int,
            num_genes as int,
        ) {
            Some(e) => r == Err::<Vec<Vec<u32>>, FormatError>(e),
            None => r is Ok && rows(r->Ok_0@) == dense_matrix(
                rows(bit_vecs@),
                rows(alphas@),
                num_genes as int,
            ),
        },
{
    let ghost bvs = rows(bit_vecs@);
    let ghost values = rows(alphas@);
    let ghost cnts = counts(values);
    if let Err(e) = check_matrix(&bit_vecs, &alphas, num_cells, num_genes) {
        return Err(e);
    }
    proof {
        lemma_cells_fault(bvs, cnts, num_genes as int, 0);
    }
    let mut matrix: Vec<Vec<u32>> = Vec::new();
    let mut i: usize = 0;
    while i < num_cells
        invariant
            i <= num_cells,
            bit_vecs.len() == num_cells,
            alphas.len() == num_cells,
            bvs == rows(bit_vecs@),
            values == rows(alphas@),
            cnts == counts(values),
            cells_clean(bvs, cnts, num_genes as int),
            matrix@.len() == i,
            forall|x: int|
                0 <= x < i ==> (#[trigger] matrix@[x])@ == dense_row(
                    bvs[x],
                    values[x],
                    num_genes as int,
                ),
        decreases num_cells - i,
    {
        assert(cell_fault(bvs[i as int], cnts[i as int], num_genes as int) is None);
        match sparse_to_dense(&bit_vecs[i], &alphas[i], num_genes) {
            Ok(row) => {
                matrix.push(row);
            },
            Err(_) => {
                assert(false);
            },
        }
        i = i + 1;
    }
    assert(rows(matrix@) =~= dense_matrix(bvs, values, num_genes as int));
    Ok(matrix)
}

/// The first row of a dense matrix from row `from` on whose bit vector
/// would not be `num_bvecs` bytes long, where there is one.
pub open spec fn first_odd_row(matrix: Seq<Seq<u32>>, num_bvecs: int, from: int) -> Option<int>
    decreases matrix.len() - from,
{
    if from >= matrix.len() {
        None
    } else if byte_len(matrix[from].len() as int) != num_bvecs {
        Some(from)
    } else {
        first_odd_row(matrix, num_bvecs, from + 1)
    }
}

/// What is wrong with a dense matrix that is to have `num_bvecs` bytes of
/// bit vector for each cell: a row whose features take another number of
/// bytes, the first such. Both numbers of the fault count bytes.
pub open spec fn dense_fault(matrix: Seq<Seq<u32>>, num_bvecs: int) -> Option<FormatError> {
    match first_odd_row(matrix, num_bvecs, 0) {
        Some(i) => Some(
            FormatError::RowLength {
                expected: num_bvecs as usize,
                found: byte_len(matrix[i].len() as int) as usize,
            },
        ),
        None => None,
    }
}

/// The sparse form of a dense matrix whose rows take `num_bvecs` bytes of
/// bit vector each: a row of `G` features takes `ceil(G / 8)` bytes.
pub fn dense_to_eds_sparse(matrix: Vec<Vec<u32>>, num_bvecs: usize) -> (r: Result<
    (Vec<Vec<u8>>, Vec<Vec<u32>>),
    FormatError,
>)
    ensures
        match dense_fault(rows(matrix@), num_bvecs as int) {
            Some(e) => r == Err::<(Vec<Vec<u8>>, Vec<Vec<u32>>), FormatError>(e),
            None => r is Ok && r->Ok_0.0@.len() == matrix@.len() && r->Ok_0.1@.len()
                == matrix@.len() && forall|i: int|
                0 <= i < matrix@.len() ==> (#[trigger] r->Ok_0.0@[i])@.len() == num_bvecs
                    && holds_row(r->Ok_0.0@[i]@, r->Ok_0.1@[i]@, matrix@[i]@),
        },
{
    let ghost dense = rows(matrix@);
    let num_cells = matrix.len();
    let mut bvecs: Vec<Vec<u8>> = Vec::new();
    let mut alphas: Vec<Vec<u32>> = Vec::new();
    let mut row_id: usize = 0;
    while row_id < num_cells
        invariant
            row_id <= num_cells,
            num_cells == matrix@.len(),
            dense == rows(matrix@),
            first_odd_row(dense, num_bvecs as int, 0) == first_odd_row(
                dense,
                num_bvecs as int,
                row_id as int,
            ),
            bvecs@.len() == row_id,
            alphas@.len() == row_id,
            forall|i: int|
                0 <= i < row_id ==> (#[trigger] bvecs@[i])@.len() == num_bvecs && holds_row(
                    bvecs@[i]@,
                    alphas@[i]@,
                    matrix@[i]@,
                ),
        decreases num_cells - row_id,
    {
        let row = &matrix[row_id];
        let found = byte_count(row.len());
        if found != num_bvecs {
            return Err(FormatError::RowLength { expected: num_bvecs, found });
        }
        let (bit_vec, values) = dense_to_sparse(row);
        bvecs.push(bit_vec);
        alphas.push(values);
        row_id = row_id + 1;
    }
    Ok((bvecs, alphas))
}

/// A dense matrix of rows of `g` features has no fault where each cell is
/// to have `ceil(g / 8)` bytes of bit vector.
pub proof fn lemma_dense_fault_free(matrix: Seq<Seq<u32>>, g: int, from: int)
    requires
        0 <= from,
        forall|i: int| 0 <= i < matrix.len() ==> (#[trigger] matrix[i]).len() == g,
    ensures
        first_odd_row(matrix, byte_len(g), from) is None,
    decreases matrix.len() - from,
{
    if from < matrix.len() {
        lemma_dense_fault_free(matrix, g, from + 1);
    }
}

/// Whether the cells with the bit vectors `bvs` and the values `values`
/// are the sparse form of the dense matrix `matrix`, row by row.
pub open spec fn holds_matrix(bvs: Seq<Seq<u8>>, values: Seq<Seq<u32>>, matrix: Seq<Seq<u32>>) -> bool {
    &&& bvs.len() == matrix.len()
    &&& values.len() == matrix.len()
    &&& forall|i: int| 0 <= i < matrix.len() ==> holds_row(#[trigger] bvs[i], values[i], matrix[i])
}

/// A dense matrix of `g` features whose numbers are zero or above comes
/// back from its sparse form: the sparse form is a well-formed matrix of
/// `g` features, and its dense form is the matrix it was made from.
pub proof fn lemma_dense_matrix_round_trip(
    matrix: Seq<Seq<u32>>,
    g: int,
    bvs: Seq<Seq<u8>>,
    values: Seq<Seq<u32>>,
)
    requires
        0 <= g,
        forall|i: int| 0 <= i < matrix.len() ==> (#[trigger] matrix[i]).len() == g,
        forall|i: int, j: int|
            0 <= i < matrix.len() && 0 <= j < g ==> matrix[i][j] == 0 || present(
                #[trigger] matrix[i][j],
            ),
        holds_matrix(bvs, values, matrix),
    ensures
        dense_fault(matrix, byte_len(g)) is None,
        well_formed(bvs, counts(values), matrix.len() as int, g),
        dense_matrix(bvs, values, g) == matrix,
{
    let cnts = counts(values);
    lemma_dense_fault_free(matrix, g, 0);
    assert forall|i: int| 0 <= i < bvs.len() implies cell_fault(bvs[i], cnts[i], g) is None
        && dense_row(bvs[i], values[i], g) == matrix[i] by {
        assert(holds_row(bvs[i], values[i], matrix[i]));
        assert(matrix[i].len() == g);
        lemma_dense_round_trip(matrix[i], bvs[i], values[i]);
        assert(cnts[i] == values[i].len());
    }
    lemma_cells_fault(bvs, cnts, g, 0);
    assert(dense_matrix(bvs, values, g) =~= matrix);
}

/// A well-formed matrix of `g` features whose values are all above zero
/// comes back from its dense form: the dense form has rows of `g`
/// features, so it has no fault with `ceil(g / 8)` bytes for each cell,
/// and its sparse form is the matrix.
pub proof fn lemma_sparse_matrix_round_trip(
    bvs: Seq<Seq<u8>>,
    values: Seq<Seq<u32>>,
    c: int,
    g: int,
    bvs2: Seq<Seq<u8>>,
    values2: Seq<Seq<u32>>,
)
    requires
        0 <= c,
        0 <= g,
        well_formed(bvs, counts(values), c, g),
        forall|i: int, k: int|
            0 <= i < c && 0 <= k < values[i].len() ==> present(#[trigger] values[i][k]),
        holds_matrix(bvs2, values2, dense_matrix(bvs, values, g)),
    ensures
        dense_fault(dense_matrix(bvs, values, g), byte_len(g)) is None,
        bvs2 == bvs,
        values2 == values,
{
    let dense = dense_matrix(bvs, values, g);
    let cnts = counts(values);
    lemma_dense_fault_free(dense, g, 0);
    lemma_cells_fault(bvs, cnts, g, 0);
    assert forall|i: int| 0 <= i < c implies bvs2[i] == bvs[i] && values2[i] == values[i] by {
        assert(cnts[i] == values[i].len());
        assert(cell_fault(bvs[i], values[i].len() as int, g) is None);
        assert(holds_row(bvs2[i], values2[i], dense[i]));
        assert(dense[i] == dense_row(bvs[i], values[i], g));
        lemma_sparse_round_trip(bvs[i], values[i], g, bvs2[i], values2[i]);
    }
    assert(bvs2 =~= bvs);
    assert(values2 =~= values);
}

/// The records that the `csv` crate reads out of a text, each a list of
/// fields, or nothing where it reports an error. The reader takes every
/// record as data, and wants all records to have as many fields as the first.
pub uninterp spec fn csv_records(text: Seq<u8>) -> Option<Seq<Seq<Seq<u8>>>>;

/// Reads `text` with a `csv::Reader`, made by `csv::ReaderBuilder` with
/// `has_headers(false)` and `from_reader`, record by record through
/// `byte_records`, and copies the fields of each record.
///
/// Not proved: that the outcome is a function of `text` alone, the
/// records where the reader reports no error, and nothing where it
/// reports one.
#[verifier::external_body]
pub(crate) fn read_records(text: &Vec<u8>) -> (r: Option<Vec<Vec<Vec<u8>>>>)
    ensures
        match r {
            Some(records) => csv_records(text@) == Some(texts(records@)),
            None => csv_records(text@) is None,
        },
{
    let mut reader = csv::ReaderBuilder::new().has_headers(false).from_reader(&text[..]);
    let mut records: Vec<Vec<Vec<u8>>> = Vec::new();
    for record in reader.byte_records() {
        match record {
            Ok(fields) => records.push(fields.iter().map(|field| field.to_vec()).collect()),
            Err(_) => return None,
        }
    }
    Some(records)
}

/// The first record from record `from` on that has not `n` fields, where
/// there is one.
pub open spec fn first_odd_record(records: Seq<Seq<Seq<u8>>>, n: int, from: int) -> Option<int>
    decreases records.len() - from,
{
    if from >= records.len() {
        None
    } else if records[from].len() != n {
        Some(from)
    } else {
        first_odd_record(records, n, from + 1)
    }
}

/// What is wrong with the records of a matrix of `c` cells and `g`
/// features: there is not one record of names and then one for each cell,
/// or a record has not a name and then `g` fields, the first such.
pub open spec fn records_fault(records: Seq<Seq<Seq<u8>>>, c: int, g: int) -> Option<FormatError> {
    if records.len() != c + 1 {
        Some(
            FormatError::CellCount {
                expected: c as usize,
                found: if records.len() == 0 {
                    0usize
                } else {
                    (records.len() - 1) as usize
                },
            },
        )
    } else {
        match first_odd_record(records, g + 1, 0) {
            Some(i) => Some(
                FormatError::RowLength {
                    expected: g as usize,
                    found: if records[i].len() == 0 {
                        0usize
                    } else {
                        (records[i].len() - 1) as usize
                    },
                },
            ),
            None => None,
        }
    }
}

/// The dense matrix of tokens that the records hold: of each record but
/// the first, the fields but the first.
pub open spec fn dense_tokens(records: Seq<Seq<Seq<u8>>>) -> Seq<Seq<Seq<u8>>> {
    Seq::new(
        (records.len() - 1) as nat,
        |i: int| records[i + 1].subrange(1, records[i + 1].len() as int),
    )
}

/// The dense matrix of tokens of a matrix of `num_cells` cells and
/// `num_genes` features, out of the records of its text.
pub fn from_records(records: &Vec<Vec<Vec<u8>>>, num_cells: usize, num_genes: usize) -> (r: Result<
    Vec<Vec<Vec<u8>>>,
    FormatError,
>)
    ensures
        match records_fault(texts(records@), num_cells as int, num_genes as int) {
            Some(e) => r == Err::<Vec<Vec<Vec<u8>>>, FormatError>(e),
            None => r is Ok && texts(r->Ok_0@) == dense_tokens(texts(records@)),
        },
{
    let ghost recs = texts(records@);
    if records.len() == 0 || records.len() - 1 != num_cells {
        let found = if records.len() == 0 {
            0
        } else {
            records.len() - 1
        };
        return Err(FormatError::CellCount { expected: num_cells, found });
    }
    let mut i: usize = 0;
    while i < records.len()
        invariant
            i <= records.len(),
            records@.len() == num_cells + 1,
            recs == texts(records@),
            first_odd_record(recs, num_genes + 1, 0) == first_odd_record(
                recs,
                num_genes + 1,
                i as int,
            ),
        decreases records.len() - i,
    {
        let n = records[i].len();
        if n == 0 || n - 1 != num_genes {
            let found = if n == 0 {
                0
            } else {
                n - 1
            };
            return Err(FormatError::RowLength { expected: num_genes, found });
        }
        i = i + 1;
    }
    proof {
        lemma_no_odd_record(recs, num_genes + 1, 0);
    }
    let mut matrix: Vec<Vec<Vec<u8>>> = Vec::new();
    let mut cell: usize = 0;
    while cell < num_cells
        invariant
            cell <= num_cells,
            records@.len() == num_cells + 1,
            recs == texts(records@),
            forall|x: int| 0 <= x < recs.len() ==> (#[trigger] recs[x]).len() == num_genes + 1,
            matrix@.len() == cell,
            forall|x: int|
                0 <= x < cell ==> rows((#[trigger] matrix@[x])@) == recs[x + 1].subrange(
                    1,
                    num_genes + 1,
                ),
        decreases num_cells - cell,
    {
        let record = &records[cell + 1];
        assert(rows(record@) == recs[cell + 1]);
        let mut row: Vec<Vec<u8>> = Vec::new();
        let mut j: usize = 0;
        while j < num_genes
            invariant
                j <= num_genes,
                record@.len() == num_genes + 1,
                row@.len() == j,
                forall|y: int| 0 <= y < j ==> (#[trigger] row@[y])@ == record@[y + 1]@,
            decreases num_genes - j,
        {
            let field = &record[j + 1];
            row.push(crate::eds::copy_range(field, 0, field.len()));
            assert(field@.subrange(0, field@.len() as int) =~= field@);
            j = j + 1;
        }
        assert(rows(row@) =~= recs[cell + 1].subrange(1, num_genes + 1));
        matrix.push(row);
        cell = cell + 1;
    }
    assert(texts(matrix@) =~= dense_tokens(recs));
    Ok(matrix)
}

/// Where no record is odd, every record has `n` fields.
pub proof fn lemma_no_odd_record(records: Seq<Seq<Seq<u8>>>, n: int, from: int)
    requires
        0 <= from,
        first_odd_record(records, n, from) is None,
    ensures
        forall|x: int| from <= x < records.len() ==> (#[trigger] records[x]).len() == n,
    decreases records.len() - from,
{
    if from < records.len() {
        lemma_no_odd_record(records, n, from + 1);
    }
}

/// Reads the dense matrix of tokens of a matrix of `num_cells` cells and
/// `num_genes` features off the gzip file `input` of its dense text.
pub fn reader(input: &Vec<u8>, num_cells: usize, num_genes: usize) -> (r: Result<
    Vec<Vec<Vec<u8>>>,
    FormatError,
>)
    ensures
        match gzip_decoded(input@) {
            None => r == Err::<Vec<Vec<Vec<u8>>>, FormatError>(FormatError::Compression),
            Some(text) => match csv_records(text) {
                None => r == Err::<Vec<Vec<Vec<u8>>>, FormatError>(FormatError::Malformed),
                Some(records) => match records_fault(records, num_cells as int, num_genes as int) {
                    Some(e) => r == Err::<Vec<Vec<Vec<u8>>>, FormatError>(e),
                    None => r is Ok && texts(r->Ok_0@) == dense_tokens(records),
                },
            },
        },
{
    let text = match decompress(input) {
        Some(text) => text,
        None => {
            return Err(FormatError::Compression);
        },
    };
    let records = match read_records(&text) {
        Some(records) => records,
        None => {
            return Err(FormatError::Malformed);
        },
    };
    from_records(&records, num_cells, num_genes)
}

} // verus!
