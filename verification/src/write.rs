//! The writers of the three forms for other tools, under one roof.

use crate::codec::{counts, matrix_fault, rows};
use crate::csv::{csv_text, texts};
use crate::error::FormatError;
use crate::gzip::gzip_encoded;
use crate::h5::{csc_fault, is_csc, CscMatrix};
use crate::mtx::{mtx_text, text_fault};
use vstd::prelude::*;

verus! {

/// The gzip file of the coordinate text of a matrix.
pub fn write_mtx(
    expressions: Vec<Vec<Vec<u8>>>,
    bit_vecs: Vec<Vec<u8>>,
    num_cells: usize,
    num_features: usize,
) -> (r: Result<Vec<u8>, FormatError>)
    ensures
        match text_fault(
            rows(bit_vecs@),
            counts(texts(expressions@)),
            num_cells as int,
            num_features as int,
        ) {
            Some(e) => r == Err::<Vec<u8>, FormatError>(e),
            None => r is Ok && r->Ok_0@ == gzip_encoded(
                mtx_text(
                    rows(bit_vecs@),
                    texts(expressions@),
                    num_cells as int,
                    num_features as int,
                ),
            ),
        },
{
    crate::mtx::writer(expressions, bit_vecs, num_cells, num_features)
}

/// The gzip file of the dense text of a matrix.
pub fn write_csv(
    expressions: Vec<Vec<Vec<u8>>>,
    bit_vecs: Vec<Vec<u8>>,
    num_cells: usize,
    num_features: usize,
) -> (r: Result<Vec<u8>, FormatError>)
    ensures
        match matrix_fault(
            rows(bit_vecs@),
            counts(texts(expressions@)),
            num_cells as int,
            num_features as int,
        ) {
            Some(e) => r == Err::<Vec<u8>, FormatError>(e),
            None => r is Ok && r->Ok_0@ == gzip_encoded(
                csv_text(
                    rows(bit_vecs@),
                    texts(expressions@),
                    num_cells as int,
                    num_features as int,
                ),
            ),
        },
{
    crate::csv::writer(expressions, bit_vecs, num_cells, num_features)
}

/// The compressed-sparse-column layout of a matrix.
pub fn write_h5(
    expressions: Vec<Vec<u32>>,
    bit_vecs: Vec<Vec<u8>>,
    num_cells: usize,
    num_features: usize,
) -> (r: Result<CscMatrix, FormatError>)
    ensures
        match csc_fault(
            rows(bit_vecs@),
            counts(rows(expressions@)),
            num_cells as int,
            num_features as int,
        ) {
            Some(e) => r == Err::<CscMatrix, FormatError>(e),
            None => r is Ok && is_csc(
                r->Ok_0,
                rows(bit_vecs@),
                rows(expressions@),
                num_cells as int,
                num_features as int,
            ),
        },
{
    crate::h5::writer(expressions, bit_vecs, num_cells, num_features)
}

} // verus!
