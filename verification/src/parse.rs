//! The reader of the binary form, under the name that tools know it by.

use crate::codec::rows;
use crate::eds::{decode_fault, decoded_bits, decoded_values};
use crate::error::FormatError;
use crate::gzip::gzip_decoded;
use vstd::prelude::*;

verus! {

/// Reads a matrix of `num_cells` cells and `num_genes` features off the
/// gzip file `input`, and appends its values to `expr` and its bit vectors
/// to `bit_vecs`. Where the file cannot be read, both stay as they are.
pub fn read_eds(
    input: &Vec<u8>,
    num_cells: usize,
    num_genes: usize,
    expr: &mut Vec<Vec<u32>>,
    bit_vecs: &mut Vec<Vec<u8>>,
) -> (r: Result<bool, FormatError>)
    ensures
        match gzip_decoded(input@) {
            None => r == Err::<bool, FormatError>(FormatError::Compression) && *final(expr)
                == *old(expr) && *final(bit_vecs) == *old(bit_vecs),
            Some(data) => match decode_fault(data, num_genes as int, num_cells as int) {
                Some(e) => r == Err::<bool, FormatError>(e) && *final(expr) == *old(expr)
                    && *final(bit_vecs) == *old(bit_vecs),
                None => r == Ok::<bool, FormatError>(true) && rows(final(expr)@) == rows(
                    old(expr)@,
                ) + decoded_values(data, num_cells as int, num_genes as int) && rows(
                    final(bit_vecs)@,
                ) == rows(old(bit_vecs)@) + decoded_bits(
                    data,
                    num_cells as int,
                    num_genes as int,
                ),
            },
        },
{
    crate::eds::reader(input, num_cells, num_genes, expr, bit_vecs)
}

} // verus!
