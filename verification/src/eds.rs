//! The binary form of a matrix: for each cell its bit vector, then its
//! values as little-endian 32-bit words, with no header; the whole in gzip.

use crate::bits::{byte_count, byte_len, popcount};
use crate::codec::{
    bits_fault, cell_fault, cells_clean, check_bits, check_matrix, counts, lemma_cell_sound,
    lemma_cells_fault, matrix_fault, rows, well_formed,
};
use crate::error::FormatError;
use crate::gzip::{compress, decompress, gzip_decoded, gzip_encoded};
use crate::text::push_bytes;
use vstd::prelude::*;

verus! {

/// The four bytes of a word, the least significant first.
pub open spec fn le_bytes(v: u32) -> Seq<u8> {
    seq![
        (v % 256) as u8,
        (v / 256 % 256) as u8,
        (v / 65536 % 256) as u8,
        (v / 16777216) as u8,
    ]
}

/// The word of four bytes, the least significant first.
pub open spec fn le_word(b: Seq<u8>) -> u32 {
    (b[0] + 256 * b[1] + 65536 * b[2] + 16777216 * b[3]) as u32
}

/// The bytes of the first `n` of `values`.
pub open spec fn words_bytes(values: Seq<u32>, n: int) -> Seq<u8>
    decreases n,
{
    if n <= 0 {
        Seq::empty()
    } else {
        words_bytes(values, n - 1) + le_bytes(values[n - 1])
    }
}

/// The words that `bytes` holds.
pub open spec fn bytes_words(bytes: Seq<u8>) -> Seq<u32> {
    Seq::new(bytes.len() / 4, |i: int| le_word(bytes.subrange(4 * i, 4 * i + 4)))
}

/// The bytes of the first `n` cells of a matrix.
pub open spec fn eds_bytes(bvs: Seq<Seq<u8>>, values: Seq<Seq<u32>>, n: int) -> Seq<u8>
    decreases n,
{
    if n <= 0 {
        Seq::empty()
    } else {
        eds_bytes(bvs, values, n - 1) + bvs[n - 1] + words_bytes(
            values[n - 1],
            values[n - 1].len() as int,
        )
    }
}

/// Calls `byteorder::LittleEndian::write_u32_into`, which stores each word
/// of `src` in four bytes of `dst`, the least significant byte first, and
/// panics where `dst` is not four times as long as `src`.
#[verifier::external_body]
pub(crate) fn write_words(src: &Vec<u32>, dst: &mut Vec<u8>)
    requires
        old(dst).len() == 4 * src.len(),
    ensures
        final(dst)@.len() == 4 * src@.len(),
        forall|i: int, k: int|
            0 <= i < src@.len() && 0 <= k < 4 ==> final(dst)@[4 * i + k] == le_bytes(src@[i])[k],
{
    <byteorder::LittleEndian as byteorder::ByteOrder>::write_u32_into(&src[..], &mut dst[..])
}

/// Calls `byteorder::LittleEndian::read_u32_into`, which makes each word of
/// `dst` from four bytes of `src`, the least significant byte first, and
/// panics where `src` is not four times as long as `dst`.
#[verifier::external_body]
pub(crate) fn read_words(src: &Vec<u8>, dst: &mut Vec<u32>)
    requires
        src.len() == 4 * old(dst).len(),
    ensures
        final(dst)@ == bytes_words(src@),
{
    <byteorder::LittleEndian as byteorder::ByteOrder>::read_u32_into(&src[..], &mut dst[..])
}

/// A word comes back from its bytes.
pub proof fn lemma_word_round_trip(v: u32)
    ensures
        le_bytes(v).len() == 4,
        le_word(le_bytes(v)) == v,
{
}

/// The bytes of `n` words are `4 * n` bytes, and hold those words.
pub proof fn lemma_words_bytes(values: Seq<u32>, n: int)
    requires
        0 <= n <= values.len(),
    ensures
        words_bytes(values, n).len() == 4 * n,
        bytes_words(words_bytes(values, n)) == values.take(n),
    decreases n,
{
    if n > 0 {
        lemma_words_bytes(values, n - 1);
        let prev = words_bytes(values, n - 1);
        let all = words_bytes(values, n);
        assert forall|i: int| 0 <= i < n implies #[trigger] bytes_words(all)[i] == values[i] by {
            if i < n - 1 {
                assert(all.subrange(4 * i, 4 * i + 4) =~= prev.subrange(4 * i, 4 * i + 4));
                assert(bytes_words(prev)[i] == values.take(n - 1)[i]);
            } else {
                assert(all.subrange(4 * i, 4 * i + 4) =~= le_bytes(values[i]));
                lemma_word_round_trip(values[i]);
            }
        }
        assert(bytes_words(all) =~= values.take(n));
    } else {
        assert(bytes_words(words_bytes(values, n)) =~= values.take(n));
    }
}

/// Bytes that hold each of `n` words in its four places are the bytes of those words.
pub proof fn lemma_words_bytes_is(values: Seq<u32>, n: int, bytes: Seq<u8>)
    requires
        0 <= n <= values.len(),
        bytes.len() == 4 * n,
        forall|i: int, k: int|
            0 <= i < n && 0 <= k < 4 ==> bytes[4 * i + k] == le_bytes(values[i])[k],
    ensures
        bytes == words_bytes(values, n),
    decreases n,
{
    if n > 0 {
        let head = bytes.take(4 * (n - 1));
        assert forall|i: int, k: int| 0 <= i < n - 1 && 0 <= k < 4 implies head[4 * i + k]
            == le_bytes(values[i])[k] by {
            assert(head[4 * i + k] == bytes[4 * i + k]);
        }
        lemma_words_bytes_is(values, n - 1, head);
        let tail = le_bytes(values[n - 1]);
        assert forall|x: int| 0 <= x < bytes.len() implies bytes[x] == (head + tail)[x] by {
            if x >= 4 * (n - 1) {
                let k = x - 4 * (n - 1);
                assert(bytes[4 * (n - 1) + k] == le_bytes(values[n - 1])[k]);
            }
        }
        assert(bytes =~= head + tail);
    } else {
        assert(bytes =~= words_bytes(values, n));
    }
}

/// The binary form of a matrix, before compression.
pub fn to_bytes(
    expressions: &Vec<Vec<u32>>,
    bit_vecs: &Vec<Vec<u8>>,
    num_cells: usize,
    num_features: usize,
) -> (r: Result<Vec<u8>, FormatError>)
    ensures
        match matrix_fault(
            rows(bit_vecs@),
            counts(rows(expressions@)),
            num_cells as int,
            num_features as int,
        ) {
            Some(e) => r == Err::<Vec<u8>, FormatError>(e),
            None => r is Ok && r->Ok_0@ == eds_bytes(
                rows(bit_vecs@),
                rows(expressions@),
                num_cells as int,
            ),
        },
{
    let ghost bvs = rows(bit_vecs@);
    let ghost values = rows(expressions@);
    if let Err(e) = check_matrix(bit_vecs, expressions, num_cells, num_features) {
        return Err(e);
    }
    let mut out: Vec<u8> = Vec::new();
    let mut i: usize = 0;
    while i < num_cells
        invariant
            i <= num_cells,
            bit_vecs.len() == num_cells,
            expressions.len() == num_cells,
            bvs == rows(bit_vecs@),
            values == rows(expressions@),
            out@ == eds_bytes(bvs, values, i as int),
        decreases num_cells - i,
    {
        let exp = &expressions[i];
        push_bytes(&mut out, &bit_vecs[i]);
        let mut bin_exp: Vec<u8> = Vec::new();
        let mut k: usize = 0;
        while k < exp.len()
            invariant
                k <= exp.len(),
                bin_exp.len() == 4 * k,
            decreases exp.len() - k,
        {
            bin_exp.push(0);
            bin_exp.push(0);
            bin_exp.push(0);
            bin_exp.push(0);
            k = k + 1;
        }
        write_words(exp, &mut bin_exp);
        proof {
            lemma_words_bytes_is(exp@, exp@.len() as int, bin_exp@);
        }
        push_bytes(&mut out, &bin_exp);
        i = i + 1;
    }
    Ok(out)
}

/// The gzip file of the binary form of a matrix.
pub fn writer(
    expressions: Vec<Vec<u32>>,
    bit_vecs: Vec<Vec<u8>>,
    num_cells: usize,
    num_features: usize,
) -> (r: Result<Vec<u8>, FormatError>)
    ensures
        match matrix_fault(
            rows(bit_vecs@),
            counts(rows(expressions@)),
            num_cells as int,
            num_features as int,
        ) {
            Some(e) => r == Err::<Vec<u8>, FormatError>(e),
            None => r is Ok && r->Ok_0@ == gzip_encoded(
                eds_bytes(rows(bit_vecs@), rows(expressions@), num_cells as int),
            ),
        },
{
    match to_bytes(&expressions, &bit_vecs, num_cells, num_features) {
        Ok(bytes) => Ok(compress(&bytes)),
        Err(e) => Err(e),
    }
}

/// The bit vector of the cell that starts at byte `pos`.
pub open spec fn bits_at(data: Seq<u8>, pos: int, g: int) -> Seq<u8> {
    data.subrange(pos, pos + byte_len(g))
}

/// The byte at which the cell that starts at byte `pos` ends.
pub open spec fn cell_end(data: Seq<u8>, pos: int, g: int) -> int {
    pos + byte_len(g) + 4 * popcount(bits_at(data, pos, g))
}

/// The values of the cell that starts at byte `pos`.
pub open spec fn values_at(data: Seq<u8>, pos: int, g: int) -> Seq<u32> {
    bytes_words(data.subrange(pos + byte_len(g), cell_end(data, pos, g)))
}

/// What is wrong with the cell that starts at byte `pos`: the first of a
/// bit vector that the input ends in, a marked feature that is not below
/// `g`, and values that the input ends in.
pub open spec fn fault_at(data: Seq<u8>, pos: int, g: int) -> Option<FormatError> {
    let left = data.len() - pos;
    let bv = bits_at(data, pos, g);
    if left < byte_len(g) {
        Some(FormatError::TruncatedBits { expected: byte_len(g) as usize, found: left as usize })
    } else if bits_fault(bv, g) is Some {
        bits_fault(bv, g)
    } else if (left - byte_len(g)) / 4 < popcount(bv) {
        Some(
            FormatError::TruncatedValues {
                expected: popcount(bv) as usize,
                found: ((left - byte_len(g)) / 4) as usize,
            },
        )
    } else {
        None
    }
}

/// The byte at which cell `k` starts.
pub open spec fn cell_start(data: Seq<u8>, g: int, k: int) -> int
    decreases k,
{
    if k <= 0 {
        0
    } else {
        cell_end(data, cell_start(data, g, k - 1), g)
    }
}

/// The fault of the first faulty cell among the first `n`.
pub open spec fn decode_fault(data: Seq<u8>, g: int, n: int) -> Option<FormatError>
    decreases n,
{
    if n <= 0 {
        None
    } else if decode_fault(data, g, n - 1) is Some {
        decode_fault(data, g, n - 1)
    } else {
        fault_at(data, cell_start(data, g, n - 1), g)
    }
}

/// The bit vectors of the first `c` cells.
pub open spec fn decoded_bits(data: Seq<u8>, c: int, g: int) -> Seq<Seq<u8>> {
    Seq::new(c as nat, |k: int| bits_at(data, cell_start(data, g, k), g))
}

/// The values of the first `c` cells.
pub open spec fn decoded_values(data: Seq<u8>, c: int, g: int) -> Seq<Seq<u32>> {
    Seq::new(c as nat, |k: int| values_at(data, cell_start(data, g, k), g))
}

/// The first fault is the fault, however many cells are read after it.
pub proof fn lemma_fault_stays(data: Seq<u8>, g: int, m: int, n: int)
    requires
        m <= n,
        decode_fault(data, g, m) is Some,
    ensures
        decode_fault(data, g, n) == decode_fault(data, g, m),
    decreases n - m,
{
    if m < n {
        lemma_fault_stays(data, g, m, n - 1);
    }
}

/// The bytes of `data` from `from` up to `to`.
pub fn copy_range(data: &Vec<u8>, from: usize, to: usize) -> (out: Vec<u8>)
    requires
        from <= to <= data.len(),
    ensures
        out@ == data@.subrange(from as int, to as int),
{
    let mut out: Vec<u8> = Vec::new();
    let mut i: usize = from;
    while i < to
        invariant
            from <= i <= to <= data.len(),
            out@ == data@.subrange(from as int, i as int),
        decreases to - i,
    {
        out.push(data[i]);
        assert(out@ =~= data@.subrange(from as int, i + 1));
        i = i + 1;
    }
    out
}

/// Reads the first `num_cells` cells of a matrix of `num_genes` features
/// off its binary form: the bit vectors, and the values.
pub fn from_bytes(data: &Vec<u8>, num_cells: usize, num_genes: usize) -> (r: Result<
    (Vec<Vec<u8>>, Vec<Vec<u32>>),
    FormatError,
>)
    ensures
        match decode_fault(data@, num_genes as int, num_cells as int) {
            Some(e) => r == Err::<(Vec<Vec<u8>>, Vec<Vec<u32>>), FormatError>(e),
            None => r is Ok && rows(r->Ok_0.0@) == decoded_bits(
                data@,
                num_cells as int,
                num_genes as int,
            ) && rows(r->Ok_0.1@) == decoded_values(data@, num_cells as int, num_genes as int),
        },
{
    let num_bit_vecs = byte_count(num_genes);
    let mut bit_vecs: Vec<Vec<u8>> = Vec::new();
    let mut expr: Vec<Vec<u32>> = Vec::new();
    let mut pos: usize = 0;
    let mut i: usize = 0;
    while i < num_cells
        invariant
            i <= num_cells,
            num_bit_vecs == byte_len(num_genes as int),
            pos <= data.len(),
            pos == cell_start(data@, num_genes as int, i as int),
            decode_fault(data@, num_genes as int, i as int) is None,
            rows(bit_vecs@) == decoded_bits(data@, i as int, num_genes as int),
            rows(expr@) == decoded_values(data@, i as int, num_genes as int),
        decreases num_cells - i,
    {
        let ghost g = num_genes as int;
        let left = data.len() - pos;
        if left < num_bit_vecs {
            proof {
                lemma_fault_stays(data@, g, i as int + 1, num_cells as int);
            }
            return Err(FormatError::TruncatedBits { expected: num_bit_vecs, found: left });
        }
        let bit_vec = copy_range(data, pos, pos + num_bit_vecs);
        let num_ones = match check_bits(&bit_vec, num_genes) {
            Ok(ones) => ones,
            Err(e) => {
                proof {
                    lemma_fault_stays(data@, g, i as int + 1, num_cells as int);
                }
                return Err(e);
            },
        };
        let rest = left - num_bit_vecs;
        if rest / 4 < num_ones {
            proof {
                lemma_fault_stays(data@, g, i as int + 1, num_cells as int);
            }
            return Err(FormatError::TruncatedValues { expected: num_ones, found: rest / 4 });
        }
        let start = pos + num_bit_vecs;
        let expression = copy_range(data, start, start + 4 * num_ones);
        let mut float_buffer: Vec<u32> = vec![0u32; num_ones];
        read_words(&expression, &mut float_buffer);
        let ghost old_bits = rows(bit_vecs@);
        let ghost old_values = rows(expr@);
        bit_vecs.push(bit_vec);
        expr.push(float_buffer);
        pos = start + 4 * num_ones;
        i = i + 1;
        assert(rows(bit_vecs@) =~= old_bits.push(bit_vec@));
        assert(rows(expr@) =~= old_values.push(float_buffer@));
        assert(rows(bit_vecs@) =~= decoded_bits(data@, i as int, g));
        assert(rows(expr@) =~= decoded_values(data@, i as int, g));
    }
    Ok((bit_vecs, expr))
}

/// Reads a matrix of `num_cells` cells and `num_genes` features off the
/// gzip file `input`, and appends its values to `expr` and its bit vectors
/// to `bit_vecs`. Where the file cannot be read, both stay as they are.
pub fn reader(
    input: &Vec<u8>,
    num_cells: usize,
    num_genes: usize,
    expr: &mut Vec<Vec<u32>>,
    bit_vecs: &mut Vec<Vec<u8>>,
) -> (r: Result<bool, FormatError>)
    ensures
        match gzip_decoded(input@) {
            None => r == Err::<bool, FormatError>(FormatError::Compression) && *final(expr) == *old(
                expr,
            ) && *final(bit_vecs) == *old(bit_vecs),
            Some(data) => match decode_fault(data, num_genes as int, num_cells as int) {
                Some(e) => r == Err::<bool, FormatError>(e) && *final(expr) == *old(expr)
                    && *final(bit_vecs) == *old(bit_vecs),
                None => r == Ok::<bool, FormatError>(true) && rows(final(expr)@) == rows(
                    old(expr)@,
                ) + decoded_values(data, num_cells as int, num_genes as int) && rows(
                    final(bit_vecs)@,
                ) == rows(old(bit_vecs)@) + decoded_bits(
                    data,
                    num_cells as int,
                    num_genes as int,
                ),
            },
        },
{
    let data = match decompress(input) {
        Some(data) => data,
        None => {
            return Err(FormatError::Compression);
        },
    };
    match from_bytes(&data, num_cells, num_genes) {
        Err(e) => Err(e),
        Ok((mut new_bits, mut new_values)) => {
            let ghost more_bits = rows(new_bits@);
            let ghost more_values = rows(new_values@);
            expr.append(&mut new_values);
            bit_vecs.append(&mut new_bits);
            assert(rows(expr@) =~= rows(old(expr)@) + more_values);
            assert(rows(bit_vecs@) =~= rows(old(bit_vecs)@) + more_bits);
            Ok(true)
        },
    }
}

/// What is read without fault is a well-formed matrix: each cell has as
/// many values as its bit vector marks features, all below `g`.
pub proof fn lemma_decoded_well_formed(data: Seq<u8>, c: int, g: int)
    requires
        0 <= c,
        0 <= g,
        decode_fault(data, g, c) is None,
    ensures
        well_formed(decoded_bits(data, c, g), counts(decoded_values(data, c, g)), c, g),
{
    let bvs = decoded_bits(data, c, g);
    let cnts = counts(decoded_values(data, c, g));
    lemma_decoded_cells(data, c, g, c);
    assert forall|i: int| 0 <= i < bvs.len() implies cell_fault(bvs[i], cnts[i], g) is None by {
        let pos = cell_start(data, g, i);
        let bv = bits_at(data, pos, g);
        assert(fault_at(data, pos, g) is None);
        assert(values_at(data, pos, g).len() == popcount(bv));
    }
    lemma_cells_fault(bvs, cnts, g, 0);
}

/// Where the first `n` cells are read without fault, each of them starts
/// within the input and has no fault of its own.
pub proof fn lemma_decoded_cells(data: Seq<u8>, c: int, g: int, n: int)
    requires
        0 <= n <= c,
        0 <= g,
        decode_fault(data, g, n) is None,
    ensures
        0 <= cell_start(data, g, n) <= data.len(),
        forall|i: int|
            0 <= i < n ==> 0 <= #[trigger] cell_start(data, g, i) <= data.len() && fault_at(
                data,
                cell_start(data, g, i),
                g,
            ) is None,
    decreases n,
{
    if n > 0 {
        lemma_decoded_cells(data, c, g, n - 1);
        let pos = cell_start(data, g, n - 1);
        assert(fault_at(data, pos, g) is None);
    }
}

/// Reading goes by the bytes of the cells alone: where the input starts
/// with the binary form of the first `n` cells of a well-formed matrix, the
/// first `n` cells are read without fault, and are those cells.
pub proof fn lemma_decode_prefix(
    bvs: Seq<Seq<u8>>,
    values: Seq<Seq<u32>>,
    g: int,
    n: int,
    data: Seq<u8>,
)
    requires
        0 <= g,
        0 <= n <= bvs.len(),
        bvs.len() == values.len(),
        cells_clean(bvs, counts(values), g),
        eds_bytes(bvs, values, n).len() <= data.len(),
        data.subrange(0, eds_bytes(bvs, values, n).len() as int) == eds_bytes(bvs, values, n),
    ensures
        cell_start(data, g, n) == eds_bytes(bvs, values, n).len(),
        decode_fault(data, g, n) is None,
        forall|k: int|
            0 <= k < n ==> #[trigger] bits_at(data, cell_start(data, g, k), g) == bvs[k],
        forall|k: int|
            0 <= k < n ==> #[trigger] values_at(data, cell_start(data, g, k), g) == values[k],
    decreases n,
{
    if n > 0 {
        let before = eds_bytes(bvs, values, n - 1);
        let all = eds_bytes(bvs, values, n);
        let bv = bvs[n - 1];
        let vals = values[n - 1];
        let words = words_bytes(vals, vals.len() as int);
        assert(all == before + bv + words);
        assert(data.subrange(0, before.len() as int) =~= before) by {
            assert(data.subrange(0, before.len() as int) =~= data.subrange(
                0,
                all.len() as int,
            ).subrange(0, before.len() as int));
        }
        lemma_decode_prefix(bvs, values, g, n - 1, data);
        let pos = cell_start(data, g, n - 1);
        assert(cell_fault(bv, vals.len() as int, g) is None) by {
            assert(counts(values)[n - 1] == vals.len());
        }
        lemma_cell_sound(bv, vals.len() as int, g);
        lemma_words_bytes(vals, vals.len() as int);
        assert(bits_at(data, pos, g) =~= bv) by {
            assert forall|x: int| 0 <= x < bv.len() implies data[pos + x] == bv[x] by {
                assert(data[pos + x] == data.subrange(0, all.len() as int)[pos + x]);
            }
        }
        assert(data.subrange(pos + byte_len(g), cell_end(data, pos, g)) =~= words) by {
            assert forall|x: int| 0 <= x < words.len() implies data[pos + byte_len(g) + x]
                == words[x] by {
                assert(data[pos + byte_len(g) + x] == data.subrange(0, all.len() as int)[pos
                    + byte_len(g) + x]);
            }
        }
        assert(vals.take(vals.len() as int) =~= vals);
    }
}

/// What was written is read back: the binary form of a well-formed matrix
/// reads without fault, as that matrix.
pub proof fn lemma_round_trip(bvs: Seq<Seq<u8>>, values: Seq<Seq<u32>>, c: int, g: int)
    requires
        0 <= c,
        0 <= g,
        well_formed(bvs, counts(values), c, g),
    ensures
        decode_fault(eds_bytes(bvs, values, c), g, c) is None,
        decoded_bits(eds_bytes(bvs, values, c), c, g) == bvs,
        decoded_values(eds_bytes(bvs, values, c), c, g) == values,
{
    let data = eds_bytes(bvs, values, c);
    lemma_cells_fault(bvs, counts(values), g, 0);
    assert(data.subrange(0, data.len() as int) =~= data);
    lemma_decode_prefix(bvs, values, g, c, data);
    assert(decoded_bits(data, c, g) =~= bvs);
    assert(decoded_values(data, c, g) =~= values);
}

} // verus!
