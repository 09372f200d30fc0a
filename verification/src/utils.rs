//! The kinds of file, the naming of an output file after its input file,
//! and the sparse form of per-cell mappings.

use crate::codec::{counts, holds_mapping, mapping_fault, matrix_fault, rows, triplets_to_sparse};
use crate::csv::{csv_text, texts};
use crate::eds::{decode_fault, decoded_bits, decoded_values, eds_bytes};
use crate::error::FormatError;
use crate::gzip::{gzip_decoded, gzip_encoded};
use crate::h5::{csc_fault, is_csc, CscMatrix};
use crate::mtx::{holds_entries, mtx_text, read_fault, text_fault};
use crate::text::lines;
use std::collections::HashMap;
use vstd::prelude::*;
use vstd::string::{StrSliceExecFns, StringExecFns};

verus! {

/// A kind of file, or for an output any other name ending.
#[derive(Clone, Debug, PartialEq)]
pub enum FileType {
    EDS,
    MTX,
    H5,
    CSV,
    Dummy(String),
}

/// Whether `pat` stands in `s` at index `i`.
pub open spec fn occurs_at(s: Seq<char>, pat: Seq<char>, i: int) -> bool {
    0 <= i && i + pat.len() <= s.len() && s.subrange(i, i + pat.len()) == pat
}

/// The least index from `from` on at which `pat` stands in `s`, or the
/// length of `s` where it stands at none.
pub open spec fn first_at(s: Seq<char>, pat: Seq<char>, from: int) -> int
    decreases s.len() - from,
{
    if from < 0 || from >= s.len() || from + pat.len() > s.len() {
        s.len() as int
    } else if occurs_at(s, pat, from) {
        from
    } else {
        first_at(s, pat, from + 1)
    }
}

/// `first_at` yields the least index from `from` on at which `pat` stands.
pub proof fn lemma_first_at(s: Seq<char>, pat: Seq<char>, from: int)
    requires
        0 <= from,
    ensures
        first_at(s, pat, from) <= s.len(),
        from <= first_at(s, pat, from) || s.len() < from,
        first_at(s, pat, from) < s.len() ==> occurs_at(s, pat, first_at(s, pat, from)),
        forall|i: int| from <= i < first_at(s, pat, from) ==> !occurs_at(s, pat, i),
        pat.len() > 0 ==> forall|i: int| from <= i && occurs_at(s, pat, i) ==> first_at(s, pat, from) <= i,
    decreases s.len() - from,
{
    if from < s.len() && from + pat.len() <= s.len() && !occurs_at(s, pat, from) {
        lemma_first_at(s, pat, from + 1);
    }
}

/// Whether `pat` stands somewhere in `s`.
pub open spec fn has(s: Seq<char>, pat: Seq<char>) -> bool {
    first_at(s, pat, 0) < s.len()
}

/// The kind of file that a path names: the last of `.mtx`, `.h5` and
/// `.csv` that stands in it, and `EDS` where none does.
pub open spec fn input_type(path: Seq<char>) -> FileType {
    if has(path, ".csv"@) {
        FileType::CSV
    } else if has(path, ".h5"@) {
        FileType::H5
    } else if has(path, ".mtx"@) {
        FileType::MTX
    } else {
        FileType::EDS
    }
}

/// How many of `.mtx`, `.h5` and `.csv` stand in a path.
pub open spec fn known_endings(path: Seq<char>) -> int {
    (if has(path, ".mtx"@) {
        1int
    } else {
        0int
    }) + (if has(path, ".h5"@) {
        1int
    } else {
        0int
    }) + (if has(path, ".csv"@) {
        1int
    } else {
        0int
    })
}

/// The ending by which a kind of input file is found in a path.
pub open spec fn ending(t: FileType) -> Seq<char> {
    match t {
        FileType::EDS => ".eds"@,
        FileType::MTX => ".mtx"@,
        FileType::H5 => ".h5"@,
        FileType::CSV => ".csv"@,
        FileType::Dummy(name) => name@,
    }
}

/// The ending that the path of an output file of a kind gets.
pub open spec fn output_ending(t: FileType) -> Seq<char> {
    match t {
        FileType::EDS => ".eds.gz"@,
        FileType::MTX => ".mtx.gz"@,
        FileType::H5 => ".h5"@,
        FileType::CSV => ".csv.gz"@,
        FileType::Dummy(name) => name@,
    }
}

/// Whether two kinds are the same kind.
pub open spec fn same_type(a: FileType, b: FileType) -> bool {
    match (a, b) {
        (FileType::EDS, FileType::EDS) => true,
        (FileType::MTX, FileType::MTX) => true,
        (FileType::H5, FileType::H5) => true,
        (FileType::CSV, FileType::CSV) => true,
        (FileType::Dummy(x), FileType::Dummy(y)) => x@ == y@,
        _ => false,
    }
}

/// The path of the output file: the input path up to the ending of its
/// kind, or all of it where that ending is missing, then the ending of the output.
pub open spec fn output_path(path: Seq<char>, otype: FileType) -> Seq<char> {
    path.subrange(0, first_at(path, ending(input_type(path)), 0)) + output_ending(otype)
}

/// The least index at which `pat` stands in `s`, or the length of `s`.
pub fn find(s: &str, pat: &str) -> (r: usize)
    ensures
        r == first_at(s@, pat@, 0),
        r <= s@.len(),
{
    proof {
        lemma_first_at(s@, pat@, 0);
    }
    let n = s.unicode_len();
    let m = pat.unicode_len();
    let mut i: usize = 0;
    while i < n && m <= n - i
        invariant
            n == s@.len(),
            m == pat@.len(),
            i <= n,
            first_at(s@, pat@, 0) == first_at(s@, pat@, i as int),
        decreases n - i,
    {
        let mut k: usize = 0;
        while k < m && s.get_char(i + k) == pat.get_char(k)
            invariant
                n == s@.len(),
                m == pat@.len(),
                k <= m,
                i + m <= n,
                s@.subrange(i as int, i + k) == pat@.subrange(0, k as int),
            decreases m - k,
        {
            assert(s@.subrange(i as int, i + k + 1) =~= s@.subrange(i as int, i + k).push(
                s@[i + k],
            ));
            assert(pat@.subrange(0, k + 1) =~= pat@.subrange(0, k as int).push(pat@[k as int]));
            k = k + 1;
        }
        if k == m {
            assert(pat@.subrange(0, m as int) =~= pat@);
            return i;
        }
        assert(!occurs_at(s@, pat@, i as int)) by {
            if occurs_at(s@, pat@, i as int) {
                assert(s@.subrange(i as int, i + m)[k as int] == pat@[k as int]);
            }
        }
        i = i + 1;
    }
    n
}

/// The kind of the input file named by `input_path`, and the path of the
/// output file of kind `otype`.
pub fn get_output_path(input_path: &str, otype: FileType) -> (r: (FileType, String))
    requires
        known_endings(input_path@) <= 1,
        !same_type(input_type(input_path@), otype),
    ensures
        r.0 == input_type(input_path@),
        r.1@ == output_path(input_path@, otype),
{
    let len = input_path.unicode_len();
    let mut itype = FileType::EDS;
    let mut offset = find(input_path, ".eds");
    let at_mtx = find(input_path, ".mtx");
    if at_mtx < len {
        offset = at_mtx;
        itype = FileType::MTX;
    }
    let at_h5 = find(input_path, ".h5");
    if at_h5 < len {
        offset = at_h5;
        itype = FileType::H5;
    }
    let at_csv = find(input_path, ".csv");
    if at_csv < len {
        offset = at_csv;
        itype = FileType::CSV;
    }
    let mut opath = String::from_str(input_path.substring_char(0, offset));
    match otype {
        FileType::MTX => opath.append(".mtx.gz"),
        FileType::CSV => opath.append(".csv.gz"),
        FileType::H5 => opath.append(".h5"),
        FileType::EDS => opath.append(".eds.gz"),
        FileType::Dummy(name) => opath.append(name.as_str()),
    }
    (itype, opath)
}

/// The one kind of output file that was asked for.
pub fn find_output_format(mtx: bool, csv: bool, h5: bool, eds: bool) -> (r: FileType)
    requires
        (if mtx { 1int } else { 0int }) + (if csv { 1int } else { 0int }) + (if h5 { 1int } else { 0int })
            + (if eds { 1int } else { 0int }) == 1,
    ensures
        mtx ==> r == FileType::MTX,
        csv ==> r == FileType::CSV,
        h5 ==> r == FileType::H5,
        eds ==> r == FileType::EDS,
{
    if eds {
        FileType::EDS
    } else if h5 {
        FileType::H5
    } else if csv {
        FileType::CSV
    } else {
        FileType::MTX
    }
}

/// How many of `.mtx`, `.h5` and `.csv` stand in a path.
pub fn count_known_endings(input_path: &str) -> (found: usize)
    ensures
        found == known_endings(input_path@),
{
    let len = input_path.unicode_len();
    let mut found: usize = 0;
    if find(input_path, ".mtx") < len {
        found = found + 1;
    }
    if find(input_path, ".h5") < len {
        found = found + 1;
    }
    if find(input_path, ".csv") < len {
        found = found + 1;
    }
    found
}

/// The kind of file that a path names.
pub fn input_file_type(input_path: &str) -> (itype: FileType)
    ensures
        itype == input_type(input_path@),
{
    let len = input_path.unicode_len();
    if find(input_path, ".csv") < len {
        FileType::CSV
    } else if find(input_path, ".h5") < len {
        FileType::H5
    } else if find(input_path, ".mtx") < len {
        FileType::MTX
    } else {
        FileType::EDS
    }
}

/// Whether two kinds are the same kind.
pub fn is_same_type(a: &FileType, b: &FileType) -> (r: bool)
    ensures
        r == same_type(*a, *b),
{
    match (a, b) {
        (FileType::EDS, FileType::EDS) => true,
        (FileType::MTX, FileType::MTX) => true,
        (FileType::H5, FileType::H5) => true,
        (FileType::CSV, FileType::CSV) => true,
        (FileType::Dummy(x), FileType::Dummy(y)) => x.eq(y),
        _ => false,
    }
}

/// The values of a matrix in one of the two forms that files hold them
/// in: the 32-bit patterns of the numbers, or the tokens that spell them.
#[derive(Debug, Clone, PartialEq, Eq)]
pub enum Values {
    Patterns(Vec<Vec<u32>>),
    Tokens(Vec<Vec<Vec<u8>>>),
}

/// What a matrix is written as: the bytes of a file, or the layout that
/// goes into a container.
#[derive(Debug, Clone, PartialEq, Eq)]
pub enum Output {
    Bytes(Vec<u8>),
    Layout(CscMatrix),
}

/// Whether values in the form of `alphas` can be written as a file of the
/// kind `file_type`: the two texts take tokens, the binary form and the
/// container take patterns.
pub open spec fn fits(file_type: FileType, alphas: Values) -> bool {
    match file_type {
        FileType::MTX => alphas is Tokens,
        FileType::CSV => alphas is Tokens,
        FileType::EDS => alphas is Patterns,
        FileType::H5 => alphas is Patterns,
        FileType::Dummy(_) => false,
    }
}

/// Whether `alphas` can be written as a file of the kind `file_type`.
pub fn check_fits(file_type: &FileType, alphas: &Values) -> (r: bool)
    ensures
        r == fits(*file_type, *alphas),
{
    match (file_type, alphas) {
        (FileType::MTX, Values::Tokens(_)) => true,
        (FileType::CSV, Values::Tokens(_)) => true,
        (FileType::EDS, Values::Patterns(_)) => true,
        (FileType::H5, Values::Patterns(_)) => true,
        _ => false,
    }
}

/// Writes a matrix as a file of the kind asked for.
pub fn write_file(
    file_type: FileType,
    bit_vecs: Vec<Vec<u8>>,
    alphas: Values,
    num_cells: usize,
    num_features: usize,
) -> (r: Result<Output, FormatError>)
    requires
        fits(file_type, alphas),
    ensures
        match (file_type, alphas) {
            (FileType::MTX, Values::Tokens(tokens)) => match text_fault(
                rows(bit_vecs@),
                counts(texts(tokens@)),
                num_cells as int,
                num_features as int,
            ) {
                Some(e) => r == Err::<Output, FormatError>(e),
                None => r is Ok && r->Ok_0 is Bytes && r->Ok_0->Bytes_0@ == gzip_encoded(
                    mtx_text(
                        rows(bit_vecs@),
                        texts(tokens@),
                        num_cells as int,
                        num_features as int,
                    ),
                ),
            },
            (FileType::CSV, Values::Tokens(tokens)) => match matrix_fault(
                rows(bit_vecs@),
                counts(texts(tokens@)),
                num_cells as int,
                num_features as int,
            ) {
                Some(e) => r == Err::<Output, FormatError>(e),
                None => r is Ok && r->Ok_0 is Bytes && r->Ok_0->Bytes_0@ == gzip_encoded(
                    csv_text(
                        rows(bit_vecs@),
                        texts(tokens@),
                        num_cells as int,
                        num_features as int,
                    ),
                ),
            },
            (FileType::EDS, Values::Patterns(patterns)) => match matrix_fault(
                rows(bit_vecs@),
                counts(rows(patterns@)),
                num_cells as int,
                num_features as int,
            ) {
                Some(e) => r == Err::<Output, FormatError>(e),
                None => r is Ok && r->Ok_0 is Bytes && r->Ok_0->Bytes_0@ == gzip_encoded(
                    eds_bytes(rows(bit_vecs@), rows(patterns@), num_cells as int),
                ),
            },
            (FileType::H5, Values::Patterns(patterns)) => match csc_fault(
                rows(bit_vecs@),
                counts(rows(patterns@)),
                num_cells as int,
                num_features as int,
            ) {
                Some(e) => r == Err::<Output, FormatError>(e),
                None => r is Ok && r->Ok_0 is Layout && is_csc(
                    r->Ok_0->Layout_0,
                    rows(bit_vecs@),
                    rows(patterns@),
                    num_cells as int,
                    num_features as int,
                ),
            },
            _ => true,
        },
{
    match (file_type, alphas) {
        (FileType::MTX, Values::Tokens(tokens)) => {
            match crate::mtx::writer(tokens, bit_vecs, num_cells, num_features) {
                Ok(bytes) => Ok(Output::Bytes(bytes)),
                Err(e) => Err(e),
            }
        },
        (FileType::CSV, Values::Tokens(tokens)) => {
            match crate::csv::writer(tokens, bit_vecs, num_cells, num_features) {
                Ok(bytes) => Ok(Output::Bytes(bytes)),
                Err(e) => Err(e),
            }
        },
        (FileType::EDS, Values::Patterns(patterns)) => {
            match crate::eds::writer(patterns, bit_vecs, num_cells, num_features) {
                Ok(bytes) => Ok(Output::Bytes(bytes)),
                Err(e) => Err(e),
            }
        },
        (FileType::H5, Values::Patterns(patterns)) => {
            match crate::h5::writer(patterns, bit_vecs, num_cells, num_features) {
                Ok(layout) => Ok(Output::Layout(layout)),
                Err(e) => Err(e),
            }
        },
        _ => {
            assert(false);
            Err(FormatError::Malformed)
        },
    }
}

/// Reads a matrix off a file of the binary form or of the coordinate
/// text: the bit vectors, and the values in the form that the file holds
/// them in.
pub fn read_file(input: &Vec<u8>, file_type: FileType, num_cells: usize, num_features: usize) -> (r:
    Result<(Vec<Vec<u8>>, Values), FormatError>)
    requires
        file_type is EDS || file_type is MTX,
    ensures
        match gzip_decoded(input@) {
            None => r == Err::<(Vec<Vec<u8>>, Values), FormatError>(FormatError::Compression),
            Some(data) => if file_type is EDS {
                match decode_fault(data, num_features as int, num_cells as int) {
                    Some(e) => r == Err::<(Vec<Vec<u8>>, Values), FormatError>(e),
                    None => r is Ok && rows(r->Ok_0.0@) == decoded_bits(
                        data,
                        num_cells as int,
                        num_features as int,
                    ) && r->Ok_0.1 is Patterns && rows(r->Ok_0.1->Patterns_0@) == decoded_values(
                        data,
                        num_cells as int,
                        num_features as int,
                    ),
                }
            } else {
                match read_fault(lines(data), num_cells as int, num_features as int) {
                    Some(e) => r == Err::<(Vec<Vec<u8>>, Values), FormatError>(e),
                    None => r is Ok && r->Ok_0.0@.len() == num_cells && r->Ok_0.1 is Tokens
                        && r->Ok_0.1->Tokens_0@.len() == num_cells && forall|i: int|
                        0 <= i < num_cells ==> holds_entries(
                            (#[trigger] r->Ok_0.0@[i])@,
                            rows(r->Ok_0.1->Tokens_0@[i]@),
                            lines(data),
                            i,
                            num_features as int,
                        ),
                }
            },
        },
{
    let mut bit_vecs: Vec<Vec<u8>> = Vec::new();
    match file_type {
        FileType::EDS => {
            let mut alphas: Vec<Vec<u32>> = Vec::new();
            match crate::eds::reader(input, num_cells, num_features, &mut alphas, &mut bit_vecs) {
                Ok(_) => {
                    assert(rows(Seq::<Vec<u32>>::empty()) =~= Seq::<Seq<u32>>::empty());
                    assert(rows(Seq::<Vec<u8>>::empty()) =~= Seq::<Seq<u8>>::empty());
                    Ok((bit_vecs, Values::Patterns(alphas)))
                },
                Err(e) => Err(e),
            }
        },
        _ => {
            let mut alphas: Vec<Vec<Vec<u8>>> = Vec::new();
            match crate::mtx::reader(input, num_cells, num_features, &mut alphas, &mut bit_vecs) {
                Ok(_) => Ok((bit_vecs, Values::Tokens(alphas))),
                Err(e) => Err(e),
            }
        },
    }
}

/// The fault of the first faulty mapping from mapping `from` on.
pub open spec fn triplets_fault(maps: Seq<Map<u32, u32>>, g: int, from: int) -> Option<FormatError>
    decreases maps.len() - from,
{
    if from >= maps.len() {
        None
    } else if mapping_fault(maps[from].dom(), g) is Some {
        mapping_fault(maps[from].dom(), g)
    } else {
        triplets_fault(maps, g, from + 1)
    }
}

/// The mappings of the cells of a matrix.
pub open spec fn mappings(triplets: Seq<HashMap<u32, u32>>) -> Seq<Map<u32, u32>> {
    Seq::new(triplets.len(), |i: int| triplets[i]@)
}

/// Appends the sparse form of each mapping from features to values to
/// `expr`, the values, and `bit_vecs`, the bit vectors. Where a mapping
/// has a feature that is not below `num_genes`, both stay as they are.
pub fn triplets_to_eds(
    triplets: &Vec<HashMap<u32, u32>>,
    expr: &mut Vec<Vec<u32>>,
    bit_vecs: &mut Vec<Vec<u8>>,
    num_genes: usize,
) -> (r: Result<(), FormatError>)
    ensures
        match triplets_fault(mappings(triplets@), num_genes as int, 0) {
            Some(e) => r == Err::<(), FormatError>(e) && *final(expr) == *old(expr)
                && *final(bit_vecs) == *old(bit_vecs),
            None => {
                &&& r is Ok
                &&& final(expr)@.len() == old(expr)@.len() + triplets@.len()
                &&& final(bit_vecs)@.len() == old(bit_vecs)@.len() + triplets@.len()
                &&& final(expr)@.take(old(expr)@.len() as int) == old(expr)@
                &&& final(bit_vecs)@.take(old(bit_vecs)@.len() as int) == old(bit_vecs)@
                &&& forall|i: int|
                    old(bit_vecs)@.len() <= i < final(bit_vecs)@.len() ==> holds_mapping(
                        (#[trigger] final(bit_vecs)@[i])@,
                        final(expr)@[old(expr)@.len() + (i - old(bit_vecs)@.len())]@,
                        triplets@[i - old(bit_vecs)@.len()]@,
                        num_genes as int,
                    )
            },
        },
{
    let ghost maps = mappings(triplets@);
    let mut new_values: Vec<Vec<u32>> = Vec::new();
    let mut new_bits: Vec<Vec<u8>> = Vec::new();
    let mut i: usize = 0;
    while i < triplets.len()
        invariant
            i <= triplets.len(),
            maps == mappings(triplets@),
            triplets_fault(maps, num_genes as int, 0) == triplets_fault(
                maps,
                num_genes as int,
                i as int,
            ),
            new_values@.len() == i,
            new_bits@.len() == i,
            forall|x: int|
                0 <= x < i ==> holds_mapping(
                    (#[trigger] new_bits@[x])@,
                    new_values@[x]@,
                    triplets@[x]@,
                    num_genes as int,
                ),
        decreases triplets.len() - i,
    {
        match triplets_to_sparse(&triplets[i], num_genes) {
            Err(e) => {
                return Err(e);
            },
            Ok((bit_vec, values)) => {
                new_values.push(values);
                new_bits.push(bit_vec);
            },
        }
        i = i + 1;
    }
    let ghost added_values = new_values@;
    let ghost added_bits = new_bits@;
    expr.append(&mut new_values);
    bit_vecs.append(&mut new_bits);
    proof {
        assert(expr@.take(old(expr)@.len() as int) =~= old(expr)@);
        assert(bit_vecs@.take(old(bit_vecs)@.len() as int) =~= old(bit_vecs)@);
        assert forall|i: int| old(bit_vecs)@.len() <= i < bit_vecs@.len() implies holds_mapping(
            (#[trigger] bit_vecs@[i])@,
            expr@[old(expr)@.len() + (i - old(bit_vecs)@.len())]@,
            triplets@[i - old(bit_vecs)@.len()]@,
            num_genes as int,
        ) by {
            let x = i - old(bit_vecs)@.len();
            assert(bit_vecs@[i] == added_bits[x]);
            assert(expr@[old(expr)@.len() + x] == added_values[x]);
        }
    }
    Ok(())
}

/// Whether `order` names each of the cells `0` to `n - 1` once.
pub open spec fn is_permutation(order: Seq<usize>, n: int) -> bool {
    &&& order.len() == n
    &&& order.no_duplicates()
    &&& forall|i: int| 0 <= i < order.len() ==> #[trigger] order[i] < n
}

/// The cells of `m` in the order `order`.
pub open spec fn picked<T>(m: Seq<Seq<T>>, order: Seq<usize>) -> Seq<Seq<T>> {
    Seq::new(order.len(), |i: int| m[order[i] as int])
}

/// The first of `order` that names no cell of `n`, where there is one.
pub open spec fn first_stranger(order: Seq<usize>, n: int, from: int) -> Option<int>
    decreases order.len() - from,
{
    if from >= order.len() {
        None
    } else if order[from] >= n {
        Some(from)
    } else {
        first_stranger(order, n, from + 1)
    }
}

/// Why the cells cannot be put in the order `order`: there are not as many
/// value lists as bit vectors, or the order names a cell that is not there.
pub open spec fn reorder_fault(num_bits: int, num_values: int, order: Seq<usize>) -> Option<
    FormatError,
> {
    if num_values != num_bits {
        Some(FormatError::CellCount { expected: num_bits as usize, found: num_values as usize })
    } else {
        match first_stranger(order, num_bits, 0) {
            Some(i) => Some(
                FormatError::CellRange { cell: order[i], limit: num_bits as usize },
            ),
            None => None,
        }
    }
}

/// A copy of a bit vector.
pub fn copy_bits(src: &Vec<u8>) -> (out: Vec<u8>)
    ensures
        out@ == src@,
{
    let mut out: Vec<u8> = Vec::new();
    let mut i: usize = 0;
    while i < src.len()
        invariant
            i <= src.len(),
            out@ == src@.take(i as int),
        decreases src.len() - i,
    {
        out.push(src[i]);
        assert(out@ =~= src@.take(i + 1));
        i = i + 1;
    }
    assert(src@.take(src@.len() as int) =~= src@);
    out
}

/// A copy of a list of values.
pub fn copy_values(src: &Vec<u32>) -> (out: Vec<u32>)
    ensures
        out@ == src@,
{
    let mut out: Vec<u32> = Vec::new();
    let mut i: usize = 0;
    while i < src.len()
        invariant
            i <= src.len(),
            out@ == src@.take(i as int),
        decreases src.len() - i,
    {
        out.push(src[i]);
        assert(out@ =~= src@.take(i + 1));
        i = i + 1;
    }
    assert(src@.take(src@.len() as int) =~= src@);
    out
}

/// The cells of a matrix in the order `order`: cell `i` of the outcome is
/// cell `order[i]` of the matrix.
pub fn reorder(bit_vecs: &Vec<Vec<u8>>, alphas: &Vec<Vec<u32>>, order: &Vec<usize>) -> (r: Result<
    (Vec<Vec<u8>>, Vec<Vec<u32>>),
    FormatError,
>)
    ensures
        match reorder_fault(bit_vecs@.len() as int, alphas@.len() as int, order@) {
            Some(e) => r == Err::<(Vec<Vec<u8>>, Vec<Vec<u32>>), FormatError>(e),
            None => r is Ok && rows(r->Ok_0.0@) == picked(rows(bit_vecs@), order@) && rows(
                r->Ok_0.1@,
            ) == picked(rows(alphas@), order@),
        },
{
    let n = bit_vecs.len();
    if alphas.len() != n {
        return Err(FormatError::CellCount { expected: n, found: alphas.len() });
    }
    let mut shuf_bvecs: Vec<Vec<u8>> = Vec::new();
    let mut shuf_alphas: Vec<Vec<u32>> = Vec::new();
    let mut nindex: usize = 0;
    while nindex < order.len()
        invariant
            nindex <= order.len(),
            n == bit_vecs@.len(),
            n == alphas@.len(),
            first_stranger(order@, n as int, 0) == first_stranger(order@, n as int, nindex as int),
            shuf_bvecs@.len() == nindex,
            shuf_alphas@.len() == nindex,
            forall|i: int| 0 <= i < nindex ==> order@[i] < n,
            forall|i: int|
                0 <= i < nindex ==> (#[trigger] shuf_bvecs@[i])@ == bit_vecs@[order@[i] as int]@,
            forall|i: int|
                0 <= i < nindex ==> (#[trigger] shuf_alphas@[i])@ == alphas@[order@[i] as int]@,
        decreases order.len() - nindex,
    {
        let oindex = order[nindex];
        if oindex >= n {
            return Err(FormatError::CellRange { cell: oindex, limit: n });
        }
        shuf_bvecs.push(copy_bits(&bit_vecs[oindex]));
        shuf_alphas.push(copy_values(&alphas[oindex]));
        nindex = nindex + 1;
    }
    assert(rows(shuf_bvecs@) =~= picked(rows(bit_vecs@), order@));
    assert(rows(shuf_alphas@) =~= picked(rows(alphas@), order@));
    Ok((shuf_bvecs, shuf_alphas))
}

/// Calls `rand::seq::SliceRandom::shuffle` on the items with the
/// generator of `rand::thread_rng`. The shuffle swaps items of the slice
/// with one another, so the same items are there afterwards, each as often
/// as before; in which order, chance decides. Where the generator cannot
/// be seeded by the system, the call panics.
#[verifier::external_body]
pub(crate) fn shuffle(order: &mut Vec<usize>)
    ensures
        final(order)@.to_multiset() == old(order)@.to_multiset(),
{
    rand::seq::SliceRandom::shuffle(&mut order[..], &mut rand::thread_rng());
}

/// The cells `0` to `n - 1`, in their order.
pub fn identity_order(n: usize) -> (order: Vec<usize>)
    ensures
        order@.len() == n,
        forall|i: int| 0 <= i < n ==> order@[i] == i,
{
    let mut order: Vec<usize> = Vec::new();
    let mut i: usize = 0;
    while i < n
        invariant
            i <= n,
            order@.len() == i,
            forall|x: int| 0 <= x < i ==> order@[x] == x,
        decreases n - i,
    {
        order.push(i);
        i = i + 1;
    }
    order
}

/// The cells of a matrix in an order that chance picks.
pub fn randomize(bit_vecs: Vec<Vec<u8>>, alphas: Vec<Vec<u32>>) -> (r: Result<
    (Vec<Vec<u8>>, Vec<Vec<u32>>),
    FormatError,
>)
    ensures
        bit_vecs@.len() != alphas@.len() ==> r == Err::<
            (Vec<Vec<u8>>, Vec<Vec<u32>>),
            FormatError,
        >(FormatError::CellCount { expected: bit_vecs@.len() as usize, found: alphas@.len() as usize }),
        bit_vecs@.len() == alphas@.len() ==> r is Ok && exists|order: Seq<usize>|
            #![auto]
            is_permutation(order, bit_vecs@.len() as int) && rows(r->Ok_0.0@) == picked(
                rows(bit_vecs@),
                order,
            ) && rows(r->Ok_0.1@) == picked(rows(alphas@), order),
{
    broadcast use vstd::seq_lib::to_multiset_contains;

    let n = bit_vecs.len();
    if alphas.len() != n {
        return Err(FormatError::CellCount { expected: n, found: alphas.len() });
    }
    let mut order = identity_order(n);
    let ghost start = order@;
    shuffle(&mut order);
    proof {
        assert(start.no_duplicates());
        start.lemma_multiset_has_no_duplicates();
        order@.lemma_multiset_has_no_duplicates_conv();
        vstd::seq_lib::to_multiset_len(start);
        vstd::seq_lib::to_multiset_len(order@);
        assert forall|i: int| 0 <= i < order@.len() implies #[trigger] order@[i] < n by {
            let x = order@[i];
            assert(order@.contains(x));
            assert(order@.to_multiset().count(x) == start.to_multiset().count(x));
            assert(start.contains(x));
        }
        assert(is_permutation(order@, n as int));
        lemma_no_stranger(order@, n as int, 0);
    }
    reorder(&bit_vecs, &alphas, &order)
}

/// An order that names cells of `n` alone has no stranger.
pub proof fn lemma_no_stranger(order: Seq<usize>, n: int, from: int)
    requires
        0 <= from,
        forall|i: int| 0 <= i < order.len() ==> #[trigger] order[i] < n,
    ensures
        first_stranger(order, n, from) is None,
    decreases order.len() - from,
{
    if from < order.len() {
        lemma_no_stranger(order, n, from + 1);
    }
}

} // verus!
