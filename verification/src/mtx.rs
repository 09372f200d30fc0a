//! The coordinate text form of a matrix: a banner, a line with its size,
//! then one line for every value, with the cell and the feature counted
//! from 1.
//!
//! A value is the token that stands in the file; what number a token
//! spells is not looked at here.

use crate::bits::{
    bit_at, bit_len, byte_len, lemma_positions, lemma_positions_len, popcount, set_bits,
};
use crate::codec::{
    cell_fault, cells_clean, check_matrix, counts, feature_ids, lemma_cell_sound, lemma_cells_fault,
    lemma_first_marked_is, lemma_total_grows, mapping_fault, matrix_fault, rows, total,
    triplets_to_sparse, well_formed,
};
use crate::csv::texts;
use crate::eds::copy_range;
use crate::error::FormatError;
use crate::gzip::{compress, decompress, gzip_decoded, gzip_encoded};
use crate::text::{
    ascii, decimal, field, field_end, field_start, has_field, lines, next_field, number,
    parse_number, push_bytes, push_decimal, push_str, split_lines, NEWLINE, TAB,
};
use std::collections::HashMap;
use vstd::prelude::*;

verus! {

/// The first line, with its end.
pub open spec fn banner() -> Seq<u8> {
    ascii("%%MatrixMarket\tmatrix\tcoordinate\treal\tgeneral\n"@)
}

/// The line with the numbers of cells, of features and of values.
pub open spec fn size_line(c: int, g: int, nnz: int) -> Seq<u8> {
    decimal(c as nat) + seq![TAB] + decimal(g as nat) + seq![TAB] + decimal(nnz as nat)
        + seq![NEWLINE]
}

/// The line of one value: the cell and the feature, both counted from 0
/// here and from 1 in the line, and the token.
pub open spec fn entry_line(cell: int, feature: int, token: Seq<u8>) -> Seq<u8> {
    decimal((cell + 1) as nat) + seq![TAB] + decimal((feature + 1) as nat) + seq![TAB] + token
        + seq![NEWLINE]
}

/// The lines of the first `n` values of a cell.
pub open spec fn cell_lines(cell: int, bv: Seq<u8>, tokens: Seq<Seq<u8>>, n: int) -> Seq<u8>
    decreases n,
{
    if n <= 0 {
        Seq::empty()
    } else {
        cell_lines(cell, bv, tokens, n - 1) + entry_line(cell, set_bits(bv)[n - 1], tokens[n - 1])
    }
}

/// The lines of all values of the first `n` cells.
pub open spec fn cells_lines(bvs: Seq<Seq<u8>>, tokens: Seq<Seq<Seq<u8>>>, n: int) -> Seq<u8>
    decreases n,
{
    if n <= 0 {
        Seq::empty()
    } else {
        cells_lines(bvs, tokens, n - 1) + cell_lines(
            n - 1,
            bvs[n - 1],
            tokens[n - 1],
            tokens[n - 1].len() as int,
        )
    }
}

/// The whole text of a matrix of `c` cells and `g` features.
pub open spec fn mtx_text(bvs: Seq<Seq<u8>>, tokens: Seq<Seq<Seq<u8>>>, c: int, g: int) -> Seq<u8> {
    banner() + size_line(c, g, total(counts(tokens), c)) + cells_lines(bvs, tokens, c)
}

/// Why a matrix has no such text: it is not well formed, or the number of
/// its values is more than the machine counts.
pub open spec fn text_fault(bvs: Seq<Seq<u8>>, cnts: Seq<int>, c: int, g: int) -> Option<
    FormatError,
> {
    if matrix_fault(bvs, cnts, c, g) is Some {
        matrix_fault(bvs, cnts, c, g)
    } else if total(cnts, c) > usize::MAX {
        Some(FormatError::TooLarge { limit: usize::MAX })
    } else {
        None
    }
}

/// The coordinate text of a matrix, before compression.
pub fn to_text(
    expressions: &Vec<Vec<Vec<u8>>>,
    bit_vecs: &Vec<Vec<u8>>,
    num_cells: usize,
    num_features: usize,
) -> (r: Result<Vec<u8>, FormatError>)
    ensures
        match text_fault(
            rows(bit_vecs@),
            counts(texts(expressions@)),
            num_cells as int,
            num_features as int,
        ) {
            Some(e) => r == Err::<Vec<u8>, FormatError>(e),
            None => r is Ok && r->Ok_0@ == mtx_text(
                rows(bit_vecs@),
                texts(expressions@),
                num_cells as int,
                num_features as int,
            ),
        },
{
    let ghost bvs = rows(bit_vecs@);
    let ghost tokens = texts(expressions@);
    let ghost cnts = counts(tokens);
    assert(cnts =~= counts(rows(expressions@)));
    if let Err(e) = check_matrix(bit_vecs, expressions, num_cells, num_features) {
        return Err(e);
    }
    proof {
        lemma_cells_fault(bvs, cnts, num_features as int, 0);
    }
    let mut tot_expressed_features: usize = 0;
    let mut i: usize = 0;
    while i < num_cells
        invariant
            i <= num_cells,
            expressions.len() == num_cells,
            tokens == texts(expressions@),
            cnts == counts(tokens),
            bvs == rows(bit_vecs@),
            matrix_fault(bvs, cnts, num_cells as int, num_features as int) is None,
            tot_expressed_features == total(cnts, i as int),
        decreases num_cells - i,
    {
        let n = expressions[i].len();
        if n > usize::MAX - tot_expressed_features {
            proof {
                lemma_total_grows(cnts, i as int + 1, num_cells as int);
            }
            return Err(FormatError::TooLarge { limit: usize::MAX });
        }
        tot_expressed_features = tot_expressed_features + n;
        i = i + 1;
    }
    let mut out: Vec<u8> = Vec::new();
    proof {
        reveal_strlit("%%MatrixMarket\tmatrix\tcoordinate\treal\tgeneral\n");
    }
    push_str(&mut out, "%%MatrixMarket\tmatrix\tcoordinate\treal\tgeneral\n");
    push_decimal(&mut out, num_cells);
    out.push(TAB);
    push_decimal(&mut out, num_features);
    out.push(TAB);
    push_decimal(&mut out, tot_expressed_features);
    out.push(NEWLINE);
    let ghost head = out@;
    assert(head =~= banner() + size_line(
        num_cells as int,
        num_features as int,
        total(cnts, num_cells as int),
    ));
    assert(out@ =~= head + cells_lines(bvs, tokens, 0));
    let mut cell_id: usize = 0;
    while cell_id < num_cells
        invariant
            cell_id <= num_cells,
            bit_vecs.len() == num_cells,
            expressions.len() == num_cells,
            bvs == rows(bit_vecs@),
            tokens == texts(expressions@),
            cnts == counts(tokens),
            cells_clean(bvs, cnts, num_features as int),
            out@ == head + cells_lines(bvs, tokens, cell_id as int),
        decreases num_cells - cell_id,
    {
        let exp = &expressions[cell_id];
        let ghost bv = bvs[cell_id as int];
        let ghost toks = tokens[cell_id as int];
        let ghost start = out@;
        proof {
            lemma_cell_sound(bv, cnts[cell_id as int], num_features as int);
            lemma_positions(bv, num_features as int);
        }
        let fids = feature_ids(&bit_vecs[cell_id]);
        assert(out@ =~= start + cell_lines(cell_id as int, bv, toks, 0));
        let mut index: usize = 0;
        while index < exp.len()
            invariant
                index <= exp.len(),
                cell_id < num_cells,
                toks == rows(exp@),
                fids@.len() == exp@.len(),
                fids@.map_values(|p: usize| p as int) == set_bits(bv),
                forall|x: int|
                    0 <= x < set_bits(bv).len() ==> 0 <= #[trigger] set_bits(bv)[x] < num_features,
                out@ == start + cell_lines(cell_id as int, bv, toks, index as int),
            decreases exp.len() - index,
        {
            let ghost before = out@;
            assert(set_bits(bv)[index as int] == fids@[index as int]);
            push_decimal(&mut out, cell_id + 1);
            out.push(TAB);
            push_decimal(&mut out, fids[index] + 1);
            out.push(TAB);
            push_bytes(&mut out, &exp[index]);
            out.push(NEWLINE);
            assert(out@ =~= before + entry_line(
                cell_id as int,
                set_bits(bv)[index as int],
                toks[index as int],
            ));
            index = index + 1;
        }
        cell_id = cell_id + 1;
    }
    Ok(out)
}

/// The gzip file of the coordinate text of a matrix.
pub fn writer(
    expressions: Vec<Vec<Vec<u8>>>,
    bit_vecs: Vec<Vec<u8>>,
    num_cells: usize,
    num_features: usize,
) -> (r: Result<Vec<u8>, FormatError>)
    ensures
        match text_fault(
            rows(bit_vecs@),
            counts(texts(expressions@)),
            num_cells as int,
            num_features as int,
        ) {
            Some(e) => r == Err::<Vec<u8>, FormatError>(e),
            None => r is Ok && r->Ok_0@ == gzip_encoded(
                mtx_text(
                    rows(bit_vecs@),
                    texts(expressions@),
                    num_cells as int,
                    num_features as int,
                ),
            ),
        },
{
    match to_text(&expressions, &bit_vecs, num_cells, num_features) {
        Ok(text) => Ok(compress(&text)),
        Err(e) => Err(e),
    }
}

/// The percent sign.
pub const PERCENT: u8 = 37;

/// Whether a line is a comment: it starts with a percent sign.
pub open spec fn is_comment(line: Seq<u8>) -> bool {
    line.len() > 0 && line[0] == PERCENT
}

/// The two numbers that a line of three fields or more starts with, where
/// the first is one that the machine counts and the second fits 32 bits.
pub open spec fn coordinates(line: Seq<u8>) -> Option<(nat, nat)> {
    if !has_field(line, 2) {
        None
    } else {
        match (number(field(line, 0)), number(field(line, 1))) {
            (Some(cell), Some(feature)) => if cell <= usize::MAX && feature <= u32::MAX {
                Some((cell, feature))
            } else {
                None
            },
            _ => None,
        }
    }
}

/// Whether a line that is no comment is among the first `n` lines: the
/// first such line gives the size of the matrix.
pub open spec fn size_seen(ls: Seq<Seq<u8>>, n: int) -> bool
    decreases n,
{
    n > 0 && (size_seen(ls, n - 1) || !is_comment(ls[n - 1]))
}

/// Whether line `i`, counted from 0, gives a value: it is no comment and
/// is not the line with the size.
pub open spec fn is_entry(ls: Seq<Seq<u8>>, i: int) -> bool {
    !is_comment(ls[i]) && size_seen(ls, i)
}

/// What is wrong with a line, which has the number `at` counted from 1, in
/// a matrix of `c` cells and `g` features. A line that is no comment
/// needs three fields, of which the first two spell numbers. The line
/// with the size, which `first` tells, has to give `c` and `g`. A line
/// with a value has to name a cell from 1 to `c` and a feature from 1 to `g`.
pub open spec fn line_fault(line: Seq<u8>, at: int, first: bool, c: int, g: int) -> Option<
    FormatError,
> {
    if is_comment(line) {
        None
    } else {
        match coordinates(line) {
            None => Some(FormatError::Syntax { line: at as usize }),
            Some((cell, feature)) => if first {
                if cell != c || feature != g {
                    Some(
                        FormatError::Dimensions {
                            expected_cells: c as usize,
                            expected_features: g as usize,
                            found_cells: cell as usize,
                            found_features: feature as usize,
                        },
                    )
                } else {
                    None
                }
            } else if cell == 0 || feature == 0 {
                Some(FormatError::Syntax { line: at as usize })
            } else if cell - 1 >= c {
                Some(FormatError::CellRange { cell: (cell - 1) as usize, limit: c as usize })
            } else if feature - 1 >= g {
                Some(
                    FormatError::FeatureRange { feature: (feature - 1) as usize, limit: g as usize },
                )
            } else {
                None
            },
        }
    }
}

/// The fault of the first faulty line among the first `n`.
pub open spec fn lines_fault(ls: Seq<Seq<u8>>, c: int, g: int, n: int) -> Option<FormatError>
    decreases n,
{
    if n <= 0 {
        None
    } else if lines_fault(ls, c, g, n - 1) is Some {
        lines_fault(ls, c, g, n - 1)
    } else {
        line_fault(ls[n - 1], n, !size_seen(ls, n - 1), c, g)
    }
}

/// What is wrong with a text of a matrix of `c` cells and `g` features:
/// the fault of its first faulty line, or that no line gives the size.
pub open spec fn read_fault(ls: Seq<Seq<u8>>, c: int, g: int) -> Option<FormatError> {
    if lines_fault(ls, c, g, ls.len() as int) is Some {
        lines_fault(ls, c, g, ls.len() as int)
    } else if !size_seen(ls, ls.len() as int) {
        Some(FormatError::NoSizeLine)
    } else {
        None
    }
}

/// The last line among the first `n` that gives a value to the feature
/// `feature` of the cell `cell`, both counted from 0, where there is one.
pub open spec fn last_entry(ls: Seq<Seq<u8>>, cell: int, feature: int, n: int) -> Option<int>
    decreases n,
{
    if n <= 0 {
        None
    } else if is_entry(ls, n - 1) && coordinates(ls[n - 1]) == Some(
        ((cell + 1) as nat, (feature + 1) as nat),
    ) {
        Some(n - 1)
    } else {
        last_entry(ls, cell, feature, n - 1)
    }
}

/// Whether the cell with the bit vector `bv` and the tokens `toks` is what
/// the lines give the cell `cell` of a matrix of `g` features: the marked
/// features are those that a line gives a value, and the tokens are the
/// third fields of the last line for each, by ascending feature.
pub open spec fn holds_entries(
    bv: Seq<u8>,
    toks: Seq<Seq<u8>>,
    ls: Seq<Seq<u8>>,
    cell: int,
    g: int,
) -> bool {
    &&& bv.len() == byte_len(g)
    &&& forall|j: int|
        0 <= j < bit_len(bv) ==> (#[trigger] bit_at(bv, j) <==> last_entry(
            ls,
            cell,
            j,
            ls.len() as int,
        ) is Some)
    &&& toks.len() == popcount(bv)
    &&& forall|k: int|
        0 <= k < toks.len() ==> #[trigger] toks[k] == field(
            ls[last_entry(ls, cell, set_bits(bv)[k], ls.len() as int)->0],
            2,
        )
}

/// Whether the mapping `m` gives each feature that one of the first `n`
/// lines gives the cell `cell` a value, and no other, the last such line.
pub open spec fn tracks(m: Map<u32, usize>, ls: Seq<Seq<u8>>, cell: int, n: int) -> bool {
    forall|j: u32|
        (#[trigger] m.dom().contains(j) <==> last_entry(ls, cell, j as int, n) is Some) && (
        m.dom().contains(j) ==> m[j] == last_entry(ls, cell, j as int, n)->0)
}

/// The line that `last_entry` finds is one of the lines looked at, and
/// names the cell and the feature.
pub proof fn lemma_last_entry(ls: Seq<Seq<u8>>, cell: int, feature: int, n: int)
    requires
        last_entry(ls, cell, feature, n) is Some,
    ensures
        0 <= last_entry(ls, cell, feature, n)->0 < n,
        coordinates(ls[last_entry(ls, cell, feature, n)->0]) == Some(
            ((cell + 1) as nat, (feature + 1) as nat),
        ),
        has_field(ls[last_entry(ls, cell, feature, n)->0], 2),
        feature + 1 <= u32::MAX,
    decreases n,
{
    if n > 0 && !(is_entry(ls, n - 1) && coordinates(ls[n - 1]) == Some(
        ((cell + 1) as nat, (feature + 1) as nat),
    )) {
        lemma_last_entry(ls, cell, feature, n - 1);
    }
}

/// The first fault is the fault, however many lines follow it.
pub proof fn lemma_fault_stays(ls: Seq<Seq<u8>>, c: int, g: int, m: int, n: int)
    requires
        m <= n,
        lines_fault(ls, c, g, m) is Some,
    ensures
        lines_fault(ls, c, g, n) == lines_fault(ls, c, g, m),
    decreases n - m,
{
    if m < n {
        lemma_fault_stays(ls, c, g, m, n - 1);
    }
}

/// Where the first `n` lines have no fault, none of them has one.
pub proof fn lemma_no_line_fault(ls: Seq<Seq<u8>>, c: int, g: int, n: int, i: int)
    requires
        0 <= i < n,
        lines_fault(ls, c, g, n) is None,
    ensures
        line_fault(ls[i], i + 1, !size_seen(ls, i), c, g) is None,
    decreases n,
{
    if i < n - 1 {
        lemma_no_line_fault(ls, c, g, n - 1, i);
    }
}

/// The line that `last_entry` finds gives a value, so it is not the
/// first line that is no comment.
pub proof fn lemma_last_entry_is_entry(ls: Seq<Seq<u8>>, cell: int, feature: int, n: int)
    requires
        last_entry(ls, cell, feature, n) is Some,
    ensures
        is_entry(ls, last_entry(ls, cell, feature, n)->0),
    decreases n,
{
    if n > 0 && !(is_entry(ls, n - 1) && coordinates(ls[n - 1]) == Some(
        ((cell + 1) as nat, (feature + 1) as nat),
    )) {
        lemma_last_entry_is_entry(ls, cell, feature, n - 1);
    }
}

/// What is read without fault is a well-formed matrix: each cell has as
/// many tokens as its bit vector marks features, all below `g`.
pub proof fn lemma_read_well_formed(
    ls: Seq<Seq<u8>>,
    c: int,
    g: int,
    bvs: Seq<Seq<u8>>,
    tokens: Seq<Seq<Seq<u8>>>,
)
    requires
        0 <= c,
        0 <= g,
        read_fault(ls, c, g) is None,
        bvs.len() == c,
        tokens.len() == c,
        forall|i: int| 0 <= i < c ==> holds_entries(#[trigger] bvs[i], tokens[i], ls, i, g),
    ensures
        well_formed(bvs, counts(tokens), c, g),
{
    let cnts = counts(tokens);
    assert forall|i: int| 0 <= i < bvs.len() implies cell_fault(bvs[i], cnts[i], g) is None by {
        let bv = bvs[i];
        assert(holds_entries(bv, tokens[i], ls, i, g));
        assert forall|j: int| g <= j < bit_len(bv) implies !bit_at(bv, j) by {
            if bit_at(bv, j) {
                let n = ls.len() as int;
                lemma_last_entry(ls, i, j, n);
                lemma_last_entry_is_entry(ls, i, j, n);
                let h = last_entry(ls, i, j, n)->0;
                lemma_no_line_fault(ls, c, g, n, h);
            }
        }
        lemma_first_marked_is(bv, g, bit_len(bv));
    }
    lemma_cells_fault(bvs, cnts, g, 0);
}

/// The numbers that a line starts with.
pub fn parse_line(line: &Vec<u8>) -> (r: Option<(usize, usize)>)
    ensures
        r == match coordinates(line@) {
            Some((cell, feature)) => Some((cell as usize, feature as usize)),
            None => None,
        },
{
    let (s0, e0) = next_field(line, 0);
    let (s1, e1) = next_field(line, e0);
    let (s2, e2) = next_field(line, e1);
    assert(s0 == field_start(line@, 0) && e0 == field_end(line@, 0));
    assert(s1 == field_start(line@, 1) && e1 == field_end(line@, 1));
    assert(s2 == field_start(line@, 2));
    if s2 >= line.len() {
        return None;
    }
    let cell = match parse_number(line, s0, e0, usize::MAX) {
        Some(cell) => cell,
        None => {
            return None;
        },
    };
    let feature = match parse_number(line, s1, e1, u32::MAX as usize) {
        Some(feature) => feature,
        None => {
            return None;
        },
    };
    Some((cell, feature))
}

/// The third field of a line that has one.
pub fn third_field(line: &Vec<u8>) -> (token: Vec<u8>)
    requires
        has_field(line@, 2),
    ensures
        token@ == field(line@, 2),
{
    let (s0, e0) = next_field(line, 0);
    let (s1, e1) = next_field(line, e0);
    let (s2, e2) = next_field(line, e1);
    assert(s0 == field_start(line@, 0) && e0 == field_end(line@, 0));
    assert(s1 == field_start(line@, 1) && e1 == field_end(line@, 1));
    assert(s2 == field_start(line@, 2) && e2 == field_end(line@, 2));
    copy_range(line, s2, e2)
}

/// A line that gives the cell no value leaves what the mapping tracks as it is.
pub proof fn lemma_tracks_step(m: Map<u32, usize>, ls: Seq<Seq<u8>>, cell: int, n: int)
    requires
        0 <= n < ls.len(),
        0 <= cell,
        tracks(m, ls, cell, n),
        !is_entry(ls, n) || coordinates(ls[n]) is None || coordinates(ls[n])->Some_0.0 != cell + 1,
    ensures
        tracks(m, ls, cell, n + 1),
{
    assert forall|j: u32|
        (#[trigger] m.dom().contains(j) <==> last_entry(ls, cell, j as int, n + 1) is Some) && (
        m.dom().contains(j) ==> m[j] == last_entry(ls, cell, j as int, n + 1)->0) by {
        assert(last_entry(ls, cell, j as int, n + 1) == last_entry(ls, cell, j as int, n));
    }
}

/// A line that gives a feature of the cell a value is the last such line
/// for that feature from then on.
pub proof fn lemma_tracks_insert(
    m: Map<u32, usize>,
    ls: Seq<Seq<u8>>,
    cell: int,
    n: int,
    feature: u32,
)
    requires
        0 <= n < ls.len(),
        n <= usize::MAX,
        0 <= cell,
        tracks(m, ls, cell, n),
        is_entry(ls, n),
        coordinates(ls[n]) == Some(((cell + 1) as nat, (feature + 1) as nat)),
    ensures
        tracks(m.insert(feature, n as usize), ls, cell, n + 1),
{
    let after = m.insert(feature, n as usize);
    assert forall|j: u32|
        (#[trigger] after.dom().contains(j) <==> last_entry(ls, cell, j as int, n + 1) is Some)
            && (after.dom().contains(j) ==> after[j] == last_entry(
            ls,
            cell,
            j as int,
            n + 1,
        )->0) by {
        if j != feature {
            assert(last_entry(ls, cell, j as int, n + 1) == last_entry(ls, cell, j as int, n));
            assert(m.dom().contains(j) <==> last_entry(ls, cell, j as int, n) is Some);
        }
    }
}

/// Whether the mappings of the `c` cells track the first `n` lines.
pub open spec fn track_all(ts: Seq<HashMap<u32, usize>>, ls: Seq<Seq<u8>>, c: int, n: int) -> bool {
    &&& ts.len() == c
    &&& forall|cell: int| 0 <= cell < c ==> tracks((#[trigger] ts[cell])@, ls, cell, n)
}

/// Whether the mappings name features below `g` alone.
pub open spec fn keys_below(ts: Seq<HashMap<u32, usize>>, g: int) -> bool {
    forall|cell: int, j: u32|
        0 <= cell < ts.len() && #[trigger] ts[cell]@.dom().contains(j) ==> j < g
}

/// Takes in line `n`, counted from 0, which is no comment: checks it, and
/// where it gives a value, puts the line down for the cell and the
/// feature that it names.
fn take_line(
    triplets: &mut Vec<HashMap<u32, usize>>,
    line: &Vec<u8>,
    n: usize,
    first: bool,
    num_cells: usize,
    num_genes: usize,
    Ghost(ls): Ghost<Seq<Seq<u8>>>,
) -> (r: Result<(), FormatError>)
    requires
        n < ls.len(),
        n < usize::MAX,
        line@ == ls[n as int],
        !is_comment(line@),
        first == !size_seen(ls, n as int),
        track_all(old(triplets)@, ls, num_cells as int, n as int),
        keys_below(old(triplets)@, num_genes as int),
    ensures
        match line_fault(ls[n as int], n + 1, first, num_cells as int, num_genes as int) {
            Some(e) => r == Err::<(), FormatError>(e),
            None => r is Ok && track_all(final(triplets)@, ls, num_cells as int, n + 1)
                && keys_below(final(triplets)@, num_genes as int),
        },
{
    broadcast use vstd::std_specs::hash::group_hash_axioms;

    let ghost before = triplets@;
    let ghost c = num_cells as int;
    let (cid, gid) = match parse_line(line) {
        None => {
            return Err(FormatError::Syntax { line: n + 1 });
        },
        Some(pair) => pair,
    };
    if first {
        if cid != num_cells || gid != num_genes {
            return Err(
                FormatError::Dimensions {
                    expected_cells: num_cells,
                    expected_features: num_genes,
                    found_cells: cid,
                    found_features: gid,
                },
            );
        }
        proof {
            assert forall|cell: int| 0 <= cell < c implies tracks(
                (#[trigger] triplets@[cell])@,
                ls,
                cell,
                n + 1,
            ) by {
                lemma_tracks_step(before[cell]@, ls, cell, n as int);
            }
        }
        return Ok(());
    }
    if cid == 0 || gid == 0 {
        return Err(FormatError::Syntax { line: n + 1 });
    }
    if cid - 1 >= num_cells {
        return Err(FormatError::CellRange { cell: cid - 1, limit: num_cells });
    }
    if gid - 1 >= num_genes {
        return Err(FormatError::FeatureRange { feature: gid - 1, limit: num_genes });
    }
    let _ = triplets[cid - 1].insert((gid - 1) as u32, n);
    proof {
        assert(triplets@[cid - 1]@ == before[cid - 1]@.insert((gid - 1) as u32, n));
        assert forall|cell: int| 0 <= cell < c implies tracks(
            (#[trigger] triplets@[cell])@,
            ls,
            cell,
            n + 1,
        ) by {
            if cell == cid - 1 {
                lemma_tracks_insert(before[cell]@, ls, cell, n as int, (gid - 1) as u32);
            } else {
                assert(triplets@[cell] == before[cell]);
                lemma_tracks_step(before[cell]@, ls, cell, n as int);
            }
        }
        assert forall|cell: int, j: u32|
            0 <= cell < triplets@.len() && #[trigger] triplets@[cell]@.dom().contains(
                j,
            ) implies j < num_genes by {
            if cell == cid - 1 {
                if j != (gid - 1) as u32 {
                    assert(before[cell]@.dom().contains(j));
                }
            } else {
                assert(triplets@[cell] == before[cell]);
                assert(before[cell]@.dom().contains(j));
            }
        }
    }
    Ok(())
}

/// A comment gives no cell a value.
proof fn lemma_comment_step(ts: Seq<HashMap<u32, usize>>, ls: Seq<Seq<u8>>, c: int, n: int)
    requires
        0 <= n < ls.len(),
        is_comment(ls[n]),
        track_all(ts, ls, c, n),
    ensures
        track_all(ts, ls, c, n + 1),
{
    assert forall|cell: int| 0 <= cell < c implies tracks((#[trigger] ts[cell])@, ls, cell, n + 1) by {
        lemma_tracks_step(ts[cell]@, ls, cell, n);
    }
}

/// The tokens of a cell: for each of its lines, the third field.
fn gather_tokens(
    text: &Vec<Vec<u8>>,
    handles: &Vec<usize>,
    Ghost(ls): Ghost<Seq<Seq<u8>>>,
    Ghost(cell): Ghost<int>,
    Ghost(features): Ghost<Seq<int>>,
) -> (tokens: Vec<Vec<u8>>)
    requires
        text@.len() == ls.len(),
        forall|x: int| 0 <= x < text@.len() ==> (#[trigger] text@[x])@ == ls[x],
        features.len() == handles@.len(),
        forall|k: int|
            0 <= k < handles@.len() ==> last_entry(
                ls,
                cell,
                #[trigger] features[k],
                ls.len() as int,
            ) == Some(handles@[k] as int),
    ensures
        tokens@.len() == handles@.len(),
        forall|k: int|
            0 <= k < tokens@.len() ==> (#[trigger] tokens@[k])@ == field(
                ls[last_entry(ls, cell, features[k], ls.len() as int)->0],
                2,
            ),
{
    let mut tokens: Vec<Vec<u8>> = Vec::new();
    let mut k: usize = 0;
    while k < handles.len()
        invariant
            k <= handles.len(),
            text@.len() == ls.len(),
            forall|x: int| 0 <= x < text@.len() ==> (#[trigger] text@[x])@ == ls[x],
            features.len() == handles@.len(),
            forall|x: int|
                0 <= x < handles@.len() ==> last_entry(
                    ls,
                    cell,
                    #[trigger] features[x],
                    ls.len() as int,
                ) == Some(handles@[x] as int),
            tokens@.len() == k,
            forall|x: int|
                0 <= x < k ==> (#[trigger] tokens@[x])@ == field(
                    ls[last_entry(ls, cell, features[x], ls.len() as int)->0],
                    2,
                ),
        decreases handles.len() - k,
    {
        let handle = handles[k];
        proof {
            assert(last_entry(ls, cell, features[k as int], ls.len() as int) == Some(
                handle as int,
            ));
            lemma_last_entry(ls, cell, features[k as int], ls.len() as int);
        }
        tokens.push(third_field(&text[handle]));
        k = k + 1;
    }
    tokens
}

/// Reads a matrix of `num_cells` cells and `num_genes` features off its
/// coordinate text: the bit vectors, and the tokens of the values.
pub fn from_text(data: &Vec<u8>, num_cells: usize, num_genes: usize) -> (r: Result<
    (Vec<Vec<u8>>, Vec<Vec<Vec<u8>>>),
    FormatError,
>)
    ensures
        match read_fault(lines(data@), num_cells as int, num_genes as int) {
            Some(e) => r == Err::<(Vec<Vec<u8>>, Vec<Vec<Vec<u8>>>), FormatError>(e),
            None => r is Ok && r->Ok_0.0@.len() == num_cells && r->Ok_0.1@.len() == num_cells
                && forall|i: int|
                0 <= i < num_cells ==> holds_entries(
                    (#[trigger] r->Ok_0.0@[i])@,
                    rows(r->Ok_0.1@[i]@),
                    lines(data@),
                    i,
                    num_genes as int,
                ),
        },
{
    broadcast use vstd::std_specs::hash::group_hash_axioms;

    let text = split_lines(data);
    let ghost ls = lines(data@);
    let ghost c = num_cells as int;
    let ghost g = num_genes as int;
    let mut triplets: Vec<HashMap<u32, usize>> = Vec::new();
    let mut i: usize = 0;
    while i < num_cells
        invariant
            i <= num_cells,
            triplets@.len() == i,
            forall|cell: int| 0 <= cell < i ==> (#[trigger] triplets@[cell])@ == Map::<
                u32,
                usize,
            >::empty(),
        decreases num_cells - i,
    {
        triplets.push(HashMap::new());
        i = i + 1;
    }
    let mut found_first = false;
    let mut n: usize = 0;
    while n < text.len()
        invariant
            n <= text.len(),
            ls == lines(data@),
            text@.len() == ls.len(),
            text@.len() <= data@.len(),
            forall|x: int| 0 <= x < text@.len() ==> (#[trigger] text@[x])@ == ls[x],
            c == num_cells,
            g == num_genes,
            found_first == size_seen(ls, n as int),
            lines_fault(ls, c, g, n as int) is None,
            track_all(triplets@, ls, c, n as int),
            keys_below(triplets@, g),
        decreases text.len() - n,
    {
        let line = &text[n];
        assert(line@ == ls[n as int]);
        if line.len() > 0 && line[0] == PERCENT {
            proof {
                lemma_comment_step(triplets@, ls, c, n as int);
            }
        } else {
            match take_line(
                &mut triplets,
                line,
                n,
                !found_first,
                num_cells,
                num_genes,
                Ghost(ls),
            ) {
                Err(e) => {
                    proof {
                        lemma_fault_stays(ls, c, g, n as int + 1, ls.len() as int);
                    }
                    return Err(e);
                },
                Ok(()) => {
                    found_first = true;
                },
            }
        }
        n = n + 1;
    }
    if !found_first {
        return Err(FormatError::NoSizeLine);
    }
    let mut bit_vecs: Vec<Vec<u8>> = Vec::new();
    let mut expr: Vec<Vec<Vec<u8>>> = Vec::new();
    let mut cell: usize = 0;
    while cell < num_cells
        invariant
            cell <= num_cells,
            text@.len() == ls.len(),
            forall|x: int| 0 <= x < text@.len() ==> (#[trigger] text@[x])@ == ls[x],
            c == num_cells,
            g == num_genes,
            track_all(triplets@, ls, c, ls.len() as int),
            keys_below(triplets@, g),
            bit_vecs@.len() == cell,
            expr@.len() == cell,
            forall|x: int|
                0 <= x < cell ==> holds_entries(
                    (#[trigger] bit_vecs@[x])@,
                    rows(expr@[x]@),
                    ls,
                    x,
                    g,
                ),
        decreases num_cells - cell,
    {
        let mapping = &triplets[cell];
        let ghost m = mapping@;
        assert(tracks(triplets@[cell as int]@, ls, cell as int, ls.len() as int));
        assert(mapping_fault(m.dom(), g) is None) by {
            if exists|k: u32| m.dom().contains(k) && k >= g {
                let k = choose|k: u32| m.dom().contains(k) && k >= g;
                assert(triplets@[cell as int]@.dom().contains(k));
            }
        }
        let (bit_vec, handles) = match triplets_to_sparse(mapping, num_genes) {
            Ok(pair) => pair,
            Err(e) => {
                assert(false);
                return Err(e);
            },
        };
        let ghost bv = bit_vec@;
        proof {
            lemma_positions(bv, bit_len(bv));
            lemma_positions_len(bv, bit_len(bv));
            assert forall|k: int| 0 <= k < handles@.len() implies last_entry(
                ls,
                cell as int,
                #[trigger] set_bits(bv)[k],
                ls.len() as int,
            ) == Some(handles@[k] as int) by {
                let j = set_bits(bv)[k];
                assert(bit_at(bv, j));
                assert(m.dom().contains(j as u32));
                assert(handles@[k] == m[j as u32]);
            }
        }
        let tokens = gather_tokens(
            &text,
            &handles,
            Ghost(ls),
            Ghost(cell as int),
            Ghost(set_bits(bv)),
        );
        proof {
            assert(rows(tokens@).len() == popcount(bv));
            assert forall|j: int| 0 <= j < bit_len(bv) implies (#[trigger] bit_at(bv, j)
                <==> last_entry(ls, cell as int, j, ls.len() as int) is Some) by {
                if last_entry(ls, cell as int, j, ls.len() as int) is Some {
                    lemma_last_entry(ls, cell as int, j, ls.len() as int);
                    assert(m.dom().contains(j as u32));
                }
                if bit_at(bv, j) {
                    assert(m.dom().contains(j as u32));
                }
            }
            assert(holds_entries(bv, rows(tokens@), ls, cell as int, g));
        }
        bit_vecs.push(bit_vec);
        expr.push(tokens);
        cell = cell + 1;
    }
    Ok((bit_vecs, expr))
}

/// Reads a matrix of `num_cells` cells and `num_genes` features off the
/// gzip file `input` of its coordinate text, and appends the tokens of its
/// values to `expr` and its bit vectors to `bit_vecs`. Where the file
/// cannot be read, both stay as they are.
pub fn reader(
    input: &Vec<u8>,
    num_cells: usize,
    num_genes: usize,
    expr: &mut Vec<Vec<Vec<u8>>>,
    bit_vecs: &mut Vec<Vec<u8>>,
) -> (r: Result<bool, FormatError>)
    ensures
        match gzip_decoded(input@) {
            None => r == Err::<bool, FormatError>(FormatError::Compression) && *final(expr)
                == *old(expr) && *final(bit_vecs) == *old(bit_vecs),
            Some(data) => match read_fault(lines(data), num_cells as int, num_genes as int) {
                Some(e) => r == Err::<bool, FormatError>(e) && *final(expr) == *old(expr)
                    && *final(bit_vecs) == *old(bit_vecs),
                None => {
                    &&& r == Ok::<bool, FormatError>(true)
                    &&& final(expr)@.len() == old(expr)@.len() + num_cells
                    &&& final(bit_vecs)@.len() == old(bit_vecs)@.len() + num_cells
                    &&& final(expr)@.take(old(expr)@.len() as int) == old(expr)@
                    &&& final(bit_vecs)@.take(old(bit_vecs)@.len() as int) == old(bit_vecs)@
                    &&& forall|i: int|
                        old(bit_vecs)@.len() <= i < final(bit_vecs)@.len() ==> holds_entries(
                            (#[trigger] final(bit_vecs)@[i])@,
                            rows(final(expr)@[old(expr)@.len() + (i - old(bit_vecs)@.len())]@),
                            lines(data),
                            i - old(bit_vecs)@.len(),
                            num_genes as int,
                        )
                },
            },
        },
{
    let data = match decompress(input) {
        Some(data) => data,
        None => {
            return Err(FormatError::Compression);
        },
    };
    match from_text(&data, num_cells, num_genes) {
        Err(e) => Err(e),
        Ok((mut new_bits, mut new_values)) => {
            let ghost added_bits = new_bits@;
            let ghost added_values = new_values@;
            expr.append(&mut new_values);
            bit_vecs.append(&mut new_bits);
            proof {
                assert(expr@.take(old(expr)@.len() as int) =~= old(expr)@);
                assert(bit_vecs@.take(old(bit_vecs)@.len() as int) =~= old(bit_vecs)@);
                assert forall|i: int|
                    old(bit_vecs)@.len() <= i < bit_vecs@.len() implies holds_entries(
                    (#[trigger] bit_vecs@[i])@,
                    rows(expr@[old(expr)@.len() + (i - old(bit_vecs)@.len())]@),
                    lines(data@),
                    i - old(bit_vecs)@.len(),
                    num_genes as int,
                ) by {
                    let x = i - old(bit_vecs)@.len();
                    assert(bit_vecs@[i] == added_bits[x]);
                    assert(expr@[old(expr)@.len() + x] == added_values[x]);
                }
            }
            Ok(true)
        },
    }
}

} // verus!
