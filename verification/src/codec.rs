//! The canonical sparse representation of one cell, a bit vector and the
//! values of the features it marks, and how it is made from a dense row or
//! a feature-to-value mapping and turned into a dense row.
//!
//! A value is the 32-bit pattern of an IEEE-754 single-precision number. The
//! only thing read off a pattern here is whether the number is strictly
//! positive.

use crate::bits::{
    bit_at, bit_len, bit_mask, byte_bit, byte_count, byte_len, get_bit, lemma_bits_ext,
    lemma_positions, lemma_positions_len, lemma_rank_bounds, lemma_rank_tail, lemma_set_bit,
    lemma_zero_byte, popcount, positions, rank, set_bits, test_bit,
};
use crate::error::FormatError;
use std::collections::HashMap;
use vstd::prelude::*;
use vstd::std_specs::iter::IteratorSpec;

verus! {

/// The views of the rows of a matrix.
pub open spec fn rows<T>(m: Seq<Vec<T>>) -> Seq<Seq<T>> {
    Seq::new(m.len(), |i: int| m[i]@)
}

/// The lengths of the rows of a matrix.
pub open spec fn counts<T>(m: Seq<Seq<T>>) -> Seq<int> {
    Seq::new(m.len(), |i: int| m[i].len() as int)
}

/// The first `n` rows of a matrix, one after another.
pub open spec fn concat_rows<T>(m: Seq<Seq<T>>, n: int) -> Seq<T>
    decreases n,
{
    if n <= 0 {
        Seq::empty()
    } else {
        concat_rows(m, n - 1) + m[n - 1]
    }
}

/// The sum of the first `n` of `counts`.
pub open spec fn total(counts: Seq<int>, n: int) -> int
    decreases n,
{
    if n <= 0 {
        0
    } else {
        total(counts, n - 1) + counts[n - 1]
    }
}

/// The sum of counts that are not negative grows with the number of counts.
pub proof fn lemma_total_grows(counts: Seq<int>, m: int, n: int)
    requires
        0 <= m <= n <= counts.len(),
        forall|i: int| 0 <= i < counts.len() ==> counts[i] >= 0,
    ensures
        0 <= total(counts, m) <= total(counts, n),
    decreases n,
{
    if m < n {
        lemma_total_grows(counts, m, n - 1);
    } else if n > 0 {
        lemma_total_grows(counts, m - 1, n - 1);
    }
}

/// Where a row stands among the first `n` rows put one after another:
/// item `k` of the row `row` stands after all items of the rows before it.
pub proof fn lemma_concat_index<T>(m: Seq<Seq<T>>, n: int, row: int, k: int)
    requires
        0 <= row < n <= m.len(),
        0 <= k < m[row].len(),
    ensures
        concat_rows(m, n).len() == total(counts(m), n),
        0 <= total(counts(m), row) + k < total(counts(m), n),
        concat_rows(m, n)[total(counts(m), row) + k] == m[row][k],
    decreases n,
{
    lemma_concat_len(m, n);
    lemma_concat_len(m, n - 1);
    lemma_total_grows(counts(m), 0, n - 1);
    assert(counts(m)[n - 1] == m[n - 1].len());
    if row < n - 1 {
        lemma_concat_index(m, n - 1, row, k);
    } else {
        lemma_total_grows(counts(m), 0, row);
    }
}

/// Rows put one after another are as long as the rows together.
pub proof fn lemma_concat_len<T>(m: Seq<Seq<T>>, n: int)
    requires
        0 <= n <= m.len(),
    ensures
        concat_rows(m, n).len() == total(counts(m), n),
    decreases n,
{
    if n > 0 {
        lemma_concat_len(m, n - 1);
    }
}

/// The least marked feature from `j` on, or `bit_len(bv)` where there is none.
pub open spec fn first_marked_from(bv: Seq<u8>, j: int) -> int
    decreases bit_len(bv) - j,
{
    if j >= bit_len(bv) {
        bit_len(bv)
    } else if bit_at(bv, j) {
        j
    } else {
        first_marked_from(bv, j + 1)
    }
}

/// What is wrong with a cell that has the bit vector `bv` and `count`
/// values, in a matrix of `g` features: the first of a bit vector that is
/// not `ceil(g / 8)` bytes long, a marked feature that is not below `g`, and
/// a number of values other than the number of marked features.
pub open spec fn cell_fault(bv: Seq<u8>, count: int, g: int) -> Option<FormatError> {
    if bits_fault(bv, g) is Some {
        bits_fault(bv, g)
    } else if popcount(bv) != count {
        Some(FormatError::ValueCount { expected: popcount(bv) as usize, found: count as usize })
    } else {
        None
    }
}

/// The fault of the first faulty cell from cell `from` on.
pub open spec fn cells_fault(bvs: Seq<Seq<u8>>, counts: Seq<int>, g: int, from: int) -> Option<
    FormatError,
>
    decreases bvs.len() - from,
{
    if from >= bvs.len() {
        None
    } else if cell_fault(bvs[from], counts[from], g) is Some {
        cell_fault(bvs[from], counts[from], g)
    } else {
        cells_fault(bvs, counts, g, from + 1)
    }
}

/// What is wrong with a matrix of `c` cells and `g` features that is given
/// by its bit vectors and by the number of values of each cell: a number
/// of bit vectors other than `c`, a number of value lists other than `c`, or
/// the fault of its first faulty cell.
pub open spec fn matrix_fault(bvs: Seq<Seq<u8>>, counts: Seq<int>, c: int, g: int) -> Option<
    FormatError,
> {
    if bvs.len() != c {
        Some(FormatError::CellCount { expected: c as usize, found: bvs.len() as usize })
    } else if counts.len() != c {
        Some(FormatError::CellCount { expected: c as usize, found: counts.len() as usize })
    } else {
        cells_fault(bvs, counts, g, 0)
    }
}

/// Whether no cell has a fault.
pub open spec fn cells_clean(bvs: Seq<Seq<u8>>, counts: Seq<int>, g: int) -> bool {
    forall|i: int| 0 <= i < bvs.len() ==> cell_fault(#[trigger] bvs[i], counts[i], g) is None
}

/// The invariant of the canonical sparse representation.
pub open spec fn well_formed(bvs: Seq<Seq<u8>>, counts: Seq<int>, c: int, g: int) -> bool {
    matrix_fault(bvs, counts, c, g) is None
}

/// A cell without fault has as many values as marked features, all below `g`.
pub proof fn lemma_cell_sound(bv: Seq<u8>, count: int, g: int)
    requires
        0 <= g,
        cell_fault(bv, count, g) is None,
    ensures
        bv.len() == byte_len(g),
        popcount(bv) == count,
        forall|j: int| g <= j ==> !bit_at(bv, j),
        popcount(bv) == rank(bv, g),
        set_bits(bv) == positions(bv, g),
        count <= g,
{
    lemma_first_marked(bv, g);
    lemma_rank_tail(bv, g, bit_len(bv));
    lemma_rank_bounds(bv, 0, g);
}

/// `first_marked_from` finds the least marked feature from `j` on.
pub proof fn lemma_first_marked(bv: Seq<u8>, j: int)
    requires
        0 <= j,
    ensures
        j <= first_marked_from(bv, j) || bit_len(bv) < j,
        first_marked_from(bv, j) <= bit_len(bv),
        first_marked_from(bv, j) < bit_len(bv) ==> bit_at(bv, first_marked_from(bv, j)),
        forall|i: int| j <= i < first_marked_from(bv, j) ==> !bit_at(bv, i),
    decreases bit_len(bv) - j,
{
    if j < bit_len(bv) && !bit_at(bv, j) {
        lemma_first_marked(bv, j + 1);
    }
}

/// Whether the cells from `from` on are all without fault.
pub proof fn lemma_cells_fault(bvs: Seq<Seq<u8>>, counts: Seq<int>, g: int, from: int)
    requires
        0 <= from,
    ensures
        cells_fault(bvs, counts, g, from) is None <==> forall|i: int|
            from <= i < bvs.len() ==> cell_fault(bvs[i], counts[i], g) is None,
    decreases bvs.len() - from,
{
    if from < bvs.len() {
        lemma_cells_fault(bvs, counts, g, from + 1);
    }
}

/// Where `p` is the least marked feature from `j` on, or the end of the bit
/// vector where none is marked from `j` on, `first_marked_from` yields it.
pub proof fn lemma_first_marked_is(bv: Seq<u8>, j: int, p: int)
    requires
        0 <= j <= p <= bit_len(bv),
        forall|i: int| j <= i < p ==> !bit_at(bv, i),
        p < bit_len(bv) ==> bit_at(bv, p),
    ensures
        first_marked_from(bv, j) == p,
    decreases p - j,
{
    if j < p {
        lemma_first_marked_is(bv, j + 1, p);
    }
}

/// Number of marked features of a bit vector.
pub fn count_ones(bv: &Vec<u8>) -> (ones: usize)
    requires
        popcount(bv@) <= usize::MAX,
    ensures
        ones == popcount(bv@),
{
    let mut ones: usize = 0;
    let mut i: usize = 0;
    while i < bv.len()
        invariant
            i <= bv.len(),
            ones == rank(bv@, 8 * i),
            popcount(bv@) <= usize::MAX,
        decreases bv.len() - i,
    {
        let flag = bv[i];
        let mut k: usize = 0;
        while k < 8
            invariant
                i < bv.len(),
                k <= 8,
                flag == bv@[i as int],
                ones == rank(bv@, 8 * i + k),
                popcount(bv@) <= usize::MAX,
            decreases 8 - k,
        {
            proof {
                let j = 8 * i + k;
                assert(j / 8 == i && j % 8 == k);
                lemma_rank_bounds(bv@, j + 1, bit_len(bv@));
            }
            if test_bit(flag, k) {
                ones = ones + 1;
            }
            k = k + 1;
        }
        i = i + 1;
    }
    ones
}

/// The marked features of a bit vector, ascending.
pub fn feature_ids(bv: &Vec<u8>) -> (ids: Vec<usize>)
    requires
        forall|j: int| bit_at(bv@, j) ==> j <= usize::MAX,
    ensures
        ids@.len() == popcount(bv@),
        ids@.map_values(|p: usize| p as int) == set_bits(bv@),
{
    let mut ids: Vec<usize> = Vec::new();
    let mut i: usize = 0;
    while i < bv.len()
        invariant
            i <= bv.len(),
            ids@.map_values(|p: usize| p as int) == positions(bv@, 8 * i),
            forall|j: int| bit_at(bv@, j) ==> j <= usize::MAX,
        decreases bv.len() - i,
    {
        let flag = bv[i];
        let mut k: usize = 0;
        while k < 8
            invariant
                i < bv.len(),
                k <= 8,
                flag == bv@[i as int],
                ids@.map_values(|p: usize| p as int) == positions(bv@, 8 * i + k),
                forall|j: int| bit_at(bv@, j) ==> j <= usize::MAX,
            decreases 8 - k,
        {
            proof {
                let j = 8 * i + k;
                assert(j / 8 == i && j % 8 == k);
            }
            if test_bit(flag, k) {
                let ghost before = ids@;
                assert(bit_at(bv@, 8 * i + k));
                ids.push(8 * i + k);
                assert(ids@.map_values(|p: usize| p as int) =~= before.map_values(
                    |p: usize| p as int,
                ).push(8 * i + k));
            }
            k = k + 1;
        }
        i = i + 1;
    }
    proof {
        lemma_positions_len(bv@, bit_len(bv@));
    }
    ids
}

/// What is wrong with a bit vector alone in a matrix of `g` features.
pub open spec fn bits_fault(bv: Seq<u8>, g: int) -> Option<FormatError> {
    if bv.len() != byte_len(g) {
        Some(FormatError::RowLength { expected: byte_len(g) as usize, found: bv.len() as usize })
    } else if first_marked_from(bv, g) < bit_len(bv) {
        Some(
            FormatError::FeatureRange {
                feature: first_marked_from(bv, g) as usize,
                limit: g as usize,
            },
        )
    } else {
        None
    }
}

/// Checks a bit vector of a matrix of `g` features, and counts the
/// features it marks.
pub fn check_bits(bv: &Vec<u8>, g: usize) -> (r: Result<usize, FormatError>)
    ensures
        r == match bits_fault(bv@, g as int) {
            Some(e) => Err::<usize, FormatError>(e),
            None => Ok(popcount(bv@) as usize),
        },
        r is Ok ==> popcount(bv@) <= g,
{
    let nb = byte_count(g);
    if bv.len() != nb {
        return Err(FormatError::RowLength { expected: nb, found: bv.len() });
    }
    if g % 8 != 0 {
        let last = g / 8;
        let flag = bv[last];
        let mut k: usize = g % 8;
        while k < 8
            invariant
                g % 8 <= k <= 8,
                g % 8 != 0,
                last == g / 8,
                last + 1 == bv.len(),
                flag == bv@[last as int],
                forall|j: int| g <= j < 8 * last + k ==> !bit_at(bv@, j),
            decreases 8 - k,
        {
            proof {
                let j = 8 * last + k;
                assert(j / 8 == last && j % 8 == k);
            }
            if test_bit(flag, k) {
                proof {
                    lemma_first_marked_is(bv@, g as int, 8 * last + k);
                }
                return Err(FormatError::FeatureRange { feature: 8 * last + k, limit: g });
            }
            k = k + 1;
        }
    }
    proof {
        lemma_first_marked_is(bv@, g as int, bit_len(bv@));
        lemma_rank_tail(bv@, g as int, bit_len(bv@));
        lemma_rank_bounds(bv@, 0, g as int);
    }
    Ok(count_ones(bv))
}

/// Checks one cell of a matrix of `g` features, given by its bit vector and
/// the number of its values.
pub fn check_cell(bv: &Vec<u8>, count: usize, g: usize) -> (r: Result<(), FormatError>)
    ensures
        r == match cell_fault(bv@, count as int, g as int) {
            Some(e) => Err::<(), FormatError>(e),
            None => Ok(()),
        },
{
    match check_bits(bv, g) {
        Err(e) => Err(e),
        Ok(ones) => {
            if ones != count {
                Err(FormatError::ValueCount { expected: ones, found: count })
            } else {
                Ok(())
            }
        },
    }
}

/// Checks a matrix of `c` cells and `g` features, given by its bit vectors
/// and the values of each cell.
pub fn check_matrix<T>(bit_vecs: &Vec<Vec<u8>>, values: &Vec<Vec<T>>, c: usize, g: usize) -> (r:
    Result<(), FormatError>)
    ensures
        r == match matrix_fault(rows(bit_vecs@), counts(rows(values@)), c as int, g as int) {
            Some(e) => Err::<(), FormatError>(e),
            None => Ok(()),
        },
{
    if bit_vecs.len() != c {
        return Err(FormatError::CellCount { expected: c, found: bit_vecs.len() });
    }
    if values.len() != c {
        return Err(FormatError::CellCount { expected: c, found: values.len() });
    }
    let ghost bvs = rows(bit_vecs@);
    let ghost cnts = counts(rows(values@));
    let mut i: usize = 0;
    while i < c
        invariant
            i <= c,
            bit_vecs.len() == c,
            values.len() == c,
            bvs == rows(bit_vecs@),
            cnts == counts(rows(values@)),
            cells_fault(bvs, cnts, g as int, 0) == cells_fault(bvs, cnts, g as int, i as int),
        decreases c - i,
    {
        let r = check_cell(&bit_vecs[i], values[i].len(), g);
        if let Err(e) = r {
            return Err(e);
        }
        i = i + 1;
    }
    Ok(())
}

/// Whether `k` is the least key of `keys` that is not below `g`.
pub open spec fn is_least_from(keys: Set<u32>, g: int, k: u32) -> bool {
    &&& keys.contains(k)
    &&& k >= g
    &&& forall|other: u32| keys.contains(other) && other >= g ==> k <= other
}

/// What is wrong with a mapping from features to values in a matrix of `g`
/// features: a feature that is not below `g`, the least such.
pub open spec fn mapping_fault(keys: Set<u32>, g: int) -> Option<FormatError> {
    if exists|k: u32| keys.contains(k) && k >= g {
        Some(
            FormatError::FeatureRange {
                feature: (choose|k: u32| is_least_from(keys, g, k)) as usize,
                limit: g as usize,
            },
        )
    } else {
        None
    }
}

/// Whether the cell with the bit vector `bv` and the values `vals` holds
/// the mapping `m` in a matrix of `g` features: the features of `m` are
/// the marked ones, and the values are theirs, by ascending feature.
pub open spec fn holds_mapping<V>(bv: Seq<u8>, vals: Seq<V>, m: Map<u32, V>, g: int) -> bool {
    &&& bv.len() == byte_len(g)
    &&& forall|j: int|
        0 <= j < bit_len(bv) ==> (#[trigger] bit_at(bv, j) <==> j <= u32::MAX && m.dom().contains(
            j as u32,
        ))
    &&& vals.len() == popcount(bv)
    &&& forall|k: int| 0 <= k < vals.len() ==> #[trigger] vals[k] == m[set_bits(bv)[k] as u32]
}

/// Whether `keys` ascends strictly.
pub open spec fn ascending(keys: Seq<u32>) -> bool {
    forall|i: int, j: int| 0 <= i < j < keys.len() ==> keys[i] < keys[j]
}

/// Whether `j` is among the first `n` of `keys`.
pub open spec fn among(keys: Seq<u32>, n: int, j: int) -> bool {
    exists|i: int| 0 <= i < n && #[trigger] keys[i] == j
}

/// An ascending list of exactly the marked features below `n` is the list
/// of the marked features below `n`.
pub proof fn lemma_ascending_is_positions(bv: Seq<u8>, n: int, keys: Seq<u32>)
    requires
        0 <= n,
        ascending(keys),
        forall|i: int| 0 <= i < keys.len() ==> #[trigger] keys[i] < n && bit_at(bv, keys[i] as int),
        forall|j: int| 0 <= j < n && bit_at(bv, j) ==> among(keys, keys.len() as int, j),
    ensures
        keys.map_values(|k: u32| k as int) == positions(bv, n),
    decreases n,
{
    let mapped = keys.map_values(|k: u32| k as int);
    if n == 0 {
        assert(keys.len() == 0) by {
            if keys.len() > 0 {
                assert(keys[0] < n);
            }
        }
        assert(mapped =~= positions(bv, n));
    } else if bit_at(bv, n - 1) {
        assert(among(keys, keys.len() as int, n - 1));
        let i = choose|i: int| 0 <= i < keys.len() && #[trigger] keys[i] == n - 1;
        assert(i == keys.len() - 1) by {
            if i < keys.len() - 1 {
                assert(keys[i] < keys[keys.len() - 1]);
            }
        }
        let init = keys.drop_last();
        assert forall|j: int| 0 <= j < n - 1 && bit_at(bv, j) implies among(
            init,
            init.len() as int,
            j,
        ) by {
            assert(among(keys, keys.len() as int, j));
            let x = choose|x: int| 0 <= x < keys.len() && #[trigger] keys[x] == j;
            assert(init[x] == j);
        }
        assert forall|x: int| 0 <= x < init.len() implies #[trigger] init[x] < n - 1 && bit_at(
            bv,
            init[x] as int,
        ) by {
            assert(keys[x] < keys[keys.len() - 1]);
        }
        lemma_ascending_is_positions(bv, n - 1, init);
        assert(mapped =~= init.map_values(|k: u32| k as int).push(n - 1));
    } else {
        assert forall|x: int| 0 <= x < keys.len() implies #[trigger] keys[x] < n - 1 && bit_at(
            bv,
            keys[x] as int,
        ) by {
            assert(keys[x] < n && bit_at(bv, keys[x] as int));
        }
        lemma_ascending_is_positions(bv, n - 1, keys);
    }
}

/// Calls `sort` of the slice, which puts the keys in ascending order and
/// neither adds nor drops one.
#[verifier::external_body]
pub(crate) fn sort_keys(keys: &mut Vec<u32>)
    ensures
        final(keys)@.to_multiset() == old(keys)@.to_multiset(),
        forall|i: int, j: int|
            0 <= i <= j < final(keys)@.len() ==> final(keys)@[i] <= final(keys)@[j],
{
    keys.sort();
}

/// The keys of a mapping, ascending.
pub fn sorted_keys<V>(mapping: &HashMap<u32, V>) -> (keys: Vec<u32>)
    ensures
        ascending(keys@),
        keys@.to_set() == mapping@.dom(),
{
    broadcast use vstd::std_specs::hash::group_hash_axioms;
    broadcast use vstd::seq_lib::to_multiset_contains;

    let mut keys: Vec<u32> = Vec::new();
    for key in iter: mapping.keys()
        invariant
            keys@.len() == iter.index(),
            forall|i: int| 0 <= i < keys@.len() ==> keys@[i] == *iter.seq()[i],
    {
        keys.push(*key);
    }
    assert(keys@ =~= vstd::std_specs::hash::spec_keys_iter(mapping).remaining().unref());
    let ghost unsorted = keys@;
    sort_keys(&mut keys);
    proof {
        unsorted.lemma_multiset_has_no_duplicates();
        keys@.lemma_multiset_has_no_duplicates_conv();
        assert forall|k: u32| keys@.contains(k) <==> unsorted.contains(k) by {
            assert(keys@.to_multiset().count(k) == unsorted.to_multiset().count(k));
        }
        assert(keys@.to_set() =~= unsorted.to_set());
    }
    keys
}

/// A bit vector of `n` zero bytes.
pub fn zero_bits(n: usize) -> (bv: Vec<u8>)
    ensures
        bv@.len() == n,
        forall|i: int| 0 <= i < n ==> bv@[i] == 0,
{
    let mut bv: Vec<u8> = Vec::new();
    let mut i: usize = 0;
    while i < n
        invariant
            i <= n,
            bv@.len() == i,
            forall|x: int| 0 <= x < i ==> bv@[x] == 0,
        decreases n - i,
    {
        bv.push(0);
        i = i + 1;
    }
    bv
}

/// Packs ascending features, all below `num_genes`, into a bit vector, in
/// one pass: a byte is written when the next feature lies beyond it, and
/// the last one at the end.
pub fn pack_keys(keys: &Vec<u32>, num_genes: usize) -> (bit_vec: Vec<u8>)
    requires
        ascending(keys@),
        forall|i: int| 0 <= i < keys@.len() ==> #[trigger] keys@[i] < num_genes,
    ensures
        bit_vec@.len() == byte_len(num_genes as int),
        forall|j: int|
            0 <= j < bit_len(bit_vec@) ==> (#[trigger] bit_at(bit_vec@, j) <==> among(
                keys@,
                keys@.len() as int,
                j,
            )),
{
    let num_bit_vecs = byte_count(num_genes);
    let mut bit_vec = zero_bits(num_bit_vecs);
    let mut curr_index: usize = 0;
    let mut flag: u8 = 0;
    let mut n: usize = 0;
    proof {
        assert forall|k: int| 0 <= k < 8 implies !byte_bit(flag, k) by {
            lemma_zero_byte(k);
        }
    }
    while n < keys.len()
        invariant
            n <= keys.len(),
            ascending(keys@),
            forall|i: int| 0 <= i < keys@.len() ==> #[trigger] keys@[i] < num_genes,
            num_bit_vecs == byte_len(num_genes as int),
            bit_vec@.len() == num_bit_vecs,
            n > 0 ==> curr_index < num_bit_vecs,
            n > 0 ==> curr_index == keys@[n - 1] / 8,
            n == 0 ==> curr_index == 0,
            forall|j: int|
                0 <= j < 8 * curr_index ==> (#[trigger] bit_at(bit_vec@, j) <==> among(
                    keys@,
                    n as int,
                    j,
                )),
            forall|k: int|
                0 <= k < 8 ==> (#[trigger] byte_bit(flag, k) <==> among(
                    keys@,
                    n as int,
                    8 * curr_index + k,
                )),
            forall|b: int| curr_index <= b < num_bit_vecs ==> #[trigger] bit_vec@[b] == 0,
            forall|i: int| 0 <= i < n ==> #[trigger] keys@[i] / 8 <= curr_index,
        decreases keys.len() - n,
    {
        let key = keys[n] as usize;
        let byte = key / 8;
        let offset = key % 8;
        let ghost old_vec = bit_vec@;
        let ghost old_flag = flag;
        let ghost old_index = curr_index;
        assert(old_index <= byte) by {
            if n > 0 {
                assert(keys@[n - 1] < keys@[n as int]);
            }
        }
        if byte != curr_index {
            bit_vec[curr_index] = flag;
            curr_index = byte;
            flag = 0;
        }
        flag = flag | bit_mask(offset);
        n = n + 1;
        proof {
            assert(key == 8 * byte + offset);
            assert forall|k: int| 0 <= k < 8 implies (#[trigger] byte_bit(flag, k) <==> among(
                keys@,
                n as int,
                8 * curr_index + k,
            )) by {
                if byte != old_index {
                    lemma_zero_byte(k);
                    lemma_set_bit(0u8, offset as int, k);
                    if among(keys@, n as int, 8 * curr_index + k) {
                        let x = choose|x: int| 0 <= x < n && #[trigger] keys@[x] == 8 * curr_index + k;
                        if x < n - 1 {
                            assert(keys@[x] / 8 <= old_index);
                        }
                    }
                } else {
                    lemma_set_bit(old_flag, offset as int, k);
                    if among(keys@, n as int, 8 * curr_index + k) {
                        let x = choose|x: int| 0 <= x < n && #[trigger] keys@[x] == 8 * curr_index + k;
                        if x < n - 1 {
                            assert(among(keys@, n - 1, 8 * curr_index + k));
                        }
                    }
                    if among(keys@, n - 1, 8 * curr_index + k) {
                        let x = choose|x: int| 0 <= x < n - 1 && #[trigger] keys@[x] == 8 * curr_index + k;
                        assert(0 <= x < n && keys@[x] == 8 * curr_index + k);
                    }
                }
                if k == offset {
                    assert(keys@[n - 1] == 8 * curr_index + k);
                }
            }
            assert forall|j: int| 0 <= j < 8 * curr_index implies (#[trigger] bit_at(
                bit_vec@,
                j,
            ) <==> among(keys@, n as int, j)) by {
                if among(keys@, n as int, j) {
                    let x = choose|x: int| 0 <= x < n && #[trigger] keys@[x] == j;
                    assert(x < n - 1);
                    assert(among(keys@, n - 1, j));
                }
                if among(keys@, n - 1, j) {
                    let x = choose|x: int| 0 <= x < n - 1 && #[trigger] keys@[x] == j;
                    assert(0 <= x < n && keys@[x] == j);
                }
                if byte != old_index {
                    if j < 8 * old_index {
                        assert(bit_at(bit_vec@, j) == bit_at(old_vec, j));
                    } else if j < 8 * old_index + 8 {
                        let k = j - 8 * old_index;
                        assert(j / 8 == old_index && j % 8 == k);
                        assert(byte_bit(old_flag, k) <==> among(keys@, n - 1, 8 * old_index + k));
                    } else {
                        assert(bit_vec@[j / 8] == 0);
                        lemma_zero_byte(j % 8);
                        if among(keys@, n - 1, j) {
                            let x = choose|x: int| 0 <= x < n - 1 && #[trigger] keys@[x] == j;
                            assert(keys@[x] / 8 <= old_index);
                        }
                    }
                }
            }
            assert forall|i: int| 0 <= i < n implies #[trigger] keys@[i] / 8 <= curr_index by {
                if i < n - 1 {
                    assert(keys@[i] / 8 <= old_index);
                }
            }
        }
    }
    if num_bit_vecs > 0 {
        let ghost old_vec = bit_vec@;
        bit_vec[curr_index] = flag;
        proof {
            assert forall|j: int| 0 <= j < bit_len(bit_vec@) implies (#[trigger] bit_at(
                bit_vec@,
                j,
            ) <==> among(keys@, keys@.len() as int, j)) by {
                if j < 8 * curr_index {
                    assert(bit_at(bit_vec@, j) == bit_at(old_vec, j));
                } else if j < 8 * curr_index + 8 {
                    let k = j - 8 * curr_index;
                    assert(j / 8 == curr_index && j % 8 == k);
                    assert(byte_bit(flag, k) <==> among(keys@, n as int, 8 * curr_index + k));
                } else {
                    assert(bit_vec@[j / 8] == 0);
                    lemma_zero_byte(j % 8);
                    if among(keys@, n as int, j) {
                        let x = choose|x: int| 0 <= x < n && #[trigger] keys@[x] == j;
                        assert(keys@[x] / 8 <= curr_index);
                    }
                }
            }
        }
    }
    bit_vec
}

/// The sparse form of a mapping from features to values, in a matrix of
/// `num_genes` features: the features are sorted, the values follow in
/// that order, and the features are packed into the bit vector.
pub fn triplets_to_sparse<V: Copy>(mapping: &HashMap<u32, V>, num_genes: usize) -> (r: Result<
    (Vec<u8>, Vec<V>),
    FormatError,
>)
    ensures
        match mapping_fault(mapping@.dom(), num_genes as int) {
            Some(e) => r == Err::<(Vec<u8>, Vec<V>), FormatError>(e),
            None => r is Ok && holds_mapping(
                r->Ok_0.0@,
                r->Ok_0.1@,
                mapping@,
                num_genes as int,
            ),
        },
{
    broadcast use vstd::std_specs::hash::group_hash_axioms;

    let keys = sorted_keys(mapping);
    let ghost dom = mapping@.dom();
    let mut values: Vec<V> = Vec::new();
    let mut i: usize = 0;
    while i < keys.len()
        invariant
            i <= keys.len(),
            ascending(keys@),
            keys@.to_set() == dom,
            dom == mapping@.dom(),
            forall|x: int| 0 <= x < i ==> #[trigger] keys@[x] < num_genes,
            values@.len() == i,
            forall|x: int| 0 <= x < i ==> #[trigger] values@[x] == mapping@[keys@[x]],
        decreases keys.len() - i,
    {
        let key = keys[i];
        assert(keys@.contains(key));
        assert(dom.contains(key));
        if key as usize >= num_genes {
            proof {
                assert forall|other: u32| dom.contains(other) && other >= num_genes implies key
                    <= other by {
                    assert(keys@.contains(other));
                    let x = choose|x: int| 0 <= x < keys@.len() && keys@[x] == other;
                    if x < i {
                        assert(keys@[x] < num_genes);
                    } else if x > i {
                        assert(keys@[i as int] < keys@[x]);
                    }
                }
                assert(is_least_from(dom, num_genes as int, key));
                let least = choose|k: u32| is_least_from(dom, num_genes as int, k);
                assert(is_least_from(dom, num_genes as int, least));
                assert(least == key);
            }
            return Err(FormatError::FeatureRange { feature: key as usize, limit: num_genes });
        }
        match mapping.get(&key) {
            Some(value) => {
                values.push(*value);
            },
            None => {
                assert(false);
            },
        }
        i = i + 1;
    }
    proof {
        assert forall|k: u32| dom.contains(k) implies k < num_genes by {
            assert(keys@.contains(k));
            let x = choose|x: int| 0 <= x < keys@.len() && keys@[x] == k;
            assert(keys@[x] < num_genes);
        }
    }
    let bit_vec = pack_keys(&keys, num_genes);
    proof {
        let bv = bit_vec@;
        assert forall|j: int| 0 <= j < bit_len(bv) implies (#[trigger] bit_at(bv, j) <==> j
            <= u32::MAX && dom.contains(j as u32)) by {
            if among(keys@, keys@.len() as int, j) {
                let x = choose|x: int| 0 <= x < keys@.len() && #[trigger] keys@[x] == j;
                assert(keys@.contains(keys@[x]));
            }
            if j <= u32::MAX && dom.contains(j as u32) {
                assert(keys@.contains(j as u32));
                let x = choose|x: int| 0 <= x < keys@.len() && keys@[x] == j as u32;
                assert(keys@[x] == j);
            }
        }
        assert forall|x: int| 0 <= x < keys@.len() implies #[trigger] keys@[x] < bit_len(bv)
            && bit_at(bv, keys@[x] as int) by {
            assert(keys@[x] < num_genes);
            assert(among(keys@, keys@.len() as int, keys@[x] as int));
        }
        lemma_ascending_is_positions(bv, bit_len(bv), keys@);
        lemma_positions_len(bv, bit_len(bv));
        assert forall|k: int| 0 <= k < values@.len() implies #[trigger] values@[k] == mapping@[set_bits(
            bv,
        )[k] as u32] by {
            assert(keys@.map_values(|k: u32| k as int)[k] == keys@[k]);
        }
    }
    Ok((bit_vec, values))
}

/// The greatest pattern of a number above zero: positive infinity.
pub const MAX_PRESENT: u32 = 0x7F80_0000;

/// Whether the number with the pattern `v` is above zero. The patterns
/// from 1 to that of positive infinity are: those of both zeros, of the
/// negative numbers and of what is no number are not.
pub open spec fn present(v: u32) -> bool {
    0 < v <= MAX_PRESENT
}

/// Whether the cell with the bit vector `bv` and the values `vals` is the
/// sparse form of the dense row `row`: the features with a value above
/// zero are the marked ones, and the values are theirs, by ascending feature.
pub open spec fn holds_row(bv: Seq<u8>, vals: Seq<u32>, row: Seq<u32>) -> bool {
    &&& bv.len() == byte_len(row.len() as int)
    &&& forall|j: int|
        0 <= j < bit_len(bv) ==> (#[trigger] bit_at(bv, j) <==> j < row.len() && present(row[j]))
    &&& vals.len() == popcount(bv)
    &&& forall|k: int| 0 <= k < vals.len() ==> #[trigger] vals[k] == row[set_bits(bv)[k]]
}

/// The dense row of `g` features of a cell: the value of each marked
/// feature, and zero elsewhere.
pub open spec fn dense_row(bv: Seq<u8>, vals: Seq<u32>, g: int) -> Seq<u32> {
    Seq::new(
        g as nat,
        |j: int|
            if bit_at(bv, j) {
                vals[rank(bv, j) as int]
            } else {
                0u32
            },
    )
}

/// Whether the number with the pattern `v` is above zero.
pub fn is_present(v: u32) -> (r: bool)
    ensures
        r == present(v),
{
    0 < v && v <= MAX_PRESENT
}

/// The sparse form of a dense row: a bit is set, and the value kept, for
/// every feature whose value is above zero.
pub fn dense_to_sparse(row: &Vec<u32>) -> (r: (Vec<u8>, Vec<u32>))
    ensures
        holds_row(r.0@, r.1@, row@),
{
    let num_bvecs = byte_count(row.len());
    let mut bit_vec: Vec<u8> = Vec::new();
    let mut flag_id: usize = 0;
    while flag_id < num_bvecs
        invariant
            flag_id <= num_bvecs,
            num_bvecs == byte_len(row.len() as int),
            bit_vec@.len() == flag_id,
            forall|j: int|
                0 <= j < 8 * flag_id ==> (#[trigger] bit_at(bit_vec@, j) <==> j < row.len()
                    && present(row@[j])),
        decreases num_bvecs - flag_id,
    {
        let mut flag: u8 = 0;
        let mut i: usize = 0;
        proof {
            assert forall|k: int| 0 <= k < 8 implies !byte_bit(flag, k) by {
                lemma_zero_byte(k);
            }
        }
        while i < 8
            invariant
                i <= 8,
                flag_id < num_bvecs,
                num_bvecs == byte_len(row.len() as int),
                forall|k: int|
                    0 <= k < 8 ==> (#[trigger] byte_bit(flag, k) <==> k < i && 8 * flag_id + k
                        < row.len() && present(row@[8 * flag_id + k])),
            decreases 8 - i,
        {
            let ghost old_flag = flag;
            if i < row.len() - flag_id * 8 {
                let col_id = flag_id * 8 + i;
                if is_present(row[col_id]) {
                    flag = flag | bit_mask(i);
                    proof {
                        assert forall|k: int| 0 <= k < 8 implies byte_bit(flag, k) == (k == i
                            || byte_bit(old_flag, k)) by {
                            lemma_set_bit(old_flag, i as int, k);
                        }
                    }
                }
            }
            i = i + 1;
        }
        let ghost old_vec = bit_vec@;
        bit_vec.push(flag);
        flag_id = flag_id + 1;
        proof {
            assert forall|j: int| 0 <= j < 8 * flag_id implies (#[trigger] bit_at(bit_vec@, j) <==> j
                < row.len() && present(row@[j])) by {
                if j < 8 * (flag_id - 1) {
                    assert(bit_at(bit_vec@, j) == bit_at(old_vec, j));
                } else {
                    let k = j - 8 * (flag_id - 1);
                    assert(j / 8 == flag_id - 1 && j % 8 == k);
                }
            }
        }
    }
    let mut values: Vec<u32> = Vec::new();
    let mut j: usize = 0;
    while j < row.len()
        invariant
            j <= row.len(),
            bit_vec@.len() == byte_len(row.len() as int),
            forall|x: int|
                0 <= x < bit_len(bit_vec@) ==> (#[trigger] bit_at(bit_vec@, x) <==> x < row.len()
                    && present(row@[x])),
            values@.len() == positions(bit_vec@, j as int).len(),
            forall|k: int|
                0 <= k < values@.len() ==> #[trigger] values@[k] == row@[positions(
                    bit_vec@,
                    j as int,
                )[k]],
        decreases row.len() - j,
    {
        if is_present(row[j]) {
            values.push(row[j]);
        }
        j = j + 1;
    }
    proof {
        lemma_rank_tail(bit_vec@, row.len() as int, bit_len(bit_vec@));
        lemma_positions_len(bit_vec@, bit_len(bit_vec@));
    }
    (bit_vec, values)
}

/// The dense row of `g` features of a cell.
pub fn sparse_to_dense(bv: &Vec<u8>, vals: &Vec<u32>, g: usize) -> (r: Result<
    Vec<u32>,
    FormatError,
>)
    ensures
        match cell_fault(bv@, vals@.len() as int, g as int) {
            Some(e) => r == Err::<Vec<u32>, FormatError>(e),
            None => r is Ok && r->Ok_0@ == dense_row(bv@, vals@, g as int),
        },
{
    if let Err(e) = check_cell(bv, vals.len(), g) {
        return Err(e);
    }
    proof {
        lemma_cell_sound(bv@, vals@.len() as int, g as int);
    }
    let mut row: Vec<u32> = Vec::new();
    let mut aidx: usize = 0;
    let mut j: usize = 0;
    while j < g
        invariant
            j <= g,
            vals@.len() == rank(bv@, g as int),
            aidx == rank(bv@, j as int),
            row@ == dense_row(bv@, vals@, j as int),
        decreases g - j,
    {
        proof {
            lemma_rank_bounds(bv@, j as int + 1, g as int);
        }
        if get_bit(bv, j) {
            row.push(vals[aidx]);
            aidx = aidx + 1;
        } else {
            row.push(0);
        }
        j = j + 1;
        assert(row@ =~= dense_row(bv@, vals@, j as int));
    }
    Ok(row)
}

/// A dense row whose numbers are zero or above comes back from its sparse
/// form: the sparse form is a cell without fault, and its dense row is
/// the row it was made from.
pub proof fn lemma_dense_round_trip(row: Seq<u32>, bv: Seq<u8>, vals: Seq<u32>)
    requires
        holds_row(bv, vals, row),
        forall|j: int| 0 <= j < row.len() ==> row[j] == 0 || present(#[trigger] row[j]),
    ensures
        cell_fault(bv, vals.len() as int, row.len() as int) is None,
        dense_row(bv, vals, row.len() as int) == row,
{
    let g = row.len() as int;
    lemma_first_marked_is(bv, g, bit_len(bv));
    lemma_rank_tail(bv, g, bit_len(bv));
    lemma_positions(bv, bit_len(bv));
    lemma_positions_len(bv, bit_len(bv));
    assert forall|j: int| 0 <= j < g implies dense_row(bv, vals, g)[j] == row[j] by {
        if bit_at(bv, j) {
            let k = rank(bv, j) as int;
            assert(set_bits(bv)[k] == j);
            assert(vals[k] == row[set_bits(bv)[k]]);
        }
    }
    assert(dense_row(bv, vals, g) =~= row);
}

/// A cell without fault whose values are all above zero comes back from
/// its dense row: the sparse form of the row is the cell.
pub proof fn lemma_sparse_round_trip(bv: Seq<u8>, vals: Seq<u32>, g: int, b2: Seq<u8>, v2: Seq<u32>)
    requires
        0 <= g,
        cell_fault(bv, vals.len() as int, g) is None,
        forall|k: int| 0 <= k < vals.len() ==> present(#[trigger] vals[k]),
        holds_row(b2, v2, dense_row(bv, vals, g)),
    ensures
        b2 == bv,
        v2 == vals,
{
    let row = dense_row(bv, vals, g);
    lemma_cell_sound(bv, vals.len() as int, g);
    lemma_positions(bv, g);
    lemma_positions_len(bv, g);
    assert forall|j: int| 0 <= j < bit_len(bv) implies bit_at(bv, j) == bit_at(b2, j) by {
        if j < g && bit_at(bv, j) {
            lemma_rank_bounds(bv, j + 1, g);
            assert(present(vals[rank(bv, j) as int]));
        }
    }
    lemma_bits_ext(bv, b2);
    assert forall|k: int| 0 <= k < vals.len() implies vals[k] == v2[k] by {
        let j = set_bits(bv)[k];
        assert(positions(bv, g)[k] == j);
        assert(rank(bv, j) == k);
        assert(v2[k] == row[set_bits(b2)[k]]);
    }
    assert(vals =~= v2);
}

/// The mapping that the first `n` of `pairs` make, each put in after
/// those before it.
pub open spec fn inserted<V>(pairs: Seq<(u32, V)>, n: int) -> Map<u32, V>
    decreases n,
{
    if n <= 0 {
        Map::empty()
    } else {
        inserted(pairs, n - 1).insert(pairs[n - 1].0, pairs[n - 1].1)
    }
}

/// Whether no two of `pairs` have the same feature.
pub open spec fn distinct_keys<V>(pairs: Seq<(u32, V)>) -> bool {
    forall|i: int, j: int| 0 <= i < j < pairs.len() ==> pairs[i].0 != pairs[j].0
}

/// Whether `m` gives the feature `k` the value `v`.
pub open spec fn maps_to<V>(m: Map<u32, V>, k: u32, v: V) -> bool {
    m.dom().contains(k) && m[k] == v
}

/// Whether the pair of `k` and `v` is among the first `n` of `pairs`.
pub open spec fn has_pair<V>(pairs: Seq<(u32, V)>, n: int, k: u32, v: V) -> bool {
    exists|i: int| 0 <= i < n && #[trigger] pairs[i] == (k, v)
}

/// With distinct features, the mapping holds the pairs that were put in,
/// and no others.
pub proof fn lemma_inserted<V>(pairs: Seq<(u32, V)>, n: int)
    requires
        0 <= n <= pairs.len(),
        distinct_keys(pairs),
    ensures
        forall|k: u32, v: V| #[trigger]
            maps_to(inserted(pairs, n), k, v) <==> has_pair(pairs, n, k, v),
    decreases n,
{
    if n > 0 {
        lemma_inserted(pairs, n - 1);
        let before = inserted(pairs, n - 1);
        let now = inserted(pairs, n);
        assert forall|k: u32, v: V| #[trigger]
            maps_to(now, k, v) <==> has_pair(pairs, n, k, v) by {
            if maps_to(now, k, v) {
                if k == pairs[n - 1].0 {
                    assert(pairs[n - 1] == (k, v));
                } else {
                    assert(maps_to(before, k, v));
                    assert(has_pair(pairs, n - 1, k, v));
                    let i = choose|i: int| 0 <= i < n - 1 && #[trigger] pairs[i] == (k, v);
                    assert(0 <= i < n && pairs[i] == (k, v));
                }
            }
            if has_pair(pairs, n, k, v) {
                let i = choose|i: int| 0 <= i < n && #[trigger] pairs[i] == (k, v);
                if i < n - 1 {
                    assert(pairs[i].0 != pairs[n - 1].0);
                    assert(has_pair(pairs, n - 1, k, v));
                    assert(maps_to(before, k, v));
                }
            }
        }
    }
}

/// The order in which pairs with distinct features are put into a mapping
/// does not matter: the same pairs in another order make the same mapping.
pub proof fn lemma_insertion_order<V>(a: Seq<(u32, V)>, b: Seq<(u32, V)>)
    requires
        distinct_keys(a),
        a.to_multiset() == b.to_multiset(),
    ensures
        inserted(a, a.len() as int) == inserted(b, b.len() as int),
{
    broadcast use vstd::seq_lib::to_multiset_contains;

    assert forall|x: (u32, V)| a.contains(x) <==> b.contains(x) by {
        vstd::seq_lib::to_multiset_contains(a, x);
        vstd::seq_lib::to_multiset_contains(b, x);
    }
    assert(a.no_duplicates());
    a.lemma_multiset_has_no_duplicates();
    b.lemma_multiset_has_no_duplicates_conv();
    assert forall|i: int, j: int| 0 <= i < j < b.len() implies b[i].0 != b[j].0 by {
        assert(b.contains(b[i]) && b.contains(b[j]));
        assert(a.contains(b[i]) && a.contains(b[j]));
        let x = choose|x: int| 0 <= x < a.len() && a[x] == b[i];
        let y = choose|y: int| 0 <= y < a.len() && a[y] == b[j];
        if x < y {
            assert(a[x].0 != a[y].0);
        } else if y < x {
            assert(a[y].0 != a[x].0);
        } else {
            assert(b[i] != b[j]);
        }
    }
    lemma_inserted(a, a.len() as int);
    lemma_inserted(b, b.len() as int);
    let ma = inserted(a, a.len() as int);
    let mb = inserted(b, b.len() as int);
    assert forall|k: u32| #[trigger] ma.dom().contains(k) implies mb.dom().contains(k) && mb[k]
        == ma[k] by {
        let v = ma[k];
        assert(maps_to(ma, k, v));
        assert(has_pair(a, a.len() as int, k, v));
        let i = choose|i: int| 0 <= i < a.len() && #[trigger] a[i] == (k, v);
        assert(a.contains((k, v)));
        assert(b.contains((k, v)));
        let j = choose|j: int| 0 <= j < b.len() && b[j] == (k, v);
        assert(0 <= j < b.len() && b[j] == (k, v));
        assert(has_pair(b, b.len() as int, k, v));
        assert(maps_to(mb, k, v));
    }
    assert forall|k: u32| #[trigger] mb.dom().contains(k) implies ma.dom().contains(k) by {
        let v = mb[k];
        assert(maps_to(mb, k, v));
        assert(has_pair(b, b.len() as int, k, v));
        let j = choose|j: int| 0 <= j < b.len() && #[trigger] b[j] == (k, v);
        assert(b.contains((k, v)));
        assert(a.contains((k, v)));
        let i = choose|i: int| 0 <= i < a.len() && a[i] == (k, v);
        assert(0 <= i < a.len() && a[i] == (k, v));
        assert(has_pair(a, a.len() as int, k, v));
        assert(maps_to(ma, k, v));
    }
    assert(ma.dom() =~= mb.dom());
    assert(ma =~= mb);
}

/// A mapping has one sparse form: two cells that hold the same mapping
/// are the same cell.
pub proof fn lemma_mapping_unique<V>(
    bv1: Seq<u8>,
    vals1: Seq<V>,
    bv2: Seq<u8>,
    vals2: Seq<V>,
    m: Map<u32, V>,
    g: int,
)
    requires
        holds_mapping(bv1, vals1, m, g),
        holds_mapping(bv2, vals2, m, g),
    ensures
        bv1 == bv2,
        vals1 == vals2,
{
    assert forall|j: int| 0 <= j < bit_len(bv1) implies bit_at(bv1, j) == bit_at(bv2, j) by {
        assert(bit_at(bv1, j) <==> j <= u32::MAX && m.dom().contains(j as u32));
        assert(bit_at(bv2, j) <==> j <= u32::MAX && m.dom().contains(j as u32));
    }
    lemma_bits_ext(bv1, bv2);
    assert(vals1 =~= vals2);
}

/// The sparse form of a mapping does not depend on the order in which
/// its pairs were put in.
pub proof fn lemma_order_invariance<V>(
    a: Seq<(u32, V)>,
    b: Seq<(u32, V)>,
    g: int,
    bv1: Seq<u8>,
    vals1: Seq<V>,
    bv2: Seq<u8>,
    vals2: Seq<V>,
)
    requires
        distinct_keys(a),
        a.to_multiset() == b.to_multiset(),
        holds_mapping(bv1, vals1, inserted(a, a.len() as int), g),
        holds_mapping(bv2, vals2, inserted(b, b.len() as int), g),
    ensures
        bv1 == bv2,
        vals1 == vals2,
{
    lemma_insertion_order(a, b);
    lemma_mapping_unique(bv1, vals1, bv2, vals2, inserted(a, a.len() as int), g);
}

} // verus!
