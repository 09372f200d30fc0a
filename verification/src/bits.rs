//! The bit-vector model: packed presence flags, one bit per feature, the
//! most significant bit of each byte first.

use vstd::prelude::*;

verus! {

/// The byte with only bit `k` set, bit 0 being the most significant one.
pub open spec fn mask(k: int) -> u8 {
    if k == 0 {
        128u8
    } else if k == 1 {
        64u8
    } else if k == 2 {
        32u8
    } else if k == 3 {
        16u8
    } else if k == 4 {
        8u8
    } else if k == 5 {
        4u8
    } else if k == 6 {
        2u8
    } else {
        1u8
    }
}

/// Whether bit `k` of `b` is set, bit 0 being the most significant one.
pub open spec fn byte_bit(b: u8, k: int) -> bool {
    b & mask(k) != 0
}

/// Number of bytes that hold `n` bits.
pub open spec fn byte_len(n: int) -> int {
    (n + 7) / 8
}

/// Number of bits that the bit vector `bv` holds.
pub open spec fn bit_len(bv: Seq<u8>) -> int {
    8 * (bv.len() as int)
}

/// Whether feature `j` is marked in the bit vector `bv`.
pub open spec fn bit_at(bv: Seq<u8>, j: int) -> bool {
    0 <= j < 8 * bv.len() && byte_bit(bv[j / 8], j % 8)
}

/// Number of marked features below `n`.
pub open spec fn rank(bv: Seq<u8>, n: int) -> nat
    decreases n,
{
    if n <= 0 {
        0
    } else {
        rank(bv, n - 1) + if bit_at(bv, n - 1) {
            1nat
        } else {
            0nat
        }
    }
}

/// Number of marked features in the whole bit vector.
pub open spec fn popcount(bv: Seq<u8>) -> nat {
    rank(bv, bit_len(bv))
}

/// The marked features below `n`, ascending.
pub open spec fn positions(bv: Seq<u8>, n: int) -> Seq<int>
    decreases n,
{
    if n <= 0 {
        Seq::empty()
    } else if bit_at(bv, n - 1) {
        positions(bv, n - 1).push(n - 1)
    } else {
        positions(bv, n - 1)
    }
}

/// All marked features of the bit vector, ascending.
pub open spec fn set_bits(bv: Seq<u8>) -> Seq<int> {
    positions(bv, bit_len(bv))
}

/// Whether `m` is one of the eight single-bit bytes.
pub open spec fn is_mask(m: u8) -> bool {
    m == 128 || m == 64 || m == 32 || m == 16 || m == 8 || m == 4 || m == 2 || m == 1
}

/// `mask` yields single-bit bytes, and distinct ones for distinct bits.
pub proof fn lemma_mask(j: int, k: int)
    requires
        0 <= j < 8,
        0 <= k < 8,
    ensures
        is_mask(mask(j)),
        mask(j) == mask(k) <==> j == k,
{
}

/// Setting bit `k` of a byte changes bit `k` and no other.
pub proof fn lemma_set_bit(f: u8, k: int, j: int)
    requires
        0 <= j < 8,
        0 <= k < 8,
    ensures
        byte_bit(f | mask(k), j) == (j == k || byte_bit(f, j)),
{
    let m = mask(k);
    let n = mask(j);
    lemma_mask(j, k);
    lemma_mask(k, j);
    assert(is_mask(m) && is_mask(n) ==> (((f | m) & n != 0) == (m == n || (f & n != 0))))
        by (bit_vector);
}

/// The zero byte has no bit set.
pub proof fn lemma_zero_byte(j: int)
    ensures
        !byte_bit(0u8, j),
{
    let n = mask(j);
    assert(0u8 & n == 0) by (bit_vector);
}

/// Two bytes with the same bits are the same byte.
pub proof fn lemma_byte_ext(a: u8, b: u8)
    requires
        forall|k: int| 0 <= k < 8 ==> byte_bit(a, k) == byte_bit(b, k),
    ensures
        a == b,
{
    assert(byte_bit(a, 0) == byte_bit(b, 0));
    assert(byte_bit(a, 1) == byte_bit(b, 1));
    assert(byte_bit(a, 2) == byte_bit(b, 2));
    assert(byte_bit(a, 3) == byte_bit(b, 3));
    assert(byte_bit(a, 4) == byte_bit(b, 4));
    assert(byte_bit(a, 5) == byte_bit(b, 5));
    assert(byte_bit(a, 6) == byte_bit(b, 6));
    assert(byte_bit(a, 7) == byte_bit(b, 7));
    assert(((a & 128 != 0) == (b & 128 != 0) && (a & 64 != 0) == (b & 64 != 0) && (a & 32 != 0)
        == (b & 32 != 0) && (a & 16 != 0) == (b & 16 != 0) && (a & 8 != 0) == (b & 8 != 0) && (a
        & 4 != 0) == (b & 4 != 0) && (a & 2 != 0) == (b & 2 != 0) && (a & 1 != 0) == (b & 1 != 0))
        ==> a == b) by (bit_vector);
}

/// The single-bit byte for bit `k`.
pub fn bit_mask(k: usize) -> (m: u8)
    requires
        k < 8,
    ensures
        m == mask(k as int),
{
    let s: u8 = k as u8;
    assert(s < 8 ==> (128u8 >> s) == (if s == 0 {
        128u8
    } else if s == 1 {
        64u8
    } else if s == 2 {
        32u8
    } else if s == 3 {
        16u8
    } else if s == 4 {
        8u8
    } else if s == 5 {
        4u8
    } else if s == 6 {
        2u8
    } else {
        1u8
    })) by (bit_vector);
    128u8 >> s
}

/// Whether bit `k` of `flag` is set.
pub fn test_bit(flag: u8, k: usize) -> (r: bool)
    requires
        k < 8,
    ensures
        r == byte_bit(flag, k as int),
{
    flag & bit_mask(k) != 0
}

/// `positions` lists as many features as `rank` counts.
pub proof fn lemma_positions_len(bv: Seq<u8>, n: int)
    ensures
        positions(bv, n).len() == rank(bv, n),
    decreases n,
{
    if n > 0 {
        lemma_positions_len(bv, n - 1);
    }
}

/// `rank` never exceeds the number of features it looks at, and grows with it.
pub proof fn lemma_rank_bounds(bv: Seq<u8>, m: int, n: int)
    requires
        m <= n,
    ensures
        rank(bv, m) <= rank(bv, n),
        rank(bv, n) - rank(bv, m) <= n - m || n <= 0,
        rank(bv, n) <= n || n <= 0,
    decreases n,
{
    if n > 0 {
        if m < n {
            lemma_rank_bounds(bv, m, n - 1);
        }
        lemma_rank_bounds(bv, 0, n - 1);
    }
}

/// Where no feature from `m` on is marked, counting and listing stop at `m`.
pub proof fn lemma_rank_tail(bv: Seq<u8>, m: int, n: int)
    requires
        0 <= m <= n,
        forall|j: int| m <= j < n ==> !bit_at(bv, j),
    ensures
        rank(bv, n) == rank(bv, m),
        positions(bv, n) == positions(bv, m),
    decreases n,
{
    if m < n {
        lemma_rank_tail(bv, m, n - 1);
    }
}

/// Every listed feature is marked and lies below `n`; the list ascends; a
/// marked feature `j` stands at index `rank(bv, j)`.
pub proof fn lemma_positions(bv: Seq<u8>, n: int)
    ensures
        forall|i: int|
            0 <= i < positions(bv, n).len() ==> {
                &&& 0 <= #[trigger] positions(bv, n)[i] < n
                &&& bit_at(bv, positions(bv, n)[i])
                &&& rank(bv, positions(bv, n)[i]) == i
            },
        forall|j: int|
            0 <= j < n && bit_at(bv, j) ==> {
                &&& rank(bv, j) < positions(bv, n).len()
                &&& positions(bv, n)[rank(bv, j) as int] == j
            },
        forall|i: int, k: int|
            0 <= i < k < positions(bv, n).len() ==> positions(bv, n)[i] < positions(bv, n)[k],
    decreases n,
{
    if n > 0 {
        lemma_positions(bv, n - 1);
        lemma_positions_len(bv, n - 1);
        lemma_positions_len(bv, n);
        let p = positions(bv, n - 1);
        assert forall|j: int| 0 <= j < n && bit_at(bv, j) implies {
            &&& rank(bv, j) < positions(bv, n).len()
            &&& positions(bv, n)[rank(bv, j) as int] == j
        } by {
            if j < n - 1 {
                assert(p[rank(bv, j) as int] == j);
            }
        }
    }
}

/// Two bit vectors of one length that mark the same features are equal.
pub proof fn lemma_bits_ext(a: Seq<u8>, b: Seq<u8>)
    requires
        a.len() == b.len(),
        forall|j: int| 0 <= j < 8 * a.len() ==> bit_at(a, j) == bit_at(b, j),
    ensures
        a == b,
{
    assert forall|i: int| 0 <= i < a.len() implies a[i] == b[i] by {
        assert forall|k: int| 0 <= k < 8 implies byte_bit(a[i], k) == byte_bit(b[i], k) by {
            let j = 8 * i + k;
            assert(j / 8 == i && j % 8 == k);
            assert(bit_at(a, j) == bit_at(b, j));
        }
        lemma_byte_ext(a[i], b[i]);
    }
    assert(a =~= b);
}

/// Number of bytes that hold `n` bits.
pub fn byte_count(n: usize) -> (r: usize)
    ensures
        r == byte_len(n as int),
        8 * r - 7 <= n <= 8 * r,
{
    if n % 8 == 0 {
        n / 8
    } else {
        n / 8 + 1
    }
}

/// Whether feature `j` is marked in `bv`.
pub fn get_bit(bv: &Vec<u8>, j: usize) -> (r: bool)
    ensures
        r == bit_at(bv@, j as int),
{
    if j / 8 < bv.len() {
        test_bit(bv[j / 8], j % 8)
    } else {
        false
    }
}

} // verus!
