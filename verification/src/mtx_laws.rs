//! What the coordinate text of a matrix is read back as.

use crate::bits::{
    bit_at, bit_len, lemma_bits_ext, lemma_positions, lemma_positions_len, lemma_rank_bounds, rank,
    set_bits,
};
use crate::codec::{
    cell_fault, counts, lemma_cell_sound, lemma_cells_fault, lemma_total_grows, total,
};
use crate::mtx::{
    banner, cell_lines, cells_lines, coordinates, entry_line, holds_entries, is_comment, is_entry,
    last_entry, line_fault, lines_fault, mtx_text, read_fault, size_line, size_seen, text_fault,
    PERCENT,
};
use crate::text::{
    decimal, ends_lines, field, is_plain, is_space, lemma_decimal, lemma_lines_push,
    lemma_three_fields, lines, NEWLINE, TAB,
};
use vstd::prelude::*;

verus! {

/// Whether every token of a matrix is plain: not empty, and free of
/// white space.
pub open spec fn plain_tokens(tokens: Seq<Seq<Seq<u8>>>) -> bool {
    forall|i: int, k: int|
        0 <= i < tokens.len() && 0 <= k < tokens[i].len() ==> (#[trigger] tokens[i][k]).len() > 0
            && is_plain(tokens[i][k])
}

/// The first line without its end.
pub open spec fn banner_body() -> Seq<u8> {
    banner().take(banner().len() - 1)
}

/// The line with the size without its end.
pub open spec fn size_body(c: int, g: int, nnz: int) -> Seq<u8> {
    decimal(c as nat) + seq![TAB] + decimal(g as nat) + seq![TAB] + decimal(nnz as nat)
}

/// The line of one value without its end.
pub open spec fn entry_body(cell: int, feature: int, token: Seq<u8>) -> Seq<u8> {
    decimal((cell + 1) as nat) + seq![TAB] + decimal((feature + 1) as nat) + seq![TAB] + token
}

/// The lines of the first `n` values of a cell, each without its end.
pub open spec fn cell_rows(cell: int, bv: Seq<u8>, tokens: Seq<Seq<u8>>, n: int) -> Seq<Seq<u8>>
    decreases n,
{
    if n <= 0 {
        Seq::empty()
    } else {
        cell_rows(cell, bv, tokens, n - 1).push(
            entry_body(cell, set_bits(bv)[n - 1], tokens[n - 1]),
        )
    }
}

/// The lines of all values of the first `n` cells, each without its end.
pub open spec fn cells_rows(bvs: Seq<Seq<u8>>, tokens: Seq<Seq<Seq<u8>>>, n: int) -> Seq<Seq<u8>>
    decreases n,
{
    if n <= 0 {
        Seq::empty()
    } else {
        cells_rows(bvs, tokens, n - 1) + cell_rows(
            n - 1,
            bvs[n - 1],
            tokens[n - 1],
            tokens[n - 1].len() as int,
        )
    }
}

/// The lines of the text of a matrix, each without its end.
pub open spec fn text_rows(bvs: Seq<Seq<u8>>, tokens: Seq<Seq<Seq<u8>>>, c: int, g: int) -> Seq<
    Seq<u8>,
> {
    seq![banner_body(), size_body(c, g, total(counts(tokens), c))] + cells_rows(bvs, tokens, c)
}

/// Whether the first `n` characters are no line feeds.
pub open spec fn no_breaks(s: Seq<char>, n: int) -> bool
    decreases n,
{
    n <= 0 || (s[n - 1] != '\n' && no_breaks(s, n - 1))
}

/// Characters that are no line feeds, one by one, are none.
pub proof fn lemma_no_breaks(s: Seq<char>, n: int)
    requires
        no_breaks(s, n),
    ensures
        forall|i: int| 0 <= i < n ==> s[i] != '\n',
    decreases n,
{
    if n > 0 {
        lemma_no_breaks(s, n - 1);
    }
}

/// The first line is a comment of one line.
pub proof fn lemma_banner()
    ensures
        banner() == banner_body() + seq![NEWLINE],
        is_comment(banner_body()),
        forall|i: int| 0 <= i < banner_body().len() ==> #[trigger] banner_body()[i] != NEWLINE,
{
    let s = "%%MatrixMarket\tmatrix\tcoordinate\treal\tgeneral\n"@;
    reveal_strlit("%%MatrixMarket\tmatrix\tcoordinate\treal\tgeneral\n");
    reveal_with_fuel(no_breaks, 48);
    assert(s.len() == 46);
    assert(no_breaks(s, 45));
    lemma_no_breaks(s, 45);
    assert(s[0] == '%');
    assert(s[45] == '\n');
    assert(banner()[0] == PERCENT);
    assert(banner() =~= banner_body() + seq![NEWLINE]);
    assert forall|i: int| 0 <= i < banner_body().len() implies #[trigger] banner_body()[i]
        != NEWLINE by {
        assert(banner_body()[i] == s[i] as u8);
        assert(s[i] != '\n');
    }
}

/// A line of two numbers and a plain token names the two numbers and has
/// the token for its third field; it is no comment and holds no line feed.
pub proof fn lemma_record(first: nat, second: nat, token: Seq<u8>)
    requires
        first <= usize::MAX,
        second <= u32::MAX,
        token.len() > 0,
        is_plain(token),
    ensures
        coordinates(decimal(first) + seq![TAB] + decimal(second) + seq![TAB] + token) == Some(
            (first, second),
        ),
        field(decimal(first) + seq![TAB] + decimal(second) + seq![TAB] + token, 2) == token,
        !is_comment(decimal(first) + seq![TAB] + decimal(second) + seq![TAB] + token),
        forall|i: int|
            0 <= i < (decimal(first) + seq![TAB] + decimal(second) + seq![TAB] + token).len() ==> (
            #[trigger] (decimal(first) + seq![TAB] + decimal(second) + seq![TAB] + token)[i])
                != NEWLINE,
{
    let a = decimal(first);
    let b = decimal(second);
    let line = a + seq![TAB] + b + seq![TAB] + token;
    lemma_decimal(first);
    lemma_decimal(second);
    lemma_three_fields(a, b, token);
    assert(line[0] == a[0]);
    assert(!is_space(a[0]));
    assert forall|i: int| 0 <= i < line.len() implies (#[trigger] line[i]) != NEWLINE by {
        let first_tab = a.len() as int;
        let second_tab = first_tab + 1 + b.len();
        if i < first_tab {
            assert(line[i] == a[i]);
            assert(!is_space(a[i]));
        } else if first_tab < i < second_tab {
            assert(line[i] == b[i - first_tab - 1]);
            assert(!is_space(b[i - first_tab - 1]));
        } else if second_tab < i {
            assert(line[i] == token[i - second_tab - 1]);
            assert(!is_space(token[i - second_tab - 1]));
        }
    }
    assert(crate::text::all_digits(a));
    assert(crate::text::is_digit(a[0]));
}

/// Whether the cell `cell` has plain tokens, as many as its bit vector
/// marks features, all below `g`, in a matrix of cells that the machine
/// counts.
pub open spec fn plain_cell(cell: int, bv: Seq<u8>, tokens: Seq<Seq<u8>>, g: int) -> bool {
    &&& 0 <= cell < usize::MAX
    &&& 0 <= g <= u32::MAX
    &&& cell_fault(bv, tokens.len() as int, g) is None
    &&& forall|k: int|
        0 <= k < tokens.len() ==> (#[trigger] tokens[k]).len() > 0 && is_plain(tokens[k])
}

/// The lines of the values of a cell, each without its end, are as many
/// as the values, and that of value `k` names the cell and the feature
/// of the value.
pub proof fn lemma_cell_rows(cell: int, bv: Seq<u8>, tokens: Seq<Seq<u8>>, n: int)
    requires
        0 <= n <= tokens.len(),
    ensures
        cell_rows(cell, bv, tokens, n).len() == n,
        forall|k: int|
            0 <= k < n ==> #[trigger] cell_rows(cell, bv, tokens, n)[k] == entry_body(
                cell,
                set_bits(bv)[k],
                tokens[k],
            ),
    decreases n,
{
    if n > 0 {
        lemma_cell_rows(cell, bv, tokens, n - 1);
    }
}

/// The text of the values of a cell adds the lines of these values to a
/// text that is empty or ends with a line feed.
pub proof fn lemma_cell_text(
    x: Seq<u8>,
    cell: int,
    bv: Seq<u8>,
    tokens: Seq<Seq<u8>>,
    g: int,
    n: int,
)
    requires
        ends_lines(x),
        plain_cell(cell, bv, tokens, g),
        0 <= n <= tokens.len(),
    ensures
        lines(x + cell_lines(cell, bv, tokens, n)) == lines(x) + cell_rows(cell, bv, tokens, n),
        ends_lines(x + cell_lines(cell, bv, tokens, n)),
    decreases n,
{
    if n > 0 {
        lemma_cell_text(x, cell, bv, tokens, g, n - 1);
        let before = x + cell_lines(cell, bv, tokens, n - 1);
        lemma_cell_sound(bv, tokens.len() as int, g);
        lemma_positions(bv, g);
        lemma_positions_len(bv, g);
        let feature = set_bits(bv)[n - 1];
        assert(0 <= feature < g);
        let body = entry_body(cell, feature, tokens[n - 1]);
        lemma_record((cell + 1) as nat, (feature + 1) as nat, tokens[n - 1]);
        lemma_lines_push(before, body);
        assert(entry_line(cell, feature, tokens[n - 1]) =~= body + seq![NEWLINE]);
        assert(x + cell_lines(cell, bv, tokens, n) =~= before + body + seq![NEWLINE]);
        assert(lines(x) + cell_rows(cell, bv, tokens, n) =~= (lines(x) + cell_rows(
            cell,
            bv,
            tokens,
            n - 1,
        )).push(body));
    } else {
        assert(x + cell_lines(cell, bv, tokens, n) =~= x);
        assert(lines(x) + cell_rows(cell, bv, tokens, n) =~= lines(x));
    }
}

/// Whether the first `n` cells are plain cells of a matrix of `g` features.
pub open spec fn plain_cells(bvs: Seq<Seq<u8>>, tokens: Seq<Seq<Seq<u8>>>, g: int, n: int) -> bool {
    &&& n <= bvs.len()
    &&& n <= tokens.len()
    &&& forall|i: int| 0 <= i < n ==> plain_cell(i, #[trigger] bvs[i], tokens[i], g)
}

/// The text of the values of the first `n` cells adds the lines of these
/// values to a text that is empty or ends with a line feed.
pub proof fn lemma_cells_text(
    x: Seq<u8>,
    bvs: Seq<Seq<u8>>,
    tokens: Seq<Seq<Seq<u8>>>,
    g: int,
    n: int,
)
    requires
        ends_lines(x),
        0 <= n,
        plain_cells(bvs, tokens, g, n),
    ensures
        lines(x + cells_lines(bvs, tokens, n)) == lines(x) + cells_rows(bvs, tokens, n),
        ends_lines(x + cells_lines(bvs, tokens, n)),
    decreases n,
{
    if n > 0 {
        lemma_cells_text(x, bvs, tokens, g, n - 1);
        let before = x + cells_lines(bvs, tokens, n - 1);
        let count = tokens[n - 1].len() as int;
        assert(plain_cell(n - 1, bvs[n - 1], tokens[n - 1], g));
        lemma_cell_text(before, n - 1, bvs[n - 1], tokens[n - 1], g, count);
        assert(x + cells_lines(bvs, tokens, n) =~= before + cell_lines(
            n - 1,
            bvs[n - 1],
            tokens[n - 1],
            count,
        ));
        assert(lines(x) + cells_rows(bvs, tokens, n) =~= (lines(x) + cells_rows(
            bvs,
            tokens,
            n - 1,
        )) + cell_rows(n - 1, bvs[n - 1], tokens[n - 1], count));
    } else {
        assert(x + cells_lines(bvs, tokens, n) =~= x);
        assert(lines(x) + cells_rows(bvs, tokens, n) =~= lines(x));
    }
}

/// The number of the value `k` of the cell `cell` among all values,
/// counted from 0.
pub open spec fn value_index(tokens: Seq<Seq<Seq<u8>>>, cell: int, k: int) -> int {
    total(counts(tokens), cell) + k
}

/// The lines of the values of the first `n` cells, each without its end,
/// are as many as the values, and that of value `k` of the cell `cell`
/// stands after those of the cells before it and names the cell and the
/// feature of the value.
pub proof fn lemma_cells_rows(bvs: Seq<Seq<u8>>, tokens: Seq<Seq<Seq<u8>>>, n: int)
    requires
        0 <= n <= tokens.len(),
    ensures
        cells_rows(bvs, tokens, n).len() == total(counts(tokens), n),
        forall|cell: int, k: int|
            0 <= cell < n && 0 <= k < tokens[cell].len() ==> 0 <= #[trigger] value_index(
                tokens,
                cell,
                k,
            ) < total(counts(tokens), n) && cells_rows(bvs, tokens, n)[value_index(
                tokens,
                cell,
                k,
            )] == entry_body(cell, set_bits(bvs[cell])[k], tokens[cell][k]),
    decreases n,
{
    let cnts = counts(tokens);
    if n > 0 {
        lemma_cells_rows(bvs, tokens, n - 1);
        let count = tokens[n - 1].len() as int;
        lemma_cell_rows(n - 1, bvs[n - 1], tokens[n - 1], count);
        lemma_total_grows(cnts, 0, n - 1);
        assert(cnts[n - 1] == count);
        assert forall|cell: int, k: int| 0 <= cell < n && 0 <= k < tokens[cell].len() implies 0
            <= #[trigger] value_index(tokens, cell, k) < total(cnts, n) && cells_rows(
            bvs,
            tokens,
            n,
        )[value_index(tokens, cell, k)] == entry_body(
            cell,
            set_bits(bvs[cell])[k],
            tokens[cell][k],
        ) by {
            let x = value_index(tokens, cell, k);
            if cell < n - 1 {
                assert(0 <= x < total(cnts, n - 1));
                assert(cells_rows(bvs, tokens, n - 1)[x] == entry_body(
                    cell,
                    set_bits(bvs[cell])[k],
                    tokens[cell][k],
                ));
            } else {
                assert(x == total(cnts, n - 1) + k);
                assert(cell_rows(n - 1, bvs[n - 1], tokens[n - 1], count)[k] == entry_body(
                    cell,
                    set_bits(bvs[cell])[k],
                    tokens[cell][k],
                ));
            }
        }
    }
}

/// Every value has its cell: a number below the number of values of the
/// first `n` cells is that of a value of one of these cells.
pub proof fn lemma_find_cell(cnts: Seq<int>, n: int, x: int) -> (r: (int, int))
    requires
        0 <= n <= cnts.len(),
        forall|i: int| 0 <= i < cnts.len() ==> cnts[i] >= 0,
        0 <= x < total(cnts, n),
    ensures
        0 <= r.0 < n,
        0 <= r.1 < cnts[r.0],
        x == total(cnts, r.0) + r.1,
    decreases n,
{
    lemma_total_grows(cnts, 0, n - 1);
    if x < total(cnts, n - 1) {
        lemma_find_cell(cnts, n - 1, x)
    } else {
        (n - 1, x - total(cnts, n - 1))
    }
}

/// The text of a matrix has the lines that `text_rows` lists.
pub proof fn lemma_text_lines(bvs: Seq<Seq<u8>>, tokens: Seq<Seq<Seq<u8>>>, c: int, g: int)
    requires
        0 <= c <= usize::MAX,
        0 <= g <= u32::MAX,
        plain_cells(bvs, tokens, g, c),
        tokens.len() == c,
        total(counts(tokens), c) <= usize::MAX,
    ensures
        lines(mtx_text(bvs, tokens, c, g)) == text_rows(bvs, tokens, c, g),
{
    let nnz = total(counts(tokens), c);
    lemma_total_grows(counts(tokens), 0, c);
    lemma_banner();
    let empty = Seq::<u8>::empty();
    lemma_lines_push(empty, banner_body());
    assert(empty + banner_body() + seq![NEWLINE] =~= banner());
    assert(lines(empty) =~= Seq::<Seq<u8>>::empty());
    lemma_decimal(nnz as nat);
    lemma_record(c as nat, g as nat, decimal(nnz as nat));
    lemma_lines_push(banner(), size_body(c, g, nnz));
    let head = banner() + size_line(c, g, nnz);
    assert(head =~= banner() + size_body(c, g, nnz) + seq![NEWLINE]);
    lemma_cells_text(head, bvs, tokens, g, c);
    assert(lines(head) =~= seq![banner_body(), size_body(c, g, nnz)]);
}

/// A number among all values is that of one value of one cell alone.
pub proof fn lemma_one_cell(cnts: Seq<int>, a: int, x: int, b: int, y: int)
    requires
        0 <= a < cnts.len(),
        0 <= b < cnts.len(),
        forall|i: int| 0 <= i < cnts.len() ==> cnts[i] >= 0,
        0 <= x < cnts[a],
        0 <= y < cnts[b],
        total(cnts, a) + x == total(cnts, b) + y,
    ensures
        a == b,
        x == y,
{
    if a < b {
        lemma_total_grows(cnts, a + 1, b);
    } else if b < a {
        lemma_total_grows(cnts, b + 1, a);
    }
}

/// The line on which the value of the marked feature `j` of the cell
/// `cell` stands, counted from 0.
pub open spec fn where_is(bvs: Seq<Seq<u8>>, tokens: Seq<Seq<Seq<u8>>>, cell: int, j: int) -> int {
    2 + value_index(tokens, cell, rank(bvs[cell], j) as int)
}

/// What `last_entry` finds among the first `m` lines of the text of a
/// matrix: for a marked feature of a cell whose line is among them that
/// line, and nothing else.
pub open spec fn found(
    bvs: Seq<Seq<u8>>,
    tokens: Seq<Seq<Seq<u8>>>,
    c: int,
    cell: int,
    j: int,
    m: int,
) -> Option<int> {
    if cell < c && bit_at(bvs[cell], j) && where_is(bvs, tokens, cell, j) < m {
        Some(where_is(bvs, tokens, cell, j))
    } else {
        None
    }
}

/// The first `m` lines of the text of a matrix have no fault, and each
/// value is found on its own line.
pub proof fn lemma_text_entries(
    bvs: Seq<Seq<u8>>,
    tokens: Seq<Seq<Seq<u8>>>,
    c: int,
    g: int,
    m: int,
)
    requires
        0 <= c <= usize::MAX,
        0 <= g <= u32::MAX,
        bvs.len() == c,
        tokens.len() == c,
        plain_cells(bvs, tokens, g, c),
        total(counts(tokens), c) <= usize::MAX,
        2 <= m <= 2 + total(counts(tokens), c),
    ensures
        lines_fault(text_rows(bvs, tokens, c, g), c, g, m) is None,
        size_seen(text_rows(bvs, tokens, c, g), m),
        forall|cell: int, j: int|
            0 <= cell && 0 <= j ==> #[trigger] last_entry(
                text_rows(bvs, tokens, c, g),
                cell,
                j,
                m,
            ) == found(bvs, tokens, c, cell, j, m),
    decreases m,
{
    let e = text_rows(bvs, tokens, c, g);
    let cnts = counts(tokens);
    let nnz = total(cnts, c);
    lemma_cells_rows(bvs, tokens, c);
    lemma_total_grows(cnts, 0, c);
    lemma_banner();
    assert(e[0] == banner_body());
    assert(e[1] == size_body(c, g, nnz));
    lemma_decimal(nnz as nat);
    lemma_record(c as nat, g as nat, decimal(nnz as nat));
    assert(!size_seen(e, 0));
    assert(!size_seen(e, 1));
    assert(size_seen(e, 2));
    if m == 2 {
        assert(lines_fault(e, c, g, 0) is None);
        assert(lines_fault(e, c, g, 1) is None);
        assert(lines_fault(e, c, g, 2) is None);
        assert forall|cell: int, j: int| 0 <= cell && 0 <= j implies #[trigger] last_entry(
            e,
            cell,
            j,
            m,
        ) == found(bvs, tokens, c, cell, j, m) by {
            assert(!is_entry(e, 1));
            assert(!is_entry(e, 0));
            assert(last_entry(e, cell, j, 0) is None);
            assert(last_entry(e, cell, j, 1) is None);
            assert(last_entry(e, cell, j, 2) is None);
            if cell < c {
                lemma_total_grows(cnts, 0, cell);
            }
        }
    } else {
        lemma_text_entries(bvs, tokens, c, g, m - 1);
        let i = m - 1;
        let (cell0, k0) = lemma_find_cell(cnts, c, i - 2);
        assert(cnts[cell0] == tokens[cell0].len());
        let bv0 = bvs[cell0];
        assert(plain_cell(cell0, bv0, tokens[cell0], g));
        lemma_cell_sound(bv0, tokens[cell0].len() as int, g);
        lemma_positions(bv0, g);
        lemma_positions_len(bv0, g);
        let f0 = set_bits(bv0)[k0];
        assert(0 <= f0 < g && bit_at(bv0, f0) && rank(bv0, f0) == k0);
        assert(i - 2 == value_index(tokens, cell0, k0));
        assert(e[i] == cells_rows(bvs, tokens, c)[i - 2]);
        assert(e[i] == entry_body(cell0, f0, tokens[cell0][k0]));
        lemma_record((cell0 + 1) as nat, (f0 + 1) as nat, tokens[cell0][k0]);
        assert(is_entry(e, i));
        assert(line_fault(e[i], m, false, c, g) is None);
        assert forall|cell: int, j: int| 0 <= cell && 0 <= j implies #[trigger] last_entry(
            e,
            cell,
            j,
            m,
        ) == found(bvs, tokens, c, cell, j, m) by {
            assert(last_entry(e, cell, j, m - 1) == found(bvs, tokens, c, cell, j, m - 1));
            if cell == cell0 && j == f0 {
                assert(where_is(bvs, tokens, cell, j) == i);
            } else {
                assert(coordinates(e[i]) != Some(((cell + 1) as nat, (j + 1) as nat)));
                if cell < c && bit_at(bvs[cell], j) && where_is(bvs, tokens, cell, j) == i {
                    let bv = bvs[cell];
                    assert(plain_cell(cell, bv, tokens[cell], g));
                    assert(cnts[cell] == tokens[cell].len());
                    lemma_cell_sound(bv, tokens[cell].len() as int, g);
                    lemma_positions(bv, g);
                    lemma_positions_len(bv, g);
                    lemma_rank_bounds(bv, j + 1, g);
                    lemma_one_cell(cnts, cell, rank(bv, j) as int, cell0, k0);
                    assert(j == f0);
                }
            }
        }
    }
}

/// A cell holds what the lines give it in one way alone: two cells that
/// hold the same lines for the same cell are the same cell.
pub proof fn lemma_entries_unique(
    bv1: Seq<u8>,
    toks1: Seq<Seq<u8>>,
    bv2: Seq<u8>,
    toks2: Seq<Seq<u8>>,
    ls: Seq<Seq<u8>>,
    cell: int,
    g: int,
)
    requires
        holds_entries(bv1, toks1, ls, cell, g),
        holds_entries(bv2, toks2, ls, cell, g),
    ensures
        bv1 == bv2,
        toks1 == toks2,
{
    assert forall|j: int| 0 <= j < bit_len(bv1) implies bit_at(bv1, j) == bit_at(bv2, j) by {
        assert(bit_at(bv1, j) <==> last_entry(ls, cell, j, ls.len() as int) is Some);
        assert(bit_at(bv2, j) <==> last_entry(ls, cell, j, ls.len() as int) is Some);
    }
    lemma_bits_ext(bv1, bv2);
    assert(toks1 =~= toks2);
}

/// What was written is read back: the coordinate text that the writer
/// makes of a matrix of at most `u32::MAX` features with plain tokens reads
/// without fault, and each cell holds what its lines give it. With
/// `lemma_entries_unique`, what the reader makes of the text is the matrix.
pub proof fn lemma_round_trip(bvs: Seq<Seq<u8>>, tokens: Seq<Seq<Seq<u8>>>, c: int, g: int)
    requires
        0 <= c <= usize::MAX,
        0 <= g <= u32::MAX,
        text_fault(bvs, counts(tokens), c, g) is None,
        plain_tokens(tokens),
    ensures
        read_fault(lines(mtx_text(bvs, tokens, c, g)), c, g) is None,
        forall|i: int|
            0 <= i < c ==> holds_entries(
                #[trigger] bvs[i],
                tokens[i],
                lines(mtx_text(bvs, tokens, c, g)),
                i,
                g,
            ),
{
    let cnts = counts(tokens);
    let e = text_rows(bvs, tokens, c, g);
    let n = 2 + total(cnts, c);
    lemma_cells_fault(bvs, cnts, g, 0);
    assert(plain_cells(bvs, tokens, g, c)) by {
        assert forall|i: int| 0 <= i < c implies plain_cell(i, #[trigger] bvs[i], tokens[i], g) by {
            assert(cnts[i] == tokens[i].len());
            assert(cell_fault(bvs[i], cnts[i], g) is None);
        }
    }
    lemma_total_grows(cnts, 0, c);
    lemma_text_lines(bvs, tokens, c, g);
    lemma_cells_rows(bvs, tokens, c);
    assert(e.len() == n);
    lemma_text_entries(bvs, tokens, c, g, n);
    assert forall|i: int| 0 <= i < c implies holds_entries(#[trigger] bvs[i], tokens[i], e, i, g) by {
        let bv = bvs[i];
        let toks = tokens[i];
        assert(plain_cell(i, bv, toks, g));
        lemma_cell_sound(bv, toks.len() as int, g);
        lemma_positions(bv, g);
        lemma_positions_len(bv, g);
        assert forall|j: int| 0 <= j < bit_len(bv) implies (#[trigger] bit_at(bv, j) <==> last_entry(
            e,
            i,
            j,
            e.len() as int,
        ) is Some) by {
            assert(last_entry(e, i, j, n) == found(bvs, tokens, c, i, j, n));
            if bit_at(bv, j) {
                lemma_rank_bounds(bv, j + 1, g);
                lemma_total_grows(cnts, i + 1, c);
                assert(cnts[i] == toks.len());
            }
        }
        assert forall|k: int| 0 <= k < toks.len() implies #[trigger] toks[k] == field(
            e[last_entry(e, i, set_bits(bv)[k], e.len() as int)->0],
            2,
        ) by {
            let f = set_bits(bv)[k];
            assert(0 <= f < g && bit_at(bv, f) && rank(bv, f) == k);
            assert(last_entry(e, i, f, n) == found(bvs, tokens, c, i, f, n));
            lemma_total_grows(cnts, i + 1, c);
            assert(cnts[i] == toks.len());
            assert(where_is(bvs, tokens, i, f) == 2 + value_index(tokens, i, k));
            assert(e[2 + value_index(tokens, i, k)] == cells_rows(bvs, tokens, c)[value_index(
                tokens,
                i,
                k,
            )]);
            lemma_record((i + 1) as nat, (f + 1) as nat, toks[k]);
        }
    }
}

/// The text of a matrix is read back as the matrix: whatever cells hold
/// what the lines of the text give them are the cells that the text was
/// made from. The reader hands out such cells, so on the coordinate text
/// that the writer makes of a matrix of at most `u32::MAX` features with
/// plain tokens it hands out that matrix.
pub proof fn lemma_read_back(
    bvs: Seq<Seq<u8>>,
    tokens: Seq<Seq<Seq<u8>>>,
    c: int,
    g: int,
    read_bvs: Seq<Seq<u8>>,
    read_tokens: Seq<Seq<Seq<u8>>>,
)
    requires
        0 <= c <= usize::MAX,
        0 <= g <= u32::MAX,
        text_fault(bvs, counts(tokens), c, g) is None,
        plain_tokens(tokens),
        read_bvs.len() == c,
        read_tokens.len() == c,
        forall|i: int|
            0 <= i < c ==> holds_entries(
                #[trigger] read_bvs[i],
                read_tokens[i],
                lines(mtx_text(bvs, tokens, c, g)),
                i,
                g,
            ),
    ensures
        read_fault(lines(mtx_text(bvs, tokens, c, g)), c, g) is None,
        read_bvs == bvs,
        read_tokens == tokens,
{
    lemma_round_trip(bvs, tokens, c, g);
    let ls = lines(mtx_text(bvs, tokens, c, g));
    assert forall|i: int| 0 <= i < c implies read_bvs[i] == bvs[i] && read_tokens[i]
        == tokens[i] by {
        assert(holds_entries(bvs[i], tokens[i], ls, i, g));
        assert(holds_entries(read_bvs[i], read_tokens[i], ls, i, g));
        lemma_entries_unique(read_bvs[i], read_tokens[i], bvs[i], tokens[i], ls, i, g);
    }
    assert(read_bvs =~= bvs);
    assert(read_tokens =~= tokens);
}

} // verus!
