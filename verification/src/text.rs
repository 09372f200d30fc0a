//! Text as bytes: decimal numbers, lines and fields.

use vstd::prelude::*;

verus! {

/// The horizontal tab.
pub const TAB: u8 = 9;

/// The line feed.
pub const NEWLINE: u8 = 10;

/// The comma.
pub const COMMA: u8 = 44;

/// The digit zero.
pub const ZERO: u8 = 48;

/// The plus sign.
pub const PLUS: u8 = 43;

/// The space.
pub const SPACE: u8 = 32;

/// The bytes of a text of ASCII characters.
pub open spec fn ascii(s: Seq<char>) -> Seq<u8> {
    Seq::new(s.len(), |i: int| s[i] as u8)
}

/// The decimal digits of `n`, without leading zeros.
pub open spec fn decimal(n: nat) -> Seq<u8>
    decreases n,
{
    if n < 10 {
        seq![(48 + n) as u8]
    } else {
        decimal(n / 10).push((48 + n % 10) as u8)
    }
}

/// Appends the bytes of `s` to `out`.
pub fn push_bytes(out: &mut Vec<u8>, s: &Vec<u8>)
    ensures
        final(out)@ == old(out)@ + s@,
{
    out.extend_from_slice(s.as_slice());
    assert(out@ =~= old(out)@ + s@);
}

/// Appends an ASCII text to `out`.
pub fn push_str(out: &mut Vec<u8>, s: &str)
    requires
        s.is_ascii(),
    ensures
        final(out)@ == old(out)@ + ascii(s@),
{
    broadcast use vstd::string::is_ascii_spec_bytes;
    out.extend_from_slice(s.as_bytes());
    assert(out@ =~= old(out)@ + ascii(s@));
}

/// Appends the decimal digits of `n` to `out`.
pub fn push_decimal(out: &mut Vec<u8>, n: usize)
    ensures
        final(out)@ == old(out)@ + decimal(n as nat),
    decreases n,
{
    if n >= 10 {
        push_decimal(out, n / 10);
    }
    out.push((48 + n % 10) as u8);
    assert(out@ =~= old(out)@ + decimal(n as nat));
}

/// The bytes after the last line feed among the first `n` bytes.
pub open spec fn open_line(data: Seq<u8>, n: int) -> Seq<u8>
    decreases n,
{
    if n <= 0 || data[n - 1] == NEWLINE {
        Seq::empty()
    } else {
        open_line(data, n - 1).push(data[n - 1])
    }
}

/// The lines that a line feed among the first `n` bytes ends, without the line feed.
pub open spec fn closed_lines(data: Seq<u8>, n: int) -> Seq<Seq<u8>>
    decreases n,
{
    if n <= 0 {
        Seq::empty()
    } else if data[n - 1] == NEWLINE {
        closed_lines(data, n - 1).push(open_line(data, n - 1))
    } else {
        closed_lines(data, n - 1)
    }
}

/// The lines of a text: what a line feed ends, and what is left after the
/// last line feed where anything is.
pub open spec fn lines(data: Seq<u8>) -> Seq<Seq<u8>> {
    let closed = closed_lines(data, data.len() as int);
    let rest = open_line(data, data.len() as int);
    if rest.len() > 0 {
        closed.push(rest)
    } else {
        closed
    }
}

/// Whether a byte is white space: the space, or one of tab, line feed,
/// vertical tab, form feed and carriage return.
pub open spec fn is_space(b: u8) -> bool {
    b == SPACE || (9 <= b <= 13)
}

/// The first index from `from` on at which the line has white space, where
/// `spaces` holds, or has none, where it does not; the length of the line
/// where there is no such index.
pub open spec fn seek(line: Seq<u8>, from: int, spaces: bool) -> int
    decreases line.len() - from,
{
    if from < 0 || from >= line.len() {
        line.len() as int
    } else if is_space(line[from]) == spaces {
        from
    } else {
        seek(line, from + 1, spaces)
    }
}

/// Where field `k` of a line starts: fields are what white space parts.
pub open spec fn field_start(line: Seq<u8>, k: int) -> int
    decreases k,
{
    if k <= 0 {
        seek(line, 0, false)
    } else {
        seek(line, seek(line, field_start(line, k - 1), true), false)
    }
}

/// Where field `k` of a line ends.
pub open spec fn field_end(line: Seq<u8>, k: int) -> int {
    seek(line, field_start(line, k), true)
}

/// Whether a line has a field `k`.
pub open spec fn has_field(line: Seq<u8>, k: int) -> bool {
    field_start(line, k) < line.len()
}

/// Field `k` of a line.
pub open spec fn field(line: Seq<u8>, k: int) -> Seq<u8> {
    line.subrange(field_start(line, k), field_end(line, k))
}

/// Whether a byte is a decimal digit.
pub open spec fn is_digit(b: u8) -> bool {
    48 <= b <= 57
}

/// The number that the first `n` digits of `s` spell.
pub open spec fn digits_value(s: Seq<u8>, n: int) -> nat
    decreases n,
{
    if n <= 0 {
        0
    } else {
        digits_value(s, n - 1) * 10 + (s[n - 1] - 48) as nat
    }
}

/// A token without the plus sign that it may start with.
pub open spec fn unsigned(token: Seq<u8>) -> Seq<u8> {
    if token.len() > 0 && token[0] == PLUS {
        token.drop_first()
    } else {
        token
    }
}

/// Whether all bytes are decimal digits.
pub open spec fn all_digits(s: Seq<u8>) -> bool {
    forall|i: int| 0 <= i < s.len() ==> is_digit(#[trigger] s[i])
}

/// The number that a token spells: decimal digits, at least one, after a
/// plus sign or none.
pub open spec fn number(token: Seq<u8>) -> Option<nat> {
    let body = unsigned(token);
    if body.len() > 0 && all_digits(body) {
        Some(digits_value(body, body.len() as int))
    } else {
        None
    }
}

/// The lines of a text.
pub fn split_lines(data: &Vec<u8>) -> (out: Vec<Vec<u8>>)
    ensures
        out@.len() == lines(data@).len(),
        forall|i: int| 0 <= i < out@.len() ==> (#[trigger] out@[i])@ == lines(data@)[i],
        out@.len() <= data@.len(),
{
    let mut out: Vec<Vec<u8>> = Vec::new();
    let mut current: Vec<u8> = Vec::new();
    let mut n: usize = 0;
    while n < data.len()
        invariant
            n <= data.len(),
            current@ == open_line(data@, n as int),
            out@.len() == closed_lines(data@, n as int).len(),
            forall|i: int|
                0 <= i < out@.len() ==> (#[trigger] out@[i])@ == closed_lines(data@, n as int)[i],
            out@.len() + current@.len() <= n,
        decreases data.len() - n,
    {
        let b = data[n];
        if b == NEWLINE {
            out.push(current);
            current = Vec::new();
        } else {
            current.push(b);
        }
        n = n + 1;
    }
    if current.len() > 0 {
        out.push(current);
    }
    out
}

/// The next field of a line from `from` on: where it starts and where it
/// ends, both the length of the line where there is none.
pub fn next_field(line: &Vec<u8>, from: usize) -> (r: (usize, usize))
    requires
        from <= line.len(),
    ensures
        r.0 == seek(line@, from as int, false),
        r.1 == seek(line@, r.0 as int, true),
        from <= r.0 <= r.1 <= line.len(),
        r.0 < line.len() ==> r.0 < r.1,
{
    let mut start: usize = from;
    while start < line.len() && is_space_byte(line[start])
        invariant
            from <= start <= line.len(),
            seek(line@, from as int, false) == seek(line@, start as int, false),
        decreases line.len() - start,
    {
        start = start + 1;
    }
    let mut end: usize = start;
    while end < line.len() && !is_space_byte(line[end])
        invariant
            start <= end <= line.len(),
            start < line.len() ==> !is_space(line@[start as int]),
            seek(line@, start as int, true) == seek(line@, end as int, true),
        decreases line.len() - end,
    {
        end = end + 1;
    }
    (start, end)
}

/// Whether a byte is white space.
pub fn is_space_byte(b: u8) -> (r: bool)
    ensures
        r == is_space(b),
{
    b == SPACE || (9 <= b && b <= 13)
}

/// The number that the bytes of a line from `start` up to `end` spell,
/// where they spell one that is not above `limit`.
pub fn parse_number(line: &Vec<u8>, start: usize, end: usize, limit: usize) -> (r: Option<usize>)
    requires
        start <= end <= line.len(),
    ensures
        r == match number(line@.subrange(start as int, end as int)) {
            Some(v) => if v <= limit {
                Some(v as usize)
            } else {
                None
            },
            None => None,
        },
{
    let ghost token = line@.subrange(start as int, end as int);
    let mut first: usize = start;
    if first < end && line[first] == PLUS {
        first = first + 1;
    }
    let ghost body = line@.subrange(first as int, end as int);
    assert(body =~= unsigned(token));
    if first == end {
        return None;
    }
    let mut value: usize = 0;
    let mut i: usize = first;
    while i < end
        invariant
            start <= first <= i <= end <= line.len(),
            first < end,
            token == line@.subrange(start as int, end as int),
            body == line@.subrange(first as int, end as int),
            body == unsigned(token),
            forall|x: int| 0 <= x < i - first ==> is_digit(#[trigger] body[x]),
            value == digits_value(body, i - first),
            value <= limit,
        decreases end - i,
    {
        let b = line[i];
        assert(b == body[i - first]);
        if b < 48 || b > 57 {
            return None;
        }
        let digit = (b - 48) as usize;
        if limit < digit || value > (limit - digit) / 10 {
            proof {
                lemma_digits_grow(body, i - first + 1, body.len() as int);
                assert(digits_value(body, i - first + 1) > limit) by {
                    assert(value * 10 + digit > limit) by (nonlinear_arith)
                        requires
                            limit < digit || value > (limit - digit) / 10,
                            digit <= 9,
                            value >= 0,
                    ;
                }
            }
            return None;
        }
        value = value * 10 + digit;
        i = i + 1;
    }
    Some(value)
}

/// The number that digits spell does not shrink when digits follow.
pub proof fn lemma_digits_grow(s: Seq<u8>, m: int, n: int)
    requires
        0 <= m <= n,
    ensures
        digits_value(s, m) <= digits_value(s, n),
    decreases n,
{
    if m < n {
        lemma_digits_grow(s, m, n - 1);
        assert(digits_value(s, n - 1) * 10 >= digits_value(s, n - 1)) by (nonlinear_arith);
    }
}

/// Whether a text is empty or ends with a line feed.
pub open spec fn ends_lines(data: Seq<u8>) -> bool {
    data.len() == 0 || data[data.len() - 1] == NEWLINE
}

/// Whether no byte is a line feed or other white space.
pub open spec fn is_plain(s: Seq<u8>) -> bool {
    forall|i: int| 0 <= i < s.len() ==> !is_space(#[trigger] s[i])
}

/// The lines among the first bytes of a text are those of these bytes,
/// whatever follows them.
pub proof fn lemma_lines_prefix(x: Seq<u8>, y: Seq<u8>, n: int)
    requires
        0 <= n <= x.len(),
    ensures
        closed_lines(x + y, n) == closed_lines(x, n),
        open_line(x + y, n) == open_line(x, n),
    decreases n,
{
    if n > 0 {
        lemma_lines_prefix(x, y, n - 1);
        assert((x + y)[n - 1] == x[n - 1]);
    }
}

/// While a line goes on, no line is closed and the open line grows.
pub proof fn lemma_lines_within(x: Seq<u8>, body: Seq<u8>, y: Seq<u8>, k: int)
    requires
        ends_lines(x),
        forall|i: int| 0 <= i < body.len() ==> #[trigger] body[i] != NEWLINE,
        0 <= k <= body.len(),
    ensures
        closed_lines(x + body + y, x.len() + k) == closed_lines(x, x.len() as int),
        open_line(x + body + y, x.len() + k) == body.take(k),
    decreases k,
{
    let z = x + body + y;
    if k == 0 {
        assert(z =~= x + (body + y));
        lemma_lines_prefix(x, body + y, x.len() as int);
        assert(open_line(x, x.len() as int) =~= body.take(0));
    } else {
        lemma_lines_within(x, body, y, k - 1);
        assert(z[x.len() + k - 1] == body[k - 1]);
        assert(body.take(k) =~= body.take(k - 1).push(body[k - 1]));
    }
}

/// A line without a line feed in it, and the line feed that ends it, add
/// one line to a text that is empty or ends with a line feed.
pub proof fn lemma_lines_push(x: Seq<u8>, body: Seq<u8>)
    requires
        ends_lines(x),
        forall|i: int| 0 <= i < body.len() ==> #[trigger] body[i] != NEWLINE,
    ensures
        lines(x + body + seq![NEWLINE]) == lines(x).push(body),
        ends_lines(x + body + seq![NEWLINE]),
{
    let z = x + body + seq![NEWLINE];
    let n = z.len() as int;
    lemma_lines_within(x, body, seq![NEWLINE], body.len() as int);
    assert(body.take(body.len() as int) =~= body);
    assert(z[n - 1] == NEWLINE);
    assert(open_line(z, n) =~= Seq::<u8>::empty());
    assert(open_line(x, x.len() as int) =~= Seq::<u8>::empty());
}

/// The number that digits spell goes by these digits alone.
pub proof fn lemma_digits_prefix(s: Seq<u8>, t: Seq<u8>, n: int)
    requires
        0 <= n <= s.len(),
        n <= t.len(),
        forall|i: int| 0 <= i < n ==> s[i] == t[i],
    ensures
        digits_value(s, n) == digits_value(t, n),
    decreases n,
{
    if n > 0 {
        lemma_digits_prefix(s, t, n - 1);
    }
}

/// The decimal digits of a number are digits, at least one, and spell
/// the number.
pub proof fn lemma_decimal(n: nat)
    ensures
        decimal(n).len() > 0,
        all_digits(decimal(n)),
        is_plain(decimal(n)),
        digits_value(decimal(n), decimal(n).len() as int) == n,
        number(decimal(n)) == Some(n),
    decreases n,
{
    if n >= 10 {
        lemma_decimal(n / 10);
        let head = decimal(n / 10);
        let all = decimal(n);
        assert(all == head.push((48 + n % 10) as u8));
        lemma_digits_prefix(all, head, head.len() as int);
        assert forall|i: int| 0 <= i < all.len() implies is_digit(#[trigger] all[i]) by {
            if i < head.len() {
                assert(all[i] == head[i]);
            }
        }
        assert(digits_value(all, all.len() as int) == (n / 10) * 10 + n % 10);
    } else {
        assert(digits_value(decimal(n), 0) == 0);
    }
    assert(unsigned(decimal(n)) == decimal(n));
}

/// `seek` stops at the end of a run of bytes of one kind.
pub proof fn lemma_seek_to(line: Seq<u8>, from: int, to: int, spaces: bool)
    requires
        0 <= from <= to <= line.len(),
        forall|i: int| from <= i < to ==> is_space(#[trigger] line[i]) != spaces,
        to == line.len() || is_space(line[to]) == spaces,
    ensures
        seek(line, from, spaces) == to,
    decreases to - from,
{
    if from < to {
        lemma_seek_to(line, from + 1, to, spaces);
    }
}

/// The fields of a line that is made of three plain fields with a tab
/// between them are these three.
pub proof fn lemma_three_fields(a: Seq<u8>, b: Seq<u8>, t: Seq<u8>)
    requires
        a.len() > 0,
        b.len() > 0,
        t.len() > 0,
        is_plain(a),
        is_plain(b),
        is_plain(t),
    ensures
        has_field(a + seq![TAB] + b + seq![TAB] + t, 2),
        field(a + seq![TAB] + b + seq![TAB] + t, 0) == a,
        field(a + seq![TAB] + b + seq![TAB] + t, 1) == b,
        field(a + seq![TAB] + b + seq![TAB] + t, 2) == t,
{
    let line = a + seq![TAB] + b + seq![TAB] + t;
    let first_tab = a.len() as int;
    let second_tab = first_tab + 1 + b.len();
    assert forall|i: int| 0 <= i < first_tab implies !is_space(#[trigger] line[i]) by {
        assert(line[i] == a[i]);
    }
    assert(line[first_tab] == TAB);
    assert forall|i: int| first_tab + 1 <= i < second_tab implies !is_space(#[trigger] line[i]) by {
        assert(line[i] == b[i - first_tab - 1]);
    }
    assert(line[second_tab] == TAB);
    assert forall|i: int| second_tab + 1 <= i < line.len() implies !is_space(#[trigger] line[i]) by {
        assert(line[i] == t[i - second_tab - 1]);
    }
    lemma_seek_to(line, 0, 0, false);
    lemma_seek_to(line, 0, first_tab, true);
    lemma_seek_to(line, first_tab, first_tab + 1, false);
    lemma_seek_to(line, first_tab + 1, second_tab, true);
    lemma_seek_to(line, second_tab, second_tab + 1, false);
    lemma_seek_to(line, second_tab + 1, line.len() as int, true);
    assert(field_start(line, 0) == 0);
    assert(field_end(line, 0) == first_tab);
    assert(field_start(line, 1) == first_tab + 1);
    assert(field_end(line, 1) == second_tab);
    assert(field_start(line, 2) == second_tab + 1);
    assert(field_end(line, 2) == line.len());
    assert(field(line, 0) =~= a);
    assert(field(line, 1) =~= b);
    assert(field(line, 2) =~= t);
}

} // verus!
