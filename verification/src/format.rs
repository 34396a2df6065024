//! Numbers and columns: how values are written into the text that users see, and read back.

use crate::text::{chars_of, string_of, views};
use vstd::prelude::*;
use vstd::string::*;
use vstd::utf8::*;

verus! {

/// The digit `d`, which is less than ten.
pub open spec fn digit(d: int) -> char {
    (48 + d) as char
}

/// `n` in decimal digits, without leading zeros.
pub open spec fn decimal(n: nat) -> Seq<char>
    decreases n,
{
    if n < 10 {
        seq![digit(n as int)]
    } else {
        decimal(n / 10).push(digit((n % 10) as int))
    }
}

/// `n` in decimal digits, with a minus sign where it is negative.
pub open spec fn signed_decimal(n: int) -> Seq<char> {
    if n < 0 {
        seq!['-'] + decimal((-n) as nat)
    } else {
        decimal(n as nat)
    }
}

/// `n` in decimal digits, two at least.
pub open spec fn two_digits(n: nat) -> Seq<char> {
    if n < 10 {
        seq!['0'] + decimal(n)
    } else {
        decimal(n)
    }
}

/// A number is written in digits, one at least.
pub proof fn lemma_decimal(n: nat)
    ensures
        decimal(n).len() > 0,
        forall|i: int| 0 <= i < decimal(n).len() ==> '0' <= #[trigger] decimal(n)[i] && decimal(n)[i]
            <= '9',
    decreases n,
{
    if n >= 10 {
        lemma_decimal(n / 10);
        let d = digit((n % 10) as int);
        assert('0' <= d && d <= '9');
        assert forall|i: int| 0 <= i < decimal(n).len() implies '0' <= #[trigger] decimal(n)[i]
            && decimal(n)[i] <= '9' by {
            if i < decimal(n / 10).len() {
                assert(decimal(n)[i] == decimal(n / 10)[i]);
            }
        }
    }
}

/// Appends `n` in decimal.
pub fn push_u64(out: &mut String, n: u64)
    ensures
        final(out)@ == old(out)@ + decimal(n as nat),
    decreases n,
{
    if n >= 10 {
        push_u64(out, n / 10);
    }
    let d: u8 = (n % 10) as u8;
    let c: char = (48u8 + d) as char;
    out.push(c);
    assert(out@ =~= old(out)@ + decimal(n as nat));
}

/// Appends `n` in decimal.
pub fn push_i64(out: &mut String, n: i64)
    ensures
        final(out)@ == old(out)@ + signed_decimal(n as int),
{
    if n < 0 {
        out.push('-');
        let m: i128 = -(n as i128);
        push_u64(out, m as u64);
        assert(out@ =~= old(out)@ + signed_decimal(n as int));
    } else {
        push_u64(out, n as u64);
    }
}

/// Appends `n` in decimal, two digits at least.
pub fn push_two_digits(out: &mut String, n: u64)
    ensures
        final(out)@ == old(out)@ + two_digits(n as nat),
{
    if n < 10 {
        out.push('0');
    }
    push_u64(out, n);
    assert(out@ =~= old(out)@ + two_digits(n as nat));
}

/// `n` blanks.
pub open spec fn blanks(n: int) -> Seq<char> {
    Seq::new(
        if n < 0 {
            0
        } else {
            n as nat
        },
        |i: int| ' ',
    )
}

/// `s` in a column of `width` characters, at its left edge. A longer `s` stands whole.
pub open spec fn left_column(s: Seq<char>, width: int) -> Seq<char> {
    s + blanks(width - s.len())
}

/// `s` in a column of `width` characters, at its right edge. A longer `s` stands whole.
pub open spec fn right_column(s: Seq<char>, width: int) -> Seq<char> {
    blanks(width - s.len()) + s
}

/// Appends blanks, as many as `have` is short of `width`.
fn push_blanks(out: &mut String, have: usize, width: usize)
    ensures
        final(out)@ == old(out)@ + blanks(width - have),
{
    let mut i: usize = have;
    while i < width
        invariant
            have <= i <= width || i == have,
            out@ == old(out)@ + blanks(i - have),
        decreases width - i,
    {
        out.push(' ');
        i = i + 1;
        assert(out@ =~= old(out)@ + blanks(i - have));
    }
    assert(out@ =~= old(out)@ + blanks(width - have));
}

/// Appends `s` in a column of `width` characters, at its left edge.
pub fn push_left(out: &mut String, s: &str, width: usize)
    ensures
        final(out)@ == old(out)@ + left_column(s@, width as int),
{
    let n = s.unicode_len();
    out.append(s);
    push_blanks(out, n, width);
    assert(out@ =~= old(out)@ + left_column(s@, width as int));
}

/// Appends `s` in a column of `width` characters, at its right edge.
pub fn push_right(out: &mut String, s: &str, width: usize)
    ensures
        final(out)@ == old(out)@ + right_column(s@, width as int),
{
    let n = s.unicode_len();
    push_blanks(out, n, width);
    out.append(s);
    assert(out@ =~= old(out)@ + right_column(s@, width as int));
}

/// `n` in decimal, as text.
pub fn text_of_u64(n: u64) -> (r: String)
    ensures
        r@ == decimal(n as nat),
{
    let mut out = String::new();
    push_u64(&mut out, n);
    assert(out@ =~= decimal(n as nat));
    out
}

/// `n` in decimal, as text.
pub fn text_of_i64(n: i64) -> (r: String)
    ensures
        r@ == signed_decimal(n as int),
{
    let mut out = String::new();
    push_i64(&mut out, n);
    assert(out@ =~= signed_decimal(n as int));
    out
}

/// The texts of `list`, with `sep` between one and the next.
pub open spec fn join(list: Seq<Seq<char>>, sep: Seq<char>) -> Seq<char>
    decreases list.len(),
{
    if list.len() == 0 {
        Seq::empty()
    } else if list.len() == 1 {
        list[0]
    } else {
        join(list.drop_last(), sep) + sep + list.last()
    }
}

/// The texts of `list`, with `sep` between one and the next.
pub fn join_texts(list: &Vec<String>, sep: &str) -> (r: String)
    ensures
        r@ == join(views(list@), sep@),
{
    let mut out = String::new();
    let mut i: usize = 0;
    while i < list.len()
        invariant
            i <= list@.len(),
            out@ == join(views(list@).take(i as int), sep@),
        decreases list@.len() - i,
    {
        let ghost shorter = views(list@).take(i as int);
        let ghost longer = views(list@).take(i + 1);
        if i > 0 {
            out.append(sep);
        }
        out.append(list[i].as_str());
        proof {
            assert(longer.drop_last() =~= shorter);
            assert(longer.last() == list@[i as int]@);
            assert(out@ =~= join(longer, sep@));
        }
        i = i + 1;
    }
    assert(views(list@).take(i as int) =~= views(list@));
    out
}

/// The number of bytes that the encoding of `c` takes.
pub open spec fn width(c: char) -> int {
    encode_scalar(c as u32).len() as int
}

/// The number of bytes that the encoding of `c` takes.
fn char_width(c: char) -> (r: usize)
    ensures
        r == width(c),
        1 <= r <= 4,
{
    let u: u32 = c as u32;
    if u < 0x80 {
        1
    } else if u < 0x800 {
        2
    } else if u < 0x10000 {
        3
    } else {
        4
    }
}

/// The longest beginning of `s` whose encoding takes no more than `max` bytes.
pub open spec fn fit(s: Seq<char>, max: int) -> Seq<char>
    decreases s.len(),
{
    if s.len() == 0 || width(s[0]) > max {
        Seq::empty()
    } else {
        seq![s[0]] + fit(s.drop_first(), max - width(s[0]))
    }
}

/// `s` where its encoding takes no more than `max` bytes, else as much of it as does, and `mark`.
pub open spec fn shortened(s: Seq<char>, max: int, mark: Seq<char>) -> Seq<char> {
    if encode_utf8(s).len() <= max {
        s
    } else {
        fit(s, max) + mark
    }
}

/// `fit` is a beginning of `s`, it takes no more than `max` bytes, and one character more would.
pub proof fn law_fit(s: Seq<char>, max: int)
    requires
        0 <= max,
    ensures
        fit(s, max).is_prefix_of(s),
        encode_utf8(fit(s, max)).len() <= max,
        fit(s, max).len() < s.len() ==> encode_utf8(s.take(fit(s, max).len() as int + 1)).len() > max,
    decreases s.len(),
{
    reveal_with_fuel(encode_utf8, 2);
    let f = fit(s, max);
    if s.len() == 0 {
    } else if width(s[0]) > max {
        assert(s.take(1).drop_first() =~= Seq::<char>::empty());
        assert(s.take(1)[0] == s[0]);
    } else {
        let rest = s.drop_first();
        let m = max - width(s[0]);
        law_fit(rest, m);
        let g = fit(rest, m);
        assert(f.drop_first() =~= g);
        assert(f[0] == s[0]);
        assert(encode_utf8(f) == encode_scalar(s[0] as u32) + encode_utf8(g));
        if f.len() < s.len() {
            let t = s.take(f.len() as int + 1);
            assert(t.drop_first() =~= rest.take(g.len() as int + 1));
            assert(t[0] == s[0]);
        }
        assert forall|i: int| 0 <= i < f.len() implies f[i] == s[i] by {
            if i > 0 {
                assert(f[i] == g[i - 1]);
                assert(g[i - 1] == rest[i - 1]);
            }
        }
    }
}

/// `s` where its encoding takes no more than `max` bytes, else as much of it as does, and `mark`.
pub fn shorten(s: &str, max: usize, mark: &str) -> (r: String)
    ensures
        r@ == shortened(s@, max as int, mark@),
{
    if s.as_bytes().len() <= max {
        return s.to_owned();
    }
    let cs = chars_of(s);
    let mut i: usize = 0;
    let mut used: usize = 0;
    proof {
        assert(s@.skip(0) =~= s@);
        assert(s@.take(0) + fit(s@, max as int) =~= fit(s@, max as int));
    }
    while i < cs.len()
        invariant
            cs@ == s@,
            i <= cs@.len(),
            used <= max,
            s@.take(i as int) + fit(s@.skip(i as int), max - used) == fit(s@, max as int),
        ensures
            i <= cs@.len(),
            s@.take(i as int) == fit(s@, max as int),
        decreases cs@.len() - i,
    {
        let ghost rest = s@.skip(i as int);
        let w = char_width(cs[i]);
        assert(rest[0] == cs@[i as int]);
        if w > max - used {
            assert(s@.take(i as int) + fit(rest, max - used) =~= s@.take(i as int));
            break ;
        }
        proof {
            assert(rest.drop_first() =~= s@.skip(i + 1));
            assert(s@.take(i + 1) + fit(s@.skip(i + 1), max - used - w) =~= s@.take(i as int) + fit(
                rest,
                max - used,
            ));
            if i + 1 == cs@.len() {
                assert(s@.take(i + 1) + fit(s@.skip(i + 1), max - used - w) =~= s@.take(i + 1));
            }
        }
        used = used + w;
        i = i + 1;
    }
    let mut out = string_of(cs.as_slice(), 0, i);
    assert(s@.subrange(0, i as int) =~= s@.take(i as int));
    out.append(mark);
    out
}

/// The value of a decimal digit.
pub open spec fn digit_value(c: char) -> int {
    c as int - 48
}

/// One digit at least, and nothing else.
pub open spec fn all_digits(s: Seq<char>) -> bool {
    s.len() > 0 && forall|i: int| 0 <= i < s.len() ==> '0' <= #[trigger] s[i] && s[i] <= '9'
}

/// The number that digits stand for.
pub open spec fn value_of(s: Seq<char>) -> int
    decreases s.len(),
{
    if s.len() == 0 {
        0
    } else {
        value_of(s.drop_last()) * 10 + digit_value(s.last())
    }
}

/// The number that `s` stands for: digits, with a plus sign before them or not, and no greater
/// than `max`.
pub open spec fn unsigned(s: Seq<char>, max: int) -> Option<int> {
    let digits = if s.len() > 0 && s[0] == '+' {
        s.drop_first()
    } else {
        s
    };
    if all_digits(digits) && value_of(digits) <= max {
        Some(value_of(digits))
    } else {
        None
    }
}

/// More digits do not make a number smaller.
proof fn lemma_value_grows(s: Seq<char>, n: int)
    requires
        0 <= n <= s.len(),
        forall|i: int| 0 <= i < s.len() ==> '0' <= #[trigger] s[i] && s[i] <= '9',
    ensures
        0 <= value_of(s.take(n)) <= value_of(s),
    decreases s.len(),
{
    if n == s.len() {
        assert(s.take(n) =~= s);
        if n > 0 {
            lemma_value_grows(s.drop_last(), n - 1);
            assert('0' <= s[n - 1]);
        }
    } else {
        lemma_value_grows(s.drop_last(), n);
        assert(s.drop_last().take(n) =~= s.take(n));
        assert('0' <= s[s.len() - 1]);
    }
}

/// The number that `s` stands for, if it is one and no greater than `max`.
pub fn parse_unsigned(s: &str, max: u64) -> (r: Option<u64>)
    ensures
        match unsigned(s@, max as int) {
            Some(n) => r is Some && r->0 == n,
            None => r is None,
        },
{
    let cs = chars_of(s);
    let start: usize = if cs.len() > 0 && cs[0] == '+' {
        1
    } else {
        0
    };
    let ghost digits = cs@.skip(start as int);
    proof {
        if start == 1 {
            assert(digits =~= s@.drop_first());
        } else {
            assert(digits =~= s@);
        }
    }
    if start == cs.len() {
        return None;
    }
    let mut n: u64 = 0;
    let mut i: usize = start;
    assert(digits.take(0) =~= Seq::<char>::empty());
    while i < cs.len()
        invariant
            start <= i <= cs@.len(),
            digits == cs@.skip(start as int),
            n == value_of(digits.take(i - start)),
            n <= max,
            forall|j: int| 0 <= j < i - start ==> '0' <= #[trigger] digits[j] && digits[j] <= '9',
            unsigned(s@, max as int) == (if all_digits(digits) && value_of(digits) <= max {
                Some(value_of(digits))
            } else {
                None
            }),
        decreases cs@.len() - i,
    {
        let c = cs[i];
        assert(digits[i - start] == c);
        if c < '0' || c > '9' {
            assert(!all_digits(digits));
            return None;
        }
        let d: u64 = (c as u32 - 48) as u64;
        proof {
            let t = digits.take(i + 1 - start);
            assert(t.drop_last() =~= digits.take(i - start));
            assert(t.last() == c);
            if all_digits(digits) {
                lemma_value_grows(digits, i + 1 - start);
            }
        }
        if n > max / 10 || d > max - n * 10 {
            return None;
        }
        n = n * 10 + d;
        i = i + 1;
    }
    assert(digits.take(i - start) =~= digits);
    Some(n)
}

/// A text in a column.
pub struct CellView {
    pub text: Seq<char>,
    pub width: int,
    pub at_right: bool,
}

/// A text in a column: at its left edge, or at its right edge.
#[derive(Debug)]
pub struct Cell {
    pub text: String,
    pub width: usize,
    pub at_right: bool,
}

impl View for Cell {
    type V = CellView;

    open spec fn view(&self) -> CellView {
        CellView { text: self.text@, width: self.width as int, at_right: self.at_right }
    }
}

/// `text` at the left edge of a column.
pub open spec fn left(text: Seq<char>, width: int) -> CellView {
    CellView { text, width, at_right: false }
}

/// `text` at the right edge of a column.
pub open spec fn right(text: Seq<char>, width: int) -> CellView {
    CellView { text, width, at_right: true }
}

/// `text`, in a column as wide as it is.
pub open spec fn plain(text: Seq<char>) -> CellView {
    left(text, 0)
}

/// What stands in the column.
pub open spec fn rendered(cell: CellView) -> Seq<char> {
    if cell.at_right {
        right_column(cell.text, cell.width)
    } else {
        left_column(cell.text, cell.width)
    }
}

/// The row of some columns, with a blank between one and the next.
pub open spec fn row(cells: Seq<CellView>) -> Seq<char> {
    join(Seq::new(cells.len(), |i: int| rendered(cells[i])), seq![' '])
}

/// The columns of a row.
pub open spec fn cell_views(cells: Seq<Cell>) -> Seq<CellView> {
    Seq::new(cells.len(), |i: int| cells[i]@)
}

/// `text` at the left edge of a column.
pub fn left_cell(text: &str, width: usize) -> (r: Cell)
    ensures
        r@ == left(text@, width as int),
{
    Cell { text: text.to_owned(), width, at_right: false }
}

/// `text` at the right edge of a column.
pub fn right_cell(text: &str, width: usize) -> (r: Cell)
    ensures
        r@ == right(text@, width as int),
{
    Cell { text: text.to_owned(), width, at_right: true }
}

/// `text`, in a column as wide as it is.
pub fn plain_cell(text: &str) -> (r: Cell)
    ensures
        r@ == plain(text@),
{
    left_cell(text, 0)
}

/// The row of some columns.
pub fn row_of(cells: &Vec<Cell>) -> (r: String)
    ensures
        r@ == row(cell_views(cells@)),
{
    let ghost parts = Seq::new(cells@.len(), |i: int| rendered(cells@[i]@));
    let mut out = String::new();
    let mut i: usize = 0;
    while i < cells.len()
        invariant
            i <= cells@.len(),
            parts == Seq::new(cells@.len(), |k: int| rendered(cells@[k]@)),
            out@ == join(parts.take(i as int), seq![' ']),
        decreases cells@.len() - i,
    {
        let ghost longer = parts.take(i + 1);
        if i > 0 {
            out.push(' ');
        }
        let cell = &cells[i];
        if cell.at_right {
            push_right(&mut out, cell.text.as_str(), cell.width);
        } else {
            push_left(&mut out, cell.text.as_str(), cell.width);
        }
        proof {
            assert(longer.drop_last() =~= parts.take(i as int));
            assert(longer.last() == rendered(cells@[i as int]@));
            assert(out@ =~= join(longer, seq![' ']));
        }
        i = i + 1;
    }
    assert(parts.take(i as int) =~= parts);
    assert(parts =~= Seq::new(cell_views(cells@).len(), |k: int| rendered(cell_views(cells@)[k])));
    out
}

/// `a` and then `b`.
pub fn prefixed(a: &str, b: &str) -> (r: String)
    ensures
        r@ == a@ + b@,
{
    let mut out = a.to_owned();
    out.append(b);
    out
}

/// The digits of a number stand for it, and the first of several is not zero.
pub proof fn law_decimal(n: nat)
    ensures
        all_digits(decimal(n)),
        value_of(decimal(n)) == n,
        decimal(n).len() > 1 ==> decimal(n)[0] != '0',
        decimal(n)[0] == '0' ==> n == 0,
    decreases n,
{
    lemma_decimal(n);
    reveal_with_fuel(value_of, 2);
    if n >= 10 {
        law_decimal(n / 10);
        let d = digit((n % 10) as int);
        assert(decimal(n).drop_last() =~= decimal(n / 10));
        assert(decimal(n).last() == d);
        assert(digit_value(d) == n % 10);
        assert(decimal(n)[0] == decimal(n / 10)[0]);
    } else {
        let d = digit(n as int);
        assert(decimal(n).drop_last() =~= Seq::<char>::empty());
        assert(decimal(n).last() == d);
        assert(digit_value(d) == n);
    }
}

/// A digit behind others counts ten times less than they do.
pub proof fn law_value_of(s: Seq<char>, c: char)
    ensures
        value_of(Seq::<char>::empty()) == 0,
        value_of(s.push(c)) == 10 * value_of(s) + (c as int - '0' as int),
{
    assert(s.push(c).drop_last() =~= s);
}

/// A negative number is written as its counterpart behind a minus sign.
pub proof fn law_signed_decimal(n: nat)
    ensures
        signed_decimal(n as int) == decimal(n),
        n > 0 ==> signed_decimal(-n) == seq!['-'] + decimal(n),
{
}

/// Two different numbers are written in different ways.
pub proof fn law_decimals_differ(a: int, b: int)
    requires
        signed_decimal(a) == signed_decimal(b),
    ensures
        a == b,
{
    let (m, n) = ((if a < 0 {
        -a
    } else {
        a
    }) as nat, (if b < 0 {
        -b
    } else {
        b
    }) as nat);
    law_decimal(m);
    law_decimal(n);
    lemma_decimal(m);
    lemma_decimal(n);
    let (s, t) = (signed_decimal(a), signed_decimal(b));
    if a < 0 {
        assert(s[0] == '-');
        assert(s.drop_first() =~= decimal(m));
    } else {
        assert('0' <= decimal(m)[0]);
    }
    if b < 0 {
        assert(t[0] == '-');
        assert(t.drop_first() =~= decimal(n));
    } else {
        assert('0' <= decimal(n)[0]);
    }
}

/// In two digits at least, a number below ten has a zero before it, and another stands as it is.
pub proof fn law_two_digits(n: nat)
    ensures
        two_digits(n).len() >= 2,
        value_of(two_digits(n)) == n,
        n >= 10 ==> two_digits(n) == decimal(n),
{
    law_decimal(n);
    reveal_with_fuel(value_of, 3);
    if n < 10 {
        let s = two_digits(n);
        assert(s.drop_last() =~= seq!['0']);
        assert(seq!['0'].drop_last() =~= Seq::<char>::empty());
        assert(s.last() == digit(n as int));
    } else {
        lemma_decimal(n / 10);
    }
}

/// A column holds its text, at one edge, and blanks; it is as wide as it should be, unless the
/// text is wider.
pub proof fn law_columns(s: Seq<char>, width: int)
    ensures
        left_column(s, width).len() == if s.len() < width {
            width
        } else {
            s.len() as int
        },
        right_column(s, width).len() == left_column(s, width).len(),
        left_column(s, width).take(s.len() as int) == s,
        right_column(s, width).skip(right_column(s, width).len() - s.len()) == s,
        forall|i: int|
            s.len() <= i < left_column(s, width).len() ==> left_column(s, width)[i] == ' ',
        forall|i: int|
            0 <= i < right_column(s, width).len() - s.len() ==> right_column(s, width)[i] == ' ',
{
    let l = left_column(s, width);
    let r = right_column(s, width);
    assert(l.take(s.len() as int) =~= s);
    assert(r.skip(r.len() - s.len()) =~= s);
}

/// Joining puts the separator between one text and the next, and nowhere else.
pub proof fn law_join(list: Seq<Seq<char>>, text: Seq<char>, sep: Seq<char>)
    ensures
        join(Seq::empty(), sep) == Seq::<char>::empty(),
        join(seq![text], sep) == text,
        list.len() > 0 ==> join(list.push(text), sep) == join(list, sep) + sep + text,
{
    assert(list.push(text).drop_last() =~= list);
}

/// A row is its columns, with a blank between one and the next.
pub proof fn law_row(cells: Seq<CellView>, cell: CellView)
    ensures
        row(seq![cell]) == rendered(cell),
        cells.len() > 0 ==> row(cells.push(cell)) == row(cells) + seq![' '] + rendered(cell),
{
    let one = Seq::new(1, |i: int| rendered(seq![cell][i]));
    assert(one =~= seq![rendered(cell)]);
    assert(Seq::new(seq![cell].len(), |i: int| rendered(seq![cell][i])) =~= one);
    let parts = Seq::new(cells.len(), |i: int| rendered(cells[i]));
    let all = Seq::new(cells.push(cell).len(), |i: int| rendered(cells.push(cell)[i]));
    assert(all =~= parts.push(rendered(cell)));
    law_join(parts, rendered(cell), seq![' ']);
}

/// A row of three columns, at the left, the left, and as wide as the last text is.
pub proof fn lemma_row_of_three(a: Seq<char>, m: int, b: Seq<char>, n: int, c: Seq<char>)
    ensures
        row(seq![left(a, m), left(b, n), plain(c)]) == left_column(a, m) + " "@ + left_column(b, n)
            + " "@ + c,
{
    reveal_strlit(" ");
    assert(" "@ =~= seq![' ']);
    law_row(seq![left(a, m)], left(a, m));
    law_row(seq![left(a, m)], left(b, n));
    assert(seq![left(a, m)].push(left(b, n)) =~= seq![left(a, m), left(b, n)]);
    law_row(seq![left(a, m), left(b, n)], plain(c));
    assert(seq![left(a, m), left(b, n)].push(plain(c)) =~= seq![left(a, m), left(b, n), plain(c)]);
    assert(left_column(c, 0) =~= c);
}

/// A row of two columns, at the left, and as wide as the last text is.
pub proof fn lemma_row_of_two(a: Seq<char>, m: int, b: Seq<char>)
    ensures
        row(seq![left(a, m), plain(b)]) == left_column(a, m) + " "@ + b,
{
    reveal_strlit(" ");
    assert(" "@ =~= seq![' ']);
    law_row(seq![left(a, m)], left(a, m));
    law_row(seq![left(a, m)], plain(b));
    assert(seq![left(a, m)].push(plain(b)) =~= seq![left(a, m), plain(b)]);
    assert(left_column(b, 0) =~= b);
}

/// A text that takes no more than `max` bytes stays; another is cut to a beginning of it that takes
/// no more, and marked.
pub proof fn law_shortened(s: Seq<char>, max: int, mark: Seq<char>)
    requires
        0 <= max,
    ensures
        encode_utf8(s).len() <= max ==> shortened(s, max, mark) == s,
        encode_utf8(s).len() > max ==> exists|head: Seq<char>| #[trigger]
            head.is_prefix_of(s) && shortened(s, max, mark) == head + mark && encode_utf8(head).len()
                <= max && head.len() < s.len() && encode_utf8(s.take(head.len() as int + 1)).len()
                > max,
{
    law_fit(s, max);
    if encode_utf8(s).len() > max {
        let head = fit(s, max);
        if head.len() == s.len() {
            assert(head =~= s);
        }
        assert(head.is_prefix_of(s));
    }
}

/// A number is read from its digits, and from those behind a plus sign, unless it is too great.
pub proof fn law_unsigned(n: nat, max: int)
    ensures
        unsigned(decimal(n), max) == if n <= max {
            Some(n as int)
        } else {
            None
        },
        unsigned(seq!['+'] + decimal(n), max) == unsigned(decimal(n), max),
{
    law_decimal(n);
    lemma_decimal(n);
    assert('0' <= decimal(n)[0]);
    let s = seq!['+'] + decimal(n);
    assert(s.drop_first() =~= decimal(n));
}

/// What is read as a number is made of digits, but for a plus sign before them, and stands for no
/// more than is allowed.
pub proof fn law_unsigned_digits(s: Seq<char>, max: int)
    ensures
        unsigned(s, max) is Some ==> unsigned(s, max)->0 <= max && s.len() > 0,
        unsigned(s, max) is Some ==> forall|i: int|
            0 <= i < s.len() ==> (i == 0 && #[trigger] s[i] == '+') || ('0' <= s[i] && s[i] <= '9'),
        unsigned(s, max) is Some && s[0] != '+' ==> unsigned(s, max)->0 == value_of(s),
        unsigned(s, max) is Some && s[0] == '+' ==> s.len() > 1 && unsigned(s, max)->0 == value_of(
            s.drop_first(),
        ),
{
    if unsigned(s, max) is Some {
        assert forall|i: int| 0 <= i < s.len() implies (i == 0 && #[trigger] s[i] == '+') || ('0'
            <= s[i] && s[i] <= '9') by {
            if s[0] == '+' && i > 0 {
                assert(s.drop_first()[i - 1] == s[i]);
            }
        }
    }
}

} // verus!
