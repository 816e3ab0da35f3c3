//! Text rendering of a field: the grid with its border and cursor, and the status line.
use crate::board::{in_bounds, Cell, Position, Visibility};
use crate::field::FieldView;
use vstd::prelude::*;

verus! {

/// `s` written `n` times in a row.
pub open spec fn repeated(s: Seq<char>, n: int) -> Seq<char>
    decreases n,
{
    if n <= 0 {
        Seq::empty()
    } else {
        repeated(s, n - 1) + s
    }
}

/// The character of a decimal digit.
pub open spec fn digit_char(d: int) -> char {
    if d == 0 {
        '0'
    } else if d == 1 {
        '1'
    } else if d == 2 {
        '2'
    } else if d == 3 {
        '3'
    } else if d == 4 {
        '4'
    } else if d == 5 {
        '5'
    } else if d == 6 {
        '6'
    } else if d == 7 {
        '7'
    } else if d == 8 {
        '8'
    } else {
        '9'
    }
}

/// The decimal writing of `n`, without leading zeros.
pub open spec fn decimal(n: nat) -> Seq<char>
    decreases n,
{
    if n < 10 {
        seq![digit_char(n as int)]
    } else {
        decimal(n / 10) + seq![digit_char((n % 10) as int)]
    }
}

/// The status line: flags placed, mines, and seconds elapsed.
pub open spec fn status_text(flags: nat, mines: nat, secs: nat) -> Seq<char> {
    decimal(flags) + seq!['/'] + decimal(mines) + seq![' '] + decimal(secs)
}

/// The top and bottom border of a grid with `cols` columns.
pub open spec fn border(cols: int) -> Seq<char> {
    repeated(seq!['=', '='], cols + 1) + seq!['=']
}

/// What a cell shows: `-` hidden, `*` flagged, and once revealed a blank, its count or `M`.
pub open spec fn token(v: FieldView, x: int, y: int) -> char {
    match v.shown_at(x, y) {
        Visibility::Hidden => '-',
        Visibility::Flagged => '*',
        Visibility::Revealed => match v.truth_at(x, y) {
            Cell::Nothing => ' ',
            Cell::Number(n) => digit_char(n as int),
            Cell::Mine => 'M',
        },
    }
}

/// The gap before column `k` of row `x` in a grid of `cols` columns: it opens `[`
/// before the cursor's cell and closes `]` after it.
pub open spec fn gap(cursor: Position, cols: int, x: int, k: int) -> char {
    if cursor.x == x && cursor.y == k && k < cols {
        '['
    } else if cursor.x == x && k >= 1 && cursor.y == k - 1 {
        ']'
    } else {
        ' '
    }
}

/// The first `k` cells of row `x` with the gaps around them.
pub open spec fn row_cells(v: FieldView, cursor: Position, x: int, k: int) -> Seq<char>
    decreases k,
{
    if k <= 0 {
        seq![gap(cursor, v.size.size_y as int, x, 0)]
    } else {
        row_cells(v, cursor, x, k - 1) + seq![token(v, x, k - 1), gap(cursor, v.size.size_y as int, x, k)]
    }
}

/// Row `x` between its side borders.
pub open spec fn row_text(v: FieldView, cursor: Position, x: int) -> Seq<char> {
    seq!['|'] + (if v.size.size_y == 0 {
        Seq::empty()
    } else {
        row_cells(v, cursor, x, v.size.size_y as int)
    }) + seq!['|', '\n']
}

/// The first `k` rows.
pub open spec fn rows_text(v: FieldView, cursor: Position, k: int) -> Seq<char>
    decreases k,
{
    if k <= 0 {
        Seq::empty()
    } else {
        rows_text(v, cursor, k - 1) + row_text(v, cursor, k - 1)
    }
}

/// The whole grid: border, rows, border.
pub open spec fn picture(v: FieldView, cursor: Position) -> Seq<char> {
    border(v.size.size_y as int) + seq!['\n'] + rows_text(v, cursor, v.size.size_x as int) + border(
        v.size.size_y as int,
    )
}

/// `s` written `times` times in a row; nothing where `times` is not positive.
pub fn string_repeat(s: &str, times: i32) -> (r: String)
    ensures
        r@ == repeated(s@, times as int),
{
    let mut output = String::new();
    let mut i: i32 = 0;
    while i < times
        invariant
            0 <= i,
            i <= times || i == 0,
            output@ == repeated(s@, i as int),
        decreases times - i,
    {
        output.append(s);
        i = i + 1;
    }
    proof {
        if times <= 0 {
            assert(repeated(s@, times as int) == repeated(s@, 0));
        } else {
            assert(i == times);
        }
        assert(output@ == repeated(s@, times as int));
    }
    output
}

/// The one-character text of a decimal digit.
pub fn digit_str(d: u64) -> (r: &'static str)
    requires
        d < 10,
    ensures
        r@ == seq![digit_char(d as int)],
{
    proof {
        reveal_strlit("0");
        reveal_strlit("1");
        reveal_strlit("2");
        reveal_strlit("3");
        reveal_strlit("4");
        reveal_strlit("5");
        reveal_strlit("6");
        reveal_strlit("7");
        reveal_strlit("8");
        reveal_strlit("9");
    }
    match d {
        0 => "0",
        1 => "1",
        2 => "2",
        3 => "3",
        4 => "4",
        5 => "5",
        6 => "6",
        7 => "7",
        8 => "8",
        _ => "9",
    }
}

/// Appends the decimal writing of `n`.
pub fn push_decimal(out: &mut String, n: u64)
    ensures
        final(out)@ == old(out)@ + decimal(n as nat),
    decreases n,
{
    if n >= 10 {
        push_decimal(out, n / 10);
    }
    out.append(digit_str(n % 10));
    proof {
        assert(out@ =~= old(out)@ + decimal(n as nat));
    }
}

} // verus!
