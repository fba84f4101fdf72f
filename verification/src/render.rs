//! The square as text, for a reader.

use vstd::prelude::*;

use crate::square::{Grid, Square, SquareItem};

verus! {

/// The character of a decimal digit.
pub open spec fn digit_of(d: int) -> char {
    if d == 0 {
        '0'
    } else if d == 1 {
        '1'
    } else if d == 2 {
        '2'
    } else if d == 3 {
        '3'
    } else if d == 4 {
        '4'
    } else if d == 5 {
        '5'
    } else if d == 6 {
        '6'
    } else if d == 7 {
        '7'
    } else if d == 8 {
        '8'
    } else {
        '9'
    }
}

/// The decimal digits of a number, the highest first.
pub open spec fn digits_of(value: int) -> Seq<char>
    decreases value,
{
    if value < 10 {
        seq![digit_of(value)]
    } else {
        digits_of(value / 10).push(digit_of(value % 10))
    }
}

/// The text of a cell: its symbol in at least two digits and a blank, or a
/// dot between blanks where it is empty.
pub open spec fn cell_text(item: SquareItem) -> Seq<char> {
    match item {
        SquareItem::Empty => seq![' ', '.', ' '],
        SquareItem::Frozen(v) => symbol_text(v as int),
        SquareItem::Treatment(v) => symbol_text(v as int),
    }
}

/// The text of a symbol: at least two digits, then a blank.
pub open spec fn symbol_text(value: int) -> Seq<char> {
    if value < 10 {
        seq!['0', digit_of(value), ' ']
    } else {
        digits_of(value).push(' ')
    }
}

/// The text of the first `k` cells of a line, one after the other.
pub open spec fn line_text(line: Seq<SquareItem>, k: int) -> Seq<char>
    decreases k,
{
    if k <= 0 {
        Seq::empty()
    } else {
        line_text(line, k - 1) + cell_text(line[k - 1])
    }
}

/// The text of the first `k` rows of a grid, each followed by an empty line.
pub open spec fn grid_text(g: Grid, k: int) -> Seq<char>
    decreases k,
{
    if k <= 0 {
        Seq::empty()
    } else {
        grid_text(g, k - 1) + line_text(g[k - 1], g[k - 1].len() as int) + seq!['\n', '\n']
    }
}

/// Makes a string of characters by collecting them, as `FromIterator` for
/// `String` does. Claimed of it: the string holds these characters, in
/// their order.
#[verifier::external_body]
fn text_of(chars: &Vec<char>) -> (text: String)
    ensures
        text@ == chars@,
{
    chars.iter().collect()
}

/// The character of a decimal digit.
fn digit(d: u32) -> (c: char)
    requires
        d < 10,
    ensures
        c == digit_of(d as int),
{
    if d == 0 {
        '0'
    } else if d == 1 {
        '1'
    } else if d == 2 {
        '2'
    } else if d == 3 {
        '3'
    } else if d == 4 {
        '4'
    } else if d == 5 {
        '5'
    } else if d == 6 {
        '6'
    } else if d == 7 {
        '7'
    } else if d == 8 {
        '8'
    } else {
        '9'
    }
}

/// Appends the decimal digits of a number.
fn push_digits(out: &mut Vec<char>, value: u32)
    ensures
        final(out)@ == old(out)@ + digits_of(value as int),
    decreases value,
{
    if value >= 10 {
        push_digits(out, value / 10);
    }
    out.push(digit(value % 10));
    proof {
        assert(out@ =~= old(out)@ + digits_of(value as int));
    }
}

/// Appends the text of a cell.
fn push_cell(out: &mut Vec<char>, item: SquareItem)
    ensures
        final(out)@ == old(out)@ + cell_text(item),
{
    match item.symbol() {
        None => {
            out.push(' ');
            out.push('.');
            out.push(' ');
        },
        Some(value) => {
            if value < 10 {
                out.push('0');
                out.push(digit(value));
            } else {
                push_digits(out, value);
            }
            out.push(' ');
        },
    }
    proof {
        assert(out@ =~= old(out)@ + cell_text(item));
    }
}

impl Square {
    /// The text of the whole square.
    pub open spec fn text(&self) -> Seq<char> {
        grid_text(self@, self@.len() as int)
    }

    /// Pretty print the square: a row to a line, each followed by an empty
    /// line; a symbol in two digits, an empty cell as a dot.
    pub fn render(&self) -> (text: String)
        requires
            self.wf(),
        ensures
            text@ == self.text(),
    {
        let n = self.size;
        let mut out: Vec<char> = Vec::new();
        let mut row: usize = 0;
        while row < n
            invariant
                self.wf(),
                n == self.size,
                row <= n,
                out@ == grid_text(self@, row as int),
            decreases n - row,
        {
            let ghost before = out@;
            let mut col: usize = 0;
            while col < n
                invariant
                    self.wf(),
                    n == self.size,
                    row < n,
                    col <= n,
                    out@ == before + line_text(self@[row as int], col as int),
                decreases n - col,
            {
                push_cell(&mut out, self.get(row, col));
                proof {
                    assert(out@ =~= before + line_text(self@[row as int], col as int + 1));
                }
                col += 1;
            }
            out.push('\n');
            out.push('\n');
            proof {
                assert(out@ =~= grid_text(self@, row as int + 1));
            }
            row += 1;
        }
        text_of(&out)
    }
}

} // verus!
