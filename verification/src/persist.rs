//! The persisted form of a square: a JSON array of rows, each an array of
//! cells, a cell being a whole number or the string `"Empty"`.

use vstd::prelude::*;

use crate::square::{cell_of, grid_wf, lemma_put_lines, symbol_of, Grid, Square, SquareItem};

verus! {

/// One cell of a parsed JSON text, as plain values. A number stands for
/// `mantissa * 10^exponent`, negated where `positive` is unset.
#[derive(Debug)]
pub enum JsonItem {
    Number { positive: bool, mantissa: u64, exponent: i16 },
    Text(String),
    Other,
}

/// The mathematical model of a cell of a parsed JSON text.
pub enum ItemModel {
    Number { positive: bool, mantissa: u64, exponent: i16 },
    Text(Seq<char>),
    Other,
}

impl View for JsonItem {
    type V = ItemModel;

    open spec fn view(&self) -> ItemModel {
        match self {
            JsonItem::Number { positive, mantissa, exponent } => ItemModel::Number {
                positive: *positive,
                mantissa: *mantissa,
                exponent: *exponent,
            },
            JsonItem::Text(text) => ItemModel::Text(text@),
            JsonItem::Other => ItemModel::Other,
        }
    }
}

/// The model of rows of cells.
pub open spec fn items_view(rows: Vec<Vec<JsonItem>>) -> Seq<Seq<ItemModel>> {
    Seq::new(rows@.len(), |i: int| Seq::new(rows@[i]@.len(), |j: int| rows@[i]@[j]@))
}

/// What `json::parse` makes of a text, as far as a square is concerned: the
/// members of the top-level array, each taken as an array of cells; nothing
/// where the text is no JSON.
pub uninterp spec fn json_items(text: Seq<char>) -> Option<Seq<Seq<ItemModel>>>;

/// The text that `json::stringify` writes for an array of arrays of cells.
pub uninterp spec fn json_text(rows: Seq<Seq<ItemModel>>) -> Seq<char>;

/// `m` with `e` zeros appended.
pub open spec fn scaled_up(m: int, e: int) -> int
    decreases e,
{
    if e <= 0 {
        m
    } else {
        scaled_up(m * 10, e - 1)
    }
}

/// `m` with `e` zeros taken off its end, if it ends in as many.
pub open spec fn scaled_down(m: int, e: int) -> Option<int>
    decreases e,
{
    if e <= 0 {
        Some(m)
    } else if m % 10 != 0 {
        None
    } else {
        scaled_down(m / 10, e - 1)
    }
}

/// The symbol that a JSON number stands for: the number itself where it is
/// whole, not negative and within `u32`; nothing else is a symbol.
pub open spec fn number_value(positive: bool, mantissa: u64, exponent: i16) -> Option<u32> {
    if mantissa == 0 {
        Some(0u32)
    } else if !positive {
        None
    } else if exponent >= 0 {
        if scaled_up(mantissa as int, exponent as int) <= u32::MAX {
            Some(scaled_up(mantissa as int, exponent as int) as u32)
        } else {
            None
        }
    } else {
        match scaled_down(mantissa as int, -(exponent as int)) {
            Some(v) => if v <= u32::MAX { Some(v as u32) } else { None },
            None => None,
        }
    }
}

/// What a cell of the persisted form holds: a symbol, or nothing for the
/// string `"Empty"`. Any other cell is malformed.
pub open spec fn cell_value(item: ItemModel) -> Option<Option<u32>> {
    match item {
        ItemModel::Number { positive, mantissa, exponent } => match number_value(positive, mantissa, exponent) {
            Some(v) => Some(Some(v)),
            None => None,
        },
        ItemModel::Text(text) => if text == "Empty"@ { Some(None) } else { None },
        ItemModel::Other => None,
    }
}

/// Whether a cell of the persisted form is well formed and, where it holds a
/// symbol, holds one of `0..n`.
pub open spec fn cell_fits(item: ItemModel, n: int) -> bool {
    match cell_value(item) {
        Some(Some(v)) => v < n,
        Some(None) => true,
        None => false,
    }
}

/// Whether the rows are the persisted form of a square: as many cells in
/// each row as there are rows, each cell empty or a symbol below that number.
pub open spec fn readable(rows: Seq<Seq<ItemModel>>) -> bool {
    let n = rows.len();
    &&& forall|r: int| 0 <= r < n ==> (#[trigger] rows[r]).len() == n
    &&& forall|r: int, c: int| 0 <= r < n && 0 <= c < n ==> cell_fits(#[trigger] rows[r][c], n as int)
}

/// The persisted form of a cell: its symbol, or the string `"Empty"`.
pub open spec fn item_of(item: SquareItem) -> ItemModel {
    match item {
        SquareItem::Empty => ItemModel::Text("Empty"@),
        SquareItem::Frozen(v) => ItemModel::Number { positive: true, mantissa: v as u64, exponent: 0 },
        SquareItem::Treatment(v) => ItemModel::Number { positive: true, mantissa: v as u64, exponent: 0 },
    }
}

/// Appending zeros makes no number smaller.
proof fn lemma_scaled_up_grows(m: int, e: int)
    requires
        0 <= m,
    ensures
        scaled_up(m, e) >= m,
    decreases e,
{
    if e > 0 {
        lemma_scaled_up_grows(m * 10, e - 1);
    }
}

/// The symbol that a JSON number stands for, if it stands for one.
pub fn number_symbol(positive: bool, mantissa: u64, exponent: i16) -> (symbol: Option<u32>)
    ensures
        symbol == number_value(positive, mantissa, exponent),
{
    if mantissa == 0 {
        return Some(0);
    }
    if !positive {
        return None;
    }
    let mut value: u64 = mantissa;
    if exponent >= 0 {
        let mut left: i16 = exponent;
        while left > 0
            invariant
                positive,
                mantissa != 0,
                0 <= left <= exponent,
                0 < value,
                scaled_up(value as int, left as int) == scaled_up(mantissa as int, exponent as int),
            decreases left,
        {
            if value > 0xffff_ffff {
                proof {
                    lemma_scaled_up_grows(value as int, left as int);
                }
                return None;
            }
            value = value * 10;
            left = left - 1;
        }
    } else {
        let mut left: i32 = -(exponent as i32);
        while left > 0
            invariant
                positive,
                mantissa != 0,
                exponent < 0,
                0 <= left <= -(exponent as int),
                scaled_down(value as int, left as int) == scaled_down(mantissa as int, -(exponent as int)),
            decreases left,
        {
            if value % 10 != 0 {
                return None;
            }
            value = value / 10;
            left = left - 1;
        }
    }
    if value > 0xffff_ffff {
        None
    } else {
        Some(value as u32)
    }
}

/// What a cell of the persisted form holds, if it is well formed.
pub fn read_item(item: &JsonItem) -> (value: Option<Option<u32>>)
    ensures
        value == cell_value(item@),
{
    match item {
        JsonItem::Number { positive, mantissa, exponent } => match number_symbol(*positive, *mantissa, *exponent) {
            Some(v) => Some(Some(v)),
            None => None,
        },
        JsonItem::Text(text) => {
            let empty = "Empty".to_owned();
            if *text == empty {
                Some(None)
            } else {
                None
            }
        },
        JsonItem::Other => None,
    }
}

/// The persisted form of a cell.
pub fn write_item(item: SquareItem) -> (written: JsonItem)
    ensures
        written@ == item_of(item),
{
    match item {
        SquareItem::Empty => JsonItem::Text("Empty".to_owned()),
        SquareItem::Frozen(v) => JsonItem::Number { positive: true, mantissa: v as u64, exponent: 0 },
        SquareItem::Treatment(v) => JsonItem::Number { positive: true, mantissa: v as u64, exponent: 0 },
    }
}

/// Parses a text with `json::parse` and hands out the members of its
/// top-level array, each taken as an array, cell by cell: a number by its
/// parts, a string by its text, anything else as `Other`. Claimed of it: the
/// result is a function of the text alone, named `json_items`.
#[verifier::external_body]
pub(crate) fn parse_items(text: &str) -> (rows: Option<Vec<Vec<JsonItem>>>)
    ensures
        rows matches Some(found) ==> json_items(text@) == Some(items_view(found)),
        rows is None ==> json_items(text@) is None,
{
    let value = json::parse(text).ok()?;
    Some(value.members().map(|row| row.members().map(|cell| match cell {
        json::JsonValue::Number(n) => JsonItem::Number { positive: n.as_parts().0, mantissa: n.as_parts().1, exponent: n.as_parts().2 },
        json::JsonValue::Short(s) => JsonItem::Text(s.as_str().to_owned()),
        json::JsonValue::String(s) => JsonItem::Text(s.clone()),
        _ => JsonItem::Other,
    }).collect()).collect())
}

/// Writes rows of cells as a JSON array of arrays with `json::stringify`: a
/// number from its parts, a text as a string, `Other` as `null`. Claimed of
/// it: the result is a function of the rows alone, named `json_text`.
#[verifier::external_body]
pub(crate) fn dump_items(rows: &Vec<Vec<JsonItem>>) -> (text: String)
    ensures
        text@ == json_text(items_view(*rows)),
{
    json::stringify(json::JsonValue::Array(rows.iter().map(|row| json::JsonValue::Array(row.iter().map(|item| match item {
        JsonItem::Number { positive, mantissa, exponent } => json::JsonValue::Number(json::number::Number::from_parts(*positive, *mantissa, *exponent)),
        JsonItem::Text(text) => json::JsonValue::String(text.clone()),
        JsonItem::Other => json::JsonValue::Null,
    }).collect())).collect()))
}

/// The persisted form of a grid, cell by cell.
pub open spec fn persisted(g: Grid) -> Seq<Seq<ItemModel>> {
    Seq::new(g.len(), |r: int| Seq::new(g[r].len(), |c: int| item_of(g[r][c])))
}

/// Reading the persisted form of a cell gives its symbol back.
pub proof fn lemma_item_round_trip(item: SquareItem)
    ensures
        cell_value(item_of(item)) == Some(symbol_of(item)),
{
}

/// The persisted form of a square can be read, and reading it gives every
/// symbol back.
pub proof fn lemma_persisted_is_readable(g: Grid, n: int)
    requires
        grid_wf(g, n),
    ensures
        readable(persisted(g)),
        forall|r: int, c: int| 0 <= r < n && 0 <= c < n ==> cell_value(#[trigger] persisted(g)[r][c]) == Some(symbol_of(g[r][c])),
{
    let rows = persisted(g);
    assert forall|r: int, c: int| 0 <= r < n && 0 <= c < n implies cell_value(#[trigger] rows[r][c]) == Some(symbol_of(g[r][c])) by {
        lemma_item_round_trip(g[r][c]);
    }
    assert forall|r: int, c: int| 0 <= r < n && 0 <= c < n implies cell_fits(#[trigger] rows[r][c], n) by {
        assert(crate::square::item_fits(g[r][c], n));
    }
}

impl Square {
    /// Builds a square from rows of parsed cells; the symbols become clues
    /// where `frozen` is set. Refuses rows that are not the persisted form of
    /// a square.
    pub fn from_items(rows: &Vec<Vec<JsonItem>>, frozen: bool) -> (square: Option<Square>)
        ensures
            square is Some <==> readable(items_view(*rows)),
            square matches Some(found) ==> {
                &&& found.wf()
                &&& found.size == rows@.len()
                &&& forall|r: int, c: int| 0 <= r < rows@.len() && 0 <= c < rows@.len() ==> #[trigger] found@[r][c] == cell_of(
                    cell_value(items_view(*rows)[r][c])->0,
                    frozen,
                )
            },
    {
        let n = rows.len();
        let ghost model = items_view(*rows);
        let mut square = Square::new(n);
        let mut row: usize = 0;
        while row < n
            invariant
                square.wf(),
                n == square.size,
                n == rows@.len(),
                model == items_view(*rows),
                row <= n,
                forall|r: int| 0 <= r < row ==> (#[trigger] model[r]).len() == n,
                forall|r: int, c: int| 0 <= r < row && 0 <= c < n ==> cell_fits(#[trigger] model[r][c], n as int),
                forall|r: int, c: int| 0 <= r < row && 0 <= c < n ==> #[trigger] square@[r][c] == cell_of(cell_value(model[r][c])->0, frozen),
            decreases n - row,
        {
            if rows[row].len() != n {
                assert(model[row as int].len() != n);
                return None;
            }
            let mut col: usize = 0;
            while col < n
                invariant
                    square.wf(),
                    n == square.size,
                    n == rows@.len(),
                    model == items_view(*rows),
                    row < n,
                    col <= n,
                    rows@[row as int]@.len() == n,
                    forall|r: int| 0 <= r < row ==> (#[trigger] model[r]).len() == n,
                    forall|r: int, c: int| 0 <= r < row && 0 <= c < n ==> cell_fits(#[trigger] model[r][c], n as int),
                    forall|r: int, c: int| 0 <= r < row && 0 <= c < n ==> #[trigger] square@[r][c] == cell_of(cell_value(model[r][c])->0, frozen),
                    forall|c: int| 0 <= c < col ==> cell_fits(#[trigger] model[row as int][c], n as int),
                    forall|c: int| 0 <= c < col ==> #[trigger] square@[row as int][c] == cell_of(cell_value(model[row as int][c])->0, frozen),
                decreases n - col,
            {
                let ghost before = square@;
                assert(model[row as int][col as int] == rows@[row as int]@[col as int]@);
                let item = match read_item(&rows[row][col]) {
                    None => {
                        return None;
                    },
                    Some(None) => SquareItem::Empty,
                    Some(Some(v)) => {
                        if v as usize >= n {
                            return None;
                        }
                        if frozen {
                            SquareItem::Frozen(v)
                        } else {
                            SquareItem::Treatment(v)
                        }
                    },
                };
                square.set(row, col, item);
                proof {
                    lemma_put_lines(before, n as int, row as int, col as int, item);
                }
                col += 1;
            }
            assert(model[row as int].len() == n);
            row += 1;
        }
        Some(square)
    }

    /// The square as rows of cells in their persisted form.
    pub fn to_items(&self) -> (rows: Vec<Vec<JsonItem>>)
        requires
            self.wf(),
        ensures
            items_view(rows) == persisted(self@),
    {
        let n = self.size;
        let mut rows: Vec<Vec<JsonItem>> = Vec::new();
        let mut row: usize = 0;
        while row < n
            invariant
                self.wf(),
                n == self.size,
                row <= n,
                rows@.len() == row,
                forall|r: int| 0 <= r < row ==> (#[trigger] rows@[r])@.len() == n,
                forall|r: int, c: int| 0 <= r < row && 0 <= c < n ==> (#[trigger] rows@[r]@[c])@ == item_of(self@[r][c]),
            decreases n - row,
        {
            let mut line: Vec<JsonItem> = Vec::new();
            let mut col: usize = 0;
            while col < n
                invariant
                    self.wf(),
                    n == self.size,
                    row < n,
                    col <= n,
                    line@.len() == col,
                    forall|c: int| 0 <= c < col ==> (#[trigger] line@[c])@ == item_of(self@[row as int][c]),
                decreases n - col,
            {
                line.push(write_item(self.get(row, col)));
                col += 1;
            }
            rows.push(line);
            row += 1;
        }
        proof {
            let a = items_view(rows);
            let b = persisted(self@);
            assert(a.len() == b.len());
            assert forall|r: int| 0 <= r < a.len() implies #[trigger] a[r] =~= b[r] by {
                assert(rows@[r]@.len() == n);
                assert forall|c: int| 0 <= c < n implies a[r][c] == b[r][c] by {
                    assert(rows@[r]@[c]@ == item_of(self@[r][c]));
                }
            }
            assert(a =~= b);
        }
        rows
    }

    /// Reads a square from its persisted form, a JSON text; the symbols
    /// become clues where `frozen` is set. Refuses a text that is no JSON or
    /// not the persisted form of a square.
    pub fn from_json(text: &str, frozen: bool) -> (square: Option<Square>)
        ensures
            square is Some <==> json_items(text@) is Some && readable(json_items(text@)->0),
            square matches Some(found) ==> {
                &&& found.wf()
                &&& found.size == json_items(text@)->0.len()
                &&& forall|r: int, c: int| 0 <= r < found.size && 0 <= c < found.size ==> #[trigger] found@[r][c] == cell_of(
                    cell_value(json_items(text@)->0[r][c])->0,
                    frozen,
                )
            },
    {
        match parse_items(text) {
            Some(rows) => {
                assert(items_view(rows).len() == rows@.len());
                Square::from_items(&rows, frozen)
            },
            None => None,
        }
    }

    /// Writes the square in its persisted form, a JSON text.
    pub fn to_json(&self) -> (text: String)
        requires
            self.wf(),
        ensures
            text@ == json_text(persisted(self@)),
    {
        let rows = self.to_items();
        dump_items(&rows)
    }
}

} // verus!
