//! The grid of a Latin square, its mathematical model and its cost.

use vstd::prelude::*;

use crate::random::random_below;
use crate::ratio::Ratio;

verus! {

/// The content of one cell.
#[derive(Clone, Copy, PartialEq, Eq, Structural, Hash, Debug)]
pub enum SquareItem {
    /// Nothing has been placed yet.
    Empty,
    /// A given clue, which the solver never alters.
    Frozen(u32),
    /// A symbol placed by the solver.
    Treatment(u32),
}

/// The mathematical model of a grid: its rows, each a sequence of cells.
pub type Grid = Seq<Seq<SquareItem>>;

/// Whether the cell holds the symbol `v`, as a clue or as a placed symbol.
pub open spec fn holds(item: SquareItem, v: int) -> bool {
    match item {
        SquareItem::Empty => false,
        SquareItem::Frozen(x) => x == v,
        SquareItem::Treatment(x) => x == v,
    }
}

/// Whether the cell is empty or its symbol is one of `0..n`.
pub open spec fn item_fits(item: SquareItem, n: int) -> bool {
    match item {
        SquareItem::Empty => true,
        SquareItem::Frozen(x) => x < n,
        SquareItem::Treatment(x) => x < n,
    }
}

/// The symbol that the cell holds, if any; a clue and a placed symbol count alike.
pub open spec fn symbol_of(item: SquareItem) -> Option<u32> {
    match item {
        SquareItem::Empty => None,
        SquareItem::Frozen(x) => Some(x),
        SquareItem::Treatment(x) => Some(x),
    }
}

/// Whether the cell is a given clue.
pub open spec fn is_frozen(item: SquareItem) -> bool {
    item is Frozen
}

/// How many of the first `k` cells of `line` hold the symbol `s` (`None`: are empty).
pub open spec fn count_upto(line: Seq<SquareItem>, s: Option<u32>, k: int) -> nat
    decreases k,
{
    if k <= 0 {
        0
    } else {
        count_upto(line, s, k - 1) + if symbol_of(line[k - 1]) == s { 1nat } else { 0nat }
    }
}

/// How many cells of `line` hold the symbol `s` (`None`: are empty).
pub open spec fn occurrences(line: Seq<SquareItem>, s: Option<u32>) -> nat {
    count_upto(line, s, line.len() as int)
}

/// Column `c` of the grid, from the top.
pub open spec fn column(g: Grid, c: int) -> Seq<SquareItem> {
    Seq::new(g.len(), |r: int| g[r][c])
}

/// How many cells of the first `k` rows hold the symbol `s` (`None`: are empty).
pub open spec fn grid_count_upto(g: Grid, s: Option<u32>, k: int) -> nat
    decreases k,
{
    if k <= 0 {
        0
    } else {
        grid_count_upto(g, s, k - 1) + occurrences(g[k - 1], s)
    }
}

/// How many cells of the grid hold the symbol `s` (`None`: are empty).
pub open spec fn grid_count(g: Grid, s: Option<u32>) -> nat {
    grid_count_upto(g, s, g.len() as int)
}

/// The cost of the symbol `s` at (`r`, `c`): its occurrences in row `r` plus
/// its occurrences in column `c`.
pub open spec fn cell_cost(g: Grid, r: int, c: int, s: Option<u32>) -> nat {
    occurrences(g[r], s) + occurrences(column(g, c), s)
}

/// An `n` by `n` grid whose symbols all lie in `0..n`.
pub open spec fn grid_wf(g: Grid, n: int) -> bool {
    &&& g.len() == n
    &&& forall|r: int| 0 <= r < n ==> (#[trigger] g[r]).len() == n
    &&& forall|r: int, c: int| 0 <= r < n && 0 <= c < n ==> item_fits(#[trigger] g[r][c], n)
}

/// The grid `g` with the cell at (`r`, `c`) replaced by `item`.
pub open spec fn put(g: Grid, r: int, c: int, item: SquareItem) -> Grid {
    g.update(r, g[r].update(c, item))
}

/// The grid `g` with the contents of two cells exchanged.
pub open spec fn swapped(g: Grid, r1: int, c1: int, r2: int, c2: int) -> Grid {
    put(put(g, r1, c1, g[r2][c2]), r2, c2, g[r1][c1])
}

/// The `n` by `n` grid in which every cell is empty.
pub open spec fn empty_grid(n: int) -> Grid {
    Seq::new(n as nat, |r: int| Seq::new(n as nat, |c: int| SquareItem::Empty))
}

/// Whether the symbol `v` occurs somewhere in row `r`.
pub open spec fn row_has(g: Grid, r: int, v: int) -> bool {
    exists|c: int| 0 <= c < g[r].len() && holds(#[trigger] g[r][c], v)
}

/// Whether the symbol `v` occurs somewhere in column `c`.
pub open spec fn col_has(g: Grid, c: int, v: int) -> bool {
    exists|r: int| 0 <= r < g.len() && holds(#[trigger] g[r][c], v)
}

/// The number of symbols below `k` that do not occur in row `r`.
pub open spec fn absent_in_row(g: Grid, r: int, k: int) -> nat
    decreases k,
{
    if k <= 0 {
        0
    } else {
        absent_in_row(g, r, k - 1) + if row_has(g, r, k - 1) { 0nat } else { 1nat }
    }
}

/// The number of symbols below `k` that do not occur in column `c`.
pub open spec fn absent_in_col(g: Grid, c: int, k: int) -> nat
    decreases k,
{
    if k <= 0 {
        0
    } else {
        absent_in_col(g, c, k - 1) + if col_has(g, c, k - 1) { 0nat } else { 1nat }
    }
}

/// The cost of a row: how many of the symbols `0..n` it lacks.
pub open spec fn row_cost(g: Grid, r: int) -> nat {
    absent_in_row(g, r, g.len() as int)
}

/// The cost of a column: how many of the symbols `0..n` it lacks.
pub open spec fn col_cost(g: Grid, c: int) -> nat {
    absent_in_col(g, c, g.len() as int)
}

/// The summed cost of the rows below `k`.
pub open spec fn rows_cost(g: Grid, k: int) -> nat
    decreases k,
{
    if k <= 0 {
        0
    } else {
        rows_cost(g, k - 1) + row_cost(g, k - 1)
    }
}

/// The summed cost of the columns below `k`.
pub open spec fn cols_cost(g: Grid, k: int) -> nat
    decreases k,
{
    if k <= 0 {
        0
    } else {
        cols_cost(g, k - 1) + col_cost(g, k - 1)
    }
}

/// The cost of a grid: the cost of all its rows and all its columns.
pub open spec fn grid_cost(g: Grid) -> nat {
    rows_cost(g, g.len() as int) + cols_cost(g, g.len() as int)
}

/// Whether no cell of the grid is empty.
pub open spec fn grid_complete(g: Grid) -> bool {
    forall|r: int, c: int|
        0 <= r < g.len() && 0 <= c < g[r].len() ==> #[trigger] g[r][c] != SquareItem::Empty
}

/// The number of entries below `k` that are `false`.
pub open spec fn count_false(seen: Seq<bool>, k: int) -> nat
    decreases k,
{
    if k <= 0 {
        0
    } else {
        count_false(seen, k - 1) + if seen[k - 1] { 0nat } else { 1nat }
    }
}

/// No more entries are `false` than were looked at.
proof fn lemma_count_false_bound(seen: Seq<bool>, k: int)
    requires
        0 <= k,
    ensures
        count_false(seen, k) <= k,
    decreases k,
{
    if k > 0 {
        lemma_count_false_bound(seen, k - 1);
    }
}

/// Marks that tell which symbols a row holds count the symbols it lacks.
proof fn lemma_count_false_row(seen: Seq<bool>, g: Grid, r: int, k: int)
    requires
        0 <= k <= seen.len(),
        forall|v: int| 0 <= v < k ==> seen[v] == row_has(g, r, v),
    ensures
        count_false(seen, k) == absent_in_row(g, r, k),
    decreases k,
{
    if k > 0 {
        lemma_count_false_row(seen, g, r, k - 1);
    }
}

/// Marks that tell which symbols a column holds count the symbols it lacks.
proof fn lemma_count_false_col(seen: Seq<bool>, g: Grid, c: int, k: int)
    requires
        0 <= k <= seen.len(),
        forall|v: int| 0 <= v < k ==> seen[v] == col_has(g, c, v),
    ensures
        count_false(seen, k) == absent_in_col(g, c, k),
    decreases k,
{
    if k > 0 {
        lemma_count_false_col(seen, g, c, k - 1);
    }
}

/// A row or a column lacks at most as many symbols as were looked for.
proof fn lemma_absent_bound(g: Grid, i: int, k: int)
    requires
        0 <= k,
    ensures
        absent_in_row(g, i, k) <= k,
        absent_in_col(g, i, k) <= k,
    decreases k,
{
    if k > 0 {
        lemma_absent_bound(g, i, k - 1);
    }
}

/// The rows and the columns below `k` cost at most `k * n` each.
proof fn lemma_cost_bound(g: Grid, k: int)
    requires
        0 <= k,
    ensures
        rows_cost(g, k) <= k * g.len(),
        cols_cost(g, k) <= k * g.len(),
    decreases k,
{
    if k > 0 {
        lemma_cost_bound(g, k - 1);
        lemma_absent_bound(g, k - 1, g.len() as int);
        assert(k * g.len() == (k - 1) * g.len() + g.len()) by (nonlinear_arith);
    }
}

/// No more cells hold a symbol than were looked at.
pub proof fn lemma_count_bound(line: Seq<SquareItem>, s: Option<u32>, k: int)
    requires
        0 <= k,
    ensures
        count_upto(line, s, k) <= k,
    decreases k,
{
    if k > 0 {
        lemma_count_bound(line, s, k - 1);
    }
}

/// Replacing one cell moves a count by what left and what came.
proof fn lemma_count_update(line: Seq<SquareItem>, i: int, item: SquareItem, s: Option<u32>, k: int)
    requires
        0 <= i < line.len(),
        0 <= k <= line.len(),
    ensures
        count_upto(line.update(i, item), s, k) + (if i < k && symbol_of(line[i]) == s { 1nat } else { 0nat })
            == count_upto(line, s, k) + (if i < k && symbol_of(item) == s { 1nat } else { 0nat }),
    decreases k,
{
    if k > 0 {
        lemma_count_update(line, i, item, s, k - 1);
    }
}

/// Replacing one cell moves the occurrences in its line by what left and what came.
proof fn lemma_occurrences_update(line: Seq<SquareItem>, i: int, item: SquareItem, s: Option<u32>)
    requires
        0 <= i < line.len(),
    ensures
        occurrences(line.update(i, item), s) + (if symbol_of(line[i]) == s { 1nat } else { 0nat })
            == occurrences(line, s) + (if symbol_of(item) == s { 1nat } else { 0nat }),
{
    lemma_count_update(line, i, item, s, line.len() as int);
}

/// What replacing the cell at (`r`, `c`) does to the rows and columns of a grid.
pub proof fn lemma_put_lines(g: Grid, n: int, r: int, c: int, item: SquareItem)
    requires
        grid_wf(g, n),
        0 <= r < n,
        0 <= c < n,
    ensures
        put(g, r, c, item).len() == n,
        forall|i: int| 0 <= i < n ==> (#[trigger] put(g, r, c, item)[i]).len() == n,
        put(g, r, c, item)[r] == g[r].update(c, item),
        forall|i: int| 0 <= i < n && i != r ==> #[trigger] put(g, r, c, item)[i] == g[i],
        column(put(g, r, c, item), c) == column(g, c).update(r, item),
        forall|j: int| 0 <= j < n && j != c ==> #[trigger] column(put(g, r, c, item), j) == column(g, j),
        item_fits(item, n) ==> grid_wf(put(g, r, c, item), n),
{
    let h = put(g, r, c, item);
    assert(column(h, c) =~= column(g, c).update(r, item));
    assert forall|j: int| 0 <= j < n && j != c implies #[trigger] column(h, j) == column(g, j) by {
        assert(column(h, j) =~= column(g, j));
    }
}

/// Replacing one cell moves the grid's count of a symbol by what left and what came.
pub proof fn lemma_grid_count_put(g: Grid, n: int, r: int, c: int, item: SquareItem, s: Option<u32>, k: int)
    requires
        grid_wf(g, n),
        0 <= r < n,
        0 <= c < n,
        0 <= k <= n,
    ensures
        grid_count_upto(put(g, r, c, item), s, k) + (if r < k && symbol_of(g[r][c]) == s { 1nat } else { 0nat })
            == grid_count_upto(g, s, k) + (if r < k && symbol_of(item) == s { 1nat } else { 0nat }),
    decreases k,
{
    if k > 0 {
        lemma_grid_count_put(g, n, r, c, item, s, k - 1);
        lemma_put_lines(g, n, r, c, item);
        if k - 1 == r {
            lemma_occurrences_update(g[r], c, item, s);
        }
    }
}

/// The cost of a symbol at a cell after another cell was replaced.
pub proof fn lemma_cell_cost_put(g: Grid, n: int, r: int, c: int, item: SquareItem, i: int, j: int, s: Option<u32>)
    requires
        grid_wf(g, n),
        0 <= r < n,
        0 <= c < n,
        0 <= i < n,
        0 <= j < n,
    ensures
        cell_cost(put(g, r, c, item), i, j, s)
            + (if i == r && symbol_of(g[r][c]) == s { 1nat } else { 0nat })
            + (if j == c && symbol_of(g[r][c]) == s { 1nat } else { 0nat })
            == cell_cost(g, i, j, s)
            + (if i == r && symbol_of(item) == s { 1nat } else { 0nat })
            + (if j == c && symbol_of(item) == s { 1nat } else { 0nat }),
{
    lemma_put_lines(g, n, r, c, item);
    if i == r {
        lemma_occurrences_update(g[r], c, item, s);
    }
    if j == c {
        lemma_occurrences_update(column(g, c), r, item, s);
    }
}

/// A row or a column of empty cells lacks every symbol.
proof fn lemma_all_absent(n: int, i: int, k: int)
    requires
        0 <= i < n,
        0 <= k,
    ensures
        absent_in_row(empty_grid(n), i, k) == k,
        absent_in_col(empty_grid(n), i, k) == k,
    decreases k,
{
    if k > 0 {
        lemma_all_absent(n, i, k - 1);
        let g = empty_grid(n);
        if row_has(g, i, k - 1) {
            let c = choose|c: int| 0 <= c < g[i].len() && holds(#[trigger] g[i][c], k - 1);
            assert(false);
        }
        if col_has(g, i, k - 1) {
            let r = choose|r: int| 0 <= r < g.len() && holds(#[trigger] g[r][i], k - 1);
            assert(false);
        }
    }
}

/// The first `k` rows of the empty grid cost `k * n`, and so do its columns.
proof fn lemma_empty_lines_cost(n: int, k: int)
    requires
        0 <= k <= n,
    ensures
        rows_cost(empty_grid(n), k) == k * n,
        cols_cost(empty_grid(n), k) == k * n,
    decreases k,
{
    if k > 0 {
        lemma_empty_lines_cost(n, k - 1);
        lemma_all_absent(n, k - 1, n);
        assert(k * n == (k - 1) * n + n) by (nonlinear_arith);
    } else {
        assert(k * n == 0) by (nonlinear_arith)
            requires
                k == 0,
        ;
    }
}

/// The grid of `n` by `n` empty cells costs `2 * n * n`: each of its rows
/// and columns lacks all `n` symbols.
pub proof fn lemma_empty_grid_cost(n: int)
    requires
        0 <= n,
    ensures
        grid_cost(empty_grid(n)) == 2 * n * n,
{
    lemma_empty_lines_cost(n, n);
    assert(n * n + n * n == 2 * n * n) by (nonlinear_arith);
}

/// A vector of `n` entries, all `false`.
fn all_false(n: usize) -> (seen: Vec<bool>)
    ensures
        seen@.len() == n,
        forall|v: int| 0 <= v < n ==> !seen@[v],
{
    let mut seen: Vec<bool> = Vec::new();
    let mut i: usize = 0;
    while i < n
        invariant
            i <= n,
            seen@.len() == i,
            forall|v: int| 0 <= v < i ==> !seen@[v],
        decreases n - i,
    {
        seen.push(false);
        i += 1;
    }
    seen
}

/// Counts the entries that are `false`.
fn tally_false(seen: &Vec<bool>) -> (count: u32)
    requires
        seen@.len() <= u32::MAX,
    ensures
        count == count_false(seen@, seen@.len() as int),
{
    let mut count: u32 = 0;
    let mut i: usize = 0;
    while i < seen.len()
        invariant
            i <= seen@.len(),
            seen@.len() <= u32::MAX,
            count == count_false(seen@, i as int),
            count <= i,
        decreases seen@.len() - i,
    {
        if !seen[i] {
            count += 1;
        }
        i += 1;
    }
    count
}

/// A square of symbols. Can contain Latin squares.
#[derive(Debug)]
pub struct Square {
    pub data: Vec<Vec<SquareItem>>,
    pub size: usize,
}

impl View for Square {
    type V = Grid;

    open spec fn view(&self) -> Grid {
        Seq::new(self.data@.len(), |r: int| self.data@[r]@)
    }
}

impl Clone for Square {
    fn clone(&self) -> (copy: Square)
        ensures
            copy@ == self@,
            copy.size == self.size,
    {
        let mut data: Vec<Vec<SquareItem>> = Vec::new();
        let mut r: usize = 0;
        while r < self.data.len()
            invariant
                r <= self.data@.len(),
                data@.len() == r,
                forall|i: int| 0 <= i < r ==> (#[trigger] data@[i])@ == self.data@[i]@,
            decreases self.data@.len() - r,
        {
            let mut row: Vec<SquareItem> = Vec::new();
            let mut c: usize = 0;
            while c < self.data[r].len()
                invariant
                    r < self.data@.len(),
                    c <= self.data@[r as int]@.len(),
                    row@.len() == c,
                    forall|j: int| 0 <= j < c ==> #[trigger] row@[j] == self.data@[r as int]@[j],
                decreases self.data@[r as int]@.len() - c,
            {
                row.push(self.data[r][c]);
                c += 1;
            }
            assert(row@ =~= self.data@[r as int]@);
            data.push(row);
            r += 1;
        }
        let copy = Square { data, size: self.size };
        assert(copy@ =~= self@);
        copy
    }
}

impl Square {
    /// The square is `size` by `size` and its symbols lie in `0..size`.
    pub open spec fn wf(&self) -> bool {
        grid_wf(self@, self.size as int)
    }

    /// Create empty square
    pub fn new(size: usize) -> (square: Square)
        ensures
            square.wf(),
            square.size == size,
            square@ == empty_grid(size as int),
    {
        let mut data: Vec<Vec<SquareItem>> = Vec::new();
        let mut r: usize = 0;
        while r < size
            invariant
                r <= size,
                data@.len() == r,
                forall|i: int| 0 <= i < r ==> (#[trigger] data@[i])@ == Seq::new(size as nat, |c: int| SquareItem::Empty),
            decreases size - r,
        {
            let mut row: Vec<SquareItem> = Vec::new();
            let mut c: usize = 0;
            while c < size
                invariant
                    c <= size,
                    row@.len() == c,
                    forall|j: int| 0 <= j < c ==> #[trigger] row@[j] == SquareItem::Empty,
                decreases size - c,
            {
                row.push(SquareItem::Empty);
                c += 1;
            }
            assert(row@ =~= Seq::new(size as nat, |c: int| SquareItem::Empty));
            data.push(row);
            r += 1;
        }
        let square = Square { data, size };
        assert(square@ =~= empty_grid(size as int));
        square
    }

    /// Reads the cell at (`row`, `col`).
    pub fn get(&self, row: usize, col: usize) -> (item: SquareItem)
        requires
            self.wf(),
            row < self.size,
            col < self.size,
        ensures
            item == self@[row as int][col as int],
    {
        self.data[row][col]
    }

    /// Writes `item` into the cell at (`row`, `col`).
    pub fn set(&mut self, row: usize, col: usize, item: SquareItem)
        requires
            old(self).wf(),
            row < old(self).size,
            col < old(self).size,
            item_fits(item, old(self).size as int),
        ensures
            final(self).wf(),
            final(self).size == old(self).size,
            final(self)@ == put(old(self)@, row as int, col as int, item),
    {
        assert(self@[row as int] == self.data@[row as int]@);
        self.data[row][col] = item;
        assert(self@ =~= put(old(self)@, row as int, col as int, item));
    }

    /// Exchanges the contents of two cells.
    pub fn swap(&mut self, row1: usize, col1: usize, row2: usize, col2: usize)
        requires
            old(self).wf(),
            row1 < old(self).size,
            col1 < old(self).size,
            row2 < old(self).size,
            col2 < old(self).size,
        ensures
            final(self).wf(),
            final(self).size == old(self).size,
            final(self)@ == swapped(old(self)@, row1 as int, col1 as int, row2 as int, col2 as int),
    {
        let first = self.get(row1, col1);
        let second = self.get(row2, col2);
        self.set(row1, col1, second);
        self.set(row2, col2, first);
    }

    /// Check a row for missing symbols
    pub fn check_row(&self, row: usize) -> (cost: u32)
        requires
            self.wf(),
            row < self.size,
            self.size <= u32::MAX,
        ensures
            cost == row_cost(self@, row as int),
            cost <= self.size,
    {
        let n = self.size;
        let mut seen = all_false(n);
        let mut col: usize = 0;
        while col < n
            invariant
                self.wf(),
                n == self.size,
                row < n,
                col <= n,
                seen@.len() == n,
                forall|v: int| 0 <= v < n ==> (seen@[v] <==> exists|c: int| 0 <= c < col && holds(#[trigger] self@[row as int][c], v)),
            decreases n - col,
        {
            let ghost before = seen@;
            match self.get(row, col) {
                SquareItem::Empty => {},
                SquareItem::Frozen(value) => {
                    seen[value as usize] = true;
                },
                SquareItem::Treatment(value) => {
                    seen[value as usize] = true;
                },
            }
            proof {
                let g = self@;
                let r = row as int;
                assert forall|v: int| 0 <= v < n implies (seen@[v] <==> exists|c: int| 0 <= c < col + 1 && holds(#[trigger] g[r][c], v)) by {
                    if seen@[v] {
                        if before[v] {
                            let c = choose|c: int| 0 <= c < col && holds(#[trigger] g[r][c], v);
                            assert(0 <= c < col + 1 && holds(g[r][c], v));
                        } else {
                            assert(holds(g[r][col as int], v));
                        }
                    }
                    if exists|c: int| 0 <= c < col + 1 && holds(#[trigger] g[r][c], v) {
                        let c = choose|c: int| 0 <= c < col + 1 && holds(#[trigger] g[r][c], v);
                        if c < col {
                            assert(before[v]);
                        }
                    }
                }
            }
            col += 1;
        }
        proof {
            lemma_count_false_row(seen@, self@, row as int, n as int);
            lemma_count_false_bound(seen@, n as int);
        }
        tally_false(&seen)
    }

    /// Check a column for missing symbols
    pub fn check_col(&self, col: usize) -> (cost: u32)
        requires
            self.wf(),
            col < self.size,
            self.size <= u32::MAX,
        ensures
            cost == col_cost(self@, col as int),
            cost <= self.size,
    {
        let n = self.size;
        let mut seen = all_false(n);
        let mut row: usize = 0;
        while row < n
            invariant
                self.wf(),
                n == self.size,
                col < n,
                row <= n,
                seen@.len() == n,
                forall|v: int| 0 <= v < n ==> (seen@[v] <==> exists|r: int| 0 <= r < row && holds(#[trigger] self@[r][col as int], v)),
            decreases n - row,
        {
            let ghost before = seen@;
            match self.get(row, col) {
                SquareItem::Empty => {},
                SquareItem::Frozen(value) => {
                    seen[value as usize] = true;
                },
                SquareItem::Treatment(value) => {
                    seen[value as usize] = true;
                },
            }
            proof {
                let g = self@;
                let k = col as int;
                assert forall|v: int| 0 <= v < n implies (seen@[v] <==> exists|r: int| 0 <= r < row + 1 && holds(#[trigger] g[r][k], v)) by {
                    if seen@[v] {
                        if before[v] {
                            let r = choose|r: int| 0 <= r < row && holds(#[trigger] g[r][k], v);
                            assert(0 <= r < row + 1 && holds(g[r][k], v));
                        } else {
                            assert(holds(g[row as int][k], v));
                        }
                    }
                    if exists|r: int| 0 <= r < row + 1 && holds(#[trigger] g[r][k], v) {
                        let r = choose|r: int| 0 <= r < row + 1 && holds(#[trigger] g[r][k], v);
                        if r < row {
                            assert(before[v]);
                        }
                    }
                }
            }
            row += 1;
        }
        proof {
            lemma_count_false_col(seen@, self@, col as int, n as int);
            lemma_count_false_bound(seen@, n as int);
        }
        tally_false(&seen)
    }

    /// Score square: the cost of all rows and columns; zero for a valid Latin square
    pub fn score_square(&self) -> (score: u32)
        requires
            self.wf(),
            2 * self.size * self.size <= u32::MAX,
        ensures
            score == grid_cost(self@),
    {
        let n = self.size;
        assert(n <= u32::MAX) by (nonlinear_arith)
            requires
                2 * n * n <= u32::MAX,
        ;
        let mut total: u32 = 0;
        let mut row: usize = 0;
        while row < n
            invariant
                self.wf(),
                n == self.size,
                2 * n * n <= u32::MAX,
                n <= u32::MAX,
                row <= n,
                total == rows_cost(self@, row as int),
            decreases n - row,
        {
            proof {
                lemma_cost_bound(self@, row as int + 1);
                assert((row + 1) * n <= 2 * n * n) by (nonlinear_arith)
                    requires
                        row < n,
                ;
            }
            total += self.check_row(row);
            row += 1;
        }
        let mut col: usize = 0;
        while col < n
            invariant
                self.wf(),
                n == self.size,
                2 * n * n <= u32::MAX,
                n <= u32::MAX,
                col <= n,
                total == rows_cost(self@, n as int) + cols_cost(self@, col as int),
            decreases n - col,
        {
            proof {
                lemma_cost_bound(self@, n as int);
                lemma_cost_bound(self@, col as int + 1);
                assert(n * n + (col + 1) * n <= 2 * n * n) by (nonlinear_arith)
                    requires
                        col < n,
                ;
            }
            total += self.check_col(col);
            col += 1;
        }
        total
    }
}

/// What becomes of a cell when a square is thinned out: a clue stays, and any
/// other cell is cleared where the number drawn for it lies below `numer`.
pub open spec fn thinned(item: SquareItem, draw: int, numer: int) -> SquareItem {
    if item is Frozen || draw >= numer {
        item
    } else {
        SquareItem::Empty
    }
}

/// The cell that stands for a plain value: nothing, a clue or a placed symbol.
pub open spec fn cell_of(value: Option<u32>, frozen: bool) -> SquareItem {
    match value {
        None => SquareItem::Empty,
        Some(v) => if frozen { SquareItem::Frozen(v) } else { SquareItem::Treatment(v) },
    }
}

/// Whether the plain values form an `n` by `n` grid of symbols in `0..n`.
pub open spec fn cells_fit(cells: Seq<Vec<Option<u32>>>) -> bool {
    let n = cells.len();
    &&& forall|r: int| 0 <= r < n ==> (#[trigger] cells[r])@.len() == n
    &&& forall|r: int, c: int| 0 <= r < n && 0 <= c < n && (#[trigger] cells[r]@[c]) is Some ==> cells[r]@[c]->0 < n
}

/// Decides what becomes of one cell, given the number drawn for it.
pub fn thin(item: SquareItem, draw: u32, proportion: &Ratio) -> (kept: SquareItem)
    ensures
        kept == thinned(item, draw as int, proportion.numer()),
{
    match item {
        SquareItem::Frozen(_) => item,
        _ => if draw < proportion.numerator() { SquareItem::Empty } else { item },
    }
}

impl SquareItem {
    /// The symbol that the cell holds, if any.
    pub fn symbol(self) -> (s: Option<u32>)
        ensures
            s == symbol_of(self),
    {
        match self {
            SquareItem::Empty => None,
            SquareItem::Frozen(x) => Some(x),
            SquareItem::Treatment(x) => Some(x),
        }
    }

    /// Whether two cells hold the same symbol, or are both empty.
    pub fn same_symbol(self, other: SquareItem) -> (same: bool)
        ensures
            same == (symbol_of(self) == symbol_of(other)),
    {
        match (self.symbol(), other.symbol()) {
            (None, None) => true,
            (Some(a), Some(b)) => a == b,
            _ => false,
        }
    }
}

impl Square {
    /// Exchanges two rows.
    pub fn swap_row(&mut self, row1: usize, row2: usize)
        requires
            old(self).wf(),
            row1 < old(self).size,
            row2 < old(self).size,
        ensures
            final(self).wf(),
            final(self).size == old(self).size,
            final(self)@ == old(self)@.update(row1 as int, old(self)@[row2 as int]).update(row2 as int, old(self)@[row1 as int]),
    {
        let n = self.size;
        let mut col: usize = 0;
        while col < n
            invariant
                self.wf(),
                n == self.size,
                n == old(self).size,
                old(self).wf(),
                row1 < n,
                row2 < n,
                col <= n,
                forall|r: int| 0 <= r < n && r != row1 && r != row2 ==> #[trigger] self@[r] == old(self)@[r],
                forall|c: int| 0 <= c < col ==> #[trigger] self@[row1 as int][c] == old(self)@[row2 as int][c],
                forall|c: int| 0 <= c < col ==> #[trigger] self@[row2 as int][c] == old(self)@[row1 as int][c],
                forall|c: int| col <= c < n ==> #[trigger] self@[row1 as int][c] == old(self)@[row1 as int][c],
                forall|c: int| col <= c < n ==> #[trigger] self@[row2 as int][c] == old(self)@[row2 as int][c],
            decreases n - col,
        {
            self.swap(row1, col, row2, col);
            col += 1;
        }
        proof {
            let goal = old(self)@.update(row1 as int, old(self)@[row2 as int]).update(row2 as int, old(self)@[row1 as int]);
            assert(self@[row1 as int] =~= goal[row1 as int]);
            assert(self@[row2 as int] =~= goal[row2 as int]);
            assert(self@ =~= goal);
        }
    }

    /// Exchanges two columns.
    pub fn swap_col(&mut self, col1: usize, col2: usize)
        requires
            old(self).wf(),
            col1 < old(self).size,
            col2 < old(self).size,
        ensures
            final(self).wf(),
            final(self).size == old(self).size,
            forall|r: int| 0 <= r < old(self).size ==> #[trigger] final(self)@[r]
                == old(self)@[r].update(col1 as int, old(self)@[r][col2 as int]).update(col2 as int, old(self)@[r][col1 as int]),
    {
        let n = self.size;
        let mut row: usize = 0;
        while row < n
            invariant
                self.wf(),
                n == self.size,
                n == old(self).size,
                old(self).wf(),
                col1 < n,
                col2 < n,
                row <= n,
                forall|r: int| row <= r < n ==> #[trigger] self@[r] == old(self)@[r],
                forall|r: int| 0 <= r < row ==> #[trigger] self@[r]
                    == old(self)@[r].update(col1 as int, old(self)@[r][col2 as int]).update(col2 as int, old(self)@[r][col1 as int]),
            decreases n - row,
        {
            let ghost before = self@;
            self.swap(row, col1, row, col2);
            proof {
                let r = row as int;
                assert(self@[r] =~= old(self)@[r].update(col1 as int, old(self)@[r][col2 as int]).update(col2 as int, old(self)@[r][col1 as int]));
            }
            row += 1;
        }
    }

    /// Whether no cell is empty.
    pub fn is_complete(&self) -> (complete: bool)
        requires
            self.wf(),
        ensures
            complete == grid_complete(self@),
    {
        let n = self.size;
        let mut row: usize = 0;
        while row < n
            invariant
                self.wf(),
                n == self.size,
                row <= n,
                forall|r: int, c: int| 0 <= r < row && 0 <= c < n ==> #[trigger] self@[r][c] != SquareItem::Empty,
            decreases n - row,
        {
            let mut col: usize = 0;
            while col < n
                invariant
                    self.wf(),
                    n == self.size,
                    row < n,
                    col <= n,
                    forall|r: int, c: int| 0 <= r < row && 0 <= c < n ==> #[trigger] self@[r][c] != SquareItem::Empty,
                    forall|c: int| 0 <= c < col ==> #[trigger] self@[row as int][c] != SquareItem::Empty,
                decreases n - col,
            {
                if self.get(row, col) == SquareItem::Empty {
                    return false;
                }
                col += 1;
            }
            row += 1;
        }
        true
    }

    /// Create a partial square from a complete square: every cell that is no
    /// clue is cleared with the probability `proportion`, each on its own draw.
    pub fn make_partial(&self, proportion: Ratio) -> (partial: Square)
        requires
            self.wf(),
        ensures
            partial.wf(),
            partial.size == self.size,
            forall|r: int, c: int| 0 <= r < self.size && 0 <= c < self.size ==> {
                ||| #[trigger] partial@[r][c] == self@[r][c]
                ||| (partial@[r][c] == SquareItem::Empty && !is_frozen(self@[r][c]))
            },
            proportion.numer() == 0 ==> partial@ == self@,
            proportion.numer() == proportion.denom() ==> forall|r: int, c: int|
                0 <= r < self.size && 0 <= c < self.size && !is_frozen(self@[r][c]) ==> #[trigger] partial@[r][c]
                    == SquareItem::Empty,
    {
        let n = self.size;
        let mut partial = self.clone();
        let denom = proportion.denominator();
        let mut row: usize = 0;
        while row < n
            invariant
                self.wf(),
                partial.wf(),
                n == self.size,
                n == partial.size,
                row <= n,
                proportion.wf(),
                denom == proportion.denom(),
                forall|r: int, c: int| 0 <= r < n && 0 <= c < n ==> {
                    ||| #[trigger] partial@[r][c] == self@[r][c]
                    ||| (partial@[r][c] == SquareItem::Empty && !is_frozen(self@[r][c]))
                },
                proportion.numer() == 0 ==> partial@ == self@,
                proportion.numer() == proportion.denom() ==> forall|r: int, c: int|
                    0 <= r < row && 0 <= c < n && !is_frozen(self@[r][c]) ==> #[trigger] partial@[r][c]
                        == SquareItem::Empty,
                forall|r: int, c: int| row <= r < n && 0 <= c < n ==> #[trigger] partial@[r][c] == self@[r][c],
            decreases n - row,
        {
            let mut col: usize = 0;
            while col < n
                invariant
                    self.wf(),
                    partial.wf(),
                    n == self.size,
                    n == partial.size,
                    row < n,
                    col <= n,
                    proportion.wf(),
                    denom == proportion.denom(),
                    forall|r: int, c: int| 0 <= r < n && 0 <= c < n ==> {
                        ||| #[trigger] partial@[r][c] == self@[r][c]
                        ||| (partial@[r][c] == SquareItem::Empty && !is_frozen(self@[r][c]))
                    },
                    proportion.numer() == 0 ==> partial@ == self@,
                    proportion.numer() == proportion.denom() ==> forall|r: int, c: int|
                        0 <= r < row && 0 <= c < n && !is_frozen(self@[r][c]) ==> #[trigger] partial@[r][c]
                            == SquareItem::Empty,
                    proportion.numer() == proportion.denom() ==> forall|c: int|
                        0 <= c < col && !is_frozen(self@[row as int][c]) ==> #[trigger] partial@[row as int][c]
                            == SquareItem::Empty,
                    forall|c: int| col <= c < n ==> #[trigger] partial@[row as int][c] == self@[row as int][c],
                    forall|r: int, c: int| row < r < n && 0 <= c < n ==> #[trigger] partial@[r][c] == self@[r][c],
                decreases n - col,
            {
                let draw = random_below(denom);
                let ghost before = partial@;
                let kept = thin(partial.get(row, col), draw, &proportion);
                partial.set(row, col, kept);
                proof {
                    lemma_put_lines(before, n as int, row as int, col as int, kept);
                    if proportion.numer() == 0 {
                        assert(before[row as int].update(col as int, kept) =~= before[row as int]);
                        assert(partial@ =~= before);
                    }
                }
                col += 1;
            }
            row += 1;
        }
        partial
    }

    /// Builds a square from plain values, `None` for an empty cell; the
    /// symbols become clues where `frozen` is set. Refuses values that are
    /// not square in shape or hold a symbol out of range.
    pub fn from_cells(cells: &Vec<Vec<Option<u32>>>, frozen: bool) -> (square: Option<Square>)
        ensures
            square is Some <==> cells_fit(cells@),
            square is Some ==> {
                &&& square->0.wf()
                &&& square->0.size == cells@.len()
                &&& forall|r: int, c: int| 0 <= r < cells@.len() && 0 <= c < cells@.len() ==> #[trigger] square->0@[r][c]
                    == cell_of(cells@[r]@[c], frozen)
            },
    {
        let n = cells.len();
        let mut square = Square::new(n);
        let mut row: usize = 0;
        while row < n
            invariant
                square.wf(),
                n == square.size,
                n == cells@.len(),
                row <= n,
                forall|r: int| 0 <= r < row ==> (#[trigger] cells@[r])@.len() == n,
                forall|r: int, c: int| 0 <= r < row && 0 <= c < n && (#[trigger] cells@[r]@[c]) is Some ==> cells@[r]@[c]->0 < n,
                forall|r: int, c: int| 0 <= r < row && 0 <= c < n ==> #[trigger] square@[r][c] == cell_of(cells@[r]@[c], frozen),
            decreases n - row,
        {
            if cells[row].len() != n {
                return None;
            }
            let mut col: usize = 0;
            while col < n
                invariant
                    square.wf(),
                    n == square.size,
                    n == cells@.len(),
                    row < n,
                    col <= n,
                    cells@[row as int]@.len() == n,
                    forall|r: int| 0 <= r < row ==> (#[trigger] cells@[r])@.len() == n,
                    forall|r: int, c: int| 0 <= r < row && 0 <= c < n && (#[trigger] cells@[r]@[c]) is Some ==> cells@[r]@[c]->0 < n,
                    forall|r: int, c: int| 0 <= r < row && 0 <= c < n ==> #[trigger] square@[r][c] == cell_of(cells@[r]@[c], frozen),
                    forall|c: int| 0 <= c < col && (#[trigger] cells@[row as int]@[c]) is Some ==> cells@[row as int]@[c]->0 < n,
                    forall|c: int| 0 <= c < col ==> #[trigger] square@[row as int][c] == cell_of(cells@[row as int]@[c], frozen),
                decreases n - col,
            {
                let ghost before = square@;
                match cells[row][col] {
                    None => {
                        square.set(row, col, SquareItem::Empty);
                    },
                    Some(v) => {
                        if v as usize >= n {
                            return None;
                        }
                        if frozen {
                            square.set(row, col, SquareItem::Frozen(v));
                        } else {
                            square.set(row, col, SquareItem::Treatment(v));
                        }
                    },
                }
                proof {
                    lemma_put_lines(before, n as int, row as int, col as int, square@[row as int][col as int]);
                }
                col += 1;
            }
            row += 1;
        }
        Some(square)
    }

    /// The square as plain values: `None` for an empty cell, else the symbol.
    pub fn to_cells(&self) -> (cells: Vec<Vec<Option<u32>>>)
        requires
            self.wf(),
        ensures
            cells@.len() == self.size,
            forall|r: int| 0 <= r < self.size ==> (#[trigger] cells@[r])@.len() == self.size,
            forall|r: int, c: int| 0 <= r < self.size && 0 <= c < self.size ==> #[trigger] cells@[r]@[c] == symbol_of(self@[r][c]),
    {
        let n = self.size;
        let mut cells: Vec<Vec<Option<u32>>> = Vec::new();
        let mut row: usize = 0;
        while row < n
            invariant
                self.wf(),
                n == self.size,
                row <= n,
                cells@.len() == row,
                forall|r: int| 0 <= r < row ==> (#[trigger] cells@[r])@.len() == n,
                forall|r: int, c: int| 0 <= r < row && 0 <= c < n ==> #[trigger] cells@[r]@[c] == symbol_of(self@[r][c]),
            decreases n - row,
        {
            let mut line: Vec<Option<u32>> = Vec::new();
            let mut col: usize = 0;
            while col < n
                invariant
                    self.wf(),
                    n == self.size,
                    row < n,
                    col <= n,
                    line@.len() == col,
                    forall|c: int| 0 <= c < col ==> #[trigger] line@[c] == symbol_of(self@[row as int][c]),
                decreases n - col,
            {
                line.push(self.get(row, col).symbol());
                col += 1;
            }
            cells.push(line);
            row += 1;
        }
        cells
    }
}

} // verus!
