//! The engine schematic: a rectangular grid of digits, symbols and blanks.
//!
//! A part number is a maximal horizontal run of digit cells; its window is
//! the run's position and width. The first answer sums the part numbers
//! that touch a symbol; the second sums, over every `*` cell touching
//! exactly two part numbers, the product of those two numbers.

use vstd::prelude::*;

verus! {

/// One grid cell.
#[derive(Clone, Copy, Debug, PartialEq, Eq, Structural)]
pub enum Cell {
    Empty,
    Symbol(char),
    Digit(u8),
}

/// The position and width of a horizontal run of cells.
#[derive(Clone, Copy, Debug, PartialEq, Eq, Structural)]
pub struct Window {
    pub x: i32,
    pub y: i32,
    pub width: i32,
}

/// Whether `(x, y)` touches the window `(wx, wy, wwidth)`: beside it on the
/// same row, or anywhere along it one row above or below, corners included.
pub open spec fn adjacent(wx: int, wy: int, wwidth: int, x: int, y: int) -> bool {
    if y == wy {
        x == wx - 1 || x == wx + wwidth
    } else if y == wy - 1 || y == wy + 1 {
        wx - 1 <= x <= wx + wwidth
    } else {
        false
    }
}

impl Window {
    /// Coordinates that stay within `i32` arithmetic.
    pub open spec fn wf(self) -> bool {
        0 <= self.x && 0 <= self.y < i32::MAX && 1 <= self.width && self.x + self.width
            <= i32::MAX
    }

    /// Whether `(x, y)` touches this window.
    pub fn is_neighbour(&self, x: i32, y: i32) -> (r: bool)
        requires
            self.wf(),
        ensures
            r == adjacent(self.x as int, self.y as int, self.width as int, x as int, y as int),
    {
        if y == self.y {
            x == self.x - 1 || x == self.x + self.width
        } else if y == self.y - 1 || y == self.y + 1 {
            x >= self.x - 1 && x <= self.x + self.width
        } else {
            false
        }
    }
}

/// The grid, stored row-major.
#[derive(Debug)]
pub struct Grid {
    pub cells: Vec<Cell>,
    pub width: i32,
    pub height: i32,
}

impl Grid {
    /// A well-formed grid: the cell store matches the dimensions and every
    /// index, and every coordinate plus one, fits in `i32` arithmetic.
    pub open spec fn wf(self) -> bool {
        0 <= self.width < i32::MAX && 0 <= self.height < i32::MAX && self.cells@.len()
            == self.width * self.height && self.width * self.height <= i32::MAX
    }

    /// Whether `(x, y)` lies on the grid.
    pub open spec fn in_bounds(self, x: int, y: int) -> bool {
        0 <= x < self.width && 0 <= y < self.height
    }

    /// The cell at `(x, y)`.
    pub open spec fn cell(self, x: int, y: int) -> Cell {
        self.cells@[y * self.width + x]
    }

    /// Whether `(x, y)` holds a digit.
    pub open spec fn is_digit(self, x: int, y: int) -> bool {
        self.in_bounds(x, y) && self.cell(x, y) is Digit
    }

    /// Whether `(x, y)` holds a symbol.
    pub open spec fn is_symbol(self, x: int, y: int) -> bool {
        self.in_bounds(x, y) && self.cell(x, y) is Symbol
    }

    /// The cell at `(x, y)`, or nothing off the grid.
    pub fn get(&self, x: i32, y: i32) -> (r: Option<Cell>)
        requires
            self.wf(),
        ensures
            r is Some <==> self.in_bounds(x as int, y as int),
            (r matches Some(c) ==> c == self.cell(x as int, y as int)),
    {
        if x >= self.width || y >= self.height || x < 0 || y < 0 {
            return None;
        }
        proof {
            assert(y * self.width + x < self.width * self.height && 0 <= y * self.width + x)
                by (nonlinear_arith)
                requires
                    0 <= x < self.width,
                    0 <= y < self.height,
            ;
        }
        let i: i32 = y * self.width + x;
        Some(self.cells[i as usize])
    }
}

/// The numeric value of the digit at `(x, y)`, and 0 off a digit cell.
pub open spec fn digit_val(g: Grid, x: int, y: int) -> int {
    match g.cell(x, y) {
        Cell::Digit(d) => d as int,
        _ => 0,
    }
}

/// The length of the digit run beginning at `(x, y)`.
pub open spec fn run_len(g: Grid, x: int, y: int) -> int
    decreases g.width - x,
{
    if !g.is_digit(x, y) {
        0
    } else {
        1 + run_len(g, x + 1, y)
    }
}

/// Whether `(x, y)` is the leftmost cell of a digit run.
pub open spec fn start_of_run(g: Grid, x: int, y: int) -> bool {
    g.is_digit(x, y) && !g.is_digit(x - 1, y)
}

/// The decimal value of the first `w` digits of the run at `(x, y)`.
pub open spec fn run_value(g: Grid, x: int, y: int, w: int) -> int
    decreases w,
{
    if w <= 0 {
        0
    } else {
        10 * run_value(g, x, y, w - 1) + digit_val(g, x + w - 1, y)
    }
}

/// The part number spelled by the whole run at `(x, y)`.
pub open spec fn run_value_full(g: Grid, x: int, y: int) -> int {
    run_value(g, x, y, run_len(g, x, y))
}

proof fn lemma_run_value_nonneg(g: Grid, x: int, y: int, w: int)
    ensures
        run_value(g, x, y, w) >= 0,
    decreases w,
{
    if w > 0 {
        lemma_run_value_nonneg(g, x, y, w - 1);
    }
}

proof fn lemma_run_value_mono(g: Grid, x: int, y: int, w1: int, w2: int)
    requires
        w1 <= w2,
    ensures
        run_value(g, x, y, w1) <= run_value(g, x, y, w2),
    decreases w2 - w1,
{
    if w1 < w2 {
        lemma_run_value_mono(g, x, y, w1, w2 - 1);
        lemma_run_value_nonneg(g, x, y, w2 - 1);
    }
}

proof fn lemma_run_len_determined(g: Grid, x: int, y: int, w: int)
    requires
        w >= 0,
        forall|j: int| 0 <= j < w ==> #[trigger] g.is_digit(x + j, y),
        !g.is_digit(x + w, y),
    ensures
        run_len(g, x, y) == w,
    decreases w,
{
    if w == 0 {
    } else {
        assert(g.is_digit(x + 0, y));
        assert(g.is_digit(x, y));
        assert forall|j: int| 0 <= j < w - 1 implies #[trigger] g.is_digit(x + 1 + j, y) by {
            assert(g.is_digit(x + (j + 1), y));
        }
        lemma_run_len_determined(g, x + 1, y, w - 1);
    }
}

proof fn lemma_run_len_nonneg(g: Grid, x: int, y: int)
    ensures
        run_len(g, x, y) >= 0,
    decreases g.width - x,
{
    if g.is_digit(x, y) {
        lemma_run_len_nonneg(g, x + 1, y);
    }
}

proof fn lemma_run_len_lower(g: Grid, x: int, y: int, w: int)
    requires
        w >= 0,
        forall|j: int| 0 <= j < w ==> #[trigger] g.is_digit(x + j, y),
    ensures
        run_len(g, x, y) >= w,
    decreases w,
{
    if w > 0 {
        assert(g.is_digit(x + 0, y));
        assert(g.is_digit(x, y));
        assert forall|j: int| 0 <= j < w - 1 implies #[trigger] g.is_digit(x + 1 + j, y) by {
            assert(g.is_digit(x + (j + 1), y));
        }
        lemma_run_len_lower(g, x + 1, y, w - 1);
    } else {
        lemma_run_len_nonneg(g, x, y);
    }
}

impl Grid {
    /// Reads the digit run that starts at `(x, y)`: its width and its value.
    fn run_at(&self, x: i32, y: i32) -> (r: (i32, u32))
        requires
            self.wf(),
            self.is_digit(x as int, y as int),
            run_value_full(*self, x as int, y as int) <= u32::MAX,
        ensures
            r.0 == run_len(*self, x as int, y as int),
            1 <= r.0 <= self.width - x,
            r.1 == run_value_full(*self, x as int, y as int),
    {
        let mut w: i32 = 0;
        let mut value: u32 = 0;
        loop
            invariant
                self.wf(),
                self.is_digit(x as int, y as int),
                run_value_full(*self, x as int, y as int) <= u32::MAX,
                0 <= x < self.width,
                0 <= w <= self.width - x,
                forall|j: int| 0 <= j < w ==> #[trigger] self.is_digit(x + j, y as int),
                value == run_value(*self, x as int, y as int, w as int),
            ensures
                w == run_len(*self, x as int, y as int),
                1 <= w <= self.width - x,
                value == run_value_full(*self, x as int, y as int),
            decreases self.width - x - w,
        {
            let probe = self.get(x + w, y);
            match probe {
                Some(Cell::Digit(d)) => {
                    proof {
                        assert(self.is_digit(x + w, y as int));
                        lemma_run_len_lower(*self, x as int, y as int, w + 1);
                        lemma_run_value_mono(
                            *self,
                            x as int,
                            y as int,
                            w + 1,
                            run_len(*self, x as int, y as int),
                        );
                        lemma_run_value_nonneg(*self, x as int, y as int, w as int);
                    }
                    value = value * 10 + (d as u32);
                    w = w + 1;
                }
                _ => {
                    proof {
                        assert(!self.is_digit(x + w, y as int));
                        lemma_run_len_determined(*self, x as int, y as int, w as int);
                    }
                    break;
                }
            }
        }
        (w, value)
    }
}

/// Whether the coordinate list `s` holds the position `(sx, sy)`.
pub open spec fn contains_pos(s: Seq<(i32, i32)>, sx: int, sy: int) -> bool {
    exists|k: int| 0 <= k < s.len() && (#[trigger] s[k]).0 == sx && s[k].1 == sy
}

proof fn lemma_contains_pos_push(s: Seq<(i32, i32)>, e: (i32, i32), sx: int, sy: int)
    requires
        contains_pos(s, sx, sy) || (e.0 == sx && e.1 == sy),
    ensures
        contains_pos(s.push(e), sx, sy),
{
    if contains_pos(s, sx, sy) {
        let k = choose|k: int| 0 <= k < s.len() && (#[trigger] s[k]).0 == sx && s[k].1 == sy;
        assert(s.push(e)[k] == s[k]);
    } else {
        assert(s.push(e)[s.len() as int] == e);
    }
}

proof fn lemma_contains_pos_push_inv(s: Seq<(i32, i32)>, e: (i32, i32), sx: int, sy: int)
    requires
        contains_pos(s.push(e), sx, sy),
    ensures
        contains_pos(s, sx, sy) || (e.0 == sx && e.1 == sy),
{
    let k = choose|k: int|
        0 <= k < s.push(e).len() && (#[trigger] s.push(e)[k]).0 == sx && s.push(e)[k].1 == sy;
    if k < s.len() {
        assert(s[k].0 == sx && s[k].1 == sy);
    }
}

impl Grid {
    /// The positions of the symbol cells that touch `window`.
    pub fn neighbours(&self, window: &Window) -> (result: Vec<(i32, i32)>)
        requires
            self.wf(),
            window.wf(),
            window.x + window.width < i32::MAX,
        ensures
            forall|sx: int, sy: int|
                #[trigger] contains_pos(result@, sx, sy) <==> (self.is_symbol(sx, sy) && adjacent(
                    window.x as int,
                    window.y as int,
                    window.width as int,
                    sx,
                    sy,
                )),
    {
        let wx: i32 = window.x;
        let wy: i32 = window.y;
        let ww: i32 = window.width;
        let mut result: Vec<(i32, i32)> = Vec::new();
        // row above
        if wy > 0 {
            let ghost ry: int = wy - 1;
            let mut xx: i32 = wx - 1;
            while xx < wx + ww + 1
                invariant
                    self.wf(),
                    0 <= wx && 0 <= wy && 1 <= ww && wx + ww < i32::MAX,
                    wy > 0,
                    ry == wy - 1,
                    wx - 1 <= xx <= wx + ww + 1,
                    forall|sx: int, sy: int|
                        #[trigger] contains_pos(result@, sx, sy) ==> (self.is_symbol(sx, sy)
                            && adjacent(wx as int, wy as int, ww as int, sx, sy)),
                    forall|sx: int|
                        wx - 1 <= sx < xx && #[trigger] self.is_symbol(sx, ry) ==> contains_pos(
                            result@,
                            sx,
                            ry,
                        ),
                decreases wx + ww + 1 - xx,
            {
                if let Some(Cell::Symbol(_)) = self.get(xx, wy - 1) {
                    let pos: (i32, i32) = (xx, wy - 1);
                    let ghost before = result@;
                    result.push(pos);
                    proof {
                        assert forall|sx: int, sy: int|
                            #[trigger] contains_pos(result@, sx, sy) implies (self.is_symbol(
                            sx,
                            sy,
                        ) && adjacent(wx as int, wy as int, ww as int, sx, sy)) by {
                            lemma_contains_pos_push_inv(before, pos, sx, sy);
                        }
                        assert forall|sx: int|
                            wx - 1 <= sx < xx + 1 && #[trigger] self.is_symbol(sx, ry) implies
                            contains_pos(result@, sx, ry) by {
                            lemma_contains_pos_push(before, pos, sx, ry);
                        }
                    }
                }
                xx = xx + 1;
            }
        }
        let ghost after_top = result@;
        // row below
        if wy + 1 < self.height {
            let ghost ry: int = wy + 1;
            let mut xx: i32 = wx - 1;
            while xx < wx + ww + 1
                invariant
                    self.wf(),
                    0 <= wx && 0 <= wy && 1 <= ww && wx + ww < i32::MAX,
                    wy + 1 < self.height,
                    ry == wy + 1,
                    wx - 1 <= xx <= wx + ww + 1,
                    forall|sx: int, sy: int|
                        #[trigger] contains_pos(after_top, sx, sy) ==> contains_pos(
                            result@,
                            sx,
                            sy,
                        ),
                    forall|sx: int, sy: int|
                        #[trigger] contains_pos(result@, sx, sy) ==> (self.is_symbol(sx, sy)
                            && adjacent(wx as int, wy as int, ww as int, sx, sy)),
                    forall|sx: int|
                        wx - 1 <= sx < xx && #[trigger] self.is_symbol(sx, ry) ==> contains_pos(
                            result@,
                            sx,
                            ry,
                        ),
                decreases wx + ww + 1 - xx,
            {
                if let Some(Cell::Symbol(_)) = self.get(xx, wy + 1) {
                    let pos: (i32, i32) = (xx, wy + 1);
                    let ghost before = result@;
                    result.push(pos);
                    proof {
                        assert forall|sx: int, sy: int|
                            #[trigger] contains_pos(result@, sx, sy) implies (self.is_symbol(
                            sx,
                            sy,
                        ) && adjacent(wx as int, wy as int, ww as int, sx, sy)) by {
                            lemma_contains_pos_push_inv(before, pos, sx, sy);
                        }
                        assert forall|sx: int, sy: int|
                            #[trigger] contains_pos(before, sx, sy) implies contains_pos(
                            result@,
                            sx,
                            sy,
                        ) by {
                            lemma_contains_pos_push(before, pos, sx, sy);
                        }
                        assert forall|sx: int|
                            wx - 1 <= sx < xx + 1 && #[trigger] self.is_symbol(sx, ry) implies
                            contains_pos(result@, sx, ry) by {
                            lemma_contains_pos_push(before, pos, sx, ry);
                        }
                    }
                }
                xx = xx + 1;
            }
        }
        let ghost after_bottom = result@;
        // left cell
        if wx > 0 {
            if let Some(Cell::Symbol(_)) = self.get(wx - 1, wy) {
                let pos: (i32, i32) = (wx - 1, wy);
                let ghost before = result@;
                result.push(pos);
                proof {
                    assert forall|sx: int, sy: int|
                        #[trigger] contains_pos(result@, sx, sy) implies (self.is_symbol(sx, sy)
                        && adjacent(wx as int, wy as int, ww as int, sx, sy)) by {
                        lemma_contains_pos_push_inv(before, pos, sx, sy);
                    }
                    assert forall|sx: int, sy: int|
                        #[trigger] contains_pos(before, sx, sy) implies contains_pos(
                        result@,
                        sx,
                        sy,
                    ) by {
                        lemma_contains_pos_push(before, pos, sx, sy);
                    }
                    lemma_contains_pos_push(before, pos, wx - 1, wy as int);
                }
            }
        }
        let ghost after_left = result@;
        // right cell
        if wx + ww < self.width {
            if let Some(Cell::Symbol(_)) = self.get(wx + ww, wy) {
                let pos: (i32, i32) = (wx + ww, wy);
                let ghost before = result@;
                result.push(pos);
                proof {
                    assert forall|sx: int, sy: int|
                        #[trigger] contains_pos(result@, sx, sy) implies (self.is_symbol(sx, sy)
                        && adjacent(wx as int, wy as int, ww as int, sx, sy)) by {
                        lemma_contains_pos_push_inv(before, pos, sx, sy);
                    }
                    assert forall|sx: int, sy: int|
                        #[trigger] contains_pos(before, sx, sy) implies contains_pos(
                        result@,
                        sx,
                        sy,
                    ) by {
                        lemma_contains_pos_push(before, pos, sx, sy);
                    }
                    lemma_contains_pos_push(before, pos, wx + ww, wy as int);
                }
            }
        }
        proof {
            assert forall|sx: int, sy: int|
                (self.is_symbol(sx, sy) && adjacent(
                    wx as int,
                    wy as int,
                    ww as int,
                    sx,
                    sy,
                )) implies #[trigger] contains_pos(result@, sx, sy) by {
                if sy == wy - 1 || sy == wy + 1 {
                    assert(contains_pos(result@, sx, sy));
                } else {
                    assert(sy == wy);
                    assert(sx == wx - 1 || sx == wx + ww);
                }
            }
        }
        result
    }
}

/// Whether the run at `(x, y)` touches some symbol cell.
pub open spec fn run_has_symbol(g: Grid, x: int, y: int) -> bool {
    exists|sx: int, sy: int|
        #[trigger] g.is_symbol(sx, sy) && adjacent(x, y, run_len(g, x, y), sx, sy)
}

/// The sum of the part numbers whose runs start at column `x` or later of
/// row `y` and touch a symbol.
pub open spec fn row_part_sum(g: Grid, y: int, x: int) -> int
    decreases g.width - x,
{
    if x < 0 || x >= g.width {
        0
    } else {
        (if start_of_run(g, x, y) && run_has_symbol(g, x, y) {
            run_value_full(g, x, y)
        } else {
            0
        }) + row_part_sum(g, y, x + 1)
    }
}

/// The sum of the part numbers that touch a symbol, over rows `y` and later.
pub open spec fn rows_part_sum(g: Grid, y: int) -> int
    decreases g.height - y,
{
    if y < 0 || y >= g.height {
        0
    } else {
        row_part_sum(g, y, 0) + rows_part_sum(g, y + 1)
    }
}

/// The sum of all part numbers that touch a symbol.
pub open spec fn part_number_sum(g: Grid) -> int {
    rows_part_sum(g, 0)
}

proof fn lemma_row_part_sum_nonneg(g: Grid, y: int, x: int)
    ensures
        row_part_sum(g, y, x) >= 0,
    decreases g.width - x,
{
    if 0 <= x < g.width {
        lemma_row_part_sum_nonneg(g, y, x + 1);
        lemma_run_value_nonneg(g, x, y, run_len(g, x, y));
    }
}

proof fn lemma_rows_part_sum_nonneg(g: Grid, y: int)
    ensures
        rows_part_sum(g, y) >= 0,
    decreases g.height - y,
{
    if 0 <= y < g.height {
        lemma_rows_part_sum_nonneg(g, y + 1);
        lemma_row_part_sum_nonneg(g, y, 0);
    }
}

/// The sum of the part numbers adjacent to at least one symbol.
pub fn first_star(grid: &Grid) -> (r: u32)
    requires
        grid.wf(),
        forall|x: int, y: int|
            #[trigger] start_of_run(*grid, x, y) ==> run_value_full(*grid, x, y) <= u32::MAX,
        part_number_sum(*grid) <= u32::MAX,
    ensures
        r == part_number_sum(*grid),
{
    let mut acc: u32 = 0;
    let mut y: i32 = 0;
    while y < grid.height
        invariant
            grid.wf(),
            forall|x2: int, y2: int|
                #[trigger] start_of_run(*grid, x2, y2) ==> run_value_full(*grid, x2, y2)
                    <= u32::MAX,
            part_number_sum(*grid) <= u32::MAX,
            0 <= y <= grid.height,
            acc + rows_part_sum(*grid, y as int) == part_number_sum(*grid),
            acc <= u32::MAX,
        decreases grid.height - y,
    {
        let mut x: i32 = 0;
        while x < grid.width
            invariant
                grid.wf(),
                forall|x2: int, y2: int|
                    #[trigger] start_of_run(*grid, x2, y2) ==> run_value_full(*grid, x2, y2)
                        <= u32::MAX,
                part_number_sum(*grid) <= u32::MAX,
                0 <= y < grid.height,
                0 <= x <= grid.width,
                acc + row_part_sum(*grid, y as int, x as int) + rows_part_sum(*grid, y + 1)
                    == part_number_sum(*grid),
                acc <= u32::MAX,
            decreases grid.width - x,
        {
            let is_start = match self_digit(grid, x, y) {
                true => x == 0 || !self_digit(grid, x - 1, y),
                false => false,
            };
            proof {
                lemma_row_part_sum_nonneg(*grid, y as int, x + 1);
                lemma_rows_part_sum_nonneg(*grid, y + 1);
            }
            if is_start {
                assert(start_of_run(*grid, x as int, y as int));
                let (w, value) = grid.run_at(x, y);
                let window = Window { x, y, width: w };
                let found = grid.neighbours(&window);
                if found.len() > 0 {
                    proof {
                        let p = found@[0];
                        assert(contains_pos(found@, p.0 as int, p.1 as int));
                        assert(run_has_symbol(*grid, x as int, y as int));
                        lemma_run_value_nonneg(*grid, x as int, y as int, run_len(*grid, x as int, y as int));
                    }
                    acc = acc + value;
                } else {
                    proof {
                        if run_has_symbol(*grid, x as int, y as int) {
                            let (sx, sy) = choose|sx: int, sy: int|
                                #[trigger] grid.is_symbol(sx, sy) && adjacent(
                                    x as int,
                                    y as int,
                                    run_len(*grid, x as int, y as int),
                                    sx,
                                    sy,
                                );
                            assert(contains_pos(found@, sx, sy));
                            assert(false);
                        }
                    }
                }
            } else {
                assert(!start_of_run(*grid, x as int, y as int));
            }
            x = x + 1;
        }
        y = y + 1;
    }
    acc
}

/// Whether `(x, y)` holds a digit, decided on the running grid.
fn self_digit(grid: &Grid, x: i32, y: i32) -> (r: bool)
    requires
        grid.wf(),
    ensures
        r == grid.is_digit(x as int, y as int),
{
    match grid.get(x, y) {
        Some(Cell::Digit(_)) => true,
        _ => false,
    }
}

impl Grid {
    /// Every part number of the grid with its window, in row-major scan
    /// order.
    pub fn numbers(&self) -> (result: Vec<(u32, Window)>)
        requires
            self.wf(),
            forall|x: int, y: int|
                #[trigger] start_of_run(*self, x, y) ==> run_value_full(*self, x, y) <= u32::MAX,
        ensures
            forall|k: int|
                0 <= k < result@.len() ==> {
                    let e = #[trigger] result@[k];
                    &&& e.1.wf()
                    &&& start_of_run(*self, e.1.x as int, e.1.y as int)
                    &&& e.1.width == run_len(*self, e.1.x as int, e.1.y as int)
                    &&& e.1.x + e.1.width <= self.width
                    &&& e.0 == run_value_full(*self, e.1.x as int, e.1.y as int)
                },
            forall|x: int, y: int|
                #[trigger] start_of_run(*self, x, y) ==> exists|k: int|
                    0 <= k < result@.len() && (#[trigger] result@[k]).1.x == x && result@[k].1.y
                        == y,
            forall|k1: int, k2: int|
                0 <= k1 < k2 < result@.len() ==> ((#[trigger] result@[k1]).1.y
                    < (#[trigger] result@[k2]).1.y || (result@[k1].1.y == result@[k2].1.y
                    && result@[k1].1.x < result@[k2].1.x)),
    {
        let mut result: Vec<(u32, Window)> = Vec::new();
        let mut y: i32 = 0;
        while y < self.height
            invariant
                self.wf(),
                forall|x2: int, y2: int|
                    #[trigger] start_of_run(*self, x2, y2) ==> run_value_full(*self, x2, y2)
                        <= u32::MAX,
                0 <= y <= self.height,
                forall|k: int|
                    0 <= k < result@.len() ==> {
                        let e = #[trigger] result@[k];
                        &&& e.1.wf()
                        &&& start_of_run(*self, e.1.x as int, e.1.y as int)
                        &&& e.1.width == run_len(*self, e.1.x as int, e.1.y as int)
                        &&& e.1.x + e.1.width <= self.width
                        &&& e.0 == run_value_full(*self, e.1.x as int, e.1.y as int)
                        &&& e.1.y < y
                    },
                forall|x2: int, y2: int|
                    #[trigger] start_of_run(*self, x2, y2) && y2 < y ==> exists|k: int|
                        0 <= k < result@.len() && (#[trigger] result@[k]).1.x == x2
                            && result@[k].1.y == y2,
                forall|k1: int, k2: int|
                    0 <= k1 < k2 < result@.len() ==> ((#[trigger] result@[k1]).1.y
                        < (#[trigger] result@[k2]).1.y || (result@[k1].1.y == result@[k2].1.y
                        && result@[k1].1.x < result@[k2].1.x)),
            decreases self.height - y,
        {
            let mut x: i32 = 0;
            while x < self.width
                invariant
                    self.wf(),
                    forall|x2: int, y2: int|
                        #[trigger] start_of_run(*self, x2, y2) ==> run_value_full(*self, x2, y2)
                            <= u32::MAX,
                    0 <= y < self.height,
                    0 <= x <= self.width,
                    forall|k: int|
                        0 <= k < result@.len() ==> {
                            let e = #[trigger] result@[k];
                            &&& e.1.wf()
                            &&& start_of_run(*self, e.1.x as int, e.1.y as int)
                            &&& e.1.width == run_len(*self, e.1.x as int, e.1.y as int)
                            &&& e.1.x + e.1.width <= self.width
                            &&& e.0 == run_value_full(*self, e.1.x as int, e.1.y as int)
                            &&& (e.1.y < y || (e.1.y == y && e.1.x < x))
                        },
                    forall|x2: int, y2: int|
                        #[trigger] start_of_run(*self, x2, y2) && (y2 < y || (y2 == y && x2 < x))
                            ==> exists|k: int|
                            0 <= k < result@.len() && (#[trigger] result@[k]).1.x == x2
                                && result@[k].1.y == y2,
                    forall|k1: int, k2: int|
                        0 <= k1 < k2 < result@.len() ==> ((#[trigger] result@[k1]).1.y
                            < (#[trigger] result@[k2]).1.y || (result@[k1].1.y == result@[k2].1.y
                            && result@[k1].1.x < result@[k2].1.x)),
                decreases self.width - x,
            {
                let is_start = match self_digit(self, x, y) {
                    true => x == 0 || !self_digit(self, x - 1, y),
                    false => false,
                };
                if is_start {
                    assert(start_of_run(*self, x as int, y as int));
                    let (w, value) = self.run_at(x, y);
                    let entry: (u32, Window) = (value, Window { x, y, width: w });
                    let ghost before = result@;
                    result.push(entry);
                    proof {
                        assert(result@[before.len() as int] == entry);
                        assert forall|k: int| 0 <= k < before.len() implies result@[k]
                            == before[k] by {}
                        assert forall|x2: int, y2: int|
                            #[trigger] start_of_run(*self, x2, y2) && (y2 < y || (y2 == y && x2 < x
                                + 1)) implies exists|k: int|
                            0 <= k < result@.len() && (#[trigger] result@[k]).1.x == x2
                                && result@[k].1.y == y2 by {
                            if y2 < y || (y2 == y && x2 < x) {
                                let k = choose|k: int|
                                    0 <= k < before.len() && (#[trigger] before[k]).1.x == x2
                                        && before[k].1.y == y2;
                                assert(result@[k].1.x == x2 && result@[k].1.y == y2);
                            } else {
                                assert(result@[before.len() as int].1.x == x2);
                            }
                        }
                    }
                } else {
                    assert(!start_of_run(*self, x as int, y as int));
                }
                x = x + 1;
            }
            y = y + 1;
        }
        result
    }

    /// Every symbol cell with its character, in row-major scan order.
    pub fn symbols(&self) -> (result: Vec<(char, (i32, i32))>)
        requires
            self.wf(),
        ensures
            forall|k: int|
                0 <= k < result@.len() ==> {
                    let e = #[trigger] result@[k];
                    &&& self.is_symbol(e.1.0 as int, e.1.1 as int)
                    &&& self.cell(e.1.0 as int, e.1.1 as int) == Cell::Symbol(e.0)
                },
            forall|x: int, y: int|
                #[trigger] self.is_symbol(x, y) ==> exists|k: int|
                    0 <= k < result@.len() && (#[trigger] result@[k]).1.0 == x && result@[k].1.1
                        == y,
            forall|k1: int, k2: int|
                0 <= k1 < k2 < result@.len() ==> ((#[trigger] result@[k1]).1.1
                    < (#[trigger] result@[k2]).1.1 || (result@[k1].1.1 == result@[k2].1.1
                    && result@[k1].1.0 < result@[k2].1.0)),
    {
        let mut result: Vec<(char, (i32, i32))> = Vec::new();
        let mut y: i32 = 0;
        while y < self.height
            invariant
                self.wf(),
                0 <= y <= self.height,
                forall|k: int|
                    0 <= k < result@.len() ==> {
                        let e = #[trigger] result@[k];
                        &&& self.is_symbol(e.1.0 as int, e.1.1 as int)
                        &&& self.cell(e.1.0 as int, e.1.1 as int) == Cell::Symbol(e.0)
                        &&& e.1.1 < y
                    },
                forall|x2: int, y2: int|
                    #[trigger] self.is_symbol(x2, y2) && y2 < y ==> exists|k: int|
                        0 <= k < result@.len() && (#[trigger] result@[k]).1.0 == x2
                            && result@[k].1.1 == y2,
                forall|k1: int, k2: int|
                    0 <= k1 < k2 < result@.len() ==> ((#[trigger] result@[k1]).1.1
                        < (#[trigger] result@[k2]).1.1 || (result@[k1].1.1 == result@[k2].1.1
                        && result@[k1].1.0 < result@[k2].1.0)),
            decreases self.height - y,
        {
            let mut x: i32 = 0;
            while x < self.width
                invariant
                    self.wf(),
                    0 <= y < self.height,
                    0 <= x <= self.width,
                    forall|k: int|
                        0 <= k < result@.len() ==> {
                            let e = #[trigger] result@[k];
                            &&& self.is_symbol(e.1.0 as int, e.1.1 as int)
                            &&& self.cell(e.1.0 as int, e.1.1 as int) == Cell::Symbol(e.0)
                            &&& (e.1.1 < y || (e.1.1 == y && e.1.0 < x))
                        },
                    forall|x2: int, y2: int|
                        #[trigger] self.is_symbol(x2, y2) && (y2 < y || (y2 == y && x2 < x)) ==>
                            exists|k: int|
                            0 <= k < result@.len() && (#[trigger] result@[k]).1.0 == x2
                                && result@[k].1.1 == y2,
                    forall|k1: int, k2: int|
                        0 <= k1 < k2 < result@.len() ==> ((#[trigger] result@[k1]).1.1
                            < (#[trigger] result@[k2]).1.1 || (result@[k1].1.1 == result@[k2].1.1
                            && result@[k1].1.0 < result@[k2].1.0)),
                decreases self.width - x,
            {
                if let Some(Cell::Symbol(c)) = self.get(x, y) {
                    let entry: (char, (i32, i32)) = (c, (x, y));
                    let ghost before = result@;
                    result.push(entry);
                    proof {
                        assert(result@[before.len() as int] == entry);
                        assert forall|k: int| 0 <= k < before.len() implies result@[k]
                            == before[k] by {}
                        assert forall|x2: int, y2: int|
                            #[trigger] self.is_symbol(x2, y2) && (y2 < y || (y2 == y && x2 < x
                                + 1)) implies exists|k: int|
                            0 <= k < result@.len() && (#[trigger] result@[k]).1.0 == x2
                                && result@[k].1.1 == y2 by {
                            if y2 < y || (y2 == y && x2 < x) {
                                let k = choose|k: int|
                                    0 <= k < before.len() && (#[trigger] before[k]).1.0 == x2
                                        && before[k].1.1 == y2;
                                assert(result@[k].1.0 == x2 && result@[k].1.1 == y2);
                            } else {
                                assert(result@[before.len() as int].1.0 == x2);
                            }
                        }
                    }
                }
                x = x + 1;
            }
            y = y + 1;
        }
        result
    }
}

/// The part numbers that touch `(sx, sy)`, among runs starting at column
/// `rx` or later of row `ry`, in scan order.
pub open spec fn gear_vals_row(g: Grid, sx: int, sy: int, ry: int, rx: int) -> Seq<int>
    decreases g.width - rx,
{
    if rx < 0 || rx >= g.width {
        Seq::empty()
    } else {
        (if start_of_run(g, rx, ry) && adjacent(rx, ry, run_len(g, rx, ry), sx, sy) {
            seq![run_value_full(g, rx, ry)]
        } else {
            Seq::empty()
        }) + gear_vals_row(g, sx, sy, ry, rx + 1)
    }
}

/// The part numbers that touch `(sx, sy)`, among runs on row `ry` or later.
pub open spec fn gear_vals_rows(g: Grid, sx: int, sy: int, ry: int) -> Seq<int>
    decreases g.height - ry,
{
    if ry < 0 || ry >= g.height {
        Seq::empty()
    } else {
        gear_vals_row(g, sx, sy, ry, 0) + gear_vals_rows(g, sx, sy, ry + 1)
    }
}

/// All part numbers that touch `(sx, sy)`, in scan order.
pub open spec fn gear_vals(g: Grid, sx: int, sy: int) -> Seq<int> {
    gear_vals_rows(g, sx, sy, 0)
}

/// The gear ratio at `(sx, sy)`: the product of the two part numbers
/// touching a `*` cell that touches exactly two, and 0 anywhere else.
pub open spec fn gear_value(g: Grid, sx: int, sy: int) -> int {
    if g.in_bounds(sx, sy) && g.cell(sx, sy) == (Cell::Symbol('*')) && gear_vals(
        g,
        sx,
        sy,
    ).len() == 2 {
        gear_vals(g, sx, sy)[0] * gear_vals(g, sx, sy)[1]
    } else {
        0
    }
}

/// The sum of the gear ratios at column `x` or later of row `y`.
pub open spec fn gear_row_sum(g: Grid, y: int, x: int) -> int
    decreases g.width - x,
{
    if x < 0 || x >= g.width {
        0
    } else {
        gear_value(g, x, y) + gear_row_sum(g, y, x + 1)
    }
}

/// The sum of the gear ratios on row `y` and later.
pub open spec fn gear_rows_sum(g: Grid, y: int) -> int
    decreases g.height - y,
{
    if y < 0 || y >= g.height {
        0
    } else {
        gear_row_sum(g, y, 0) + gear_rows_sum(g, y + 1)
    }
}

/// The sum of all gear ratios.
pub open spec fn gear_ratio_sum(g: Grid) -> int {
    gear_rows_sum(g, 0)
}

proof fn lemma_gear_vals_row_nonneg(g: Grid, sx: int, sy: int, ry: int, rx: int)
    ensures
        forall|k: int|
            0 <= k < gear_vals_row(g, sx, sy, ry, rx).len() ==> #[trigger] gear_vals_row(
                g,
                sx,
                sy,
                ry,
                rx,
            )[k] >= 0,
    decreases g.width - rx,
{
    if 0 <= rx < g.width {
        lemma_gear_vals_row_nonneg(g, sx, sy, ry, rx + 1);
        lemma_run_value_nonneg(g, rx, ry, run_len(g, rx, ry));
        let head = if start_of_run(g, rx, ry) && adjacent(rx, ry, run_len(g, rx, ry), sx, sy) {
            seq![run_value_full(g, rx, ry)]
        } else {
            Seq::<int>::empty()
        };
        let tail = gear_vals_row(g, sx, sy, ry, rx + 1);
        assert forall|k: int|
            0 <= k < gear_vals_row(g, sx, sy, ry, rx).len() implies #[trigger] gear_vals_row(
            g,
            sx,
            sy,
            ry,
            rx,
        )[k] >= 0 by {
            if k < head.len() {
                assert((head + tail)[k] == head[k]);
            } else {
                assert((head + tail)[k] == tail[k - head.len()]);
            }
        }
    }
}

proof fn lemma_gear_vals_rows_nonneg(g: Grid, sx: int, sy: int, ry: int)
    ensures
        forall|k: int|
            0 <= k < gear_vals_rows(g, sx, sy, ry).len() ==> #[trigger] gear_vals_rows(
                g,
                sx,
                sy,
                ry,
            )[k] >= 0,
    decreases g.height - ry,
{
    if 0 <= ry < g.height {
        lemma_gear_vals_rows_nonneg(g, sx, sy, ry + 1);
        lemma_gear_vals_row_nonneg(g, sx, sy, ry, 0);
        let head = gear_vals_row(g, sx, sy, ry, 0);
        let tail = gear_vals_rows(g, sx, sy, ry + 1);
        assert forall|k: int|
            0 <= k < gear_vals_rows(g, sx, sy, ry).len() implies #[trigger] gear_vals_rows(
            g,
            sx,
            sy,
            ry,
        )[k] >= 0 by {
            if k < head.len() {
                assert((head + tail)[k] == head[k]);
            } else {
                assert((head + tail)[k] == tail[k - head.len()]);
            }
        }
    }
}

proof fn lemma_gear_value_nonneg(g: Grid, sx: int, sy: int)
    ensures
        gear_value(g, sx, sy) >= 0,
{
    if g.in_bounds(sx, sy) && g.cell(sx, sy) == (Cell::Symbol('*')) && gear_vals(
        g,
        sx,
        sy,
    ).len() == 2 {
        lemma_gear_vals_rows_nonneg(g, sx, sy, 0);
        let a = gear_vals(g, sx, sy)[0];
        let b = gear_vals(g, sx, sy)[1];
        assert(a * b >= 0) by (nonlinear_arith)
            requires
                a >= 0,
                b >= 0,
        ;
    }
}

proof fn lemma_gear_row_sum_nonneg(g: Grid, y: int, x: int)
    ensures
        gear_row_sum(g, y, x) >= 0,
    decreases g.width - x,
{
    if 0 <= x < g.width {
        lemma_gear_row_sum_nonneg(g, y, x + 1);
        lemma_gear_value_nonneg(g, x, y);
    }
}

proof fn lemma_gear_rows_sum_nonneg(g: Grid, y: int)
    ensures
        gear_rows_sum(g, y) >= 0,
    decreases g.height - y,
{
    if 0 <= y < g.height {
        lemma_gear_rows_sum_nonneg(g, y + 1);
        lemma_gear_row_sum_nonneg(g, y, 0);
    }
}

/// Computes the gear ratio at `(sx, sy)`: scans every run of the grid for
/// ones touching the cell, and multiplies the two values found when the
/// cell is a `*` touching exactly two runs.
fn gear_ratio_at(grid: &Grid, sx: i32, sy: i32) -> (r: u32)
    requires
        grid.wf(),
        grid.in_bounds(sx as int, sy as int),
        grid.cell(sx as int, sy as int) == (Cell::Symbol('*')),
        forall|x: int, y: int|
            #[trigger] start_of_run(*grid, x, y) ==> run_value_full(*grid, x, y) <= u32::MAX,
        gear_value(*grid, sx as int, sy as int) <= u32::MAX,
    ensures
        r == gear_value(*grid, sx as int, sy as int),
{
    let ghost full = gear_vals(*grid, sx as int, sy as int);
    let mut count: u32 = 0;
    let mut v0: u32 = 0;
    let mut v1: u32 = 0;
    let ghost mut sofar: Seq<int> = Seq::empty();
    let mut ry: i32 = 0;
    proof {
        assert(Seq::<int>::empty() + gear_vals_rows(*grid, sx as int, sy as int, 0) =~= full);
    }
    while ry < grid.height
        invariant
            grid.wf(),
            grid.in_bounds(sx as int, sy as int),
            forall|x2: int, y2: int|
                #[trigger] start_of_run(*grid, x2, y2) ==> run_value_full(*grid, x2, y2)
                    <= u32::MAX,
            full == gear_vals(*grid, sx as int, sy as int),
            0 <= ry <= grid.height,
            full == sofar + gear_vals_rows(*grid, sx as int, sy as int, ry as int),
            (count as int == sofar.len() && count <= 2) || (count == 3 && sofar.len() >= 3),
            sofar.len() >= 1 ==> v0 as int == sofar[0],
            sofar.len() >= 2 ==> v1 as int == sofar[1],
        decreases grid.height - ry,
    {
        let mut rx: i32 = 0;
        proof {
            assert(sofar + (gear_vals_row(*grid, sx as int, sy as int, ry as int, 0)
                + gear_vals_rows(*grid, sx as int, sy as int, ry + 1)) =~= (sofar + gear_vals_row(
                *grid,
                sx as int,
                sy as int,
                ry as int,
                0,
            )) + gear_vals_rows(*grid, sx as int, sy as int, ry + 1));
        }
        while rx < grid.width
            invariant
                grid.wf(),
                grid.in_bounds(sx as int, sy as int),
                forall|x2: int, y2: int|
                    #[trigger] start_of_run(*grid, x2, y2) ==> run_value_full(*grid, x2, y2)
                        <= u32::MAX,
                full == gear_vals(*grid, sx as int, sy as int),
                0 <= ry < grid.height,
                0 <= rx <= grid.width,
                full == (sofar + gear_vals_row(*grid, sx as int, sy as int, ry as int, rx as int))
                    + gear_vals_rows(*grid, sx as int, sy as int, ry + 1),
                (count as int == sofar.len() && count <= 2) || (count == 3 && sofar.len() >= 3),
                sofar.len() >= 1 ==> v0 as int == sofar[0],
                sofar.len() >= 2 ==> v1 as int == sofar[1],
            decreases grid.width - rx,
        {
            let is_start = match self_digit(grid, rx, ry) {
                true => rx == 0 || !self_digit(grid, rx - 1, ry),
                false => false,
            };
            if is_start {
                assert(start_of_run(*grid, rx as int, ry as int));
                let (w, value) = grid.run_at(rx, ry);
                let window = Window { x: rx, y: ry, width: w };
                if window.is_neighbour(sx, sy) {
                    proof {
                        let row_rest = gear_vals_row(
                            *grid,
                            sx as int,
                            sy as int,
                            ry as int,
                            rx + 1,
                        );
                        let rows_rest = gear_vals_rows(*grid, sx as int, sy as int, ry + 1);
                        assert(gear_vals_row(*grid, sx as int, sy as int, ry as int, rx as int)
                            == seq![value as int] + row_rest);
                        assert((sofar + (seq![value as int] + row_rest)) + rows_rest =~= ((sofar
                            + seq![value as int]) + row_rest) + rows_rest);
                        assert((sofar + seq![value as int])[sofar.len() as int] == value as int);
                    }
                    if count == 0 {
                        v0 = value;
                    } else if count == 1 {
                        v1 = value;
                    }
                    if count < 3 {
                        count = count + 1;
                    }
                    proof {
                        sofar = sofar + seq![value as int];
                    }
                } else {
                    proof {
                        assert(gear_vals_row(*grid, sx as int, sy as int, ry as int, rx as int)
                            == Seq::<int>::empty() + gear_vals_row(
                            *grid,
                            sx as int,
                            sy as int,
                            ry as int,
                            rx + 1,
                        ));
                        assert(Seq::<int>::empty() + gear_vals_row(
                            *grid,
                            sx as int,
                            sy as int,
                            ry as int,
                            rx + 1,
                        ) =~= gear_vals_row(*grid, sx as int, sy as int, ry as int, rx + 1));
                    }
                }
            } else {
                proof {
                    assert(!start_of_run(*grid, rx as int, ry as int));
                    assert(Seq::<int>::empty() + gear_vals_row(
                        *grid,
                        sx as int,
                        sy as int,
                        ry as int,
                        rx + 1,
                    ) =~= gear_vals_row(*grid, sx as int, sy as int, ry as int, rx + 1));
                }
            }
            rx = rx + 1;
        }
        proof {
            assert(gear_vals_row(*grid, sx as int, sy as int, ry as int, grid.width as int)
                =~= Seq::<int>::empty());
            assert(sofar + Seq::<int>::empty() =~= sofar);
        }
        ry = ry + 1;
    }
    proof {
        assert(gear_vals_rows(*grid, sx as int, sy as int, grid.height as int)
            =~= Seq::<int>::empty());
        assert(sofar + Seq::<int>::empty() =~= sofar);
        assert(sofar == full);
    }
    if count == 2 {
        assert(full.len() == 2);
        assert(gear_value(*grid, sx as int, sy as int) == full[0] * full[1]);
        v0 * v1
    } else {
        assert(full.len() != 2);
        0
    }
}

/// The sum, over every `*` cell touching exactly two part numbers, of the
/// product of those two numbers.
pub fn second_star(grid: &Grid) -> (r: u32)
    requires
        grid.wf(),
        forall|x: int, y: int|
            #[trigger] start_of_run(*grid, x, y) ==> run_value_full(*grid, x, y) <= u32::MAX,
        forall|sx: int, sy: int| #[trigger] gear_value(*grid, sx, sy) <= u32::MAX,
        gear_ratio_sum(*grid) <= u32::MAX,
    ensures
        r == gear_ratio_sum(*grid),
{
    let mut acc: u32 = 0;
    let mut y: i32 = 0;
    while y < grid.height
        invariant
            grid.wf(),
            forall|x2: int, y2: int|
                #[trigger] start_of_run(*grid, x2, y2) ==> run_value_full(*grid, x2, y2)
                    <= u32::MAX,
            forall|sx: int, sy: int| #[trigger] gear_value(*grid, sx, sy) <= u32::MAX,
            gear_ratio_sum(*grid) <= u32::MAX,
            0 <= y <= grid.height,
            acc + gear_rows_sum(*grid, y as int) == gear_ratio_sum(*grid),
            acc <= u32::MAX,
        decreases grid.height - y,
    {
        let mut x: i32 = 0;
        while x < grid.width
            invariant
                grid.wf(),
                forall|x2: int, y2: int|
                    #[trigger] start_of_run(*grid, x2, y2) ==> run_value_full(*grid, x2, y2)
                        <= u32::MAX,
                forall|sx: int, sy: int| #[trigger] gear_value(*grid, sx, sy) <= u32::MAX,
                gear_ratio_sum(*grid) <= u32::MAX,
                0 <= y < grid.height,
                0 <= x <= grid.width,
                acc + gear_row_sum(*grid, y as int, x as int) + gear_rows_sum(*grid, y + 1)
                    == gear_ratio_sum(*grid),
                acc <= u32::MAX,
            decreases grid.width - x,
        {
            proof {
                lemma_gear_row_sum_nonneg(*grid, y as int, x + 1);
                lemma_gear_rows_sum_nonneg(*grid, y + 1);
                lemma_gear_value_nonneg(*grid, x as int, y as int);
            }
            let is_star = match grid.get(x, y) {
                Some(Cell::Symbol(c)) => c == '*',
                _ => false,
            };
            if is_star {
                let ratio = gear_ratio_at(grid, x, y);
                acc = acc + ratio;
            } else {
                assert(gear_value(*grid, x as int, y as int) == 0);
            }
            x = x + 1;
        }
        y = y + 1;
    }
    acc
}

} // verus!
