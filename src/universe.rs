//! The toroidal grid and its generations.
use crate::cells::{bit_at, bit_count, bits_of, filled, put_bit};
use crate::parsers::pattern_atoms;
use crate::shape::{decoded, shift_fits, shifted, PatternError, Shape};
use bit_vec::BitVec;
use vstd::arithmetic::div_mod::{lemma_fundamental_div_mod_converse, lemma_small_mod};
use vstd::prelude::*;
use vstd::string::*;

verus! {

/// A grid of `height` rows of `width` cells whose edges wrap around, stored
/// row by row: the cell at `row` and `column` is bit `row * width + column`.
pub struct Universe {
    width: u32,
    height: u32,
    cells: BitVec<u32>,
}

/// The index of the cell a seed coordinate `(x, y)` lands on: `x` wraps
/// around the width and picks the column, `y` wraps around the height and
/// picks the row.
pub open spec fn seed_index(p: (u32, u32), w: int, h: int) -> int {
    (p.1 as int % h) * w + (p.0 as int % w)
}

/// `cells` with every cell that a coordinate of `list` lands on made alive.
pub open spec fn seeded(cells: Seq<bool>, list: Seq<(u32, u32)>, w: int, h: int) -> Seq<bool> {
    Seq::new(
        cells.len(),
        |i: int| cells[i] || exists|k: int| 0 <= k < list.len() && seed_index(list[k], w, h) == i,
    )
}

/// 1 when the neighbor at offset `(dr, dc)` from `(row, col)` is alive, where
/// an offset of `h - 1` rows (or `w - 1` columns) is one step back once
/// wrapped. The offset `(0, 0)` is the cell itself and never counts.
pub open spec fn neighbor_at(
    cells: Seq<bool>,
    w: int,
    h: int,
    row: int,
    col: int,
    dr: int,
    dc: int,
) -> nat {
    if dr == 0 && dc == 0 {
        0
    } else if cells[((row + dr) % h) * w + (col + dc) % w] {
        1
    } else {
        0
    }
}

/// The living neighbors in the row at offset `dr`: column offsets `w - 1`,
/// `0` and `1`.
pub open spec fn row_neighbors(cells: Seq<bool>, w: int, h: int, row: int, col: int, dr: int) -> nat {
    neighbor_at(cells, w, h, row, col, dr, w - 1) + neighbor_at(cells, w, h, row, col, dr, 0)
        + neighbor_at(cells, w, h, row, col, dr, 1)
}

/// The living neighbors of `(row, col)`: row offsets `h - 1`, `0` and `1`,
/// each with its three column offsets.
pub open spec fn live_neighbors(cells: Seq<bool>, w: int, h: int, row: int, col: int) -> nat {
    row_neighbors(cells, w, h, row, col, h - 1) + row_neighbors(cells, w, h, row, col, 0)
        + row_neighbors(cells, w, h, row, col, 1)
}

/// The rules of Life: a living cell survives with two or three living
/// neighbors, a dead one comes alive with exactly three.
pub open spec fn next_alive(alive: bool, neighbors: nat) -> bool {
    if alive {
        neighbors == 2 || neighbors == 3
    } else {
        neighbors == 3
    }
}

/// The generation after `cells` on a grid `w` wide and `h` high.
pub open spec fn next_generation(cells: Seq<bool>, w: int, h: int) -> Seq<bool> {
    Seq::new(
        cells.len(),
        |i: int| next_alive(cells[i], live_neighbors(cells, w, h, i / w, i % w)),
    )
}

/// The cells that pattern text `s` makes alive once moved by `(x, y)`, or why
/// it cannot be placed.
pub open spec fn placed(s: Seq<char>, x: u32, y: u32) -> Result<Seq<(u32, u32)>, PatternError> {
    match decoded(s) {
        Ok(cells) => if shift_fits(cells, (x, y)) {
            Ok(shifted(cells, (x, y)))
        } else {
            Err(PatternError::TooLarge)
        },
        Err(e) => Err(e),
    }
}

/// How a cell is drawn: a filled square when alive, a space when dead.
pub open spec fn cell_char(alive: bool) -> char {
    if alive {
        '\u{25fc}'
    } else {
        ' '
    }
}

/// The drawing of `cells`, one character each, with a line break after each
/// run of `w - 1` cells; `carriage` cells of the current run are already
/// drawn.
pub open spec fn rendered(cells: Seq<bool>, w: int, carriage: int) -> Seq<char>
    decreases cells.len(),
{
    if cells.len() == 0 {
        Seq::empty()
    } else if carriage + 1 == w - 1 {
        seq![cell_char(cells[0]), '\n'] + rendered(cells.drop_first(), w, 0)
    } else {
        seq![cell_char(cells[0])] + rendered(cells.drop_first(), w, carriage + 1)
    }
}

proof fn lemma_index_in_grid(row: int, col: int, w: int, h: int)
    requires
        0 <= row < h,
        0 <= col < w,
    ensures
        0 <= row * w <= row * w + col < w * h,
{
    assert(0 <= row * w <= row * w + col < w * h) by (nonlinear_arith)
        requires
            0 <= row < h,
            0 <= col < w,
    ;
}

impl Universe {
    /// The width: the number of cells in a row.
    pub closed spec fn width_spec(&self) -> u32 {
        self.width
    }

    /// The height: the number of rows.
    pub closed spec fn height_spec(&self) -> u32 {
        self.height
    }

    /// The cells, row after row; `true` is alive.
    pub closed spec fn cells_spec(&self) -> Seq<bool> {
        bits_of(self.cells)
    }

    /// There is one cell for each row and column.
    pub open spec fn wf(&self) -> bool {
        self.cells_spec().len() == self.width_spec() * self.height_spec()
            && self.width_spec() * self.height_spec() <= usize::MAX
    }

    /// The number of cells in a row.
    pub fn width(&self) -> (r: u32)
        ensures
            r == self.width_spec(),
    {
        self.width
    }

    /// The number of rows.
    pub fn height(&self) -> (r: u32)
        ensures
            r == self.height_spec(),
    {
        self.height
    }

    /// The cells, packed one bit each, row after row.
    pub fn get_cells(&self) -> (r: &BitVec<u32>)
        ensures
            bits_of(*r) == self.cells_spec(),
    {
        &self.cells
    }

    /// Makes alive every cell that a coordinate `(x, y)` of `cells_alive`
    /// lands on once `x` is wrapped around the width and `y` around the
    /// height; the other cells keep their state.
    pub fn set_cells(&mut self, cells_alive: Vec<(u32, u32)>)
        requires
            old(self).wf(),
        ensures
            final(self).wf(),
            final(self).width_spec() == old(self).width_spec(),
            final(self).height_spec() == old(self).height_spec(),
            final(self).cells_spec() == seeded(
                old(self).cells_spec(),
                cells_alive@,
                old(self).width_spec() as int,
                old(self).height_spec() as int,
            ),
    {
        let ghost before = self.cells_spec();
        let ghost list = cells_alive@;
        let ghost w = self.width as int;
        let ghost h = self.height as int;
        if self.width == 0 || self.height == 0 {
            assert(w * h == 0) by (nonlinear_arith)
                requires
                    w == 0 || h == 0,
            ;
            assert(seeded(before, list, w, h) =~= before);
            return;
        }
        let mut j: usize = 0;
        while j < cells_alive.len()
            invariant
                self.wf(),
                self.width == w,
                self.height == h,
                w > 0 && h > 0,
                list == cells_alive@,
                j <= list.len(),
                self.cells_spec().len() == before.len(),
                forall|i: int| 0 <= i < before.len() ==> #[trigger] self.cells_spec()[i] == (before[i]
                    || exists|k: int| 0 <= k < j && seed_index(list[k], w, h) == i),
            decreases list.len() - j,
        {
            let (x, y) = cells_alive[j];
            let column = x % self.width;
            let row = y % self.height;
            proof {
                lemma_index_in_grid(row as int, column as int, w, h);
            }
            let idx = self.get_index(row, column);
            let ghost prev = self.cells_spec();
            put_bit(&mut self.cells, idx, true);
            j = j + 1;
            assert forall|i: int| 0 <= i < before.len() implies #[trigger] self.cells_spec()[i] == (
            before[i] || exists|k: int| 0 <= k < j && seed_index(list[k], w, h) == i) by {
                if i == idx {
                    assert(seed_index(list[j - 1], w, h) == i);
                } else {
                    if exists|k: int| 0 <= k < j && seed_index(list[k], w, h) == i {
                        let k = choose|k: int| 0 <= k < j && seed_index(list[k], w, h) == i;
                        assert(k != j - 1);
                    }
                }
            }
        }
        assert(self.cells_spec() =~= seeded(before, list, w, h));
    }

    /// A grid of `height` rows and `width` columns, every cell dead.
    pub fn new(height: u32, width: u32) -> (r: Universe)
        requires
            width * height <= usize::MAX,
        ensures
            r.wf(),
            r.width_spec() == width,
            r.height_spec() == height,
            r.cells_spec() == Seq::new((width * height) as nat, |_i: int| false),
    {
        let cells = filled(width as usize * height as usize, false);
        Universe { height, width, cells }
    }

    /// Sets the width and clears the grid: every cell is dead afterwards.
    pub fn set_width(&mut self, width: u32)
        requires
            width * old(self).height_spec() <= usize::MAX,
        ensures
            final(self).wf(),
            final(self).width_spec() == width,
            final(self).height_spec() == old(self).height_spec(),
            final(self).cells_spec() == Seq::new(
                (width * old(self).height_spec()) as nat,
                |_i: int| false,
            ),
    {
        self.width = width;
        self.cells = filled(width as usize * self.height as usize, false);
    }

    /// Sets the height and clears the grid: every cell is dead afterwards.
    pub fn set_height(&mut self, height: u32)
        requires
            old(self).width_spec() * height <= usize::MAX,
        ensures
            final(self).wf(),
            final(self).width_spec() == old(self).width_spec(),
            final(self).height_spec() == height,
            final(self).cells_spec() == Seq::new(
                (old(self).width_spec() * height) as nat,
                |_i: int| false,
            ),
    {
        self.height = height;
        self.cells = filled(self.width as usize * height as usize, false);
    }

    /// 1 when the neighbor at offset `(dr, dc)` of `(row, column)` is alive.
    fn neighbor_alive(&self, row: u32, column: u32, dr: u32, dc: u32) -> (r: u8)
        requires
            self.wf(),
            row < self.height,
            column < self.width,
            dr <= self.height,
            dc <= self.width,
        ensures
            r as nat == neighbor_at(
                self.cells_spec(),
                self.width as int,
                self.height as int,
                row as int,
                column as int,
                dr as int,
                dc as int,
            ),
    {
        if dr == 0 && dc == 0 {
            return 0;
        }
        let neighbor_row = ((row as u64 + dr as u64) % self.height as u64) as u32;
        let neighbor_col = ((column as u64 + dc as u64) % self.width as u64) as u32;
        let idx = self.get_index(neighbor_row, neighbor_col);
        if bit_at(&self.cells, idx).unwrap() {
            1
        } else {
            0
        }
    }

    /// The living neighbors of `(row, column)` in the row at offset `dr`.
    fn row_neighbor_count(&self, row: u32, column: u32, dr: u32) -> (r: u8)
        requires
            self.wf(),
            row < self.height,
            column < self.width,
            dr <= self.height,
        ensures
            r as nat == row_neighbors(
                self.cells_spec(),
                self.width as int,
                self.height as int,
                row as int,
                column as int,
                dr as int,
            ),
            r <= 3,
    {
        self.neighbor_alive(row, column, dr, self.width - 1) + self.neighbor_alive(row, column, dr, 0)
            + self.neighbor_alive(row, column, dr, 1)
    }

    /// The living neighbors of `(row, column)` on the torus.
    fn live_neighbor_count(&self, row: u32, column: u32) -> (r: u8)
        requires
            self.wf(),
            row < self.height,
            column < self.width,
        ensures
            r as nat == live_neighbors(
                self.cells_spec(),
                self.width as int,
                self.height as int,
                row as int,
                column as int,
            ),
    {
        self.row_neighbor_count(row, column, self.height - 1) + self.row_neighbor_count(row, column, 0)
            + self.row_neighbor_count(row, column, 1)
    }

    /// Advances the grid by one generation under the rules of Life; every cell
    /// is decided from the generation before.
    pub fn tick(&mut self)
        requires
            old(self).wf(),
        ensures
            final(self).wf(),
            final(self).width_spec() == old(self).width_spec(),
            final(self).height_spec() == old(self).height_spec(),
            final(self).cells_spec() == next_generation(
                old(self).cells_spec(),
                old(self).width_spec() as int,
                old(self).height_spec() as int,
            ),
    {
        let ghost w = self.width as int;
        let ghost h = self.height as int;
        let ghost target = next_generation(self.cells_spec(), w, h);
        let n = bit_count(&self.cells);
        let mut next = filled(n, false);
        let mut row: u32 = 0;
        while row < self.height
            invariant
                self.wf(),
                w == self.width,
                h == self.height,
                n == self.cells_spec().len(),
                target == next_generation(self.cells_spec(), w, h),
                row <= h,
                bits_of(next).len() == n,
                forall|i: int| 0 <= i < row * w ==> #[trigger] bits_of(next)[i] == target[i],
            decreases h - row,
        {
            let mut col: u32 = 0;
            while col < self.width
                invariant
                    self.wf(),
                    w == self.width,
                    h == self.height,
                    n == self.cells_spec().len(),
                    target == next_generation(self.cells_spec(), w, h),
                    row < h,
                    col <= w,
                    bits_of(next).len() == n,
                    forall|i: int| 0 <= i < row * w + col ==> #[trigger] bits_of(next)[i] == target[i],
                decreases w - col,
            {
                let idx = self.get_index(row, col);
                let cell = bit_at(&self.cells, idx).unwrap();
                let live_neighbor_count = self.live_neighbor_count(row, col);
                let next_cell = if cell {
                    live_neighbor_count == 2 || live_neighbor_count == 3
                } else {
                    live_neighbor_count == 3
                };
                proof {
                    lemma_fundamental_div_mod_converse(idx as int, w, row as int, col as int);
                }
                put_bit(&mut next, idx, next_cell);
                col = col + 1;
            }
            assert((row + 1) * w == row * w + w) by (nonlinear_arith);
            row = row + 1;
        }
        proof {
            assert(h * w == w * h) by (nonlinear_arith);
        }
        assert(bits_of(next) =~= target);
        self.cells = next;
    }

    /// Decodes `rle_string`, moves its cells by `(x, y)` and makes them alive
    /// as `set_cells` does. A pattern that cannot be decoded or placed leaves
    /// the grid as it was and is reported.
    pub fn set_rle_shape(&mut self, rle_string: &str, x: u32, y: u32) -> (r: Result<(), PatternError>)
        requires
            old(self).wf(),
        ensures
            final(self).wf(),
            final(self).width_spec() == old(self).width_spec(),
            final(self).height_spec() == old(self).height_spec(),
            r is Ok <==> placed(rle_string@, x, y) is Ok,
            r is Ok ==> final(self).cells_spec() == seeded(
                old(self).cells_spec(),
                placed(rle_string@, x, y)->Ok_0,
                old(self).width_spec() as int,
                old(self).height_spec() as int,
            ),
            r is Err ==> r->Err_0 == placed(rle_string@, x, y)->Err_0
                && final(self).cells_spec() == old(self).cells_spec(),
    {
        let mut shape = match Shape::from_rle_string(rle_string) {
            Ok(shape) => shape,
            Err(e) => {
                return Err(e);
            },
        };
        if !shape.can_shift((x, y)) {
            return Err(PatternError::TooLarge);
        }
        shape.shift((x, y));
        self.set_cells(shape.alive_cells);
        Ok(())
    }

    /// Draws the grid as text, cell after cell in row-major order, breaking the
    /// line after every `width - 1` cells.
    pub fn render(&self) -> (r: String)
        requires
            self.wf(),
        ensures
            r@ == rendered(self.cells_spec(), self.width_spec() as int, 0),
    {
        let ghost cells = self.cells_spec();
        let ghost w = self.width as int;
        let n = bit_count(&self.cells);
        proof {
            reveal_strlit("");
        }
        let mut out = String::from_str("");
        let mut carriage: usize = 0;
        let mut i: usize = 0;
        assert(cells.skip(0) =~= cells);
        assert(out@ + rendered(cells, w, 0) =~= rendered(cells, w, 0));
        while i < n
            invariant
                self.wf(),
                cells == self.cells_spec(),
                w == self.width,
                n == cells.len(),
                i <= n,
                carriage <= i,
                out@ + rendered(cells.skip(i as int), w, carriage as int) == rendered(cells, w, 0),
            decreases n - i,
        {
            assert(w > 0) by (nonlinear_arith)
                requires
                    n == w * self.height_spec(),
                    n > 0,
                    w >= 0,
            ;
            let cell = bit_at(&self.cells, i).unwrap();
            let ghost rest = cells.skip(i as int);
            assert(rest.drop_first() =~= cells.skip(i + 1));
            let ghost tail = rendered(cells.skip(i + 1), w, if carriage + 1 == w - 1 { 0 } else { carriage + 1 });
            if cell {
                proof {
                    reveal_strlit("\u{25fc}");
                }
                out.append("\u{25fc}");
            } else {
                proof {
                    reveal_strlit(" ");
                }
                out.append(" ");
            }
            carriage = carriage + 1;
            if carriage == (self.width - 1) as usize {
                proof {
                    reveal_strlit("\n");
                }
                assert(seq![cell_char(rest[0]), '\n'] + tail =~= seq![cell_char(rest[0])] + ("\n"@ + tail));
                out.append("\n");
                carriage = 0;
            }
            i = i + 1;
        }
        assert(cells.skip(n as int) =~= Seq::<bool>::empty());
        out
    }

    fn get_index(&self, row: u32, column: u32) -> (r: usize)
        requires
            self.wf(),
            row < self.height,
            column < self.width,
        ensures
            r == row * self.width + column,
            r < self.cells_spec().len(),
    {
        proof {
            lemma_index_in_grid(row as int, column as int, self.width as int, self.height as int);
        }
        row as usize * self.width as usize + column as usize
    }
}

/// A generation is decided by the one before alone: the same cells on the
/// same grid always advance to the same cells.
pub proof fn lemma_tick_deterministic(a: Seq<bool>, b: Seq<bool>, w: int, h: int)
    requires
        a == b,
    ensures
        next_generation(a, w, h) == next_generation(b, w, h),
{
}

/// On an `n` by `n` grid the rows wrap: the cell in the last row of a column
/// is the neighbor one row back of the cell in the first row, so a living one
/// there counts toward that cell's neighbors.
pub proof fn lemma_wrap_rows(cells: Seq<bool>, n: int, col: int)
    requires
        n >= 2,
        0 <= col < n,
        cells.len() == n * n,
        cells[(n - 1) * n + col],
    ensures
        neighbor_at(cells, n, n, 0, col, n - 1, 0) == 1,
        live_neighbors(cells, n, n, 0, col) >= 1,
{
    lemma_small_mod((n - 1) as nat, n as nat);
    lemma_small_mod(col as nat, n as nat);
    assert((0 + (n - 1)) % n == n - 1);
    assert((col + 0) % n == col);
}

/// On an `n` by `n` grid the columns wrap: the cell in the last column of a
/// row is the neighbor one column back of the cell in the first column, so a
/// living one there counts toward that cell's neighbors.
pub proof fn lemma_wrap_columns(cells: Seq<bool>, n: int, row: int)
    requires
        n >= 2,
        0 <= row < n,
        cells.len() == n * n,
        cells[row * n + (n - 1)],
    ensures
        neighbor_at(cells, n, n, row, 0, 0, n - 1) == 1,
        live_neighbors(cells, n, n, row, 0) >= 1,
{
    lemma_small_mod((n - 1) as nat, n as nat);
    lemma_small_mod(row as nat, n as nat);
    assert((row + 0) % n == row);
    assert((0 + (n - 1)) % n == n - 1);
}

/// Text that does not follow the pattern grammar is rejected as malformed,
/// wherever it is to be placed, and so seeds nothing.
pub proof fn lemma_malformed_not_placed(s: Seq<char>, x: u32, y: u32)
    requires
        pattern_atoms(s) is Err,
    ensures
        placed(s, x, y) == Err::<Seq<(u32, u32)>, PatternError>(
            PatternError::Malformed(pattern_atoms(s)->Err_0),
        ),
{
}

} // verus!
