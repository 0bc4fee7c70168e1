use vstd::prelude::*;
use vstd::string::StringExecFns;
use vstd::arithmetic::div_mod::{lemma_mod_add_multiples_vanish, lemma_mod_self_0, lemma_small_mod};
use crate::bits::{bit_at, bytes_for, mask_of, write_bit, lemma_byte_xor, lemma_byte_zero};

verus! {

/// Side of a drawn cell, in pixels.
pub const CELL_SIZE: usize = 5;

/// Why a universe could not be made.
#[derive(Debug, Clone, Copy, PartialEq, Eq, Structural)]
pub enum UniverseError {
    /// The width or the height was zero.
    InvalidDimension,
}

/// A toroidal grid of cells, one bit per cell, with a second bit grid that
/// marks the cells that flipped during the last generation step.
#[derive(Clone, Debug)]
pub struct Universe {
    width: usize,
    height: usize,
    cells: Vec<u8>,
    dirty_ring: Vec<u8>,
}

/// `x` brought into `0 .. n` on a ring of size `n`, for `-n <= x`.
#[verifier::opaque]
pub open spec fn wrap(x: int, n: int) -> int {
    (x + n) % n
}

/// The character that draws a cell in the text form.
pub open spec fn cell_char(alive: bool) -> char {
    if alive {
        '\u{25A0}'
    } else {
        '\u{25A1}'
    }
}

/// Whether a cell with the given state and number of live neighbours is
/// alive in the next generation (birth on 3, survival on 2 or 3).
pub open spec fn rule(alive: bool, neighbors: int) -> bool {
    if alive {
        neighbors == 2 || neighbors == 3
    } else {
        neighbors == 3
    }
}

impl Universe {
    /// Number of columns.
    pub closed spec fn spec_width(self) -> int {
        self.width as int
    }

    /// Number of rows.
    pub closed spec fn spec_height(self) -> int {
        self.height as int
    }

    /// The packed live bits.
    pub closed spec fn cell_bytes(self) -> Seq<u8> {
        self.cells@
    }

    /// The packed bits of the cells that flipped in the last step.
    pub closed spec fn dirty_bytes(self) -> Seq<u8> {
        self.dirty_ring@
    }

    /// Both dimensions are positive, their product fits in a `usize`, and
    /// each bit grid holds exactly enough bytes for all the cells.
    pub open spec fn wf(self) -> bool {
        &&& self.spec_width() > 0
        &&& self.spec_height() > 0
        &&& self.spec_width() * self.spec_height() <= usize::MAX
        &&& self.cell_bytes().len() == bytes_for(self.spec_width() * self.spec_height())
        &&& self.dirty_bytes().len() == bytes_for(self.spec_width() * self.spec_height())
    }

    pub open spec fn in_bounds(self, row: int, col: int) -> bool {
        0 <= row < self.spec_height() && 0 <= col < self.spec_width()
    }

    /// Position of a cell's bit in row-major order.
    pub open spec fn offset(self, row: int, col: int) -> int {
        row * self.spec_width() + col
    }

    pub open spec fn live(self, row: int, col: int) -> bool {
        bit_at(self.cell_bytes(), self.offset(row, col))
    }

    pub open spec fn changed(self, row: int, col: int) -> bool {
        bit_at(self.dirty_bytes(), self.offset(row, col))
    }

    pub open spec fn live_count(self, row: int, col: int) -> int {
        if self.live(row, col) {
            1
        } else {
            0
        }
    }

    /// Live cells among the eight around `(row, col)`, rows and columns
    /// wrapping around the edges.
    pub open spec fn neighbor_count(self, row: int, col: int) -> int {
        let h = self.spec_height();
        let w = self.spec_width();
        self.live_count(wrap(row - 1, h), wrap(col - 1, w)) + self.live_count(
            wrap(row - 1, h),
            wrap(col, w),
        ) + self.live_count(wrap(row - 1, h), wrap(col + 1, w)) + self.live_count(
            wrap(row, h),
            wrap(col - 1, w),
        ) + self.live_count(wrap(row, h), wrap(col + 1, w)) + self.live_count(
            wrap(row + 1, h),
            wrap(col - 1, w),
        ) + self.live_count(wrap(row + 1, h), wrap(col, w)) + self.live_count(
            wrap(row + 1, h),
            wrap(col + 1, w),
        )
    }

    /// Whether `(row, col)` is alive one generation after `self`.
    pub open spec fn next_live(self, row: int, col: int) -> bool {
        rule(self.live(row, col), self.neighbor_count(row, col))
    }

    /// Row `row` in the text form: one character per cell, then a newline.
    pub open spec fn row_text(self, row: int) -> Seq<char> {
        Seq::new(self.spec_width() as nat, |c: int| cell_char(self.live(row, c))).push('\n')
    }

    /// The first `n` rows in the text form.
    pub open spec fn text_rows(self, n: int) -> Seq<char>
        decreases n,
    {
        if n <= 0 {
            Seq::empty()
        } else {
            self.text_rows(n - 1) + self.row_text(n - 1)
        }
    }

    /// Whether a drawing pass draws `(row, col)`: every cell on a full pass,
    /// only the flipped ones on a pass after a step.
    pub open spec fn drawn(self, row: int, col: int, only_changed: bool) -> bool {
        !only_changed || self.changed(row, col)
    }

    /// What a drawing pass draws of the first `n` cells of row `row`, in
    /// column order: the cell and whether it is alive.
    pub open spec fn draw_row(self, row: int, n: int, only_changed: bool) -> Seq<(usize, usize, bool)>
        decreases n,
    {
        if n <= 0 {
            Seq::empty()
        } else if self.drawn(row, n - 1, only_changed) {
            self.draw_row(row, n - 1, only_changed).push(
                (row as usize, (n - 1) as usize, self.live(row, n - 1)),
            )
        } else {
            self.draw_row(row, n - 1, only_changed)
        }
    }

    /// What a drawing pass draws of the first `n` rows, in row-major order.
    pub open spec fn draw_rows(self, n: int, only_changed: bool) -> Seq<(usize, usize, bool)>
        decreases n,
    {
        if n <= 0 {
            Seq::empty()
        } else {
            self.draw_rows(n - 1, only_changed) + self.draw_row(n - 1, self.spec_width(), only_changed)
        }
    }

    pub open spec fn same_shape(self, other: Universe) -> bool {
        &&& other.wf()
        &&& other.spec_width() == self.spec_width()
        &&& other.spec_height() == self.spec_height()
    }

    /// `after` is `self` with the one cell `(row, col)` set to `alive`.
    pub open spec fn written(self, after: Universe, row: int, col: int, alive: bool) -> bool {
        &&& self.same_shape(after)
        &&& forall|r: int, c: int|
            self.in_bounds(r, c) ==> #[trigger] after.live(r, c) == if r == row && c == col {
                alive
            } else {
                self.live(r, c)
            }
        &&& forall|r: int, c: int|
            self.in_bounds(r, c) ==> #[trigger] after.changed(r, c) == self.changed(r, c)
    }

    /// `after` is the generation that follows `self`, and its changed bits
    /// mark the cells whose state differs between the two.
    pub open spec fn stepped(self, after: Universe) -> bool {
        &&& self.same_shape(after)
        &&& forall|r: int, c: int|
            self.in_bounds(r, c) ==> #[trigger] after.live(r, c) == self.next_live(r, c)
        &&& forall|r: int, c: int|
            self.in_bounds(r, c) ==> #[trigger] after.changed(r, c) == (self.live(r, c)
                != after.live(r, c))
    }
}

/// A cell's bit lies inside the grid, and in a byte of the bit grid.
proof fn lemma_offset_bound(w: int, h: int, row: int, col: int)
    requires
        0 <= row < h,
        0 <= col < w,
    ensures
        0 <= row * w + col < w * h,
        (row * w + col) / 8 < bytes_for(w * h),
{
    assert(0 <= row * w + col < w * h) by (nonlinear_arith)
        requires
            0 <= row < h,
            0 <= col < w,
    ;
}

/// Distinct cells have distinct bits.
proof fn lemma_offset_unique(w: int, r1: int, c1: int, r2: int, c2: int)
    requires
        0 <= r1,
        0 <= r2,
        0 <= c1 < w,
        0 <= c2 < w,
        r1 * w + c1 == r2 * w + c2,
    ensures
        r1 == r2,
        c1 == c2,
{
    assert((r1 + 1) * w == r1 * w + w) by (nonlinear_arith);
    assert((r2 + 1) * w == r2 * w + w) by (nonlinear_arith);
    if r1 < r2 {
        assert((r1 + 1) * w <= r2 * w) by (nonlinear_arith)
            requires
                r1 + 1 <= r2,
                0 <= w,
        ;
    } else if r2 < r1 {
        assert((r2 + 1) * w <= r1 * w) by (nonlinear_arith)
            requires
                r2 + 1 <= r1,
                0 <= w,
        ;
    }
}

/// One step back, none, or one step forward on a ring of size `n`.
pub proof fn lemma_wrap(x: int, n: int)
    requires
        0 <= x < n,
    ensures
        wrap(x - 1, n) == if x == 0 {
            n - 1
        } else {
            x - 1
        },
        wrap(x, n) == x,
        wrap(x + 1, n) == if x + 1 == n {
            0
        } else {
            x + 1
        },
{
    reveal(wrap);
    lemma_mod_add_multiples_vanish(x, n);
    lemma_small_mod(x as nat, n as nat);
    if x == 0 {
        lemma_small_mod((n - 1) as nat, n as nat);
    } else {
        lemma_mod_add_multiples_vanish(x - 1, n);
        lemma_small_mod((x - 1) as nat, n as nat);
    }
    if x + 1 == n {
        lemma_mod_add_multiples_vanish(n, n);
        lemma_mod_self_0(n);
    } else {
        lemma_mod_add_multiples_vanish(x + 1, n);
        lemma_small_mod((x + 1) as nat, n as nat);
    }
}

/// Columns and rows of cells that fit a viewport of the given size in
/// pixels.
pub fn grid_dimensions(viewport_width: usize, viewport_height: usize) -> (r: (usize, usize))
    ensures
        r.0 == viewport_width / CELL_SIZE,
        r.1 == viewport_height / CELL_SIZE,
{
    (viewport_width / CELL_SIZE, viewport_height / CELL_SIZE)
}

/// Relies on `rand::thread_rng` and `RngCore::fill_bytes`: the result holds
/// `n` bytes, each overwritten with random data.
/// `thread_rng` panics when the system's random source cannot seed it; that
/// depends on the machine, not on the argument.
#[verifier::external_body]
fn random_bytes(n: usize) -> (r: Vec<u8>)
    ensures
        r@.len() == n,
{
    let mut bytes = vec![0u8; n];
    rand::RngCore::fill_bytes(&mut rand::thread_rng(), bytes.as_mut_slice());
    bytes
}

impl Universe {
    /// An all-dead universe of `width` columns and `height` rows, or
    /// `InvalidDimension` when either is zero.
    pub fn new(width: usize, height: usize) -> (r: Result<Universe, UniverseError>)
        requires
            width * height <= usize::MAX,
        ensures
            r is Ok <==> width > 0 && height > 0,
            r is Err ==> r->Err_0 == UniverseError::InvalidDimension,
            r is Ok ==> {
                let u = r->Ok_0;
                &&& u.wf()
                &&& u.spec_width() == width
                &&& u.spec_height() == height
                &&& forall|row: int, col: int| u.in_bounds(row, col) ==> !#[trigger] u.live(row, col)
                &&& forall|row: int, col: int|
                    u.in_bounds(row, col) ==> !#[trigger] u.changed(row, col)
            },
    {
        if width == 0 || height == 0 {
            return Err(UniverseError::InvalidDimension);
        }
        let n = width * height;
        let len = n / 8 + if n % 8 == 0 {
            0
        } else {
            1
        };
        let u = Universe { width, height, cells: vec![0u8; len], dirty_ring: vec![0u8; len] };
        assert(u.cells@.len() == len && u.dirty_ring@.len() == len);
        assert(len == bytes_for(n as int));
        assert(forall|i: int| 0 <= i < len ==> u.cells@[i] == 0 && u.dirty_ring@[i] == 0);
        assert forall|row: int, col: int| u.in_bounds(row, col) implies !#[trigger] u.live(
            row,
            col,
        ) by {
            lemma_offset_bound(width as int, height as int, row, col);
            lemma_byte_zero((u.offset(row, col) % 8) as u8);
        }
        assert forall|row: int, col: int| u.in_bounds(row, col) implies !#[trigger] u.changed(
            row,
            col,
        ) by {
            lemma_offset_bound(width as int, height as int, row, col);
            lemma_byte_zero((u.offset(row, col) % 8) as u8);
        }
        Ok(u)
    }

    pub fn width(&self) -> (r: usize)
        ensures
            r == self.spec_width(),
    {
        self.width
    }

    pub fn height(&self) -> (r: usize)
        ensures
            r == self.spec_height(),
    {
        self.height
    }

    /// The byte that holds the bit of `(row, col)` and the mask of that bit.
    pub fn index(&self, row: usize, col: usize) -> (r: (usize, u8))
        requires
            self.wf(),
            self.in_bounds(row as int, col as int),
        ensures
            r.0 == self.offset(row as int, col as int) / 8,
            r.1 == mask_of(self.offset(row as int, col as int) % 8),
            r.0 < self.cell_bytes().len(),
    {
        proof {
            lemma_offset_bound(self.width as int, self.height as int, row as int, col as int);
        }
        let offset = row * self.width + col;
        (offset / 8, 1u8 << ((offset % 8) as u8))
    }

    pub fn is_cell_live(&self, row: usize, col: usize) -> (r: bool)
        requires
            self.wf(),
            self.in_bounds(row as int, col as int),
        ensures
            r == self.live(row as int, col as int),
    {
        let (index, mask) = self.index(row, col);
        self.cells[index] & mask != 0
    }

    pub fn is_dirty(&self, row: usize, col: usize) -> (r: bool)
        requires
            self.wf(),
            self.in_bounds(row as int, col as int),
        ensures
            r == self.changed(row as int, col as int),
    {
        let (index, mask) = self.index(row, col);
        self.dirty_ring[index] & mask != 0
    }

    /// Sets cell `(row, col)` to `alive`; no other cell changes.
    pub fn set_alive(&mut self, row: usize, col: usize, alive: bool)
        requires
            old(self).wf(),
            old(self).in_bounds(row as int, col as int),
        ensures
            old(self).written(*final(self), row as int, col as int, alive),
    {
        proof {
            lemma_offset_bound(self.width as int, self.height as int, row as int, col as int);
        }
        let offset = row * self.width + col;
        write_bit(&mut self.cells, offset, alive);
        assert forall|r: int, c: int| old(self).in_bounds(r, c) implies #[trigger] self.live(r, c)
            == if r == row && c == col {
            alive
        } else {
            old(self).live(r, c)
        } by {
            lemma_offset_bound(self.width as int, self.height as int, r, c);
            if self.offset(r, c) == offset {
                lemma_offset_unique(self.width as int, r, c, row as int, col as int);
            }
        }
    }

    /// Flips cell `(row, col)`.
    pub fn toggle_cell(&mut self, row: usize, col: usize)
        requires
            old(self).wf(),
            old(self).in_bounds(row as int, col as int),
        ensures
            old(self).written(
                *final(self),
                row as int,
                col as int,
                !old(self).live(row as int, col as int),
            ),
    {
        let alive = self.is_cell_live(row, col);
        self.set_alive(row, col, !alive);
    }

    /// Makes cell `(row, col)` dead.
    pub fn kill_cell(&mut self, row: usize, col: usize)
        requires
            old(self).wf(),
            old(self).in_bounds(row as int, col as int),
        ensures
            old(self).written(*final(self), row as int, col as int, false),
    {
        self.set_alive(row, col, false);
    }

    /// Makes cell `(row, col)` alive.
    pub fn revive_cell(&mut self, row: usize, col: usize)
        requires
            old(self).wf(),
            old(self).in_bounds(row as int, col as int),
        ensures
            old(self).written(*final(self), row as int, col as int, true),
    {
        self.set_alive(row, col, true);
    }

    /// 1 when `(row, col)` is alive, else 0.
    fn live_value(&self, row: usize, col: usize) -> (r: u8)
        requires
            self.wf(),
            self.in_bounds(row as int, col as int),
        ensures
            r as int == self.live_count(row as int, col as int),
    {
        if self.is_cell_live(row, col) {
            1
        } else {
            0
        }
    }

    /// Number of live cells among the eight around `(row, col)`, the grid
    /// wrapping around at its edges.
    pub fn live_neighbors(&self, row: usize, col: usize) -> (r: u8)
        requires
            self.wf(),
            self.in_bounds(row as int, col as int),
        ensures
            r as int == self.neighbor_count(row as int, col as int),
            r <= 8,
    {
        let up = if row == 0 {
            self.height - 1
        } else {
            row - 1
        };
        let down = if row + 1 == self.height {
            0
        } else {
            row + 1
        };
        let left = if col == 0 {
            self.width - 1
        } else {
            col - 1
        };
        let right = if col + 1 == self.width {
            0
        } else {
            col + 1
        };
        proof {
            lemma_wrap(row as int, self.height as int);
            lemma_wrap(col as int, self.width as int);
        }
        let h = Ghost(self.height as int);
        let w = Ghost(self.width as int);
        assert(up as int == wrap(row - 1, h@) && down as int == wrap(row + 1, h@));
        assert(left as int == wrap(col - 1, w@) && right as int == wrap(col + 1, w@));
        assert(row as int == wrap(row as int, h@) && col as int == wrap(col as int, w@));
        let a = self.live_value(up, left);
        let b = self.live_value(up, col);
        let c = self.live_value(up, right);
        let d = self.live_value(row, left);
        let e = self.live_value(row, right);
        let f = self.live_value(down, left);
        let g = self.live_value(down, col);
        let k = self.live_value(down, right);
        a + b + c + d + e + f + g + k
    }

    /// Replaces the live bits with `bytes`: cell `(row, col)` becomes bit
    /// `row * width + col` of them. The changed bits stay as they were.
    pub fn seed_cells(&mut self, bytes: Vec<u8>)
        requires
            old(self).wf(),
            bytes@.len() == old(self).cell_bytes().len(),
        ensures
            old(self).same_shape(*final(self)),
            final(self).cell_bytes() == bytes@,
            final(self).dirty_bytes() == old(self).dirty_bytes(),
            forall|r: int, c: int|
                old(self).in_bounds(r, c) ==> #[trigger] final(self).live(r, c) == bit_at(
                    bytes@,
                    old(self).offset(r, c),
                ),
    {
        self.cells = bytes;
    }

    /// Gives every cell a random state, drawn from the thread's random
    /// generator; the changed bits stay as they were.
    pub fn rand(&mut self)
        requires
            old(self).wf(),
        ensures
            old(self).same_shape(*final(self)),
            final(self).dirty_bytes() == old(self).dirty_bytes(),
            final(self).cell_bytes().len() == old(self).cell_bytes().len(),
    {
        let bytes = random_bytes(self.cells.len());
        self.seed_cells(bytes);
    }

    /// Advances every cell by one generation, all from the state before the
    /// step, and marks in the changed bits exactly the cells that flipped.
    pub fn tick(&mut self)
        requires
            old(self).wf(),
        ensures
            old(self).stepped(*final(self)),
    {
        let len = self.cells.len();
        let mut next: Vec<u8> = Vec::new();
        let mut i: usize = 0;
        while i < len
            invariant
                *self == *old(self),
                len == self.cells@.len(),
                i <= len,
                next@ == self.cells@.subrange(0, i as int),
            decreases len - i,
        {
            next.push(self.cells[i]);
            i += 1;
        }
        assert(next@ =~= self.cells@);
        let mut row: usize = 0;
        while row < self.height
            invariant
                *self == *old(self),
                self.wf(),
                row <= self.height,
                next@.len() == len,
                len == self.cells@.len(),
                forall|r: int, c: int|
                    self.in_bounds(r, c) ==> #[trigger] bit_at(next@, self.offset(r, c)) == if r
                        < row {
                        self.next_live(r, c)
                    } else {
                        self.live(r, c)
                    },
            decreases self.height - row,
        {
            let mut col: usize = 0;
            while col < self.width
                invariant
                    *self == *old(self),
                    self.wf(),
                    row < self.height,
                    col <= self.width,
                    next@.len() == len,
                    len == self.cells@.len(),
                    forall|r: int, c: int|
                        self.in_bounds(r, c) ==> #[trigger] bit_at(next@, self.offset(r, c)) == if r
                            < row || (r == row && c < col) {
                            self.next_live(r, c)
                        } else {
                            self.live(r, c)
                        },
                decreases self.width - col,
            {
                let alive = self.is_cell_live(row, col);
                let neighbors = self.live_neighbors(row, col);
                let next_alive = if alive {
                    neighbors == 2 || neighbors == 3
                } else {
                    neighbors == 3
                };
                proof {
                    lemma_offset_bound(self.width as int, self.height as int, row as int, col as int);
                }
                let offset = row * self.width + col;
                let ghost before = next@;
                write_bit(&mut next, offset, next_alive);
                assert forall|r: int, c: int| self.in_bounds(r, c) implies #[trigger] bit_at(
                    next@,
                    self.offset(r, c),
                ) == if r < row || (r == row && c < col + 1) {
                    self.next_live(r, c)
                } else {
                    self.live(r, c)
                } by {
                    lemma_offset_bound(self.width as int, self.height as int, r, c);
                    assert(bit_at(before, self.offset(r, c)) == if r < row || (r == row && c < col) {
                        self.next_live(r, c)
                    } else {
                        self.live(r, c)
                    });
                    if self.offset(r, c) == offset {
                        lemma_offset_unique(self.width as int, r, c, row as int, col as int);
                    }
                }
                col += 1;
            }
            row += 1;
        }
        let mut k: usize = 0;
        while k < len
            invariant
                self.cells == old(self).cells,
                self.width == old(self).width,
                self.height == old(self).height,
                self.dirty_ring@.len() == len,
                next@.len() == len,
                len == self.cells@.len(),
                k <= len,
                forall|j: int| 0 <= j < k ==> #[trigger] self.dirty_ring@[j] == self.cells@[j] ^ next@[j],
            decreases len - k,
        {
            let flipped = self.cells[k] ^ next[k];
            self.dirty_ring.set(k, flipped);
            k += 1;
        }
        let ghost dirty = self.dirty_ring@;
        self.cells = next;
        assert forall|r: int, c: int| old(self).in_bounds(r, c) implies #[trigger] self.changed(r, c)
            == (old(self).live(r, c) != self.live(r, c)) by {
            lemma_offset_bound(self.width as int, self.height as int, r, c);
            let o = self.offset(r, c);
            assert(dirty[o / 8] == old(self).cells@[o / 8] ^ next@[o / 8]);
            lemma_byte_xor(old(self).cells@[o / 8], next@[o / 8], (o % 8) as u8);
        }
    }

    /// The grid as text, a line per row, a filled square for a live cell and
    /// an empty square for a dead one.
    pub fn to_text(&self) -> (r: String)
        requires
            self.wf(),
        ensures
            r@ == self.text_rows(self.spec_height()),
    {
        let mut s = String::new();
        let mut row: usize = 0;
        while row < self.height
            invariant
                self.wf(),
                row <= self.height,
                s@ == self.text_rows(row as int),
            decreases self.height - row,
        {
            let ghost start = s@;
            let mut col: usize = 0;
            while col < self.width
                invariant
                    self.wf(),
                    row < self.height,
                    col <= self.width,
                    s@ == start + Seq::new(col as nat, |c: int| cell_char(self.live(row as int, c))),
                decreases self.width - col,
            {
                let ghost before = s@;
                if self.is_cell_live(row, col) {
                    proof {
                        reveal_strlit("\u{25A0}");
                    }
                    s.append("\u{25A0}");
                } else {
                    proof {
                        reveal_strlit("\u{25A1}");
                    }
                    s.append("\u{25A1}");
                }
                assert(s@ =~= start + Seq::new(
                    (col + 1) as nat,
                    |c: int| cell_char(self.live(row as int, c)),
                ));
                col += 1;
            }
            proof {
                reveal_strlit("\n");
            }
            s.append("\n");
            assert(s@ =~= self.text_rows(row + 1));
            row += 1;
        }
        s
    }

    /// The cells a drawing pass paints, in row-major order, each with its
    /// state: all of them when `only_changed` is false, else those that
    /// flipped in the last step.
    pub fn cells_to_draw(&self, only_changed: bool) -> (r: Vec<(usize, usize, bool)>)
        requires
            self.wf(),
        ensures
            r@ == self.draw_rows(self.spec_height(), only_changed),
    {
        let mut out: Vec<(usize, usize, bool)> = Vec::new();
        let mut row: usize = 0;
        while row < self.height
            invariant
                self.wf(),
                row <= self.height,
                out@ == self.draw_rows(row as int, only_changed),
            decreases self.height - row,
        {
            let ghost start = out@;
            let mut col: usize = 0;
            while col < self.width
                invariant
                    self.wf(),
                    row < self.height,
                    col <= self.width,
                    out@ == start + self.draw_row(row as int, col as int, only_changed),
                decreases self.width - col,
            {
                if !only_changed || self.is_dirty(row, col) {
                    let alive = self.is_cell_live(row, col);
                    out.push((row, col, alive));
                }
                assert(out@ =~= start + self.draw_row(row as int, col + 1, only_changed));
                col += 1;
            }
            row += 1;
        }
        out
    }
}

} // verus!
