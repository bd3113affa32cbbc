use vstd::prelude::*;

use crate::cell::{is_bomb, Cell, CellState, CellType};
use crate::coordinates::Coordinates;
use crate::dimensions::Dimensions;

verus! {

/// Why a field could not be built.
#[derive(Clone, Copy, PartialEq, Eq, Structural, Debug)]
pub enum FieldError {
    /// The width or the height is zero.
    EmptyDimension,
    /// There are more cells than a signed coordinate can address.
    TooManyCells,
    /// There are at least as many bombs as cells.
    TooManyBombs,
}

pub open spec fn in_bounds(w: int, h: int, x: int, y: int) -> bool {
    0 <= x < w && 0 <= y < h
}

/// Cells are stored row after row.
pub open spec fn index_of(w: int, x: int, y: int) -> int {
    x + y * w
}

pub open spec fn cell_at(s: Seq<Cell>, w: int, x: int, y: int) -> Cell {
    s[index_of(w, x, y)]
}

/// 1 where an in-bounds bomb stands at (x, y), else 0.
pub open spec fn bomb_in(s: Seq<Cell>, w: int, h: int, x: int, y: int) -> int {
    if in_bounds(w, h, x, y) && is_bomb(cell_at(s, w, x, y)) {
        1
    } else {
        0
    }
}

/// Bombs among the eight cells around (x, y); the cell itself is not one of them.
pub open spec fn neighbor_bombs(s: Seq<Cell>, w: int, h: int, x: int, y: int) -> int {
    bomb_in(s, w, h, x - 1, y - 1) + bomb_in(s, w, h, x, y - 1) + bomb_in(s, w, h, x + 1, y - 1)
        + bomb_in(s, w, h, x - 1, y) + bomb_in(s, w, h, x + 1, y)
        + bomb_in(s, w, h, x - 1, y + 1) + bomb_in(s, w, h, x, y + 1)
        + bomb_in(s, w, h, x + 1, y + 1)
}

/// Number of cells of `s` that satisfy `p`.
pub open spec fn count_where(s: Seq<Cell>, p: spec_fn(Cell) -> bool) -> nat
    decreases s.len(),
{
    if s.len() == 0 {
        0
    } else {
        count_where(s.drop_last(), p) + if p(s.last()) {
            1nat
        } else {
            0nat
        }
    }
}

pub open spec fn bomb_pred() -> spec_fn(Cell) -> bool {
    |c: Cell| is_bomb(c)
}

/// Number of bombs on the field; each cell holds at most one, so positions never coincide.
pub open spec fn bomb_total(s: Seq<Cell>) -> nat {
    count_where(s, bomb_pred())
}

/// A freshly mined field: `n` bombs, every cell hidden, every other cell blank.
pub open spec fn freshly_mined(s: Seq<Cell>, n: nat) -> bool {
    &&& bomb_total(s) == n
    &&& forall|i: int|
        0 <= i < s.len() ==> #[trigger] s[i].1 == CellState::UNKNOWN && (!is_bomb(s[i])
            ==> s[i].0 == CellType::EMPTY(None))
}

/// The error that construction reports, if any.
pub open spec fn new_error(width: nat, height: nat, bomb_count: nat) -> Option<FieldError> {
    if width == 0 || height == 0 {
        Some(FieldError::EmptyDimension)
    } else if width * height > isize::MAX {
        Some(FieldError::TooManyCells)
    } else if bomb_count >= width * height {
        Some(FieldError::TooManyBombs)
    } else {
        None
    }
}

pub proof fn lemma_count_update(s: Seq<Cell>, i: int, v: Cell, p: spec_fn(Cell) -> bool)
    requires
        0 <= i < s.len(),
    ensures
        count_where(s.update(i, v), p) + (if p(s[i]) { 1int } else { 0int }) == count_where(s, p)
            + (if p(v) { 1int } else { 0int }),
    decreases s.len(),
{
    if i == s.len() - 1 {
        assert(s.update(i, v).drop_last() =~= s.drop_last());
    } else {
        assert(s.update(i, v).drop_last() =~= s.drop_last().update(i, v));
        lemma_count_update(s.drop_last(), i, v, p);
    }
}

pub proof fn lemma_count_take_step(s: Seq<Cell>, j: int, p: spec_fn(Cell) -> bool)
    requires
        0 <= j < s.len(),
    ensures
        count_where(s.take(j + 1), p) == count_where(s.take(j), p) + if p(s[j]) {
            1nat
        } else {
            0nat
        },
{
    assert(s.take(j + 1).drop_last() =~= s.take(j));
}

pub proof fn lemma_count_none(s: Seq<Cell>, p: spec_fn(Cell) -> bool)
    requires
        forall|i: int| 0 <= i < s.len() ==> !p(#[trigger] s[i]),
    ensures
        count_where(s, p) == 0,
    decreases s.len(),
{
    if s.len() > 0 {
        lemma_count_none(s.drop_last(), p);
    }
}

pub proof fn lemma_index_in_range(w: int, h: int, x: int, y: int)
    requires
        in_bounds(w, h, x, y),
    ensures
        0 <= y * w <= index_of(w, x, y) < w * h,
{
    assert(0 <= y * w) by (nonlinear_arith)
        requires
            0 <= y,
            0 <= w,
    ;
    assert(y * w + w <= w * h) by (nonlinear_arith)
        requires
            y + 1 <= h,
            0 <= w,
    ;
}

pub proof fn lemma_index_injective(w: int, x1: int, y1: int, x2: int, y2: int)
    requires
        0 <= x1 < w,
        0 <= x2 < w,
        index_of(w, x1, y1) == index_of(w, x2, y2),
    ensures
        x1 == x2,
        y1 == y2,
{
    if y1 < y2 {
        assert(y1 * w + w <= y2 * w) by (nonlinear_arith)
            requires
                y1 + 1 <= y2,
                0 <= w,
        ;
    } else if y2 < y1 {
        assert(y2 * w + w <= y1 * w) by (nonlinear_arith)
            requires
                y2 + 1 <= y1,
                0 <= w,
        ;
    }
}

proof fn lemma_bomb_in_update(s: Seq<Cell>, w: int, h: int, a: int, b: int, x: int, y: int, v: Cell)
    requires
        s.len() == w * h,
        in_bounds(w, h, x, y),
        (a, b) != (x, y),
    ensures
        bomb_in(s.update(index_of(w, x, y), v), w, h, a, b) == bomb_in(s, w, h, a, b),
{
    lemma_index_in_range(w, h, x, y);
    if in_bounds(w, h, a, b) {
        lemma_index_in_range(w, h, a, b);
        if index_of(w, a, b) == index_of(w, x, y) {
            lemma_index_injective(w, a, b, x, y);
        }
    }
}

/// The count around a cell never looks at the cell itself: whatever the cell
/// at (x, y) holds, the count there is the same.
pub proof fn lemma_center_not_counted(s: Seq<Cell>, w: int, h: int, x: int, y: int, v: Cell)
    requires
        s.len() == w * h,
        in_bounds(w, h, x, y),
    ensures
        neighbor_bombs(s.update(index_of(w, x, y), v), w, h, x, y) == neighbor_bombs(s, w, h, x, y),
{
    lemma_bomb_in_update(s, w, h, x - 1, y - 1, x, y, v);
    lemma_bomb_in_update(s, w, h, x, y - 1, x, y, v);
    lemma_bomb_in_update(s, w, h, x + 1, y - 1, x, y, v);
    lemma_bomb_in_update(s, w, h, x - 1, y, x, y, v);
    lemma_bomb_in_update(s, w, h, x + 1, y, x, y, v);
    lemma_bomb_in_update(s, w, h, x - 1, y + 1, x, y, v);
    lemma_bomb_in_update(s, w, h, x, y + 1, x, y, v);
    lemma_bomb_in_update(s, w, h, x + 1, y + 1, x, y, v);
}

/// On a field of one cell, that cell has no neighbours and so no bomb around it.
pub proof fn lemma_single_cell_no_neighbors(s: Seq<Cell>, x: int, y: int)
    requires
        in_bounds(1, 1, x, y),
    ensures
        neighbor_bombs(s, 1, 1, x, y) == 0,
{
}

/// The grid: its size, the pixel size of a cell for drawing, the bomb count
/// it is mined with, and its cells row after row.
pub struct Field {
    pub dimensions: Dimensions,
    pub cell_size: usize,
    pub bomb_count: usize,
    pub cells: Vec<Cell>,
}

/// Relies on rand::random: any `usize` may come back.
#[verifier::external_body]
fn random_usize() -> (r: usize) {
    rand::random::<usize>()
}

impl Field {
    pub open spec fn spec_width(&self) -> int {
        self.dimensions@.0 as int
    }

    pub open spec fn spec_height(&self) -> int {
        self.dimensions@.1 as int
    }

    /// Both sides positive, every cell addressable by signed coordinates,
    /// one stored cell per position, and fewer bombs than cells.
    pub open spec fn wf(&self) -> bool {
        &&& self.spec_width() > 0
        &&& self.spec_height() > 0
        &&& self.spec_width() * self.spec_height() <= isize::MAX
        &&& self.cells@.len() == self.spec_width() * self.spec_height()
        &&& self.bomb_count < self.cells@.len()
    }

    pub open spec fn spec_in_bounds(&self, x: int, y: int) -> bool {
        in_bounds(self.spec_width(), self.spec_height(), x, y)
    }

    pub open spec fn spec_cell(&self, x: int, y: int) -> Cell {
        cell_at(self.cells@, self.spec_width(), x, y)
    }

    pub open spec fn spec_index(&self, x: int, y: int) -> int {
        index_of(self.spec_width(), x, y)
    }

    /// Builds a field of `width` by `height` hidden cells and places
    /// `bomb_count` bombs on it at random.
    pub fn new(width: usize, height: usize, cell_size: usize, bomb_count: usize) -> (r: Result<
        Field,
        FieldError,
    >)
        ensures
            match r {
                Ok(f) => {
                    &&& new_error(width as nat, height as nat, bomb_count as nat) is None
                    &&& f.wf()
                    &&& f.dimensions@ == (width as nat, height as nat)
                    &&& f.cell_size == cell_size
                    &&& f.bomb_count == bomb_count
                    &&& freshly_mined(f.cells@, bomb_count as nat)
                },
                Err(e) => new_error(width as nat, height as nat, bomb_count as nat) == Some(e),
            },
    {
        if width == 0 || height == 0 {
            return Err(FieldError::EmptyDimension);
        }
        let size = match width.checked_mul(height) {
            Some(n) => n,
            None => {
                return Err(FieldError::TooManyCells);
            },
        };
        if size > isize::MAX as usize {
            return Err(FieldError::TooManyCells);
        }
        if bomb_count >= size {
            return Err(FieldError::TooManyBombs);
        }
        let mut cells: Vec<Cell> = Vec::new();
        let mut i: usize = 0;
        while i < size
            invariant
                i <= size,
                cells@.len() == i,
            decreases size - i,
        {
            cells.push((CellType::EMPTY(None), CellState::UNKNOWN));
            i += 1;
        }
        let dimensions = Dimensions::new(width, height);
        let mut field = Field { dimensions, cell_size, bomb_count, cells };
        field.populate_bombs(bomb_count);
        Ok(field)
    }

    /// Clears every cell, then places `count` bombs on distinct cells: each
    /// bomb goes to a cell drawn at random among those still free.
    fn populate_bombs(&mut self, count: usize)
        requires
            old(self).wf(),
            count < old(self).cells@.len(),
        ensures
            final(self).dimensions@ == old(self).dimensions@,
            final(self).cell_size == old(self).cell_size,
            final(self).bomb_count == old(self).bomb_count,
            final(self).cells@.len() == old(self).cells@.len(),
            freshly_mined(final(self).cells@, count as nat),
    {
        let n = self.cells.len();
        let mut i: usize = 0;
        while i < n
            invariant
                i <= n,
                self.cells@.len() == n,
                self.dimensions@ == old(self).dimensions@,
                self.cell_size == old(self).cell_size,
                self.bomb_count == old(self).bomb_count,
                forall|j: int| 0 <= j < i ==> #[trigger] self.cells@[j] == (CellType::EMPTY(None), CellState::UNKNOWN),
            decreases n - i,
        {
            self.cells.set(i, (CellType::EMPTY(None), CellState::UNKNOWN));
            i += 1;
        }
        proof {
            lemma_count_none(self.cells@, bomb_pred());
        }
        let mut placed: usize = 0;
        while placed < count
            invariant
                count < n,
                placed <= count,
                self.cells@.len() == n,
                self.dimensions@ == old(self).dimensions@,
                self.cell_size == old(self).cell_size,
                self.bomb_count == old(self).bomb_count,
                freshly_mined(self.cells@, placed as nat),
            decreases count - placed,
        {
            let free = n - placed;
            let k = random_usize() % free;
            place_nth_free(&mut self.cells, k);
            placed += 1;
        }
    }

    /// Whether (x, y) lies on the field.
    pub fn contains(&self, x: isize, y: isize) -> (r: bool)
        requires
            self.wf(),
        ensures
            r == self.spec_in_bounds(x as int, y as int),
    {
        x >= 0 && y >= 0 && (x as usize) < self.dimensions.get_width() && (y as usize)
            < self.dimensions.get_height()
    }

    fn index(&self, x: isize, y: isize) -> (r: usize)
        requires
            self.wf(),
            self.spec_in_bounds(x as int, y as int),
        ensures
            r == self.spec_index(x as int, y as int),
            r < self.cells@.len(),
    {
        proof {
            lemma_index_in_range(self.spec_width(), self.spec_height(), x as int, y as int);
        }
        (x as usize) + (y as usize) * self.dimensions.get_width()
    }

    /// The cell at `coords`, or `None` off the field.
    pub fn get_clone(&self, coords: &Coordinates) -> (r: Option<Cell>)
        requires
            self.wf(),
        ensures
            r == if self.spec_in_bounds(coords.x_coord as int, coords.y_coord as int) {
                Some(self.spec_cell(coords.x_coord as int, coords.y_coord as int))
            } else {
                None
            },
    {
        if self.contains(coords.x_coord, coords.y_coord) {
            let i = self.index(coords.x_coord, coords.y_coord);
            Some(self.cells[i])
        } else {
            None
        }
    }

    /// Write access to the cell at `coords`, or `None` off the field.
    pub fn get_mut(&mut self, coords: &Coordinates) -> (r: Option<&mut Cell>)
        requires
            old(self).wf(),
        ensures
            final(self).dimensions@ == old(self).dimensions@,
            final(self).cell_size == old(self).cell_size,
            final(self).bomb_count == old(self).bomb_count,
            match r {
                Some(m) => {
                    &&& old(self).spec_in_bounds(coords.x_coord as int, coords.y_coord as int)
                    &&& *m == old(self).spec_cell(coords.x_coord as int, coords.y_coord as int)
                    &&& final(self).cells@ == old(self).cells@.update(
                        old(self).spec_index(coords.x_coord as int, coords.y_coord as int),
                        *final(m),
                    )
                },
                None => {
                    &&& !old(self).spec_in_bounds(coords.x_coord as int, coords.y_coord as int)
                    &&& final(self).cells@ == old(self).cells@
                },
            },
    {
        if self.contains(coords.x_coord, coords.y_coord) {
            let i = self.index(coords.x_coord, coords.y_coord);
            Some(&mut self.cells[i])
        } else {
            None
        }
    }

    /// 1 when a bomb stands at (x + dx, y + dy) on the field, else 0.
    fn bomb_at_offset(&self, x: isize, y: isize, dx: isize, dy: isize) -> (r: u8)
        requires
            self.wf(),
            -1 <= dx <= 1,
            -1 <= dy <= 1,
        ensures
            r == bomb_in(
                self.cells@,
                self.spec_width(),
                self.spec_height(),
                x + dx,
                y + dy,
            ),
    {
        proof {
            assert(self.spec_width() <= self.spec_width() * self.spec_height()) by (nonlinear_arith)
                requires
                    self.spec_height() >= 1,
                    self.spec_width() >= 0,
            ;
            assert(self.spec_height() <= self.spec_width() * self.spec_height()) by (nonlinear_arith)
                requires
                    self.spec_width() >= 1,
                    self.spec_height() >= 0,
            ;
        }
        let w = self.dimensions.get_width() as isize;
        let h = self.dimensions.get_height() as isize;
        let x_ok = if dx < 0 {
            x >= 1 && x - 1 < w
        } else if dx == 0 {
            x >= 0 && x < w
        } else {
            x >= -1 && x < w - 1
        };
        let y_ok = if dy < 0 {
            y >= 1 && y - 1 < h
        } else if dy == 0 {
            y >= 0 && y < h
        } else {
            y >= -1 && y < h - 1
        };
        if x_ok && y_ok {
            let i = self.index(x + dx, y + dy);
            match self.cells[i].0 {
                CellType::BOMB => 1,
                CellType::EMPTY(_) => 0,
            }
        } else {
            0
        }
    }

    /// How many of the eight cells around `coords` hold a bomb; cells off the
    /// field and the cell itself are not counted.
    pub fn count_bomb_neighbors(&self, coords: &Coordinates) -> (r: u8)
        requires
            self.wf(),
        ensures
            r == neighbor_bombs(
                self.cells@,
                self.spec_width(),
                self.spec_height(),
                coords.x_coord as int,
                coords.y_coord as int,
            ),
            r <= 8,
    {
        let x = coords.x_coord;
        let y = coords.y_coord;
        self.bomb_at_offset(x, y, -1, -1) + self.bomb_at_offset(x, y, 0, -1) + self.bomb_at_offset(
            x,
            y,
            1,
            -1,
        ) + self.bomb_at_offset(x, y, -1, 0) + self.bomb_at_offset(x, y, 1, 0)
            + self.bomb_at_offset(x, y, -1, 1) + self.bomb_at_offset(x, y, 0, 1)
            + self.bomb_at_offset(x, y, 1, 1)
    }

    /// Sets what the cell at `coords` holds; nothing happens off the field.
    pub fn set_cell_type(&mut self, coords: &Coordinates, cell_type: CellType)
        requires
            old(self).wf(),
        ensures
            final(self).wf(),
            final(self).dimensions@ == old(self).dimensions@,
            final(self).cell_size == old(self).cell_size,
            final(self).bomb_count == old(self).bomb_count,
            final(self).cells@ == if old(self).spec_in_bounds(
                coords.x_coord as int,
                coords.y_coord as int,
            ) {
                old(self).cells@.update(
                    old(self).spec_index(coords.x_coord as int, coords.y_coord as int),
                    (cell_type, old(self).spec_cell(coords.x_coord as int, coords.y_coord as int).1),
                )
            } else {
                old(self).cells@
            },
    {
        if self.contains(coords.x_coord, coords.y_coord) {
            let i = self.index(coords.x_coord, coords.y_coord);
            let state = self.cells[i].1;
            self.cells.set(i, (cell_type, state));
        }
    }

    /// Sets what the player sees of the cell at `coords`; nothing happens off
    /// the field.
    pub fn set_cell_state(&mut self, coords: &Coordinates, cell_state: CellState)
        requires
            old(self).wf(),
        ensures
            final(self).wf(),
            final(self).dimensions@ == old(self).dimensions@,
            final(self).cell_size == old(self).cell_size,
            final(self).bomb_count == old(self).bomb_count,
            final(self).cells@ == if old(self).spec_in_bounds(
                coords.x_coord as int,
                coords.y_coord as int,
            ) {
                old(self).cells@.update(
                    old(self).spec_index(coords.x_coord as int, coords.y_coord as int),
                    (old(self).spec_cell(coords.x_coord as int, coords.y_coord as int).0, cell_state),
                )
            } else {
                old(self).cells@
            },
    {
        if self.contains(coords.x_coord, coords.y_coord) {
            let i = self.index(coords.x_coord, coords.y_coord);
            let kind = self.cells[i].0;
            self.cells.set(i, (kind, cell_state));
        }
    }

    /// Clears the field and mines it afresh with its own bomb count; the size
    /// stays, the bomb positions are drawn anew.
    pub fn reset(&mut self)
        requires
            old(self).wf(),
        ensures
            final(self).wf(),
            final(self).dimensions@ == old(self).dimensions@,
            final(self).cell_size == old(self).cell_size,
            final(self).bomb_count == old(self).bomb_count,
            freshly_mined(final(self).cells@, old(self).bomb_count as nat),
    {
        let count = self.bomb_count;
        self.populate_bombs(count);
    }
}

/// Turns the `k`-th cell that holds no bomb (counting from the start) into a
/// hidden bomb.
fn place_nth_free(cells: &mut Vec<Cell>, k: usize)
    requires
        k + bomb_total(old(cells)@) < old(cells)@.len(),
    ensures
        final(cells)@.len() == old(cells)@.len(),
        bomb_total(final(cells)@) == bomb_total(old(cells)@) + 1,
        forall|i: int|
            0 <= i < old(cells)@.len() ==> #[trigger] final(cells)@[i] == old(cells)@[i] || (!is_bomb(
                old(cells)@[i],
            ) && final(cells)@[i] == (CellType::BOMB, CellState::UNKNOWN)),
{
    let n = cells.len();
    let mut j: usize = 0;
    let mut seen: usize = 0;
    while j < n
        invariant
            n == cells@.len(),
            cells@ == old(cells)@,
            j <= n,
            seen <= k,
            seen + bomb_total(cells@.take(j as int)) == j,
            k + bomb_total(cells@) < n,
        decreases n - j,
    {
        proof {
            lemma_count_take_step(cells@, j as int, bomb_pred());
        }
        let free = match cells[j].0 {
            CellType::BOMB => false,
            CellType::EMPTY(_) => true,
        };
        if free {
            if seen == k {
                proof {
                    lemma_count_update(cells@, j as int, (CellType::BOMB, CellState::UNKNOWN), bomb_pred());
                }
                cells.set(j, (CellType::BOMB, CellState::UNKNOWN));
                return;
            }
            seen += 1;
        }
        j += 1;
    }
    proof {
        assert(cells@.take(n as int) =~= cells@);
    }
}

} // verus!
