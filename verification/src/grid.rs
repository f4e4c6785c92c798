//! The occupancy grid: which cells are taken, whoever holds them.

use vstd::prelude::*;

use vstd::arithmetic::div_mod::{
    lemma_div_pos_is_pos, lemma_fundamental_div_mod, lemma_fundamental_div_mod_converse,
    lemma_mod_bound, lemma_multiply_divide_lt,
};

use crate::chance::random_between;
use crate::location::Location;
use crate::{COLS, ROWS};

verus! {

/// How often [`Grid::random_location`] draws before it stops drawing.
pub const MAX_DRAWS: u32 = 1600;

/// How many cells of `cells` are marked.
pub open spec fn marked(cells: Seq<bool>) -> nat
    decreases cells.len(),
{
    if cells.len() == 0 {
        0
    } else {
        marked(cells.drop_last()) + if cells.last() {
            1nat
        } else {
            0nat
        }
    }
}

/// Place of a cell in the row-by-row layout of the grid.
pub open spec fn cell_index(l: Location) -> int {
    l.row * COLS + l.col
}

/// Going through the grid row by row, a cell comes before every cell of a
/// later row and before those further right in its own.
pub proof fn lemma_row_order(a: Location, b: Location)
    requires
        a.in_bounds(),
        b.in_bounds(),
        a.row < b.row || (a.row == b.row && a.col <= b.col),
    ensures
        cell_index(a) <= cell_index(b),
{
    let cols = COLS as int;
    assert(a.row * cols + a.col <= b.row * cols + b.col) by (nonlinear_arith)
        requires
            0 <= a.col < cols,
            0 <= b.col < cols,
            0 <= a.row,
            a.row < b.row || (a.row == b.row && a.col <= b.col),
    ;
}

/// The cell whose flag stands at place `i`.
pub open spec fn cell_at(i: int) -> Location {
    Location { col: (i % COLS as int) as u16, row: (i / COLS as int) as u16 }
}

/// Each cell of the grid has a place of its own among the `COLS * ROWS` flags.
pub proof fn lemma_cell_index(a: Location, b: Location)
    requires
        a.in_bounds(),
        b.in_bounds(),
    ensures
        0 <= cell_index(a) < COLS * ROWS,
        cell_index(a) == cell_index(b) <==> a == b,
{
    let (cols, rows) = (COLS as int, ROWS as int);
    assert(a.row * cols + a.col < cols * rows) by (nonlinear_arith)
        requires
            0 <= a.row <= rows - 1,
            0 <= a.col <= cols - 1,
    ;
    lemma_fundamental_div_mod_converse(cell_index(a), cols, a.row as int, a.col as int);
    lemma_fundamental_div_mod_converse(cell_index(b), cols, b.row as int, b.col as int);
}

/// Every place among the flags is that of a cell of the grid.
pub proof fn lemma_cell_at(i: int)
    requires
        0 <= i < COLS * ROWS,
    ensures
        cell_at(i).in_bounds(),
        cell_index(cell_at(i)) == i,
{
    let (cols, rows) = (COLS as int, ROWS as int);
    lemma_fundamental_div_mod(i, cols);
    lemma_mod_bound(i, cols);
    lemma_div_pos_is_pos(i, cols);
    lemma_multiply_divide_lt(i, cols, rows);
    assert((i / cols) * cols == cols * (i / cols)) by (nonlinear_arith);
}

/// Changing one flag changes the number of marked cells by that flag alone.
pub proof fn lemma_marked_update(cells: Seq<bool>, i: int, flag: bool)
    requires
        0 <= i < cells.len(),
    ensures
        marked(cells.update(i, flag)) == marked(cells) - (if cells[i] {
            1int
        } else {
            0int
        }) + (if flag {
            1int
        } else {
            0int
        }),
    decreases cells.len(),
{
    if i == cells.len() - 1 {
        assert(cells.update(i, flag).drop_last() =~= cells.drop_last());
    } else {
        assert(cells.update(i, flag).drop_last() =~= cells.drop_last().update(i, flag));
        lemma_marked_update(cells.drop_last(), i, flag);
    }
}

/// No more cells are marked than there are, and where fewer are marked, some
/// flag is not set.
pub proof fn lemma_marked_bound(cells: Seq<bool>)
    ensures
        marked(cells) <= cells.len(),
        marked(cells) < cells.len() ==> exists|i: int| 0 <= i < cells.len() && !cells[i],
    decreases cells.len(),
{
    if cells.len() > 0 {
        lemma_marked_bound(cells.drop_last());
        if marked(cells) < cells.len() {
            if cells.last() {
                let i = choose|i: int| 0 <= i < cells.drop_last().len() && !cells.drop_last()[i];
                assert(!cells[i]);
            } else {
                assert(!cells[cells.len() - 1]);
            }
        }
    }
}

/// A grid on which fewer cells are marked than it has, has a free cell.
pub proof fn lemma_room_left(cells: Seq<bool>)
    requires
        cells.len() == COLS * ROWS,
        marked(cells) < COLS * ROWS,
    ensures
        exists|l: Location| l.in_bounds() && !cells[cell_index(l)],
{
    lemma_marked_bound(cells);
    let i = choose|i: int| 0 <= i < cells.len() && !cells[i];
    lemma_cell_at(i);
    assert(cell_at(i).in_bounds() && !cells[cell_index(cell_at(i))]);
}

/// Marking a cell and freeing it undo each other, and doing either twice is
/// the same as doing it once.
pub proof fn lemma_mark_round_trip(cells: Seq<bool>, l: Location)
    requires
        cells.len() == COLS * ROWS,
        l.in_bounds(),
    ensures
        cells.update(cell_index(l), true)[cell_index(l)],
        !cells.update(cell_index(l), false)[cell_index(l)],
        cells.update(cell_index(l), true).update(cell_index(l), true) == cells.update(
            cell_index(l),
            true,
        ),
        cells.update(cell_index(l), false).update(cell_index(l), false) == cells.update(
            cell_index(l),
            false,
        ),
        cells.update(cell_index(l), true).update(cell_index(l), false) == cells.update(
            cell_index(l),
            false,
        ),
        cells.update(cell_index(l), false).update(cell_index(l), true) == cells.update(
            cell_index(l),
            true,
        ),
{
    lemma_cell_index(l, l);
    let i = cell_index(l);
    assert(cells.update(i, true).update(i, true) =~= cells.update(i, true));
    assert(cells.update(i, false).update(i, false) =~= cells.update(i, false));
    assert(cells.update(i, true).update(i, false) =~= cells.update(i, false));
    assert(cells.update(i, false).update(i, true) =~= cells.update(i, true));
}

/// One flag per cell, row after row; a set flag means that the cell is taken.
pub struct Grid {
    occupancy: Vec<bool>,
}

impl View for Grid {
    type V = Seq<bool>;

    closed spec fn view(&self) -> Seq<bool> {
        self.occupancy@
    }
}

impl Grid {
    /// The grid has one flag for every cell.
    pub open spec fn wf(&self) -> bool {
        self@.len() == COLS * ROWS
    }

    /// `l` is a cell of the grid that nothing has taken.
    pub open spec fn free(&self, l: Location) -> bool {
        l.in_bounds() && !self@[cell_index(l)]
    }

    /// Some cell of the grid is free.
    pub open spec fn has_free(&self) -> bool {
        exists|l: Location| self.free(l)
    }

    /// Where the flag of `location` stands.
    pub(crate) fn index(location: Location) -> (index: usize)
        requires
            location.in_bounds(),
        ensures
            index == cell_index(location),
            index < COLS * ROWS,
    {
        assert(location.row * COLS <= (ROWS - 1) * COLS) by (nonlinear_arith)
            requires
                location.row <= ROWS - 1,
        ;
        location.row as usize * COLS as usize + location.col as usize
    }

    /// A grid on which every cell is free.
    pub fn new() -> (grid: Grid)
        ensures
            grid.wf(),
            forall|l: Location| l.in_bounds() ==> grid.free(l),
            marked(grid@) == 0,
    {
        let mut occupancy: Vec<bool> = Vec::new();
        let total: usize = COLS as usize * ROWS as usize;
        while occupancy.len() < total
            invariant
                total == COLS * ROWS,
                occupancy@.len() <= total,
                forall|i: int| 0 <= i < occupancy@.len() ==> !occupancy@[i],
                marked(occupancy@) == 0,
            decreases total - occupancy@.len(),
        {
            let ghost before = occupancy@;
            occupancy.push(false);
            assert(occupancy@.drop_last() =~= before);
        }
        Grid { occupancy }
    }

    /// Marks `location` as taken. The other cells keep their state.
    pub fn set(&mut self, location: Location)
        requires
            old(self).wf(),
            location.in_bounds(),
        ensures
            final(self).wf(),
            final(self)@ == old(self)@.update(cell_index(location), true),
            !final(self).free(location),
            forall|l: Location| l != location ==> final(self).free(l) == old(self).free(l),
            marked(final(self)@) == marked(old(self)@) + if old(self).free(location) {
                1int
            } else {
                0int
            },
    {
        let index = Grid::index(location);
        proof {
            lemma_marked_update(self@, index as int, true);
            assert forall|l: Location| l != location implies cell_index(l) != index
                || !l.in_bounds() by {
                if l.in_bounds() {
                    lemma_cell_index(l, location);
                }
            }
        }
        self.occupancy.set(index, true);
    }

    /// Marks `location` as free. The other cells keep their state.
    pub fn remove(&mut self, location: Location)
        requires
            old(self).wf(),
            location.in_bounds(),
        ensures
            final(self).wf(),
            final(self)@ == old(self)@.update(cell_index(location), false),
            final(self).free(location),
            forall|l: Location| l != location ==> final(self).free(l) == old(self).free(l),
            marked(final(self)@) == marked(old(self)@) - if old(self).free(location) {
                0int
            } else {
                1int
            },
    {
        let index = Grid::index(location);
        proof {
            lemma_marked_update(self@, index as int, false);
            assert forall|l: Location| l != location implies cell_index(l) != index
                || !l.in_bounds() by {
                if l.in_bounds() {
                    lemma_cell_index(l, location);
                }
            }
        }
        self.occupancy.set(index, false);
    }

    /// The first free cell, going through the rows from the top and through
    /// each row from the left; `None` on a grid that is full.
    pub fn first_free(&self) -> (found: Option<Location>)
        requires
            self.wf(),
        ensures
            match found {
                Some(l) => self.free(l) && forall|other: Location| #[trigger]
                    self.free(other) ==> cell_index(l) <= cell_index(other),
                None => !self.has_free(),
            },
    {
        let mut row: u16 = 0;
        while row < ROWS
            invariant
                self.wf(),
                row <= ROWS,
                forall|l: Location| l.in_bounds() && l.row < row ==> !#[trigger] self.free(l),
            decreases ROWS - row,
        {
            let mut col: u16 = 0;
            while col < COLS
                invariant
                    self.wf(),
                    row < ROWS,
                    col <= COLS,
                    forall|l: Location| l.in_bounds() && l.row < row ==> !#[trigger] self.free(l),
                    forall|l: Location|
                        l.in_bounds() && l.row == row && l.col < col ==> !#[trigger] self.free(l),
                decreases COLS - col,
            {
                let location = Location::new(col, row);
                if self.is_free(location) {
                    proof {
                        assert forall|other: Location| #[trigger]
                            self.free(other) implies cell_index(location) <= cell_index(other) by {
                            lemma_row_order(location, other);
                        }
                    }
                    return Some(location);
                }
                col += 1;
            }
            row += 1;
        }
        None
    }

    /// A free cell, drawn at random.
    ///
    /// Cells are drawn until a free one comes up, [`MAX_DRAWS`] times at most;
    /// after that many misses the first free cell is taken instead. On a full
    /// grid there is nothing to return: the caller sees to it that a cell is
    /// free.
    pub fn random_location(&self) -> (location: Location)
        requires
            self.wf(),
            self.has_free(),
        ensures
            self.free(location),
    {
        let mut draws: u32 = 0;
        while draws < MAX_DRAWS
            invariant
                self.wf(),
            decreases MAX_DRAWS - draws,
        {
            let c: u16 = random_between(0, COLS);
            let r: u16 = random_between(0, ROWS);
            let new_loc = Location::new(c, r);
            if self.is_free(new_loc) {
                return new_loc;
            }
            draws += 1;
        }
        match self.first_free() {
            Some(location) => location,
            None => Location::new(0, 0),
        }
    }

    /// The grid as rows of characters: `'0'` for a free cell, `'1'` for one
    /// that is taken.
    pub fn picture(&self) -> (rows: Vec<Vec<char>>)
        requires
            self.wf(),
        ensures
            rows@.len() == ROWS,
            forall|r: int| 0 <= r < ROWS ==> (#[trigger] rows@[r])@.len() == COLS,
            forall|l: Location|
                l.in_bounds() ==> rows@[l.row as int]@[l.col as int] == if #[trigger] self.free(l) {
                    '0'
                } else {
                    '1'
                },
    {
        let mut rows: Vec<Vec<char>> = Vec::new();
        let mut r: u16 = 0;
        while r < ROWS
            invariant
                self.wf(),
                r <= ROWS,
                rows@.len() == r,
                forall|i: int| 0 <= i < r ==> (#[trigger] rows@[i])@.len() == COLS,
                forall|l: Location|
                    l.in_bounds() && l.row < r ==> rows@[l.row as int]@[l.col as int]
                        == if #[trigger] self.free(l) {
                        '0'
                    } else {
                        '1'
                    },
            decreases ROWS - r,
        {
            let mut line: Vec<char> = Vec::new();
            let mut c: u16 = 0;
            while c < COLS
                invariant
                    self.wf(),
                    r < ROWS,
                    c <= COLS,
                    line@.len() == c,
                    forall|l: Location|
                        l.in_bounds() && l.row == r && l.col < c ==> line@[l.col as int]
                            == if #[trigger] self.free(l) {
                            '0'
                        } else {
                            '1'
                        },
                decreases COLS - c,
            {
                let loc = Location::new(c, r);
                if self.is_free(loc) {
                    line.push('0');
                } else {
                    line.push('1');
                }
                c += 1;
            }
            rows.push(line);
            r += 1;
        }
        rows
    }

    /// Whether nothing has taken `location`.
    pub fn is_free(&self, location: Location) -> (free: bool)
        requires
            self.wf(),
            location.in_bounds(),
        ensures
            free == self.free(location),
    {
        let index = Grid::index(location);
        !self.occupancy[index]
    }

    /// Whether the same cells are taken on both grids.
    pub fn same_as(&self, other: &Grid) -> (same: bool)
        ensures
            same == (self@ == other@),
    {
        if self.occupancy.len() != other.occupancy.len() {
            return false;
        }
        let mut i: usize = 0;
        while i < self.occupancy.len()
            invariant
                self.occupancy@.len() == other.occupancy@.len(),
                i <= self.occupancy@.len(),
                forall|j: int| 0 <= j < i ==> self.occupancy@[j] == other.occupancy@[j],
            decreases self.occupancy@.len() - i,
        {
            if self.occupancy[i] != other.occupancy[i] {
                return false;
            }
            i += 1;
        }
        assert(self@ =~= other@);
        true
    }

    /// Number of cells that are taken.
    pub fn count(&self) -> (n: usize)
        ensures
            n == marked(self@),
    {
        let mut n: usize = 0;
        let mut i: usize = 0;
        while i < self.occupancy.len()
            invariant
                i <= self.occupancy@.len(),
                n == marked(self.occupancy@.take(i as int)),
                n <= i,
            decreases self.occupancy@.len() - i,
        {
            assert(self.occupancy@.take(i + 1).drop_last() =~= self.occupancy@.take(i as int));
            if self.occupancy[i] {
                n += 1;
            }
            i += 1;
        }
        assert(self.occupancy@.take(i as int) =~= self.occupancy@);
        n
    }
}

} // verus!
