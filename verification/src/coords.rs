//! Coordinate types of the extended 8x14 board.
//!
//! `FieldUsize` is a grid index: row 0 is rank 8, row 7 is rank 1; columns
//! 3..=10 are the playing files a..h, the rest are graveyard columns.
//! `Field` is the continuous position of the magnet head, with its origin at
//! the centre of the playing window. Every position the planner ever visits
//! lies on the half-cell lattice, so a `Field` stores its coordinates doubled:
//! `Field(x2, y2)` stands for the point `(x2 / 2, y2 / 2)` in cell units.
//!
//! One motor revolution is 200 steps and travels 14.135 mm; one cell is
//! 45.0 mm. The number of steps for a displacement of `h` half-cells is
//! therefore `round(45 * (h/2) / 14.135 * 200) = round(900000 * h / 2827)`,
//! computed here in exact integer arithmetic.

use vstd::prelude::*;

verus! {

/// Rows of the extended board.
pub const GRID_ROWS: usize = 8;
/// Columns of the extended board (8 playing files plus 6 graveyard columns).
pub const GRID_COLS: usize = 14;

/// Conversion of the index types that grid coordinates are built from.
pub trait ToUsize: Sized {
    /// The converted value, for contracts.
    spec fn as_usize(self) -> usize;

    /// Converts the value to `usize`.
    fn to_usize(self) -> (r: usize)
        ensures
            r == self.as_usize(),
    ;
}

impl ToUsize for usize {
    open spec fn as_usize(self) -> usize {
        self
    }

    fn to_usize(self) -> usize {
        self
    }
}

impl ToUsize for u32 {
    open spec fn as_usize(self) -> usize {
        self as usize
    }

    fn to_usize(self) -> usize {
        self as usize
    }
}

/// A cell of the extended board: `FieldUsize(row, column)`.
#[derive(Debug, Clone, Copy, PartialEq, Eq, Structural)]
pub struct FieldUsize(pub usize, pub usize);

/// Whether `(row, col)` lies on the extended board.
pub open spec fn on_grid(row: int, col: int) -> bool {
    0 <= row < GRID_ROWS && 0 <= col < GRID_COLS
}

/// Whether `b` is an in-bounds neighbour of `a`: distinct, at Chebyshev
/// distance one.
pub open spec fn is_neighbor(a: FieldUsize, b: FieldUsize) -> bool {
    &&& on_grid(b.0 as int, b.1 as int)
    &&& b != a
    &&& -1 <= b.0 - a.0 <= 1
    &&& -1 <= b.1 - a.1 <= 1
}

/// The singleton `seq![f]` if `f` lies on the grid, else the empty sequence.
pub open spec fn grid_filtered(f: FieldUsize) -> Seq<FieldUsize> {
    if on_grid(f.0 as int, f.1 as int) {
        seq![f]
    } else {
        Seq::empty()
    }
}

impl FieldUsize {
    /// Builds a cell from a `(row, column)` pair.
    pub fn from_tuple<T: ToUsize, S: ToUsize>(t: (T, S)) -> (r: Self)
        ensures
            r == (FieldUsize(t.0.as_usize(), t.1.as_usize())),
    {
        FieldUsize(t.0.to_usize(), t.1.to_usize())
    }

    /// Shifts one column to the right by `x`.
    pub fn add_x(&self, x: usize) -> (r: Self)
        requires
            self.1 + x <= usize::MAX,
        ensures
            r == (FieldUsize(self.0, (self.1 + x) as usize)),
    {
        Self(self.0, self.1 + x)
    }

    /// Shifts `y` rows down (toward rank 1).
    pub fn add_y(&self, y: usize) -> (r: Self)
        requires
            self.0 + y <= usize::MAX,
        ensures
            r == (FieldUsize((self.0 + y) as usize, self.1)),
    {
        Self(self.0 + y, self.1)
    }

    /// Shifts `x` columns to the left, saturating: a shift past the first
    /// column clamps on zero.
    pub fn sub_x(&self, x: usize) -> (r: Self)
        ensures
            r == if self.1 >= x {
                FieldUsize(self.0, (self.1 - x) as usize)
            } else {
                FieldUsize(self.0, 0)
            },
    {
        if self.1 >= x {
            Self(self.0, self.1 - x)
        } else {
            Self(self.0, 0)
        }
    }

    /// Shifts `y` rows up, saturating: a shift past the first row clamps on
    /// zero.
    pub fn sub_y(&self, y: usize) -> (r: Self)
        ensures
            r == if self.0 >= y {
                FieldUsize((self.0 - y) as usize, self.1)
            } else {
                FieldUsize(0, self.1)
            },
    {
        if self.0 >= y {
            Self(self.0 - y, self.1)
        } else {
            Self(0, self.1)
        }
    }

    /// One row down when `y` holds, else one row up, clamping on row zero.
    pub fn edit_y(&self, y: bool) -> (r: Self)
        requires
            self.0 < usize::MAX,
        ensures
            r == if y {
                FieldUsize((self.0 + 1) as usize, self.1)
            } else if self.0 >= 1 {
                FieldUsize((self.0 - 1) as usize, self.1)
            } else {
                *self
            },
    {
        if y {
            self.add_y(1)
        } else {
            self.sub_y(1)
        }
    }

    /// One column right when `x` holds, else one column left, clamping on
    /// column zero.
    pub fn edit_x(&self, x: bool) -> (r: Self)
        requires
            self.1 < usize::MAX,
        ensures
            r == if x {
                FieldUsize(self.0, (self.1 + 1) as usize)
            } else if self.1 >= 1 {
                FieldUsize(self.0, (self.1 - 1) as usize)
            } else {
                *self
            },
    {
        if x {
            self.add_x(1)
        } else {
            self.sub_x(1)
        }
    }

    /// The `(row, column)` pair.
    pub fn to_tuple(&self) -> (r: (usize, usize))
        ensures
            r == (self.0, self.1),
    {
        (self.0, self.1)
    }

    /// The up-to-eight in-bounds neighbours, in row-major offset order.
    pub fn get_neighbors(&self) -> (r: Vec<FieldUsize>)
        requires
            self.0 < usize::MAX,
            self.1 < usize::MAX,
        ensures
            r@ == neighbors_seq(*self),
    {
        let mut res: Vec<FieldUsize> = Vec::new();
        let y = self.0;
        let x = self.1;
        if y >= 1 && y <= GRID_ROWS && x >= 1 && x <= GRID_COLS {
            res.push(FieldUsize(y - 1, x - 1));
        }
        if y >= 1 && y <= GRID_ROWS && x < GRID_COLS {
            res.push(FieldUsize(y - 1, x));
        }
        if y >= 1 && y <= GRID_ROWS && x + 1 < GRID_COLS {
            res.push(FieldUsize(y - 1, x + 1));
        }
        if y < GRID_ROWS && x >= 1 && x <= GRID_COLS {
            res.push(FieldUsize(y, x - 1));
        }
        if y < GRID_ROWS && x + 1 < GRID_COLS {
            res.push(FieldUsize(y, x + 1));
        }
        if y + 1 < GRID_ROWS && x >= 1 && x <= GRID_COLS {
            res.push(FieldUsize(y + 1, x - 1));
        }
        if y + 1 < GRID_ROWS && x < GRID_COLS {
            res.push(FieldUsize(y + 1, x));
        }
        if y + 1 < GRID_ROWS && x + 1 < GRID_COLS {
            res.push(FieldUsize(y + 1, x + 1));
        }
        proof {
            assert(res@ =~= neighbors_seq(*self));
        }
        res
    }

    /// The eight one-step candidates around `self`, ordered to move toward
    /// `ef` first (ties broken toward the board interior), restricted to the
    /// grid. The order steers the pathfinder's search.
    pub fn get_nearby(&self, ef: &Self) -> (r: Vec<FieldUsize>)
        requires
            self.0 < usize::MAX - 1,
            self.1 < usize::MAX - 1,
        ensures
            r@ == nearby_seq(*self, *ef),
    {
        let prefer_up = self.0 < 4;
        let prefer_right = self.1 < 7;
        let go_right = ef.1 > self.1;
        let go_up = ef.0 > self.0;
        let mut cand: Vec<FieldUsize> = Vec::new();
        if ef.0 == self.0 {
            cand.push(self.edit_x(go_right));
            cand.push(self.edit_x(go_right).edit_y(prefer_up));
            cand.push(self.edit_x(go_right).edit_y(!prefer_up));
            cand.push(self.edit_y(prefer_up));
            cand.push(self.edit_y(!prefer_up));
            cand.push(self.edit_x(!go_right).edit_y(prefer_up));
            cand.push(self.edit_x(!go_right).edit_y(!prefer_up));
            cand.push(self.edit_x(!go_right));
        } else if ef.1 == self.1 {
            cand.push(self.edit_y(go_up));
            cand.push(self.edit_y(go_up).edit_x(prefer_right));
            cand.push(self.edit_y(go_up).edit_x(!prefer_right));
            cand.push(self.edit_x(prefer_right));
            cand.push(self.edit_x(!prefer_right));
            cand.push(self.edit_y(!go_up).edit_x(prefer_right));
            cand.push(self.edit_y(!go_up).edit_x(!prefer_right));
            cand.push(self.edit_y(!go_up));
        } else {
            cand.push(self.edit_y(go_up).edit_x(go_right));
            cand.push(self.edit_y(go_up));
            cand.push(self.edit_x(go_right));
            cand.push(self.edit_y(!go_up).edit_x(go_right));
            cand.push(self.edit_y(go_up).edit_x(!go_right));
            cand.push(self.edit_y(!go_up));
            cand.push(self.edit_x(!go_right));
            cand.push(self.edit_y(!go_up).edit_x(!go_right));
        }
        let mut res: Vec<FieldUsize> = Vec::new();
        let mut i: usize = 0;
        while i < cand.len()
            invariant
                i <= cand@.len(),
                cand@.len() == 8,
                res@ == filter_grid(cand@.take(i as int)),
            decreases cand@.len() - i,
        {
            let c = cand[i];
            proof {
                assert(cand@.take(i + 1) =~= cand@.take(i as int).push(c));
                lemma_filter_grid_push(cand@.take(i as int), c);
            }
            if c.0 < GRID_ROWS && c.1 < GRID_COLS {
                res.push(c);
            }
            i += 1;
        }
        proof {
            assert(cand@.take(8) =~= cand@);
            assert(res@ == filter_grid(cand@));
            assert(cand@ =~= nearby_cands(*self, *ef));
        }
        res
    }

    /// The continuous position of this cell's centre.
    pub fn to_field(self) -> (r: Field)
        requires
            on_grid(self.0 as int, self.1 as int),
        ensures
            r == field_of_cell(self),
    {
        Field::from_field_usize(self)
    }
}

/// The eight ordered one-step candidates of `get_nearby`, before the grid
/// restriction.
pub open spec fn nearby_cands(f: FieldUsize, ef: FieldUsize) -> Seq<FieldUsize> {
    let prefer_up = f.0 < 4;
    let prefer_right = f.1 < 7;
    let go_right = ef.1 > f.1;
    let go_up = ef.0 > f.0;
    if ef.0 == f.0 {
        seq![
            sp_edit_x(f, go_right),
            sp_edit_y(sp_edit_x(f, go_right), prefer_up),
            sp_edit_y(sp_edit_x(f, go_right), !prefer_up),
            sp_edit_y(f, prefer_up),
            sp_edit_y(f, !prefer_up),
            sp_edit_y(sp_edit_x(f, !go_right), prefer_up),
            sp_edit_y(sp_edit_x(f, !go_right), !prefer_up),
            sp_edit_x(f, !go_right),
        ]
    } else if ef.1 == f.1 {
        seq![
            sp_edit_y(f, go_up),
            sp_edit_x(sp_edit_y(f, go_up), prefer_right),
            sp_edit_x(sp_edit_y(f, go_up), !prefer_right),
            sp_edit_x(f, prefer_right),
            sp_edit_x(f, !prefer_right),
            sp_edit_x(sp_edit_y(f, !go_up), prefer_right),
            sp_edit_x(sp_edit_y(f, !go_up), !prefer_right),
            sp_edit_y(f, !go_up),
        ]
    } else {
        seq![
            sp_edit_x(sp_edit_y(f, go_up), go_right),
            sp_edit_y(f, go_up),
            sp_edit_x(f, go_right),
            sp_edit_x(sp_edit_y(f, !go_up), go_right),
            sp_edit_x(sp_edit_y(f, go_up), !go_right),
            sp_edit_y(f, !go_up),
            sp_edit_x(f, !go_right),
            sp_edit_x(sp_edit_y(f, !go_up), !go_right),
        ]
    }
}

/// The candidate order of `get_nearby`, restricted to the grid.
pub open spec fn nearby_seq(f: FieldUsize, ef: FieldUsize) -> Seq<FieldUsize> {
    filter_grid(nearby_cands(f, ef))
}

/// The cells of `s` that lie on the grid, in order.
pub open spec fn filter_grid(s: Seq<FieldUsize>) -> Seq<FieldUsize>
    decreases s.len(),
{
    if s.len() == 0 {
        Seq::empty()
    } else {
        filter_grid(s.drop_last()) + grid_filtered(s.last())
    }
}

proof fn lemma_filter_grid_push(s: Seq<FieldUsize>, c: FieldUsize)
    ensures
        filter_grid(s.push(c)) == filter_grid(s) + grid_filtered(c),
{
    assert(s.push(c).drop_last() =~= s);
    assert(s.push(c).last() == c);
}

/// Every cell that the grid restriction keeps lies on the grid.
pub proof fn lemma_filter_grid_elems(s: Seq<FieldUsize>)
    ensures
        forall|k: int|
            0 <= k < filter_grid(s).len() ==> on_grid(
                (#[trigger] filter_grid(s)[k]).0 as int,
                filter_grid(s)[k].1 as int,
            ),
    decreases s.len(),
{
    if s.len() > 0 {
        lemma_filter_grid_elems(s.drop_last());
        assert forall|k: int| 0 <= k < filter_grid(s).len() implies on_grid(
            (#[trigger] filter_grid(s)[k]).0 as int,
            filter_grid(s)[k].1 as int,
        ) by {
            if k < filter_grid(s.drop_last()).len() {
                assert(filter_grid(s)[k] == filter_grid(s.drop_last())[k]);
            } else {
                assert(on_grid(s.last().0 as int, s.last().1 as int));
            }
        }
    }
}

/// `edit_x` at specification level.
pub open spec fn sp_edit_x(f: FieldUsize, x: bool) -> FieldUsize {
    if x {
        FieldUsize(f.0, (f.1 + 1) as usize)
    } else if f.1 >= 1 {
        FieldUsize(f.0, (f.1 - 1) as usize)
    } else {
        f
    }
}

/// `edit_y` at specification level.
pub open spec fn sp_edit_y(f: FieldUsize, y: bool) -> FieldUsize {
    if y {
        FieldUsize((f.0 + 1) as usize, f.1)
    } else if f.0 >= 1 {
        FieldUsize((f.0 - 1) as usize, f.1)
    } else {
        f
    }
}

/// The neighbour cells of `f`, in row-major offset order.
pub open spec fn neighbors_seq(f: FieldUsize) -> Seq<FieldUsize> {
    off_cell(f, -1, -1) + off_cell(f, -1, 0) + off_cell(f, -1, 1) + off_cell(f, 0, -1) + off_cell(
        f,
        0,
        1,
    ) + off_cell(f, 1, -1) + off_cell(f, 1, 0) + off_cell(f, 1, 1)
}

/// Every enumerated neighbour lies on the grid.
pub proof fn lemma_neighbors_on_grid(f: FieldUsize)
    ensures
        forall|k: int|
            0 <= k < neighbors_seq(f).len() ==> on_grid(
                (#[trigger] neighbors_seq(f)[k]).0 as int,
                neighbors_seq(f)[k].1 as int,
            ),
{
    let s = neighbors_seq(f);
    assert forall|k: int| 0 <= k < s.len() implies on_grid(
        (#[trigger] s[k]).0 as int,
        s[k].1 as int,
    ) by {
        let a = off_cell(f, -1, -1) + off_cell(f, -1, 0) + off_cell(f, -1, 1) + off_cell(f, 0, -1)
            + off_cell(f, 0, 1) + off_cell(f, 1, -1) + off_cell(f, 1, 0);
        if k < a.len() {
            let b = off_cell(f, -1, -1) + off_cell(f, -1, 0) + off_cell(f, -1, 1) + off_cell(
                f,
                0,
                -1,
            ) + off_cell(f, 0, 1) + off_cell(f, 1, -1);
            if k < b.len() {
                let c = off_cell(f, -1, -1) + off_cell(f, -1, 0) + off_cell(f, -1, 1) + off_cell(
                    f,
                    0,
                    -1,
                ) + off_cell(f, 0, 1);
                if k < c.len() {
                    let d = off_cell(f, -1, -1) + off_cell(f, -1, 0) + off_cell(f, -1, 1)
                        + off_cell(f, 0, -1);
                    if k < d.len() {
                        let e = off_cell(f, -1, -1) + off_cell(f, -1, 0) + off_cell(f, -1, 1);
                        if k < e.len() {
                            let g = off_cell(f, -1, -1) + off_cell(f, -1, 0);
                            if k < g.len() {
                                if k < off_cell(f, -1, -1).len() {
                                } else {
                                }
                            } else {
                            }
                        } else {
                        }
                    } else {
                    }
                } else {
                }
            } else {
            }
        } else {
        }
    }
}

/// The singleton holding the cell at offset `(dr, dc)` from `f` if it lies on
/// the grid, else the empty sequence.
pub open spec fn off_cell(f: FieldUsize, dr: int, dc: int) -> Seq<FieldUsize> {
    if on_grid(f.0 + dr, f.1 + dc) {
        seq![FieldUsize((f.0 + dr) as usize, (f.1 + dc) as usize)]
    } else {
        Seq::empty()
    }
}

/// The continuous position of a cell's centre, in doubled cell units:
/// column 0 sits at x = -6.5, row 0 (rank 8) at y = 3.5.
pub open spec fn field_of_cell(f: FieldUsize) -> Field {
    Field((2 * f.1 - 13) as i32, (7 - 2 * f.0) as i32)
}

/// Whether `f` is the centre of some board cell: both doubled coordinates
/// odd and within the board frame.
pub open spec fn is_cell_field(f: Field) -> bool {
    &&& -13 <= f.0 <= 13
    &&& -7 <= f.1 <= 7
    &&& f.0 % 2 != 0
    &&& f.1 % 2 != 0
}

/// Every cell centre is recognized, and everything recognized is a cell
/// centre.
pub proof fn lemma_cell_field_exists(f: Field)
    requires
        is_cell_field(f),
    ensures
        exists|c: FieldUsize|
            on_grid(c.0 as int, c.1 as int) && #[trigger] field_of_cell(c) == f,
{
    let r = (7 - f.1) / 2;
    let c = (f.0 + 13) / 2;
    let cell = FieldUsize(r as usize, c as usize);
    assert(7 - f.1 == 2 * r) by {
        assert((7 - f.1) % 2 == 0);
        vstd::arithmetic::div_mod::lemma_fundamental_div_mod(7 - f.1, 2);
    }
    assert(f.0 + 13 == 2 * c) by {
        assert((f.0 + 13) % 2 == 0);
        vstd::arithmetic::div_mod::lemma_fundamental_div_mod(f.0 + 13, 2);
    }
    assert(on_grid(cell.0 as int, cell.1 as int));
    assert(field_of_cell(cell) == f);
}

/// A cell centre's doubled coordinates are odd and framed.
pub proof fn lemma_cell_field(c: FieldUsize)
    requires
        on_grid(c.0 as int, c.1 as int),
    ensures
        is_cell_field(field_of_cell(c)),
{
}

/// Every candidate `get_nearby` proposes lies within one cell of the
/// starting cell on each axis.
pub proof fn lemma_nearby_within_one(f: FieldUsize, ef: FieldUsize)
    requires
        f.0 < usize::MAX - 1,
        f.1 < usize::MAX - 1,
    ensures
        forall|k: int|
            0 <= k < nearby_seq(f, ef).len() ==> {
                &&& -1 <= (#[trigger] nearby_seq(f, ef)[k]).0 - f.0 <= 1
                &&& -1 <= nearby_seq(f, ef)[k].1 - f.1 <= 1
            },
{
    let cands = nearby_cands(f, ef);
    assert forall|m: int| 0 <= m < cands.len() implies {
        &&& -1 <= (#[trigger] cands[m]).0 - f.0 <= 1
        &&& -1 <= cands[m].1 - f.1 <= 1
    } by {
        assert(cands.len() == 8);
        assert(m == 0 || m == 1 || m == 2 || m == 3 || m == 4 || m == 5 || m == 6 || m == 7);
    }
    lemma_filter_grid_subset(cands);
    assert forall|k: int| 0 <= k < nearby_seq(f, ef).len() implies {
        &&& -1 <= (#[trigger] nearby_seq(f, ef)[k]).0 - f.0 <= 1
        &&& -1 <= nearby_seq(f, ef)[k].1 - f.1 <= 1
    } by {
        let m = choose|m: int|
            0 <= m < cands.len() && cands[m] == nearby_seq(f, ef)[k];
    }
}

/// Everything the grid restriction keeps was among the candidates.
pub proof fn lemma_filter_grid_subset(s: Seq<FieldUsize>)
    ensures
        forall|k: int|
            0 <= k < filter_grid(s).len() ==> exists|m: int|
                0 <= m < s.len() && s[m] == #[trigger] filter_grid(s)[k],
    decreases s.len(),
{
    if s.len() > 0 {
        lemma_filter_grid_subset(s.drop_last());
        assert forall|k: int| 0 <= k < filter_grid(s).len() implies exists|m: int|
            0 <= m < s.len() && s[m] == #[trigger] filter_grid(s)[k] by {
            if k < filter_grid(s.drop_last()).len() {
                assert(filter_grid(s)[k] == filter_grid(s.drop_last())[k]);
                let m = choose|m: int|
                    0 <= m < s.drop_last().len() && s.drop_last()[m] == filter_grid(
                        s.drop_last(),
                    )[k];
                assert(s[m] == filter_grid(s)[k]);
            } else {
                assert(filter_grid(s)[k] == s.last());
                assert(s[s.len() - 1] == filter_grid(s)[k]);
            }
        }
    }
}

/// A continuous head position on the half-cell lattice, stored doubled:
/// `Field(x2, y2)` is the point `(x2 / 2, y2 / 2)` in cell units, with the
/// origin at the centre of the playing window.
#[derive(Debug, Clone, Copy, PartialEq, Eq, Structural)]
pub struct Field(pub i32, pub i32);

impl Field {
    /// Builds a position from doubled cell coordinates.
    pub fn from_halves(x2: i32, y2: i32) -> (r: Self)
        ensures
            r == (Field(x2, y2)),
    {
        Field(x2, y2)
    }

    /// The centre of the cell with index `ind`; see `field_of_cell`. The
    /// index may lie one staging row beyond the grid.
    pub fn ind_to_relative_ind(ind: (usize, usize)) -> (r: Self)
        requires
            ind.0 <= 100,
            ind.1 <= 100,
        ensures
            r == field_of_cell(FieldUsize(ind.0, ind.1)),
    {
        let x2: i32 = 2 * (ind.1 as i32) - 13;
        let y2: i32 = 7 - 2 * (ind.0 as i32);
        Field(x2, y2)
    }

    /// The centre of the cell `f`; the cell may lie one staging row beyond
    /// the grid.
    pub fn from_field_usize(f: FieldUsize) -> (r: Self)
        requires
            f.0 <= 100,
            f.1 <= 100,
        ensures
            r == field_of_cell(f),
    {
        Field::ind_to_relative_ind((f.0, f.1))
    }

    /// The doubled coordinates `(x2, y2)`.
    pub fn to_tuple(&self) -> (r: (i32, i32))
        ensures
            r == (self.0, self.1),
    {
        (self.0, self.1)
    }

    /// The componentwise difference `self - rhs`.
    pub fn minus(self, rhs: Self) -> (r: Self)
        requires
            i32::MIN <= self.0 - rhs.0 <= i32::MAX,
            i32::MIN <= self.1 - rhs.1 <= i32::MAX,
        ensures
            r == (Field((self.0 - rhs.0) as i32, (self.1 - rhs.1) as i32)),
    {
        Field(self.0 - rhs.0, self.1 - rhs.1)
    }

    /// The componentwise sum `self + rhs`.
    pub fn plus(self, rhs: Self) -> (r: Self)
        requires
            i32::MIN <= self.0 + rhs.0 <= i32::MAX,
            i32::MIN <= self.1 + rhs.1 <= i32::MAX,
        ensures
            r == (Field((self.0 + rhs.0) as i32, (self.1 + rhs.1) as i32)),
    {
        Field(self.0 + rhs.0, self.1 + rhs.1)
    }
}

/// The motor steps for a displacement of `h` half-cells: the exact rounding
/// of `900000 * h / 2827`, half away from zero (the quotient is never exactly
/// half, so every rounding rule agrees).
pub open spec fn steps_of(h: int) -> int {
    if h >= 0 {
        (1800000 * h + 2827) / 5654
    } else {
        -((1800000 * (-h) + 2827) / 5654)
    }
}

/// The half-cell count whose step count is nearest to `p` motor steps: the
/// rounding of `2827 * p / 900000`, half away from zero.
pub open spec fn halves_of_steps(p: int) -> int {
    if p >= 0 {
        (5654 * p + 900000) / 1800000
    } else {
        -((5654 * (-p) + 900000) / 1800000)
    }
}

/// The bound within which displacements are converted to steps; it covers
/// the whole board many times over.
pub const HALVES_LIMIT: i32 = 100000;

/// The step count for a displacement of `h` half-cells, as an unsigned count;
/// a negative displacement yields zero.
pub fn fields_to_steps(h: i32) -> (r: u32)
    requires
        -HALVES_LIMIT <= h <= HALVES_LIMIT,
    ensures
        r == if h >= 0 {
            steps_of(h as int)
        } else {
            0
        },
{
    if h <= 0 {
        0
    } else {
        ((1800000i64 * (h as i64) + 2827) / 5654) as u32
    }
}

/// The step formula misses the exact ratio `900000 * h / 2827` by less than
/// half a step: `|2827 * steps_of(h) - 900000 * h| <= 1413`.
pub proof fn lemma_steps_err(h: int)
    ensures
        -1413 <= 2827 * steps_of(h) - 900000 * h <= 1413,
{
    if h >= 0 {
        let t = 1800000 * h + 2827;
        let q = t / 5654;
        let r = t % 5654;
        vstd::arithmetic::div_mod::lemma_fundamental_div_mod(t, 5654);
        vstd::arithmetic::div_mod::lemma_mod_bound(t, 5654);
        assert(5654 * q == 2 * (2827 * q));
    } else {
        let t = 1800000 * (-h) + 2827;
        let q = t / 5654;
        let r = t % 5654;
        vstd::arithmetic::div_mod::lemma_fundamental_div_mod(t, 5654);
        vstd::arithmetic::div_mod::lemma_mod_bound(t, 5654);
        assert(5654 * q == 2 * (2827 * q));
    }
}

/// A linear bound on the step count: `|h| <= l` keeps `steps_of(h)` within
/// `319 * l + 1` steps.
pub proof fn lemma_steps_bound(h: int, l: int)
    requires
        0 <= l,
        -l <= h <= l,
    ensures
        -319 * l - 1 <= steps_of(h) <= 319 * l + 1,
{
    lemma_steps_err(h);
}

/// Converting two displacements separately costs at most one step against
/// converting their sum at once.
pub proof fn lemma_steps_add(a: int, b: int)
    ensures
        -1 <= steps_of(a) + steps_of(b) - steps_of(a + b) <= 1,
{
    lemma_steps_err(a);
    lemma_steps_err(b);
    lemma_steps_err(a + b);
}

/// Any step position within 158 steps of a half-cell's step position is
/// mapped back to that half-cell.
pub proof fn lemma_halves_inverse(p: int, h: int)
    requires
        -158 <= p - steps_of(h) <= 158,
    ensures
        halves_of_steps(p) == h,
{
    lemma_steps_err(h);
    assert(-448079 <= 2827 * p - 900000 * h <= 448079);
    assert(-896158 <= 5654 * p - 1800000 * h <= 896158);
    if p >= 0 {
        let t = 5654 * p + 900000;
        let q = t / 1800000;
        vstd::arithmetic::div_mod::lemma_fundamental_div_mod(t, 1800000);
        vstd::arithmetic::div_mod::lemma_mod_bound(t, 1800000);
        assert(1800000 * q - 1800000 * h == (t - t % 1800000) - 1800000 * h);
        assert(-1800000 < 1800000 * (q - h) < 1800000) by {
            assert(1800000 * q - 1800000 * h == 1800000 * (q - h));
        }
    } else {
        let t = 5654 * (-p) + 900000;
        let q = t / 1800000;
        vstd::arithmetic::div_mod::lemma_fundamental_div_mod(t, 1800000);
        vstd::arithmetic::div_mod::lemma_mod_bound(t, 1800000);
        assert(-896158 <= 5654 * (-p) - 1800000 * (-h) <= 896158);
        assert(1800000 * q - 1800000 * (-h) == (t - t % 1800000) - 1800000 * (-h));
        assert(-1800000 < 1800000 * (q - (-h)) < 1800000) by {
            assert(1800000 * q - 1800000 * (-h) == 1800000 * (q - (-h)));
        }
    }
}

/// A linear bound on the inverse: `|p| <= l` keeps `halves_of_steps(p)`
/// within `l / 318 + 2`.
pub proof fn lemma_halves_bound(p: int, l: int)
    requires
        0 <= l,
        -l <= p <= l,
    ensures
        -(l / 318) - 2 <= halves_of_steps(p) <= l / 318 + 2,
{
    lemma_halves_residual(p);
    let h = halves_of_steps(p);
    lemma_steps_err(h);
    let b = l / 318;
    vstd::arithmetic::div_mod::lemma_fundamental_div_mod(l, 318);
    vstd::arithmetic::div_mod::lemma_mod_bound(l, 318);
    assert(l <= 318 * b + 317);
    assert(-(l + 159) <= steps_of(h) <= l + 159);
    assert(-(2827 * (l + 159)) - 1413 <= 900000 * h <= 2827 * (l + 159) + 1413);
    assert(900000 * h <= 2827 * (318 * b + 317 + 159) + 1413);
    assert(900000 * h <= 898986 * b + 1347065);
    assert(b >= 0);
    assert(898986 * b <= 900000 * b);
    assert(900000 * h <= 900000 * b + 1347065);
    assert(h <= b + 2);
    assert(-(900000 * b) - 1347065 <= 900000 * h);
    assert(-(b + 2) <= h);
}

/// Every step position lies within 159 steps of the step position of the
/// half-cell it is mapped back to.
pub proof fn lemma_halves_residual(p: int)
    ensures
        -159 <= p - steps_of(halves_of_steps(p)) <= 159,
{
    let h = halves_of_steps(p);
    lemma_steps_err(h);
    if p >= 0 {
        let t = 5654 * p + 900000;
        let q = t / 1800000;
        vstd::arithmetic::div_mod::lemma_fundamental_div_mod(t, 1800000);
        vstd::arithmetic::div_mod::lemma_mod_bound(t, 1800000);
        assert(1800000 * q == 2 * (900000 * q));
        assert(2 * (2827 * p - 900000 * q) == t % 1800000 - 900000);
        assert(-450000 <= 2827 * p - 900000 * q <= 450000);
    } else {
        let t = 5654 * (-p) + 900000;
        let q = t / 1800000;
        vstd::arithmetic::div_mod::lemma_fundamental_div_mod(t, 1800000);
        vstd::arithmetic::div_mod::lemma_mod_bound(t, 1800000);
        assert(1800000 * q == 2 * (900000 * q));
        assert(2 * (2827 * (-p) - 900000 * q) == t % 1800000 - 900000);
        assert(-450000 <= 2827 * (-p) - 900000 * q <= 450000);
    }
    assert(-450000 <= 2827 * p - 900000 * h <= 450000);
    assert(-451413 <= 2827 * (p - steps_of(h)) <= 451413) by {
        assert(2827 * (p - steps_of(h)) == (2827 * p - 900000 * h) - (2827 * steps_of(h) - 900000
            * h));
    }
}

/// The signed step count for a displacement of `h` half-cells.
pub fn fields_to_steps_signed(h: i32) -> (r: i32)
    requires
        -HALVES_LIMIT <= h <= HALVES_LIMIT,
    ensures
        r == steps_of(h as int),
{
    if h >= 0 {
        ((1800000i64 * (h as i64) + 2827) / 5654) as i32
    } else {
        let m: i64 = -(h as i64);
        (-((1800000i64 * m + 2827) / 5654)) as i32
    }
}

} // verus!

