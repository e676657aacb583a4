//! The occupancy map: per cell, whether it is occupied and how many of its
//! in-bounds neighbours are free. The pathfinder queries and locally
//! mutates a copy of it; the canonical map is always derived fresh from the
//! board.

use vstd::prelude::*;

use crate::board::{grid_view, Position};
use crate::coords::{on_grid, FieldUsize};
use crate::pieces::Piece;

verus! {

/// The occupancy map: 8 rows of 14 cells `(occupied, free_neighbour_count)`.
#[derive(Debug)]
pub struct BitList(pub Vec<[(bool, u8); 14]>);

/// The map's cells as a sequence of rows.
pub open spec fn bl_view(b: BitList) -> Seq<Seq<(bool, u8)>> {
    b.0@.map_values(|r: [(bool, u8); 14]| r@)
}

/// Whether the map has its 8 rows.
pub open spec fn bl_wf(b: BitList) -> bool {
    b.0@.len() == 8
}

/// Whether the cell `(r, c)` of the board grid holds a piece.
pub open spec fn cell_occupied(g: Seq<Seq<Piece>>, r: int, c: int) -> bool {
    on_grid(r, c) && g[r][c] != Piece::Empty
}

/// One neighbour's contribution to the free-neighbour count: one when the
/// cell lies on the grid and is free.
pub open spec fn free_term(g: Seq<Seq<Piece>>, r: int, c: int) -> int {
    if on_grid(r, c) && g[r][c] == Piece::Empty {
        1
    } else {
        0
    }
}

/// The number of in-bounds neighbours of `(r, c)` that hold no piece.
pub open spec fn free_nbrs(g: Seq<Seq<Piece>>, r: int, c: int) -> int {
    free_term(g, r - 1, c - 1) + free_term(g, r - 1, c) + free_term(g, r - 1, c + 1) + free_term(
        g,
        r,
        c - 1,
    ) + free_term(g, r, c + 1) + free_term(g, r + 1, c - 1) + free_term(g, r + 1, c)
        + free_term(g, r + 1, c + 1)
}

/// The view with one cell replaced, when it lies on the grid.
pub open spec fn bl_set(v: Seq<Seq<(bool, u8)>>, r: int, c: int, cell: (bool, u8)) -> Seq<
    Seq<(bool, u8)>,
> {
    if on_grid(r, c) {
        v.update(r, v[r].update(c, cell))
    } else {
        v
    }
}

/// Marking a list of cells unoccupied, in order; out-of-bounds cells are
/// ignored.
pub open spec fn bl_remove(v: Seq<Seq<(bool, u8)>>, cells: Seq<(usize, usize)>) -> Seq<
    Seq<(bool, u8)>,
>
    decreases cells.len(),
{
    if cells.len() == 0 {
        v
    } else {
        let w = bl_remove(v, cells.drop_last());
        let (r, c) = cells.last();
        if on_grid(r as int, c as int) {
            bl_set(w, r as int, c as int, (false, w[r as int][c as int].1))
        } else {
            w
        }
    }
}

/// Marking a list of cells occupied, in order; out-of-bounds cells are
/// ignored.
pub open spec fn bl_add(v: Seq<Seq<(bool, u8)>>, cells: Seq<(usize, usize)>) -> Seq<
    Seq<(bool, u8)>,
>
    decreases cells.len(),
{
    if cells.len() == 0 {
        v
    } else {
        let w = bl_add(v, cells.drop_last());
        let (r, c) = cells.last();
        if on_grid(r as int, c as int) {
            bl_set(w, r as int, c as int, (true, w[r as int][c as int].1))
        } else {
            w
        }
    }
}

/// Ticking down a list of cells, in order: the free-neighbour count drops
/// by one; a cell whose count would reach zero is promoted to occupied
/// instead. Out-of-bounds cells are ignored.
pub open spec fn bl_tick(v: Seq<Seq<(bool, u8)>>, cells: Seq<(usize, usize)>) -> Seq<
    Seq<(bool, u8)>,
>
    decreases cells.len(),
{
    if cells.len() == 0 {
        v
    } else {
        let w = bl_tick(v, cells.drop_last());
        let (r, c) = cells.last();
        if on_grid(r as int, c as int) {
            let cell = w[r as int][c as int];
            if cell.1 > 1 {
                bl_set(w, r as int, c as int, (cell.0, (cell.1 - 1) as u8))
            } else {
                bl_set(w, r as int, c as int, (true, cell.1))
            }
        } else {
            w
        }
    }
}

/// Whether the map marks the cell occupied; cells outside the grid or
/// beyond the map's rows answer `false`.
pub open spec fn bl_occ(v: Seq<Seq<(bool, u8)>>, r: int, c: int) -> bool {
    if on_grid(r, c) && r < v.len() {
        v[r][c].0
    } else {
        false
    }
}

/// The occupied-cell count of one row between columns `c` and `c2`
/// (inclusive).
pub open spec fn row_count(row: Seq<(bool, u8)>, c: int, c2: int) -> int
    decreases c2 + 1 - c,
{
    if c > c2 {
        0
    } else {
        (if row[c].0 {
            1int
        } else {
            0
        }) + row_count(row, c + 1, c2)
    }
}

/// The occupied-cell count of the rectangle with rows `r..=r2` and columns
/// `c..=c2`.
pub open spec fn rect_count(v: Seq<Seq<(bool, u8)>>, r: int, r2: int, c: int, c2: int) -> int
    decreases r2 + 1 - r,
{
    if r > r2 {
        0
    } else {
        row_count(v[r], c, c2) + rect_count(v, r + 1, r2, c, c2)
    }
}

/// A row's occupied count is bounded by its width.
proof fn lemma_row_bound(row: Seq<(bool, u8)>, c: int, c2: int)
    ensures
        0 <= row_count(row, c, c2),
        row_count(row, c, c2) <= (if c2 + 1 - c >= 0 {
            c2 + 1 - c
        } else {
            0
        }),
    decreases c2 + 1 - c,
{
    if c <= c2 {
        lemma_row_bound(row, c + 1, c2);
    }
}

/// A rectangle's occupied count is bounded by the number of grid cells.
pub proof fn lemma_rect_bound(v: Seq<Seq<(bool, u8)>>, r: int, r2: int, c: int, c2: int)
    requires
        0 <= r,
        r2 <= 7,
        0 <= c,
        c2 <= 13,
    ensures
        0 <= rect_count(v, r, r2, c, c2) <= 112,
    decreases r2 + 1 - r,
{
    if r <= r2 {
        lemma_row_bound(v[r], c, c2);
        lemma_rect_bound_inner(v, r + 1, r2, c, c2);
    }
}

/// The row-by-row bound behind `lemma_rect_bound`.
proof fn lemma_rect_bound_inner(v: Seq<Seq<(bool, u8)>>, r: int, r2: int, c: int, c2: int)
    requires
        0 <= c,
        c2 <= 13,
    ensures
        0 <= rect_count(v, r, r2, c, c2),
        rect_count(v, r, r2, c, c2) <= 14 * (if r2 + 1 - r >= 0 {
            r2 + 1 - r
        } else {
            0
        }),
    decreases r2 + 1 - r,
{
    if r <= r2 {
        lemma_row_bound(v[r], c, c2);
        lemma_rect_bound_inner(v, r + 1, r2, c, c2);
    }
}

/// Ticking down never frees a cell: every cell the map marked occupied
/// stays occupied, and the map keeps its shape.
pub proof fn lemma_tick_monotone(v: Seq<Seq<(bool, u8)>>, cells: Seq<(usize, usize)>)
    requires
        v.len() == 8,
        forall|r: int| 0 <= r < v.len() ==> (#[trigger] v[r]).len() == 14,
    ensures
        bl_tick(v, cells).len() == v.len(),
        forall|r: int|
            0 <= r < v.len() ==> (#[trigger] bl_tick(v, cells)[r]).len() == v[r].len(),
        forall|r: int, c: int|
            bl_occ(v, r, c) ==> #[trigger] bl_occ(bl_tick(v, cells), r, c),
    decreases cells.len(),
{
    if cells.len() > 0 {
        lemma_tick_monotone(v, cells.drop_last());
        let w = bl_tick(v, cells.drop_last());
        let t = bl_tick(v, cells);
        let (rr, cc) = cells.last();
        if on_grid(rr as int, cc as int) {
            let cellv = w[rr as int][cc as int];
            if cellv.1 > 1 {
                assert(t == bl_set(w, rr as int, cc as int, (cellv.0, (cellv.1 - 1) as u8)));
            } else {
                assert(t == bl_set(w, rr as int, cc as int, (true, cellv.1)));
            }
            assert forall|r: int, c: int| bl_occ(v, r, c) implies #[trigger] bl_occ(t, r, c) by {
                assert(bl_occ(w, r, c));
                if r == rr as int && c == cc as int {
                    assert(t[r][c].0);
                } else if r == rr as int {
                    assert(t[r][c] == w[r][c]);
                } else {
                    assert(t[r] == w[r]);
                }
            }
        }
    }
}

/// The smaller of two numbers first.
fn ord(a: usize, b: usize) -> (r: (usize, usize))
    ensures
        r.0 == if a < b {
            a
        } else {
            b
        },
        r.1 == if a < b {
            b
        } else {
            a
        },
{
    if a < b {
        (a, b)
    } else {
        (b, a)
    }
}

impl BitList {
    /// An all-free map: every cell unoccupied with eight free neighbours.
    pub fn new() -> (r: Self)
        ensures
            bl_wf(r),
            forall|i: int, j: int|
                on_grid(i, j) ==> #[trigger] bl_view(r)[i][j] == (false, 8u8),
    {
        let row: [(bool, u8); 14] = [(false, 8u8); 14];
        let v: Vec<[(bool, u8); 14]> = vec![row, row, row, row, row, row, row, row];
        let r = BitList(v);
        proof {
            assert forall|i: int, j: int| on_grid(i, j) implies #[trigger] bl_view(r)[i][j] == (
                false,
                8u8,
            ) by {
                assert(bl_view(r)[i] == v@[i]@);
            }
        }
        r
    }

    /// Derives the map from a board: a cell is occupied where a piece
    /// stands, and its count is the number of its in-bounds neighbours
    /// with no piece on them.
    pub fn from_pos(position: &Position) -> (r: Self)
        ensures
            bl_wf(r),
            forall|i: int, j: int|
                on_grid(i, j) ==> {
                    &&& (#[trigger] bl_view(r)[i][j]).0 == cell_occupied(
                        grid_view(position.fields),
                        i,
                        j,
                    )
                    &&& bl_view(r)[i][j].1 == free_nbrs(grid_view(position.fields), i, j)
                },
    {
        let ghost g = grid_view(position.fields);
        let mut v: Vec<[(bool, u8); 14]> = Vec::new();
        let mut i: usize = 0;
        while i < 8
            invariant
                i <= 8,
                v@.len() == i,
                g == grid_view(position.fields),
                forall|a: int, b: int|
                    0 <= a < i && 0 <= b < 14 ==> {
                        &&& (#[trigger] v@[a]@[b]).0 == cell_occupied(g, a, b)
                        &&& v@[a]@[b].1 == free_nbrs(g, a, b)
                    },
            decreases 8 - i,
        {
            let mut row: [(bool, u8); 14] = [(false, 8u8); 14];
            let mut j: usize = 0;
            while j < 14
                invariant
                    i < 8,
                    j <= 14,
                    g == grid_view(position.fields),
                    forall|b: int|
                        0 <= b < j ==> {
                            &&& (#[trigger] row@[b]).0 == cell_occupied(g, i as int, b)
                            &&& row@[b].1 == free_nbrs(g, i as int, b)
                        },
                decreases 14 - j,
            {
                let occ = !position.field_is_empty((i, j));
                let cnt = count_free_neighbors(position, i, j);
                row.set(j, (occ, cnt));
                j += 1;
            }
            v.push(row);
            i += 1;
        }
        let r = BitList(v);
        proof {
            assert forall|a: int, b: int| on_grid(a, b) implies {
                &&& (#[trigger] bl_view(r)[a][b]).0 == cell_occupied(g, a, b)
                &&& bl_view(r)[a][b].1 == free_nbrs(g, a, b)
            } by {
                assert(bl_view(r)[a] == v@[a]@);
            }
        }
        r
    }

    /// Applies a batch of occupancy edits: `to_remove` marks cells free,
    /// `to_add` marks cells occupied, and `to_count` ticks the
    /// free-neighbour count down, promoting a cell whose count would reach
    /// zero to occupied. Out-of-bounds cells are silently ignored.
    pub fn update(
        &mut self,
        to_remove: Vec<(usize, usize)>,
        to_add: Vec<(usize, usize)>,
        to_count: Vec<(usize, usize)>,
    )
        requires
            bl_wf(*old(self)),
        ensures
            bl_wf(*final(self)),
            bl_view(*final(self)) == bl_tick(
                bl_add(bl_remove(bl_view(*old(self)), to_remove@), to_add@),
                to_count@,
            ),
    {
        let ghost v0 = bl_view(*old(self));
        let mut k: usize = 0;
        while k < to_remove.len()
            invariant
                k <= to_remove@.len(),
                bl_wf(*self),
                v0 == bl_view(*old(self)),
                bl_view(*self) == bl_remove(v0, to_remove@.take(k as int)),
            decreases to_remove@.len() - k,
        {
            let (y, x) = to_remove[k];
            proof {
                assert(to_remove@.take(k + 1).drop_last() =~= to_remove@.take(k as int));
                assert(to_remove@.take(k + 1).last() == to_remove@[k as int]);
            }
            if y < 8 && x < 14 {
                self.put(y, x, (false, self.at(y, x).1));
            }
            k += 1;
        }
        proof {
            assert(to_remove@.take(to_remove@.len() as int) =~= to_remove@);
        }
        let ghost v1 = bl_view(*self);
        let mut k: usize = 0;
        while k < to_add.len()
            invariant
                k <= to_add@.len(),
                bl_wf(*self),
                v1 == bl_remove(v0, to_remove@),
                v0 == bl_view(*old(self)),
                bl_view(*self) == bl_add(v1, to_add@.take(k as int)),
            decreases to_add@.len() - k,
        {
            let (y, x) = to_add[k];
            proof {
                assert(to_add@.take(k + 1).drop_last() =~= to_add@.take(k as int));
                assert(to_add@.take(k + 1).last() == to_add@[k as int]);
            }
            if y < 8 && x < 14 {
                self.put(y, x, (true, self.at(y, x).1));
            }
            k += 1;
        }
        proof {
            assert(to_add@.take(to_add@.len() as int) =~= to_add@);
        }
        let ghost v2 = bl_view(*self);
        let mut k: usize = 0;
        while k < to_count.len()
            invariant
                k <= to_count@.len(),
                bl_wf(*self),
                v2 == bl_add(bl_remove(v0, to_remove@), to_add@),
                v0 == bl_view(*old(self)),
                bl_view(*self) == bl_tick(v2, to_count@.take(k as int)),
            decreases to_count@.len() - k,
        {
            let (y, x) = to_count[k];
            proof {
                assert(to_count@.take(k + 1).drop_last() =~= to_count@.take(k as int));
                assert(to_count@.take(k + 1).last() == to_count@[k as int]);
            }
            if y < 8 && x < 14 {
                let cell = self.at(y, x);
                if cell.1 > 1 {
                    self.put(y, x, (cell.0, cell.1 - 1));
                } else {
                    self.put(y, x, (true, cell.1));
                }
            }
            k += 1;
        }
        proof {
            assert(to_count@.take(to_count@.len() as int) =~= to_count@);
        }
    }

    /// One cell of the map.
    fn at(&self, y: usize, x: usize) -> (r: (bool, u8))
        requires
            bl_wf(*self),
            y < 8,
            x < 14,
        ensures
            r == bl_view(*self)[y as int][x as int],
    {
        proof {
            assert(bl_view(*self)[y as int] == self.0@[y as int]@);
        }
        self.0[y][x]
    }

    /// Replaces one cell of the map.
    fn put(&mut self, y: usize, x: usize, cell: (bool, u8))
        requires
            bl_wf(*old(self)),
            y < 8,
            x < 14,
        ensures
            bl_wf(*final(self)),
            bl_view(*final(self)) == bl_set(bl_view(*old(self)), y as int, x as int, cell),
    {
        let mut row = self.0[y];
        row.set(x, cell);
        self.0[y] = row;
        proof {
            assert(bl_view(*self) =~~= bl_set(bl_view(*old(self)), y as int, x as int, cell));
        }
    }

    /// Whether the map marks the cell occupied; out-of-bounds coordinates
    /// answer `false`.
    pub fn check_coords(&self, yx: (usize, usize)) -> (r: bool)
        ensures
            r == bl_occ(bl_view(*self), yx.0 as int, yx.1 as int),
    {
        let (y, x) = yx;
        if y < 8 && x < 14 && y < self.0.len() {
            proof {
                assert(bl_view(*self)[y as int] == self.0@[y as int]@);
            }
            self.0[y][x].0
        } else {
            false
        }
    }

    /// Whether the map marks the cell occupied.
    pub fn check_field(&self, f: FieldUsize) -> (r: bool)
        ensures
            r == bl_occ(bl_view(*self), f.0 as int, f.1 as int),
    {
        self.check_coords(f.to_tuple())
    }

    /// The free-neighbour count of the cell; out-of-bounds coordinates
    /// answer zero.
    pub fn check_coords_num(&self, yx: (usize, usize)) -> (r: u8)
        requires
            bl_wf(*self),
        ensures
            r == if on_grid(yx.0 as int, yx.1 as int) {
                bl_view(*self)[yx.0 as int][yx.1 as int].1
            } else {
                0u8
            },
    {
        let (y, x) = yx;
        if y < 8 && x < 14 {
            self.at(y, x).1
        } else {
            0
        }
    }

    /// The free-neighbour count of the cell.
    pub fn check_field_num(&self, f: FieldUsize) -> (r: u8)
        requires
            bl_wf(*self),
        ensures
            r == if on_grid(f.0 as int, f.1 as int) {
                bl_view(*self)[f.0 as int][f.1 as int].1
            } else {
                0u8
            },
    {
        self.check_coords_num(f.to_tuple())
    }

    /// The number of occupied cells in the inclusive rectangle spanned by
    /// `f1` and `f2`.
    pub fn count_area(&self, f1: FieldUsize, f2: FieldUsize) -> (res: usize)
        requires
            bl_wf(*self),
            on_grid(f1.0 as int, f1.1 as int),
            on_grid(f2.0 as int, f2.1 as int),
        ensures
            ({
                let r1 = if f1.0 < f2.0 {
                    f1.0 as int
                } else {
                    f2.0 as int
                };
                let r2 = if f1.0 < f2.0 {
                    f2.0 as int
                } else {
                    f1.0 as int
                };
                let c1 = if f1.1 < f2.1 {
                    f1.1 as int
                } else {
                    f2.1 as int
                };
                let c2 = if f1.1 < f2.1 {
                    f2.1 as int
                } else {
                    f1.1 as int
                };
                res == rect_count(bl_view(*self), r1, r2, c1, c2)
            }),
            res <= 112,
    {
        let (r1, r2) = ord(f1.0, f2.0);
        let (c1, c2) = ord(f1.1, f2.1);
        let mut res: usize = 0;
        let mut y = r1;
        proof {
            assert(rect_count(bl_view(*self), r2 + 1, r2 as int, c1 as int, c2 as int) == 0);
        }
        while y <= r2
            invariant
                r1 <= y <= r2 + 1,
                r2 < 8,
                c1 <= c2 < 14,
                bl_wf(*self),
                res <= 112 * (y - r1),
                res + rect_count(bl_view(*self), y as int, r2 as int, c1 as int, c2 as int)
                    == rect_count(bl_view(*self), r1 as int, r2 as int, c1 as int, c2 as int),
            decreases r2 + 1 - y,
        {
            let mut x = c1;
            proof {
                assert(row_count(bl_view(*self)[y as int], c2 + 1, c2 as int) == 0);
                lemma_rect_unfold(bl_view(*self), y as int, r2 as int, c1 as int, c2 as int);
            }
            while x <= c2
                invariant
                    c1 <= x <= c2 + 1,
                    c2 < 14,
                    y <= r2 < 8,
                    r1 <= y,
                    bl_wf(*self),
                    res <= 112 * (y - r1) + (x - c1),
                    res + row_count(bl_view(*self)[y as int], x as int, c2 as int) + rect_count(
                        bl_view(*self),
                        y + 1,
                        r2 as int,
                        c1 as int,
                        c2 as int,
                    ) == rect_count(bl_view(*self), r1 as int, r2 as int, c1 as int, c2 as int),
                decreases c2 + 1 - x,
            {
                if self.at(y, x).0 {
                    res += 1;
                }
                x += 1;
            }
            y += 1;
        }
        proof {
            lemma_rect_bound(bl_view(*self), r1 as int, r2 as int, c1 as int, c2 as int);
        }
        res
    }
}

/// A rectangle's count is its first row's count plus the rest.
proof fn lemma_rect_unfold(v: Seq<Seq<(bool, u8)>>, r: int, r2: int, c: int, c2: int)
    requires
        r <= r2,
    ensures
        rect_count(v, r, r2, c, c2) == row_count(v[r], c, c2) + rect_count(v, r + 1, r2, c, c2),
{
}

/// Counts the free in-bounds neighbours of `(i, j)` on the board.
fn count_free_neighbors(position: &Position, i: usize, j: usize) -> (r: u8)
    requires
        i < 8,
        j < 14,
    ensures
        r == free_nbrs(grid_view(position.fields), i as int, j as int),
{
    let mut cnt: u8 = 0;
    if i >= 1 && j >= 1 && position.field_is_empty((i - 1, j - 1)) {
        cnt += 1;
    }
    if i >= 1 && position.field_is_empty((i - 1, j)) {
        cnt += 1;
    }
    if i >= 1 && j + 1 < 14 && position.field_is_empty((i - 1, j + 1)) {
        cnt += 1;
    }
    if j >= 1 && position.field_is_empty((i, j - 1)) {
        cnt += 1;
    }
    if j + 1 < 14 && position.field_is_empty((i, j + 1)) {
        cnt += 1;
    }
    if i + 1 < 8 && j >= 1 && position.field_is_empty((i + 1, j - 1)) {
        cnt += 1;
    }
    if i + 1 < 8 && position.field_is_empty((i + 1, j)) {
        cnt += 1;
    }
    if i + 1 < 8 && j + 1 < 14 && position.field_is_empty((i + 1, j + 1)) {
        cnt += 1;
    }
    cnt
}

} // verus!
