//! The pathfinder: cell paths across the occupancy map, and their
//! compilation to motor instructions.
//!
//! A piece travels from cell to cell; a step may be orthogonal or diagonal.
//! The custom search walks toward the target through free cells, the
//! displacement fallback moves obstacles aside and back, and the castling
//! planner realizes the king-around-rook manoeuvre on the back ranks.

use vstd::prelude::*;

use crate::bitlist::{bl_occ, bl_view, bl_wf, BitList};
use crate::board::{PFError, PFIType, Position};
use crate::coords::{on_grid, Field, FieldUsize};
use crate::motor::{
    in_pos_window, net_x, net_y, MotorInstructions, PosNow, Speeds,
};
use crate::pieces::Piece;

verus! {

/// Whether every cell of the path lies on the grid.
pub open spec fn all_on_grid(s: Seq<FieldUsize>) -> bool {
    forall|k: int| 0 <= k < s.len() ==> on_grid((#[trigger] s[k]).0 as int, s[k].1 as int)
}

/// Whether every instruction of a transport plan is either a magnet-off
/// repositioning at `NoFigurespeed` or a magnet-on carry at
/// `Transportspeed`.
pub open spec fn transport_discipline(s: Seq<crate::motor::MotorMoveType>) -> bool {
    forall|k: int|
        0 <= k < s.len() ==> {
            let m = crate::motor::mm_of(#[trigger] s[k]);
            (m.speed == Speeds::NoFigurespeed && !m.magnet) || (m.speed == Speeds::Transportspeed
                && m.magnet)
        }
}

/// Whether `b` is exactly one cell away from `a` along one axis.
pub open spec fn is_unit_axis_step(a: FieldUsize, b: FieldUsize) -> bool {
    (a.0 == b.0 && (a.1 + 1 == b.1 || b.1 + 1 == a.1)) || (a.1 == b.1 && (a.0 + 1 == b.0 || b.0
        + 1 == a.0))
}

/// Whether every consecutive pair of the path is one axis-aligned cell
/// step.
pub open spec fn axis_chain(s: Seq<FieldUsize>) -> bool {
    forall|k: int| 0 <= k < s.len() - 1 ==> is_unit_axis_step(#[trigger] s[k], s[k + 1])
}

/// Whether `b` is one king step from `a`: distinct, within one cell on each
/// axis.
pub open spec fn is_unit_step(a: FieldUsize, b: FieldUsize) -> bool {
    &&& a != b
    &&& -1 <= b.0 - a.0 <= 1
    &&& -1 <= b.1 - a.1 <= 1
}

/// Whether every consecutive pair of the path is one king step.
pub open spec fn unit_chain(s: Seq<FieldUsize>) -> bool {
    forall|k: int| 0 <= k < s.len() - 1 ==> is_unit_step(#[trigger] s[k], s[k + 1])
}


/// Whether two cells lie within one king step of each other (or are the
/// same cell).
pub open spec fn near_cells(a: FieldUsize, b: FieldUsize) -> bool {
    &&& -1 <= b.0 - a.0 <= 1
    &&& -1 <= b.1 - a.1 <= 1
}

/// Whether `idx` witnesses `r` as an order-preserving selection of `orig`
/// in which cells were dropped only legally: every adjacent kept pair was
/// adjacent in `orig`, or lies within one king step (the collapse of a
/// detour), or closes on a dropped duplicate of its right cell.
pub open spec fn ease_selection(orig: Seq<FieldUsize>, r: Seq<FieldUsize>, idx: Seq<int>) -> bool {
    &&& idx.len() == r.len()
    &&& r.len() >= 1
    &&& idx.last() == orig.len() - 1
    &&& (forall|k: int|
        0 <= k < idx.len() ==> 0 <= #[trigger] idx[k] < orig.len() && r[k] == orig[idx[k]])
    &&& (forall|k: int| 0 <= k < idx.len() - 1 ==> #[trigger] idx[k] < idx[k + 1])
    &&& (forall|k: int|
        0 <= k < idx.len() - 1 ==> (#[trigger] idx[k + 1] == idx[k] + 1 || near_cells(
            r[k],
            r[k + 1],
        ) || (exists|m: int| idx[k] < m < idx[k + 1] && orig[m] == r[k + 1])))
}

/// Whether the cells at `a` and `b` let the path ease drop what lies
/// between them: a later cell within one step of an earlier one with a gap
/// between them, or a repeated cell.
pub open spec fn drop_at(s: Seq<FieldUsize>, a: int, b: int) -> bool {
    let dr = if s[b].0 >= s[a].0 {
        s[b].0 - s[a].0
    } else {
        s[a].0 - s[b].0
    };
    let dc = if s[b].1 >= s[a].1 {
        s[b].1 - s[a].1
    } else {
        s[a].1 - s[b].1
    };
    &&& 0 <= a < b < s.len()
    &&& ((b > a + 1 && ((dr == 1 && dc <= 1) || (dr == 0 && dc == 1))) || s[a] == s[b])
}

/// Whether the path still holds a droppable configuration.
pub open spec fn droppable(s: Seq<FieldUsize>) -> bool {
    exists|a: int, b: int| #[trigger] drop_at(s, a, b)
}


/// The transport segments of a cell path from its `k`-th cell on: one
/// `Diagonal` plan for a unit-diagonal pair, one straight decomposition
/// otherwise, each at `Transportspeed` with the magnet on, threaded
/// through the head position.
pub open spec fn to_mi_plan(s: Seq<FieldUsize>, k: int, px: int, py: int) -> Seq<
    crate::motor::MotorMoveType,
>
    decreases s.len() - k,
{
    if k < 0 || k + 1 >= s.len() {
        Seq::empty()
    } else {
        let fa = crate::coords::field_of_cell(s[k]);
        let fb = crate::coords::field_of_cell(s[k + 1]);
        let vf = crate::motor::fdiff(fb, fa);
        let part = if (vf.0 == 2 || vf.0 == -2) && (vf.1 == 2 || vf.1 == -2) {
            crate::motor::diag_full_instrs(fa, fb, Speeds::Transportspeed, true, px, py)
        } else {
            crate::motor::vfield_instrs(vf, Speeds::Transportspeed, true)
        };
        part + to_mi_plan(s, k + 1, px + net_x(part), py + net_y(part))
    }
}

/// The whole compiled path: a no-magnet repositioning to the first cell
/// when the head's nearest half-cell is elsewhere, then the transport
/// segments.
pub open spec fn to_mi_full(s: Seq<FieldUsize>, px: int, py: int) -> Seq<
    crate::motor::MotorMoveType,
> {
    let g = Field(
        crate::coords::halves_of_steps(px) as i32,
        crate::coords::halves_of_steps(py) as i32,
    );
    let first = crate::coords::field_of_cell(s[0]);
    let repos = if g == first {
        Seq::<crate::motor::MotorMoveType>::empty()
    } else {
        crate::motor::vfield_instrs(
            crate::motor::fdiff(first, g),
            Speeds::NoFigurespeed,
            false,
        )
    };
    repos + to_mi_plan(s, 0, px + net_x(repos), py + net_y(repos))
}

/// An ordered list of cells: one leg of a piece transport.
#[derive(Debug, Clone)]
pub struct OneFML(pub Vec<FieldUsize>);

impl OneFML {
    /// The empty path.
    pub fn new() -> (r: Self)
        ensures
            r.0@ == Seq::<FieldUsize>::empty(),
    {
        OneFML(Vec::new())
    }

    /// Appends one cell.
    pub fn add(&mut self, f: FieldUsize)
        ensures
            final(self).0@ == old(self).0@.push(f),
    {
        self.0.push(f);
    }

    /// Removes and returns the last cell.
    pub fn remove_last(&mut self) -> (r: FieldUsize)
        requires
            old(self).0@.len() > 0,
        ensures
            r == old(self).0@.last(),
            final(self).0@ == old(self).0@.drop_last(),
    {
        let r = self.0.pop().unwrap();
        r
    }

    /// Appends another path.
    pub fn append(self, other: Self) -> (r: Self)
        ensures
            r.0@ == self.0@ + other.0@,
    {
        let mut s = self;
        let mut o = other;
        s.0.append(&mut o.0);
        s
    }

    /// The horizontal-first staircase from `sf` to `ef`: along the columns
    /// to the corner `(sf.0, ef.1)`, then along the rows to `ef`, one cell
    /// per step.
    pub fn pf_hf(sf: FieldUsize, ef: FieldUsize) -> (r: Self)
        requires
            on_grid(sf.0 as int, sf.1 as int),
            on_grid(ef.0 as int, ef.1 as int),
        ensures
            ({
                let dc = if sf.1 >= ef.1 {
                    sf.1 - ef.1
                } else {
                    ef.1 - sf.1
                };
                let dr = if sf.0 >= ef.0 {
                    sf.0 - ef.0
                } else {
                    ef.0 - sf.0
                };
                &&& r.0@.len() == 1 + dc + dr
                &&& r.0@[0] == sf
                &&& r.0@.last() == ef
                &&& r.0@[dc as int] == (FieldUsize(sf.0, ef.1))
                &&& forall|k: int| 0 <= k <= dc ==> (#[trigger] r.0@[k]).0 == sf.0
                &&& forall|k: int| dc <= k < r.0@.len() ==> (#[trigger] r.0@[k]).1 == ef.1
            }),
            r.0@.len() <= 40,
            all_on_grid(r.0@),
            axis_chain(r.0@),
    {
        let ghost sf0 = sf;
        let mut sf = sf;
        let mut res = OneFML::new();
        res.add(sf);
        let xdir = ef.1 > sf.1;
        let ydir = ef.0 > sf.0;
        while sf.1 != ef.1
            invariant
                on_grid(sf.0 as int, sf.1 as int),
                on_grid(ef.0 as int, ef.1 as int),
                sf.0 == sf0.0,
                xdir ==> sf0.1 <= sf.1 <= ef.1,
                !xdir ==> ef.1 <= sf.1 <= sf0.1,
                res.0@.len() == 1 + (if xdir {
                    sf.1 - sf0.1
                } else {
                    sf0.1 - sf.1
                }),
                res.0@[0] == sf0,
                res.0@.last() == sf,
                forall|k: int| 0 <= k < res.0@.len() ==> (#[trigger] res.0@[k]).0 == sf0.0,
                all_on_grid(res.0@),
                axis_chain(res.0@),
            decreases
                    if ef.1 > sf.1 {
                        ef.1 - sf.1
                    } else {
                        sf.1 - ef.1
                    },
        {
            sf = sf.edit_x(xdir);
            res.add(sf);
        }
        let ghost corner_at = res.0@.len() - 1;
        while sf.0 != ef.0
            invariant
                on_grid(sf.0 as int, sf.1 as int),
                on_grid(ef.0 as int, ef.1 as int),
                sf.1 == ef.1,
                corner_at == (if sf0.1 >= ef.1 {
                    sf0.1 - ef.1
                } else {
                    ef.1 - sf0.1
                }),
                ydir ==> sf0.0 <= sf.0 <= ef.0,
                !ydir ==> ef.0 <= sf.0 <= sf0.0,
                res.0@.len() == 1 + corner_at + (if ydir {
                    sf.0 - sf0.0
                } else {
                    sf0.0 - sf.0
                }),
                res.0@[0] == sf0,
                res.0@.last() == sf,
                res.0@[corner_at as int] == (FieldUsize(sf0.0, ef.1)),
                forall|k: int| 0 <= k <= corner_at ==> (#[trigger] res.0@[k]).0 == sf0.0,
                forall|k: int|
                    corner_at <= k < res.0@.len() ==> (#[trigger] res.0@[k]).1 == ef.1,
                all_on_grid(res.0@),
                axis_chain(res.0@),
            decreases
                    if ef.0 > sf.0 {
                        ef.0 - sf.0
                    } else {
                        sf.0 - ef.0
                    },
        {
            sf = sf.edit_y(ydir);
            res.add(sf);
        }
        res
    }

    /// The vertical-first staircase from `sf` to `ef`: along the rows to
    /// the corner `(ef.0, sf.1)`, then along the columns to `ef`, one cell
    /// per step.
    pub fn pf_vf(sf: FieldUsize, ef: FieldUsize) -> (r: Self)
        requires
            on_grid(sf.0 as int, sf.1 as int),
            on_grid(ef.0 as int, ef.1 as int),
        ensures
            ({
                let dc = if sf.1 >= ef.1 {
                    sf.1 - ef.1
                } else {
                    ef.1 - sf.1
                };
                let dr = if sf.0 >= ef.0 {
                    sf.0 - ef.0
                } else {
                    ef.0 - sf.0
                };
                &&& r.0@.len() == 1 + dc + dr
                &&& r.0@[0] == sf
                &&& r.0@.last() == ef
                &&& r.0@[dr as int] == (FieldUsize(ef.0, sf.1))
                &&& forall|k: int| 0 <= k <= dr ==> (#[trigger] r.0@[k]).1 == sf.1
                &&& forall|k: int| dr <= k < r.0@.len() ==> (#[trigger] r.0@[k]).0 == ef.0
            }),
            r.0@.len() <= 40,
            all_on_grid(r.0@),
            axis_chain(r.0@),
    {
        let ghost sf0 = sf;
        let mut sf = sf;
        let mut res = OneFML::new();
        res.add(sf);
        let xdir = ef.1 > sf.1;
        let ydir = ef.0 > sf.0;
        while sf.0 != ef.0
            invariant
                on_grid(sf.0 as int, sf.1 as int),
                on_grid(ef.0 as int, ef.1 as int),
                sf.1 == sf0.1,
                ydir ==> sf0.0 <= sf.0 <= ef.0,
                !ydir ==> ef.0 <= sf.0 <= sf0.0,
                res.0@.len() == 1 + (if ydir {
                    sf.0 - sf0.0
                } else {
                    sf0.0 - sf.0
                }),
                res.0@[0] == sf0,
                res.0@.last() == sf,
                forall|k: int| 0 <= k < res.0@.len() ==> (#[trigger] res.0@[k]).1 == sf0.1,
                all_on_grid(res.0@),
                axis_chain(res.0@),
            decreases
                    if ef.0 > sf.0 {
                        ef.0 - sf.0
                    } else {
                        sf.0 - ef.0
                    },
        {
            sf = sf.edit_y(ydir);
            res.add(sf);
        }
        let ghost corner_at = res.0@.len() - 1;
        while sf.1 != ef.1
            invariant
                on_grid(sf.0 as int, sf.1 as int),
                on_grid(ef.0 as int, ef.1 as int),
                sf.0 == ef.0,
                corner_at == (if sf0.0 >= ef.0 {
                    sf0.0 - ef.0
                } else {
                    ef.0 - sf0.0
                }),
                xdir ==> sf0.1 <= sf.1 <= ef.1,
                !xdir ==> ef.1 <= sf.1 <= sf0.1,
                res.0@.len() == 1 + corner_at + (if xdir {
                    sf.1 - sf0.1
                } else {
                    sf0.1 - sf.1
                }),
                res.0@[0] == sf0,
                res.0@.last() == sf,
                res.0@[corner_at as int] == (FieldUsize(ef.0, sf0.1)),
                forall|k: int| 0 <= k <= corner_at ==> (#[trigger] res.0@[k]).1 == sf0.1,
                forall|k: int|
                    corner_at <= k < res.0@.len() ==> (#[trigger] res.0@[k]).0 == ef.0,
                all_on_grid(res.0@),
                axis_chain(res.0@),
            decreases
                    if ef.1 > sf.1 {
                        ef.1 - sf.1
                    } else {
                        sf.1 - ef.1
                    },
        {
            sf = sf.edit_x(xdir);
            res.add(sf);
        }
        res
    }

    /// Compresses the path: whenever a later cell is within one step of an
    /// earlier one (or equal to it), the cells between them are dropped.
    /// The first and last cells keep their places.
    #[verifier::rlimit(100)]
    pub fn ease(self) -> (r: Self)
        requires
            self.0@.len() >= 1,
        ensures
            r.0@.len() >= 1,
            r.0@.len() <= self.0@.len(),
            r.0@[0] == self.0@[0],
            r.0@.last() == self.0@.last(),
            forall|k: int| 0 <= k < r.0@.len() ==> self.0@.contains(#[trigger] r.0@[k]),
            droppable(self.0@) ==> r.0@.len() < self.0@.len(),
            !droppable(self.0@) ==> r.0@ == self.0@,
            exists|idx: Seq<int>| #[trigger] ease_selection(self.0@, r.0@, idx),
    {
        let mut mvl = self.0;
        let ghost orig = mvl@;
        let ghost mut idx: Seq<int> = Seq::new(orig.len(), |k: int| k);
        proof {
            assert(ease_selection(orig, mvl@, idx)) by {
                assert(forall|k: int| 0 <= k < idx.len() ==> #[trigger] idx[k] == k);
            }
        }
        proof {
            assert forall|k: int| 0 <= k < mvl@.len() implies orig.contains(#[trigger] mvl@[k]) by {
                assert(orig[k] == mvl@[k]);
            }
        }
        let mut j: usize = mvl.len() - 1;
        let mut i: usize = 0;
        while j > 0
            invariant
                orig.len() >= 1,
                orig == self.0@,
                mvl@.len() >= 1,
                mvl@.len() <= orig.len(),
                j < mvl@.len(),
                i == 0,
                mvl@[0] == orig[0],
                mvl@.len() < orig.len() || (mvl@ == orig && (forall|a: int, b: int|
                    0 <= a < b < orig.len() && b > j ==> !(#[trigger] drop_at(orig, a, b)))),
                ease_selection(orig, mvl@, idx),
                !droppable(orig) ==> mvl@ == orig,
            ensures
                j == 0,
            decreases j,
        {
            let ghost j0 = j;
            while i < j
                invariant
                    orig.len() >= 1,
                    orig == self.0@,
                    mvl@.len() >= 1,
                    mvl@.len() <= orig.len(),
                    i <= j + 1,
                    j <= j0,
                    j < mvl@.len(),
                    mvl@[0] == orig[0],
                    mvl@.len() < orig.len() || (mvl@ == orig && (forall|a: int, b: int|
                        0 <= a < b < orig.len() && (b > j || (b == j && a < i)) ==> !(
                        #[trigger] drop_at(orig, a, b)))),
                    ease_selection(orig, mvl@, idx),
                    !droppable(orig) ==> mvl@ == orig,
                decreases j + 1 - i,
            {
                let ef = mvl[j];
                let sf = mvl[i];
                let dr = if ef.0 > sf.0 {
                    ef.0 - sf.0
                } else {
                    sf.0 - ef.0
                };
                let dc = if ef.1 > sf.1 {
                    ef.1 - sf.1
                } else {
                    sf.1 - ef.1
                };
                let ghost before = mvl@;
                if (dr == 1 && dc <= 1) || (dr == 0 && dc == 1) {
                    let ghost idx_before = idx;
                    let removed = remove_span(&mut mvl, i + 1, j);
                    proof {
                        if removed > 0 {
                            assert(drop_at(orig, idx_before[i as int], idx_before[j as int])
                                || mvl@.len() < orig.len() || !(mvl@ =~= orig) || true);
                        }
                        idx = idx_before.take(i + 1) + idx_before.skip(j as int);
                        lemma_selection_splice(orig, before, mvl@, idx_before, idx, i as int, j as int, true);
                        if !droppable(orig) && removed > 0 {
                            assert(before == orig);
                            assert(drop_at(orig, i as int, j as int));
                            assert(droppable(orig));
                        }
                        assert(mvl@[0] == before.take(i + 1)[0]);
                    }
                    j = j - removed;
                } else if dr == 0 && dc == 0 {
                    let ghost idx_before = idx;
                    let removed = remove_span(&mut mvl, i, j);
                    proof {
                        idx = idx_before.take(i as int) + idx_before.skip(j as int);
                        lemma_selection_splice(orig, before, mvl@, idx_before, idx, i as int, j as int, false);
                        if !droppable(orig) {
                            assert(before == orig);
                            assert(drop_at(orig, i as int, j as int));
                            assert(droppable(orig));
                        }
                        assert(sf == ef);
                        if i == 0 {
                            assert(mvl@[0] == before.skip(j as int)[0]);
                            assert(before.skip(j as int)[0] == before[j as int]);
                        } else {
                            assert(mvl@[0] == before.take(i as int)[0]);
                        }
                    }
                    j = j - removed;
                }
                i += 1;
            }
            i = 0;
            if j == 0 {
                break ;
            }
            j -= 1;
        }
        proof {
            assert(ease_selection(orig, mvl@, idx));
            assert forall|k: int| 0 <= k < mvl@.len() implies orig.contains(
                #[trigger] mvl@[k],
            ) by {
                assert(orig[idx[k]] == mvl@[k]);
            }
            assert(mvl@.last() == orig[idx[idx.len() - 1]]);
            assert(mvl@.last() == orig.last());
            if droppable(orig) && mvl@ == orig {
                let (a, b) = choose|a: int, b: int| drop_at(orig, a, b);
                assert(b > 0);
                assert(!drop_at(orig, a, b));
            }
        }
        OneFML(mvl)
    }

    /// Compiles the path to motor instructions: a no-magnet repositioning
    /// to the first cell when the head stands elsewhere, then one transport
    /// segment per step, diagonal unit steps as one `Diagonal` each. The
    /// head position is advanced over the whole plan; it ends within
    /// `200 + path length` steps of the last cell on each axis.
    #[verifier::rlimit(100)]
    pub fn to_mi(self, pos: &mut PosNow) -> (r: MotorInstructions)
        requires
            self.0@.len() >= 1,
            self.0@.len() <= 1250,
            all_on_grid(self.0@),
            in_pos_window(*old(pos)),
        ensures
            final(pos).xmtr == old(pos).xmtr + net_x(r.instructions@),
            final(pos).ymtr == old(pos).ymtr + net_y(r.instructions@),
            crate::motor::near_steps(
                final(pos).xmtr as int,
                crate::coords::field_of_cell(self.0@.last()).0 as int,
                200 + self.0@.len() as int,
            ),
            crate::motor::near_steps(
                final(pos).ymtr as int,
                crate::coords::field_of_cell(self.0@.last()).1 as int,
                200 + self.0@.len() as int,
            ),
            in_pos_window(*final(pos)),
            crate::motor::total_len(r.instructions@) <= 84000000 + 200000 * self.0@.len(),
            transport_discipline(r.instructions@),
            r.instructions@ == to_mi_full(self.0@, old(pos).xmtr as int, old(pos).ymtr as int),
    {
        let movl = self.0;
        let mut res = MotorInstructions::new();
        let ghost s = movl@;
        proof {
            assert(on_grid(s[0].0 as int, s[0].1 as int));
        }
        let first = movl[0].to_field();
        let cur = pos.sfh_to_field();
        let ghost repos_part: Seq<crate::motor::MotorMoveType> = if crate::motor::sfh_of(*old(pos))
            == crate::coords::field_of_cell(s[0]) {
            Seq::empty()
        } else {
            crate::motor::vfield_instrs(
                crate::motor::fdiff(
                    crate::coords::field_of_cell(s[0]),
                    crate::motor::sfh_of(*old(pos)),
                ),
                Speeds::NoFigurespeed,
                false,
            )
        };
        if !(cur == first) {
            let part = MotorInstructions::field_to_field(
                cur,
                first,
                Speeds::NoFigurespeed,
                false,
                pos,
            );
            let ghost pp = part.instructions@;
            res.append_wo_pos(part);
            proof {
                assert(res.instructions@ =~= Seq::<crate::motor::MotorMoveType>::empty() + pp);
                crate::motor::lemma_net_concat(
                    Seq::<crate::motor::MotorMoveType>::empty(),
                    pp,
                );
                crate::motor::lemma_vfield_eased(
                    crate::motor::fdiff(
                        crate::coords::field_of_cell(s[0]),
                        crate::motor::sfh_of(*old(pos)),
                    ),
                    Speeds::NoFigurespeed,
                    false,
                );
                assert(transport_discipline(res.instructions@));
                assert(res.instructions@ == repos_part);
            }
        } else {
            proof {
                crate::coords::lemma_halves_residual(old(pos).xmtr as int);
                crate::coords::lemma_halves_residual(old(pos).ymtr as int);
                assert(res.instructions@ =~= repos_part);
            }
        }
        proof {
            crate::motor::lemma_net_concat(repos_part, Seq::empty());
        }
        let mut i: usize = 0;
        while i + 1 < movl.len()
            invariant
                i <= s.len() - 1,
                transport_discipline(res.instructions@),
                repos_part == (if crate::motor::sfh_of(*old(pos)) == crate::coords::field_of_cell(
                    s[0],
                ) {
                    Seq::<crate::motor::MotorMoveType>::empty()
                } else {
                    crate::motor::vfield_instrs(
                        crate::motor::fdiff(
                            crate::coords::field_of_cell(s[0]),
                            crate::motor::sfh_of(*old(pos)),
                        ),
                        Speeds::NoFigurespeed,
                        false,
                    )
                }),
                to_mi_full(s, old(pos).xmtr as int, old(pos).ymtr as int) == res.instructions@
                    + to_mi_plan(s, i as int, pos.xmtr as int, pos.ymtr as int),
                movl@ == s,
                s.len() >= 1,
                s.len() <= 1250,
                all_on_grid(s),
                crate::motor::total_len(res.instructions@) <= 84000000 + 200000 * i,
                pos.xmtr == old(pos).xmtr + net_x(res.instructions@),
                pos.ymtr == old(pos).ymtr + net_y(res.instructions@),
                crate::motor::near_steps(
                    pos.xmtr as int,
                    crate::coords::field_of_cell(s[i as int]).0 as int,
                    200 + i as int,
                ),
                crate::motor::near_steps(
                    pos.ymtr as int,
                    crate::coords::field_of_cell(s[i as int]).1 as int,
                    200 + i as int,
                ),
                in_pos_window(*pos),
            decreases s.len() - i,
        {
            let a = movl[i];
            let b = movl[i + 1];
            let fa = a.to_field();
            let fb = b.to_field();
            let vfield = fb.minus(fa);
            let ghost prev = res.instructions@;
            let ghost p1 = *pos;
            proof {
                crate::coords::lemma_steps_bound(crate::coords::field_of_cell(a).0 as int, 15);
                crate::coords::lemma_steps_bound(crate::coords::field_of_cell(a).1 as int, 15);
                crate::coords::lemma_steps_bound(crate::coords::field_of_cell(b).0 as int, 15);
                crate::coords::lemma_steps_bound(crate::coords::field_of_cell(b).1 as int, 15);
            }
            if (vfield.0 == 2 || vfield.0 == -2) && (vfield.1 == 2 || vfield.1 == -2) {
                let part = MotorInstructions::diagonal(fa, fb, Speeds::Transportspeed, true, pos);
                let ghost dp = part.instructions@;
                res.append_wo_pos(part);
                proof {
                    assert(res.instructions@ =~= prev + dp);
                    crate::motor::lemma_net_concat(prev, dp);
                    crate::motor::lemma_diag_attrs(
                        crate::motor::fdiff(crate::coords::field_of_cell(b), crate::coords::field_of_cell(a)),
                        Speeds::Transportspeed,
                        true,
                    );
                    if crate::motor::sfh_of(p1) != crate::coords::field_of_cell(a) {
                        crate::motor::lemma_vfield_eased(
                            crate::motor::fdiff(
                                crate::coords::field_of_cell(a),
                                crate::motor::sfh_of(p1),
                            ),
                            Speeds::NoFigurespeed,
                            false,
                        );
                    }
                    assert forall|k: int| 0 <= k < res.instructions@.len() implies {
                        let m = crate::motor::mm_of(#[trigger] res.instructions@[k]);
                        (m.speed == Speeds::NoFigurespeed && !m.magnet) || (m.speed
                            == Speeds::Transportspeed && m.magnet)
                    } by {
                        if k < prev.len() {
                            assert(res.instructions@[k] == prev[k]);
                        } else {
                            assert(res.instructions@[k] == dp[k - prev.len()]);
                        }
                    }
                }
            } else {
                let part = MotorInstructions::from_vfield(vfield, Speeds::Transportspeed, true);
                let ghost dp = part.instructions@;
                proof {
                    crate::coords::lemma_steps_bound(vfield.0 as int, 30);
                    crate::coords::lemma_steps_bound(vfield.1 as int, 30);
                    crate::motor::lemma_pos_stays(*pos, dp, 19200);
                }
                res.append(part, pos);
                proof {
                    assert(res.instructions@ =~= prev + dp);
                    crate::motor::lemma_net_concat(prev, dp);
                    crate::motor::lemma_vfield_eased(vfield, Speeds::Transportspeed, true);
                    assert forall|k: int| 0 <= k < res.instructions@.len() implies {
                        let m = crate::motor::mm_of(#[trigger] res.instructions@[k]);
                        (m.speed == Speeds::NoFigurespeed && !m.magnet) || (m.speed
                            == Speeds::Transportspeed && m.magnet)
                    } by {
                        if k < prev.len() {
                            assert(res.instructions@[k] == prev[k]);
                        } else {
                            assert(res.instructions@[k] == dp[k - prev.len()]);
                        }
                    }
                    crate::coords::lemma_steps_add(
                        crate::coords::field_of_cell(a).0 as int,
                        vfield.0 as int,
                    );
                    crate::coords::lemma_steps_add(
                        crate::coords::field_of_cell(a).1 as int,
                        vfield.1 as int,
                    );
                    assert(crate::coords::field_of_cell(a).0 + vfield.0
                        == crate::coords::field_of_cell(b).0);
                    assert(crate::coords::field_of_cell(a).1 + vfield.1
                        == crate::coords::field_of_cell(b).1);
                }
            }
            i += 1;
        }
        proof {
            assert(i == s.len() - 1);
            assert(s[i as int] == s.last());
        }
        res
    }
}


/// Whether a vector of cells holds a given cell.
fn vec_contains(v: &Vec<FieldUsize>, f: FieldUsize) -> (r: bool)
    ensures
        r == v@.contains(f),
{
    let mut i: usize = 0;
    while i < v.len()
        invariant
            i <= v@.len(),
            forall|k: int| 0 <= k < i ==> v@[k] != f,
        decreases v@.len() - i,
    {
        if v[i] == f {
            proof {
                assert(v@[i as int] == f);
            }
            return true;
        }
        i += 1;
    }
    proof {
        assert(!v@.contains(f));
    }
    false
}

/// Keeps the cells of `v` that differ from `f`.
fn vec_retain_ne(v: &mut Vec<FieldUsize>, f: FieldUsize)
    ensures
        forall|k: int|
            0 <= k < final(v)@.len() ==> old(v)@.contains(#[trigger] final(v)@[k])
                && final(v)@[k] != f,
        final(v)@.len() <= old(v)@.len(),
{
    let mut res: Vec<FieldUsize> = Vec::new();
    let mut i: usize = 0;
    while i < v.len()
        invariant
            i <= v@.len(),
            v@ == old(v)@,
            res@.len() <= i,
            forall|k: int|
                0 <= k < res@.len() ==> old(v)@.contains(#[trigger] res@[k]) && res@[k] != f,
        decreases v@.len() - i,
    {
        let c = v[i];
        if !(c == f) {
            proof {
                assert(old(v)@[i as int] == c);
            }
            res.push(c);
        }
        i += 1;
    }
    *v = res;
}

/// The search budget of the gap walk. The occupancy map has 112 cells with
/// at most eight free neighbours each, and every probe either lowers a
/// count or occupies a cell for good, so no walk can make more than about
/// a thousand probes before every route is closed; the budget is safely
/// above that.
pub const PF_FUEL: u32 = 1100;

/// Walks from `sf` toward `ef` through cells the map marks free, always
/// trying the candidates nearest to the target first, revisits demoted to
/// the end; visited cells are ticked on the map so that the walk burrows
/// past them only while their surroundings stay open. Answers the walked
/// path with `ogsf` prepended, or `Stuck` when no route is open.
///
/// Called the way the planner calls it — an empty `movlist`, `sf` as the
/// walk's own origin, and `sf` marked occupied — the answer is a path of
/// king steps through pairwise distinct cells, each free in the incoming
/// map.
pub fn pf_custom_helper(
    ogsf: FieldUsize,
    sf: FieldUsize,
    ef: FieldUsize,
    bl: &mut BitList,
    movlist: OneFML,
) -> (r: Result<OneFML, PFError>)
    requires
        bl_wf(*old(bl)),
        on_grid(ogsf.0 as int, ogsf.1 as int),
        on_grid(sf.0 as int, sf.1 as int),
        on_grid(ef.0 as int, ef.1 as int),
        all_on_grid(movlist.0@),
        movlist.0@.len() <= 40,
        movlist.0@.len() == 0 || movlist.0@.last() == sf,
    ensures
        bl_wf(*final(bl)),
        r matches Ok(ml) ==> {
            &&& ml.0@.len() >= 1
            &&& ml.0@.len() <= 1 + movlist.0@.len() + PF_FUEL
            &&& ml.0@[0] == ogsf
            &&& all_on_grid(ml.0@)
            &&& (sf == ef ==> ml.0@ == seq![ogsf] + movlist.0@)
            &&& (sf != ef ==> ml.0@.last() == ef)
            &&& ((movlist.0@.len() == 0 && sf == ogsf && bl_occ(
                bl_view(*old(bl)),
                sf.0 as int,
                sf.1 as int,
            )) ==> {
                &&& unit_chain(ml.0@)
                &&& ml.0@.no_duplicates()
                &&& forall|k: int|
                    1 <= k < ml.0@.len() ==> !bl_occ(
                        bl_view(*old(bl)),
                        (#[trigger] ml.0@[k]).0 as int,
                        ml.0@[k].1 as int,
                    )
            })
        },
{
    let ghost v0 = bl_view(*old(bl));
    let ghost init = movlist.0@;
    let ghost prem = init.len() == 0 && sf == ogsf && bl_occ(v0, sf.0 as int, sf.1 as int);
    let mut cur = sf;
    let mut movlist = movlist;
    let mut fuel: u32 = PF_FUEL;
    while cur != ef
        invariant
            bl_wf(*bl),
            on_grid(ogsf.0 as int, ogsf.1 as int),
            on_grid(cur.0 as int, cur.1 as int),
            on_grid(ef.0 as int, ef.1 as int),
            all_on_grid(movlist.0@),
            fuel <= PF_FUEL,
            movlist.0@.len() <= init.len() + (PF_FUEL - fuel),
            init.len() <= 40,
            v0 == bl_view(*old(bl)),
            prem == (init.len() == 0 && sf == ogsf && bl_occ(v0, sf.0 as int, sf.1 as int)),
            forall|a: int, b: int| bl_occ(v0, a, b) ==> #[trigger] bl_occ(bl_view(*bl), a, b),
            sf == ef ==> movlist.0@ == init && cur == sf,
            movlist.0@.len() > 0 ==> movlist.0@.last() == cur,
            movlist.0@.len() == 0 ==> cur == sf || cur == ef,
            sf != ef && cur == ef ==> movlist.0@.len() > 0,
            prem ==> unit_chain(seq![ogsf] + movlist.0@),
            prem ==> (seq![ogsf] + movlist.0@).no_duplicates(),
            prem ==> (forall|k: int|
                0 <= k < movlist.0@.len() ==> !bl_occ(
                    v0,
                    (#[trigger] movlist.0@[k]).0 as int,
                    movlist.0@[k].1 as int,
                )),
            prem ==> (movlist.0@.len() == 0 ==> cur == ogsf),
        decreases fuel,
    {
        if fuel == 0 {
            return Err(PFError::Stuck);
        }
        fuel = fuel - 1;
        let mut pml = cur.get_nearby(&ef);
        proof {
            crate::coords::lemma_filter_grid_elems(crate::coords::nearby_cands(cur, ef));
            crate::coords::lemma_nearby_within_one(cur, ef);
        }
        // demote candidates already on the walked path to the end
        let mut bi: usize = 0;
        while bi < movlist.0.len()
            invariant
                bi <= movlist.0@.len(),
                on_grid(cur.0 as int, cur.1 as int),
                all_on_grid(pml@),
                all_on_grid(movlist.0@),
                forall|k: int|
                    0 <= k < pml@.len() ==> {
                        &&& -1 <= (#[trigger] pml@[k]).0 - cur.0 <= 1
                        &&& -1 <= pml@[k].1 - cur.1 <= 1
                    },
            decreases movlist.0@.len() - bi,
        {
            let banfield = movlist.0[bi];
            if vec_contains(&pml, banfield) {
                let ghost before = pml@;
                vec_retain_ne(&mut pml, banfield);
                proof {
                    let bw = choose|w: int| 0 <= w < before.len() && before[w] == banfield;
                    assert forall|k: int| 0 <= k < pml@.len() + 1 implies {
                        &&& on_grid(
                            (#[trigger] pml@.push(banfield)[k]).0 as int,
                            pml@.push(banfield)[k].1 as int,
                        )
                        &&& -1 <= pml@.push(banfield)[k].0 - cur.0 <= 1
                        &&& -1 <= pml@.push(banfield)[k].1 - cur.1 <= 1
                    } by {
                        if k < pml@.len() {
                            assert(pml@.push(banfield)[k] == pml@[k]);
                            let w = choose|w: int|
                                0 <= w < before.len() && before[w] == pml@[k];
                        } else {
                            assert(pml@.push(banfield)[k] == banfield);
                        }
                    }
                }
                pml.push(banfield);
            } else {
                proof {
                    assert forall|k: int| 0 <= k < pml@.len() implies {
                        &&& -1 <= (#[trigger] pml@[k]).0 - cur.0 <= 1
                        &&& -1 <= pml@[k].1 - cur.1 <= 1
                    } by {}
                }
            }
            bi += 1;
        }
        // first free candidate in order
        let mut chosen: Option<FieldUsize> = Option::None;
        let mut ci: usize = 0;
        while ci < pml.len()
            invariant
                ci <= pml@.len(),
                on_grid(cur.0 as int, cur.1 as int),
                all_on_grid(pml@),
                bl_wf(*bl),
                forall|k: int|
                    0 <= k < pml@.len() ==> {
                        &&& -1 <= (#[trigger] pml@[k]).0 - cur.0 <= 1
                        &&& -1 <= pml@[k].1 - cur.1 <= 1
                    },
                chosen matches Some(f) ==> on_grid(f.0 as int, f.1 as int) && !bl_occ(
                    bl_view(*bl),
                    f.0 as int,
                    f.1 as int,
                ) && -1 <= f.0 - cur.0 <= 1 && -1 <= f.1 - cur.1 <= 1,
            decreases pml@.len() - ci,
        {
            let c = pml[ci];
            if !bl.check_field(c) {
                proof {
                    assert(on_grid(c.0 as int, c.1 as int));
                    assert(pml@[ci as int] == c);
                }
                chosen = Some(c);
                break ;
            }
            ci += 1;
        }
        let field = match chosen {
            Some(f) => f,
            Option::None => {
                return Err(PFError::Stuck);
            },
        };
        proof {
            if prem {
                // the chosen cell is free now, so it was free at entry and
                // is not the occupied origin
                assert(!bl_occ(v0, field.0 as int, field.1 as int));
                assert(field != ogsf);
            }
        }
        let ghost field_free0 = !bl_occ(v0, field.0 as int, field.1 as int);
        // burrow: forget the path back to an earlier visit of this cell
        while vec_contains(&movlist.0, field)
            invariant
                bl_wf(*bl),
                all_on_grid(movlist.0@),
                on_grid(field.0 as int, field.1 as int),
                movlist.0@.len() + 1 <= init.len() + (PF_FUEL - fuel),
                v0 == bl_view(*old(bl)),
                prem == (init.len() == 0 && sf == ogsf && bl_occ(
                    v0,
                    sf.0 as int,
                    sf.1 as int,
                )),
                forall|a: int, b: int|
                    bl_occ(v0, a, b) ==> #[trigger] bl_occ(bl_view(*bl), a, b),
                prem ==> unit_chain(seq![ogsf] + movlist.0@),
                prem ==> (seq![ogsf] + movlist.0@).no_duplicates(),
                prem ==> (forall|k: int|
                    0 <= k < movlist.0@.len() ==> !bl_occ(
                        v0,
                        (#[trigger] movlist.0@[k]).0 as int,
                        movlist.0@[k].1 as int,
                    )),
                prem ==> field != ogsf,
                prem ==> (movlist.0@.contains(field) || is_unit_step(
                    (seq![ogsf] + movlist.0@).last(),
                    field,
                )),
            decreases movlist.0@.len(),
        {
            proof {
                assert(movlist.0@.len() > 0);
                if prem {
                    let full = seq![ogsf] + movlist.0@;
                    let dropped = seq![ogsf] + movlist.0@.drop_last();
                    assert(dropped =~= full.drop_last());
                    assert forall|k: int| 0 <= k < dropped.len() - 1 implies is_unit_step(
                        #[trigger] dropped[k],
                        dropped[k + 1],
                    ) by {
                        assert(dropped[k] == full[k]);
                        assert(dropped[k + 1] == full[k + 1]);
                    }
                    assert forall|i: int, j: int|
                        0 <= i < j < dropped.len() implies #[trigger] dropped[i]
                        != #[trigger] dropped[j] by {
                        assert(dropped[i] == full[i]);
                        assert(dropped[j] == full[j]);
                    }
                    if movlist.0@.last() == field {
                        // the popped cell is the sought one; its chain
                        // predecessor stays adjacent to it
                        assert(full[full.len() - 2] == dropped.last());
                        assert(is_unit_step(dropped.last(), field));
                    } else {
                        assert(movlist.0@.drop_last().contains(field)) by {
                            let w = choose|w: int|
                                0 <= w < movlist.0@.len() && movlist.0@[w] == field;
                            assert(movlist.0@.drop_last()[w] == field);
                        }
                    }
                }
            }
            let lastf = movlist.remove_last();
            let ghost pre_view = bl_view(*bl);
            let mut tickv: Vec<(usize, usize)> = Vec::new();
            tickv.push(lastf.to_tuple());
            proof {
                assert(tickv@ =~= seq![(lastf.0, lastf.1)]);
            }
            bl.update(Vec::new(), Vec::new(), tickv);
            proof {
                lemma_helper_tick(pre_view, lastf, v0, *bl);
            }
        }
        proof {
            if prem {
                let full = seq![ogsf] + movlist.0@;
                assert(is_unit_step(full.last(), field)) by {
                    if movlist.0@.len() == 0 {
                        assert(full.last() == ogsf);
                    }
                }
                let pushed = seq![ogsf] + movlist.0@.push(field);
                assert(pushed =~= full.push(field));
                assert forall|k: int| 0 <= k < pushed.len() - 1 implies is_unit_step(
                    #[trigger] pushed[k],
                    pushed[k + 1],
                ) by {
                    if k < full.len() - 1 {
                        assert(pushed[k] == full[k]);
                        assert(pushed[k + 1] == full[k + 1]);
                    } else {
                        assert(pushed[k] == full.last());
                        assert(pushed[k + 1] == field);
                    }
                }
                assert(!full.contains(field)) by {
                    if full.contains(field) {
                        let w = choose|w: int| 0 <= w < full.len() && full[w] == field;
                        if w == 0 {
                            assert(field == ogsf);
                        } else {
                            assert(movlist.0@[w - 1] == field);
                            assert(movlist.0@.contains(field));
                        }
                    }
                }
                assert forall|i: int, j: int|
                    0 <= i < j < pushed.len() implies #[trigger] pushed[i]
                    != #[trigger] pushed[j] by {
                    if j < full.len() {
                        assert(pushed[i] == full[i]);
                        assert(pushed[j] == full[j]);
                    } else {
                        assert(pushed[j] == field);
                        assert(pushed[i] == full[i]);
                        assert(full.contains(field) || full[i] != field) by {
                            if full[i] == field {
                                assert(full.contains(field));
                            }
                        }
                    }
                }
            }
        }
        movlist.add(field);
        let ghost pre_view = bl_view(*bl);
        let mut tickv: Vec<(usize, usize)> = Vec::new();
        tickv.push(field.to_tuple());
        proof {
            assert(tickv@ =~= seq![(field.0, field.1)]);
        }
        bl.update(Vec::new(), Vec::new(), tickv);
        proof {
            lemma_helper_tick(pre_view, field, v0, *bl);
        }
        cur = field;
    }
    let mut res = OneFML::new();
    res.add(ogsf);
    let r = res.append(movlist);
    proof {
        assert(r.0@ == seq![ogsf] + r.0@.skip(1)) by {
            assert(r.0@ =~= seq![ogsf] + r.0@.skip(1));
        }
        assert(r.0@[0] == ogsf);
        if sf != ef {
            assert(r.0@.last() == ef);
        }
        if prem {
            assert forall|k: int| 1 <= k < r.0@.len() implies !bl_occ(
                v0,
                (#[trigger] r.0@[k]).0 as int,
                r.0@[k].1 as int,
            ) by {
                assert(r.0@[k] == (seq![ogsf] + r.0@.skip(1))[k]);
            }
        }
    }
    Ok(r)
}

/// One tick of the walk keeps the map well-shaped and never frees a cell
/// the incoming map had occupied.
proof fn lemma_helper_tick(pre: Seq<Seq<(bool, u8)>>, cell: FieldUsize, v0: Seq<Seq<(bool, u8)>>, b: BitList)
    requires
        pre.len() == 8,
        forall|r: int| 0 <= r < pre.len() ==> (#[trigger] pre[r]).len() == 14,
        bl_view(b) == crate::bitlist::bl_tick(
            crate::bitlist::bl_add(crate::bitlist::bl_remove(pre, Seq::empty()), Seq::empty()),
            seq![(cell.0, cell.1)],
        ),
        forall|a: int, c: int| bl_occ(v0, a, c) ==> #[trigger] bl_occ(pre, a, c),
    ensures
        forall|a: int, c: int| bl_occ(v0, a, c) ==> #[trigger] bl_occ(bl_view(b), a, c),
{
    assert(crate::bitlist::bl_remove(pre, Seq::empty()) == pre);
    assert(crate::bitlist::bl_add(pre, Seq::empty()) == pre);
    crate::bitlist::lemma_tick_monotone(pre, seq![(cell.0, cell.1)]);
}

/// Whether both entries of a displacement record are cell centres.
pub open spec fn cell_field_pair(p: (Field, Field)) -> bool {
    crate::coords::is_cell_field(p.0) && crate::coords::is_cell_field(p.1)
}

/// Whether the head stands within `d` steps, on each axis, of the centre
/// of some board cell.
pub open spec fn head_near_cell(p: PosNow, d: int) -> bool {
    exists|c: FieldUsize|
        {
            &&& on_grid(c.0 as int, c.1 as int)
            &&& crate::motor::near_steps(
                p.xmtr as int,
                (#[trigger] crate::coords::field_of_cell(c)).0 as int,
                d,
            )
            &&& crate::motor::near_steps(p.ymtr as int, crate::coords::field_of_cell(c).1 as int, d)
        }
}

/// Plans an obstacle-aware transport from `sf` to `ef`: straight through
/// when the spanned rectangle is clear, else a gap walk, else the
/// displacement fallback. When the rectangle is clear, success is certain
/// and the head ends on `ef`; every returned plan is fully merged and
/// leaves the head by the board.
pub fn pathfinding_custom(
    sf: FieldUsize,
    ef: FieldUsize,
    bl: &mut BitList,
    pos: &mut PosNow,
) -> (r: Result<MotorInstructions, PFError>)
    requires
        bl_wf(*old(bl)),
        on_grid(sf.0 as int, sf.1 as int),
        on_grid(ef.0 as int, ef.1 as int),
        in_pos_window(*old(pos)),
    ensures
        bl_wf(*final(bl)),
        in_pos_window(*final(pos)),
        r matches Ok(mi) ==> {
            &&& final(pos).xmtr == old(pos).xmtr + net_x(mi.instructions@)
            &&& final(pos).ymtr == old(pos).ymtr + net_y(mi.instructions@)
            &&& crate::motor::fully_eased(mi.instructions@)
            &&& head_near_cell(*final(pos), 1500)
        },
        ({
            let r1 = if sf.0 < ef.0 {
                sf.0 as int
            } else {
                ef.0 as int
            };
            let r2 = if sf.0 < ef.0 {
                ef.0 as int
            } else {
                sf.0 as int
            };
            let c1 = if sf.1 < ef.1 {
                sf.1 as int
            } else {
                ef.1 as int
            };
            let c2 = if sf.1 < ef.1 {
                ef.1 as int
            } else {
                sf.1 as int
            };
            crate::bitlist::rect_count(bl_view(*old(bl)), r1, r2, c1, c2) == 0 ==> {
                &&& r is Ok
                &&& *final(bl) == *old(bl)
                &&& (r matches Ok(mi) ==> mi.instructions@ == crate::motor::f2f_instrs(
                    crate::coords::field_of_cell(sf),
                    crate::coords::field_of_cell(ef),
                    Speeds::NMovespeed,
                    true,
                    old(pos).xmtr as int,
                    old(pos).ymtr as int,
                ))
                &&& crate::motor::near_steps(
                    final(pos).xmtr as int,
                    crate::coords::field_of_cell(ef).0 as int,
                    165,
                )
                &&& crate::motor::near_steps(
                    final(pos).ymtr as int,
                    crate::coords::field_of_cell(ef).1 as int,
                    165,
                )
            }
        }),
{
    if bl.count_area(sf, ef) == 0 {
        let plan = MotorInstructions::field_to_field(
            sf.to_field(),
            ef.to_field(),
            Speeds::NMovespeed,
            true,
            pos,
        );
        proof {
            if crate::motor::sfh_of(*old(pos)) == crate::coords::field_of_cell(sf) {
                crate::motor::lemma_vfield_eased(
                    crate::motor::fdiff(
                        crate::coords::field_of_cell(ef),
                        crate::coords::field_of_cell(sf),
                    ),
                    Speeds::NMovespeed,
                    true,
                );
            } else {
                crate::motor::lemma_repos_move_eased(
                    crate::motor::fdiff(
                        crate::coords::field_of_cell(sf),
                        crate::motor::sfh_of(*old(pos)),
                    ),
                    crate::motor::fdiff(
                        crate::coords::field_of_cell(ef),
                        crate::coords::field_of_cell(sf),
                    ),
                    Speeds::NMovespeed,
                );
            }
            assert(head_near_cell(*pos, 1500)) by {
                assert(on_grid(ef.0 as int, ef.1 as int) && crate::motor::near_steps(
                    pos.xmtr as int,
                    crate::coords::field_of_cell(ef).0 as int,
                    1500,
                ) && crate::motor::near_steps(
                    pos.ymtr as int,
                    crate::coords::field_of_cell(ef).1 as int,
                    1500,
                ));
            }
        }
        return Ok(plan);
    }
    // the source cell is marked occupied: the piece leaves it physically,
    // but the walk must not route back through it
    let mut addv: Vec<(usize, usize)> = Vec::new();
    addv.push(sf.to_tuple());
    proof {
        assert(addv@ =~= seq![(sf.0, sf.1)]);
    }
    bl.update(Vec::new(), addv, Vec::new());
    proof {
        assert(bl_occ(bl_view(*bl), sf.0 as int, sf.1 as int)) by {
            assert(crate::bitlist::bl_remove(
                bl_view(*old(bl)),
                Seq::<(usize, usize)>::empty(),
            ) == bl_view(*old(bl)));
            assert(bl_view(*bl) == crate::bitlist::bl_tick(
                crate::bitlist::bl_add(bl_view(*old(bl)), seq![(sf.0, sf.1)]),
                Seq::<(usize, usize)>::empty(),
            ));
            let w = crate::bitlist::bl_add(bl_view(*old(bl)), seq![(sf.0, sf.1)]);
            assert(seq![(sf.0, sf.1)].drop_last() =~= Seq::<(usize, usize)>::empty());
            assert(crate::bitlist::bl_add(
                bl_view(*old(bl)),
                Seq::<(usize, usize)>::empty(),
            ) == bl_view(*old(bl)));
            assert(w == crate::bitlist::bl_set(
                bl_view(*old(bl)),
                sf.0 as int,
                sf.1 as int,
                (true, bl_view(*old(bl))[sf.0 as int][sf.1 as int].1),
            ));
        }
    }
    let movlist = OneFML::new();
    match pf_custom_helper(sf, sf, ef, bl, movlist) {
        Ok(ml) => {
            let eased = ml.ease();
            proof {
                crate::motor::lemma_total_len_nonneg(Seq::<crate::motor::MotorMoveType>::empty());
                assert(all_on_grid(eased.0@)) by {
                    assert forall|k: int| 0 <= k < eased.0@.len() implies on_grid(
                        (#[trigger] eased.0@[k]).0 as int,
                        eased.0@[k].1 as int,
                    ) by {
                        let m = choose|m: int| 0 <= m < ml.0@.len() && ml.0@[m] == eased.0@[k];
                    }
                }
            }
            let mut res = eased.to_mi(pos);
            proof {
                crate::motor::lemma_ease_preserves(res.instructions@);
                crate::motor::lemma_ease_eased(res.instructions@);
                assert(head_near_cell(*pos, 1500)) by {
                    let lc = eased.0@.last();
                    assert(on_grid(lc.0 as int, lc.1 as int));
                    assert(crate::motor::near_steps(
                        pos.xmtr as int,
                        crate::coords::field_of_cell(lc).0 as int,
                        1500,
                    ));
                    assert(crate::motor::near_steps(
                        pos.ymtr as int,
                        crate::coords::field_of_cell(lc).1 as int,
                        1500,
                    ));
                }
            }
            res.ease();
            Ok(res)
        },
        Err(_) => {
            let mut res = match pf_stuck(sf, ef, bl, pos) {
                Ok(m) => m,
                Err(e) => {
                    return Err(e);
                },
            };
            proof {
                crate::motor::lemma_ease_preserves(res.instructions@);
                crate::motor::lemma_ease_eased(res.instructions@);
            }
            res.ease();
            Ok(res)
        },
    }
}


/// The displacement leg of the fallback: for each logged entry, one
/// diagonal carry of the obstacle from its cell (the entry's second field)
/// to its refuge (the first), in log order, threaded through the head
/// position.
pub open spec fn disp_plan(disp: Seq<(Field, Field)>, px: int, py: int) -> Seq<
    crate::motor::MotorMoveType,
>
    decreases disp.len(),
{
    if disp.len() == 0 {
        Seq::empty()
    } else {
        let part = crate::motor::diag_full_instrs(
            disp[0].1,
            disp[0].0,
            Speeds::Transportspeed,
            true,
            px,
            py,
        );
        part + disp_plan(disp.skip(1), px + net_x(part), py + net_y(part))
    }
}

/// The restoration leg of the fallback: the displacement log walked
/// backwards, each entry one diagonal carry from the refuge back to the
/// obstacle's own cell.
pub open spec fn restore_plan(disp: Seq<(Field, Field)>, px: int, py: int) -> Seq<
    crate::motor::MotorMoveType,
>
    decreases disp.len(),
{
    if disp.len() == 0 {
        Seq::empty()
    } else {
        let part = crate::motor::diag_full_instrs(
            disp.last().0,
            disp.last().1,
            Speeds::Transportspeed,
            true,
            px,
            py,
        );
        part + restore_plan(disp.drop_last(), px + net_x(part), py + net_y(part))
    }
}

/// Appending to the displacement log appends to its leg, threaded from
/// where the earlier leg leaves the head.
pub proof fn lemma_disp_plan_append(a: Seq<(Field, Field)>, b: Seq<(Field, Field)>, px: int, py: int)
    ensures
        disp_plan(a + b, px, py) == disp_plan(a, px, py) + disp_plan(
            b,
            px + net_x(disp_plan(a, px, py)),
            py + net_y(disp_plan(a, px, py)),
        ),
    decreases a.len(),
{
    if a.len() == 0 {
        assert(a + b =~= b);
        assert(disp_plan(a, px, py) == Seq::<crate::motor::MotorMoveType>::empty());
        assert(Seq::<crate::motor::MotorMoveType>::empty() + disp_plan(b, px, py) =~= disp_plan(
            b,
            px,
            py,
        ));
    } else {
        let ab = a + b;
        assert(ab[0] == a[0]);
        let part = crate::motor::diag_full_instrs(
            a[0].1,
            a[0].0,
            Speeds::Transportspeed,
            true,
            px,
            py,
        );
        assert(ab.skip(1) =~= a.skip(1) + b);
        lemma_disp_plan_append(a.skip(1), b, px + net_x(part), py + net_y(part));
        crate::motor::lemma_net_concat(
            part,
            disp_plan(a.skip(1), px + net_x(part), py + net_y(part)),
        );
        assert(part + (disp_plan(a.skip(1), px + net_x(part), py + net_y(part)) + disp_plan(
            b,
            px + net_x(disp_plan(a, px, py)),
            py + net_y(disp_plan(a, px, py)),
        )) =~= (part + disp_plan(a.skip(1), px + net_x(part), py + net_y(part))) + disp_plan(
            b,
            px + net_x(disp_plan(a, px, py)),
            py + net_y(disp_plan(a, px, py)),
        ));
    }
}

/// The shape of a successful fallback plan: the displacement leg for a log
/// of cell-to-cell carries, a transport leg that brings the head by `ef`,
/// and exactly the log's restoration, walked backwards.
pub open spec fn stuck_decomposition(
    s: Seq<crate::motor::MotorMoveType>,
    disp: Seq<(Field, Field)>,
    t: Seq<crate::motor::MotorMoveType>,
    ef: FieldUsize,
    px: int,
    py: int,
) -> bool {
    let d = disp_plan(disp, px, py);
    let pxt = px + net_x(d) + net_x(t);
    let pyt = py + net_y(d) + net_y(t);
    &&& s == d + t + restore_plan(disp, pxt, pyt)
    &&& (forall|m: int| 0 <= m < disp.len() ==> cell_field_pair(#[trigger] disp[m]))
    &&& crate::motor::near_steps(pxt, crate::coords::field_of_cell(ef).0 as int, 1500)
    &&& crate::motor::near_steps(pyt, crate::coords::field_of_cell(ef).1 as int, 1500)
}

/// The displacement fallback: picks the reference path that crosses the
/// fewest occupied cells (the gap walk on an empty map, or a staircase),
/// moves the obstacles on it aside, runs the path, and puts every
/// displaced piece back in reverse order.
#[verifier::rlimit(100)]
pub fn pf_stuck(sf: FieldUsize, ef: FieldUsize, bl: &mut BitList, pos: &mut PosNow) -> (r: Result<
    MotorInstructions,
    PFError,
>)
    requires
        bl_wf(*old(bl)),
        on_grid(sf.0 as int, sf.1 as int),
        on_grid(ef.0 as int, ef.1 as int),
        in_pos_window(*old(pos)),
    ensures
        bl_wf(*final(bl)),
        in_pos_window(*final(pos)),
        r matches Ok(mi) ==> {
            &&& final(pos).xmtr == old(pos).xmtr + net_x(mi.instructions@)
            &&& final(pos).ymtr == old(pos).ymtr + net_y(mi.instructions@)
            &&& crate::motor::total_len(mi.instructions@) <= 0x9000_0000
            &&& head_near_cell(*final(pos), 1500)
            &&& exists|disp: Seq<(Field, Field)>, t: Seq<crate::motor::MotorMoveType>|
                #[trigger] stuck_decomposition(
                    mi.instructions@,
                    disp,
                    t,
                    ef,
                    old(pos).xmtr as int,
                    old(pos).ymtr as int,
                )
        },
{
    let mut res = MotorInstructions::new();
    let mut moved_pieces: Vec<(Field, Field)> = Vec::new();
    bl.update(vec![sf.to_tuple(), ef.to_tuple()], vec![], vec![]);
    let mut fastest: usize = 0;
    let mut free_bl = BitList::new();
    let fast_path = match pf_custom_helper(sf, sf, ef, &mut free_bl, OneFML::new()) {
        Ok(p) => p,
        Err(e) => {
            return Err(e);
        },
    };
    let mut k: usize = 0;
    while k < fast_path.0.len()
        invariant
            k <= fast_path.0@.len(),
            fastest <= k,
            bl_wf(*bl),
        decreases fast_path.0@.len() - k,
    {
        if bl.check_field(fast_path.0[k]) {
            fastest += 1;
        }
        k += 1;
    }
    let corner1 = FieldUsize(sf.0, ef.1);
    let corner2 = FieldUsize(ef.0, sf.1);
    let mut vf: usize = bl.count_area(sf, corner1);
    vf = add_count(vf, bl.count_area(corner1, ef));
    let mut hf: usize = bl.count_area(sf, corner2);
    hf = add_count(hf, bl.count_area(corner2, ef));
    let path = if fastest <= vf && fastest <= hf {
        let mut free_bl2 = BitList::new();
        match pf_custom_helper(sf, sf, ef, &mut free_bl2, OneFML::new()) {
            Ok(p) => p,
            Err(e) => {
                return Err(e);
            },
        }
    } else if vf < hf {
        OneFML::pf_vf(sf, ef)
    } else {
        OneFML::pf_hf(sf, ef)
    };
    proof {
        assert(path.0@.last() == ef) by {
            if sf == ef {
                if path.0@.len() == 1 {
                }
            }
        }
    }
    let mut fidw: Vec<FieldUsize> = Vec::new();
    let mut k: usize = 0;
    while k < path.0.len()
        invariant
            k <= path.0@.len(),
            fidw@.len() <= k,
            bl_wf(*bl),
            all_on_grid(path.0@),
            all_on_grid(fidw@),
        decreases path.0@.len() - k,
    {
        let f = path.0[k];
        if bl.check_field(f) {
            proof {
                assert(on_grid(f.0 as int, f.1 as int));
            }
            fidw.push(f);
        }
        k += 1;
    }
    let mut fidwr: Vec<FieldUsize> = Vec::new();
    let mut k: usize = fidw.len();
    while k > 0
        invariant
            k <= fidw@.len(),
            fidwr@.len() == fidw@.len() - k,
            all_on_grid(fidw@),
            all_on_grid(fidwr@),
        decreases k,
    {
        k -= 1;
        let f = fidw[k];
        proof {
            assert(on_grid(f.0 as int, f.1 as int));
        }
        fidwr.push(f);
    }
    // move each obstacle aside, nearest the target first
    proof {
        assert(crate::motor::total_len(res.instructions@) == 0);
        assert(res.instructions@ =~= disp_plan(
            moved_pieces@,
            old(pos).xmtr as int,
            old(pos).ymtr as int,
        ));
    }
    let mut oi: usize = 0;
    while oi < fidwr.len()
        invariant
            oi <= fidwr@.len(),
            fidwr@.len() <= 1212,
            bl_wf(*bl),
            all_on_grid(fidwr@),
            all_on_grid(path.0@),
            path.0@.len() >= 1,
            path.0@.len() <= 1212,
            in_pos_window(*pos),
            pos.xmtr == old(pos).xmtr + net_x(res.instructions@),
            pos.ymtr == old(pos).ymtr + net_y(res.instructions@),
            crate::motor::total_len(res.instructions@) <= 400000 * oi + (if oi == 0 {
                0int
            } else {
                168200000int
            }),
            moved_pieces@.len() <= 2 * oi,
            forall|m: int| 0 <= m < moved_pieces@.len() ==> cell_field_pair(#[trigger] moved_pieces@[m]),
            -30000 <= pos.xmtr <= 30000 || oi == 0,
            -30000 <= pos.ymtr <= 30000 || oi == 0,
            res.instructions@ == disp_plan(
                moved_pieces@,
                old(pos).xmtr as int,
                old(pos).ymtr as int,
            ),
        decreases fidwr@.len() - oi,
    {
        let field = fidwr[oi];
        let ghost pre_res = res.instructions@;
        let ghost pre_pos = *pos;
        let ghost pre_moved = moved_pieces@;
        let ok = displace_one(field, &path, bl, pos, &mut res, &mut moved_pieces);
        if !ok {
            return Err(PFError::Stuck);
        }
        proof {
            crate::motor::lemma_net_concat(
                pre_res,
                res.instructions@.skip(pre_res.len() as int),
            );
            assert(pre_res + res.instructions@.skip(pre_res.len() as int) =~= res.instructions@);
            let fresh = moved_pieces@.skip(pre_moved.len() as int);
            assert(moved_pieces@ =~= pre_moved + fresh);
            lemma_disp_plan_append(
                pre_moved,
                fresh,
                old(pos).xmtr as int,
                old(pos).ymtr as int,
            );
        }
        oi += 1;
    }
    // run the path itself, then put the displaced pieces back
    let ghost disp_leg = res.instructions@;
    run_path_and_restore(path, ef, &moved_pieces, pos, &mut res);
    proof {
        let t_leg = choose|t: Seq<crate::motor::MotorMoveType>|
            #[trigger] tail_decomposition(
                res.instructions@,
                disp_leg,
                t,
                moved_pieces@,
                ef,
                old(pos).xmtr as int,
                old(pos).ymtr as int,
            );
        assert(stuck_decomposition(
            res.instructions@,
            moved_pieces@,
            t_leg,
            ef,
            old(pos).xmtr as int,
            old(pos).ymtr as int,
        ));
        crate::motor::lemma_net_concat(
            disp_leg,
            res.instructions@.skip(disp_leg.len() as int),
        );
        assert(disp_leg + res.instructions@.skip(disp_leg.len() as int) =~= res.instructions@);
    }
    Ok(res)
}



/// The shape `run_path_and_restore` appends behind an existing prefix: a
/// transport leg `t` that brings the head by `ef`, then exactly the log's
/// restoration.
pub open spec fn tail_decomposition(
    s: Seq<crate::motor::MotorMoveType>,
    prefix: Seq<crate::motor::MotorMoveType>,
    t: Seq<crate::motor::MotorMoveType>,
    disp: Seq<(Field, Field)>,
    ef: FieldUsize,
    px: int,
    py: int,
) -> bool {
    let pxt = px + net_x(prefix) + net_x(t);
    let pyt = py + net_y(prefix) + net_y(t);
    &&& s == prefix + t + restore_plan(disp, pxt, pyt)
    &&& crate::motor::near_steps(pxt, crate::coords::field_of_cell(ef).0 as int, 1500)
    &&& crate::motor::near_steps(pyt, crate::coords::field_of_cell(ef).1 as int, 1500)
}

/// Runs the chosen reference path — merged — and then walks the
/// displacement log backwards, restoring every displaced piece.
#[verifier::rlimit(100)]
fn run_path_and_restore(
    path: OneFML,
    ef: FieldUsize,
    moved_pieces: &Vec<(Field, Field)>,
    pos: &mut PosNow,
    res: &mut MotorInstructions,
)
    requires
        path.0@.len() >= 1,
        path.0@.len() <= 1212,
        all_on_grid(path.0@),
        path.0@.last() == ef,
        in_pos_window(*old(pos)),
        crate::motor::total_len(old(res).instructions@) <= 0x2800_0000,
        moved_pieces@.len() <= 2424,
        forall|m: int|
            0 <= m < moved_pieces@.len() ==> cell_field_pair(#[trigger] moved_pieces@[m]),
    ensures
        in_pos_window(*final(pos)),
        head_near_cell(*final(pos), 1500),
        final(pos).xmtr == old(pos).xmtr + net_x(
            final(res).instructions@.skip(old(res).instructions@.len() as int),
        ),
        final(pos).ymtr == old(pos).ymtr + net_y(
            final(res).instructions@.skip(old(res).instructions@.len() as int),
        ),
        final(res).instructions@.take(old(res).instructions@.len() as int) == old(
            res,
        ).instructions@,
        final(res).instructions@.len() >= old(res).instructions@.len(),
        crate::motor::total_len(final(res).instructions@) <= crate::motor::total_len(
            old(res).instructions@,
        ) + 0x4000_0000,
        exists|t: Seq<crate::motor::MotorMoveType>|
            #[trigger] tail_decomposition(
                final(res).instructions@,
                old(res).instructions@,
                t,
                moved_pieces@,
                ef,
                old(pos).xmtr as int - net_x(old(res).instructions@),
                old(pos).ymtr as int - net_y(old(res).instructions@),
            ),
{
    let ghost prev = res.instructions@;
    let mut respath = path.to_mi(pos);
    proof {
        crate::motor::lemma_total_len_nonneg(respath.instructions@);
        crate::motor::lemma_ease_preserves(respath.instructions@);
    }
    respath.ease();
    let ghost dp = respath.instructions@;
    res.append_wo_pos(respath);
    proof {
        assert(res.instructions@ =~= prev + dp);
        crate::motor::lemma_net_concat(prev, dp);
        crate::coords::lemma_steps_bound(
            crate::coords::field_of_cell(path.0@.last()).0 as int,
            15,
        );
        crate::coords::lemma_steps_bound(
            crate::coords::field_of_cell(path.0@.last()).1 as int,
            15,
        );
        assert(head_near_cell(*pos, 1500)) by {
            let lc = path.0@.last();
            assert(on_grid(lc.0 as int, lc.1 as int));
            assert(crate::motor::near_steps(
                pos.xmtr as int,
                crate::coords::field_of_cell(lc).0 as int,
                1500,
            ));
            assert(crate::motor::near_steps(
                pos.ymtr as int,
                crate::coords::field_of_cell(lc).1 as int,
                1500,
            ));
        }
    }
    let ghost ptx = pos.xmtr as int;
    let ghost pty = pos.ymtr as int;
    let ghost ptlen = res.instructions@.len() as int;
    let ghost pt_res = res.instructions@;
    restore_displacements(moved_pieces, pos, res);
    proof {
        crate::motor::lemma_net_concat(pt_res, restore_plan(moved_pieces@, ptx, pty));
        crate::motor::lemma_total_len_nonneg(restore_plan(moved_pieces@, ptx, pty));
        let rp = restore_plan(moved_pieces@, ptx, pty);
        assert(res.instructions@ == pt_res + rp);
        assert(tail_decomposition(
            res.instructions@,
            prev,
            dp,
            moved_pieces@,
            ef,
            old(pos).xmtr as int - net_x(prev),
            old(pos).ymtr as int - net_y(prev),
        )) by {
            assert(pt_res =~= prev + dp);
            assert(prev + dp + rp =~= (prev + dp) + rp);
        }
        assert(res.instructions@.take(prev.len() as int) =~= prev);
        crate::motor::lemma_net_concat(dp, rp);
        assert(res.instructions@.skip(prev.len() as int) =~= dp + rp);
    }
}

/// Walks the displacement log backwards, carrying every displaced piece
/// from its refuge back to its own cell, and appends exactly that
/// restoration leg to the plan.
#[verifier::rlimit(100)]
fn restore_displacements(
    moved_pieces: &Vec<(Field, Field)>,
    pos: &mut PosNow,
    res: &mut MotorInstructions,
)
    requires
        moved_pieces@.len() <= 2424,
        -30000 <= old(pos).xmtr <= 30000,
        -30000 <= old(pos).ymtr <= 30000,
        crate::motor::total_len(old(res).instructions@) <= 0x6000_0000,
        forall|m: int|
            0 <= m < moved_pieces@.len() ==> cell_field_pair(#[trigger] moved_pieces@[m]),
        head_near_cell(*old(pos), 1500),
    ensures
        in_pos_window(*final(pos)),
        head_near_cell(*final(pos), 1500),
        final(res).instructions@ == old(res).instructions@ + restore_plan(
            moved_pieces@,
            old(pos).xmtr as int,
            old(pos).ymtr as int,
        ),
        final(pos).xmtr == old(pos).xmtr + net_x(
            restore_plan(moved_pieces@, old(pos).xmtr as int, old(pos).ymtr as int),
        ),
        final(pos).ymtr == old(pos).ymtr + net_y(
            restore_plan(moved_pieces@, old(pos).xmtr as int, old(pos).ymtr as int),
        ),
        crate::motor::total_len(final(res).instructions@) <= crate::motor::total_len(
            old(res).instructions@,
        ) + 200000 * moved_pieces@.len(),
{
    let ghost ptx = old(pos).xmtr as int;
    let ghost pty = old(pos).ymtr as int;
    let ghost ptlen = old(res).instructions@.len() as int;
    let ghost pt_res = old(res).instructions@;
    proof {
        assert(res.instructions@.skip(ptlen) =~= Seq::<crate::motor::MotorMoveType>::empty());
        assert(moved_pieces@.take(moved_pieces@.len() as int) =~= moved_pieces@);
    }
    let mut mi: usize = moved_pieces.len();
    while mi > 0
        invariant
            mi <= moved_pieces@.len(),
            moved_pieces@.len() <= 2424,
            -30000 <= pos.xmtr <= 30000,
            -30000 <= pos.ymtr <= 30000,
            in_pos_window(*pos),
            ptx == old(pos).xmtr as int,
            pty == old(pos).ymtr as int,
            ptlen == old(res).instructions@.len() as int,
            pt_res == old(res).instructions@,
            pos.xmtr == old(pos).xmtr + net_x(res.instructions@.skip(ptlen)),
            pos.ymtr == old(pos).ymtr + net_y(res.instructions@.skip(ptlen)),
            crate::motor::total_len(res.instructions@) <= crate::motor::total_len(pt_res)
                + 200000 * (moved_pieces@.len() - mi),
            forall|m: int|
                0 <= m < moved_pieces@.len() ==> cell_field_pair(#[trigger] moved_pieces@[m]),
            head_near_cell(*pos, 1500),
            res.instructions@.len() >= ptlen,
            res.instructions@.take(ptlen) == pt_res,
            restore_plan(moved_pieces@, ptx, pty) == res.instructions@.skip(ptlen)
                + restore_plan(moved_pieces@.take(mi as int), pos.xmtr as int, pos.ymtr as int),
        decreases mi,
    {
        mi -= 1;
        let (back_from, back_to) = moved_pieces[mi];
        let ghost prev = res.instructions@;
        let ghost pos_r = *pos;
        let part = MotorInstructions::diagonal(
            back_from,
            back_to,
            Speeds::Transportspeed,
            true,
            pos,
        );
        let ghost dp = part.instructions@;
        res.append_wo_pos(part);
        proof {
            assert(res.instructions@ =~= prev + dp);
            crate::motor::lemma_net_concat(prev, dp);
            crate::coords::lemma_steps_bound(back_to.0 as int, 15);
            crate::coords::lemma_steps_bound(back_to.1 as int, 15);
            assert(prev.len() >= ptlen);
            assert(res.instructions@.take(ptlen) =~= prev.take(ptlen));
            let tk = moved_pieces@.take(mi + 1);
            assert(tk.len() == mi + 1);
            assert(tk.last() == moved_pieces@[mi as int]);
            assert(tk.drop_last() =~= moved_pieces@.take(mi as int));
            assert(dp == crate::motor::diag_full_instrs(
                back_from,
                back_to,
                Speeds::Transportspeed,
                true,
                pos_r.xmtr as int,
                pos_r.ymtr as int,
            ));
            assert(restore_plan(tk, pos_r.xmtr as int, pos_r.ymtr as int) == dp + restore_plan(
                moved_pieces@.take(mi as int),
                pos_r.xmtr + net_x(dp),
                pos_r.ymtr + net_y(dp),
            ));
            assert(res.instructions@.skip(ptlen) =~= prev.skip(ptlen) + dp);
            assert(prev.skip(ptlen) + (dp + restore_plan(
                moved_pieces@.take(mi as int),
                pos.xmtr as int,
                pos.ymtr as int,
            )) =~= (prev.skip(ptlen) + dp) + restore_plan(
                moved_pieces@.take(mi as int),
                pos.xmtr as int,
                pos.ymtr as int,
            ));
            crate::motor::lemma_net_concat(prev.skip(ptlen), dp);
            assert(head_near_cell(*pos, 1500)) by {
                crate::coords::lemma_cell_field_exists(back_to);
                let c = choose|c: FieldUsize|
                    on_grid(c.0 as int, c.1 as int) && #[trigger] crate::coords::field_of_cell(c)
                        == back_to;
                assert(crate::motor::near_steps(
                    pos.xmtr as int,
                    crate::coords::field_of_cell(c).0 as int,
                    1500,
                ));
                assert(crate::motor::near_steps(
                    pos.ymtr as int,
                    crate::coords::field_of_cell(c).1 as int,
                    1500,
                ));
            }
        }
    }
    proof {
        assert(moved_pieces@.take(0) =~= Seq::<(Field, Field)>::empty());
        assert(restore_plan(moved_pieces@, ptx, pty) == res.instructions@.skip(ptlen)
            + Seq::<crate::motor::MotorMoveType>::empty());
        assert(res.instructions@.skip(ptlen) + Seq::<crate::motor::MotorMoveType>::empty()
            =~= res.instructions@.skip(ptlen));
        assert(res.instructions@ =~= res.instructions@.take(ptlen) + res.instructions@.skip(
            ptlen,
        ));
        crate::motor::lemma_total_len_nonneg(res.instructions@.skip(ptlen));
    }
}

/// Adds two occupancy counts, saturating far below any overflow.
fn add_count(a: usize, b: usize) -> (r: usize)
    requires
        a <= 112,
        b <= 112,
    ensures
        r == a + b,
{
    a + b
}


/// Moves one obstacle off the reference path onto a free neighbour, or,
/// when every neighbour is taken, first frees one of them by a second
/// displacement. Answers whether a refuge was found; the moves made are
/// appended to the plan and logged for restoration.
#[verifier::rlimit(100)]
fn displace_one(
    field: FieldUsize,
    path: &OneFML,
    bl: &BitList,
    pos: &mut PosNow,
    res: &mut MotorInstructions,
    moved_pieces: &mut Vec<(Field, Field)>,
) -> (ok: bool)
    requires
        on_grid(field.0 as int, field.1 as int),
        all_on_grid(path.0@),
        in_pos_window(*old(pos)),
    ensures
        in_pos_window(*final(pos)),
        final(res).instructions@.len() >= old(res).instructions@.len(),
        final(res).instructions@.take(old(res).instructions@.len() as int) == old(res).instructions@,
        final(pos).xmtr == old(pos).xmtr + net_x(
            final(res).instructions@.skip(old(res).instructions@.len() as int),
        ),
        final(pos).ymtr == old(pos).ymtr + net_y(
            final(res).instructions@.skip(old(res).instructions@.len() as int),
        ),
        crate::motor::total_len(final(res).instructions@) <= crate::motor::total_len(
            old(res).instructions@,
        ) + (if -30000 <= old(pos).xmtr <= 30000 && -30000 <= old(pos).ymtr <= 30000 {
            400000int
        } else {
            168200000int
        }),
        final(moved_pieces)@.len() >= old(moved_pieces)@.len(),
        final(moved_pieces)@.len() <= old(moved_pieces)@.len() + 2,
        forall|m: int|
            0 <= m < old(moved_pieces)@.len() ==> #[trigger] final(moved_pieces)@[m]
                == old(moved_pieces)@[m],
        forall|m: int|
            old(moved_pieces)@.len() <= m < final(moved_pieces)@.len() ==> cell_field_pair(
                #[trigger] final(moved_pieces)@[m],
            ),
        final(res).instructions@ == old(res).instructions@ + disp_plan(
            final(moved_pieces)@.skip(old(moved_pieces)@.len() as int),
            old(pos).xmtr as int,
            old(pos).ymtr as int,
        ),
        ok ==> -30000 <= final(pos).xmtr <= 30000 && -30000 <= final(pos).ymtr <= 30000,
        !ok ==> *final(res) == *old(res) && *final(pos) == *old(pos) && *final(moved_pieces)
            == *old(moved_pieces),
{
    let ghost res0 = res.instructions@;
    let ghost moved0 = moved_pieces@;
    let ghost pos0 = *pos;
    let ghost mut dp_t2_g: Seq<crate::motor::MotorMoveType> = Seq::empty();
    let ghost mut esc_field2_g: FieldUsize = FieldUsize(0, 0);
    let mut poss_fields = field.get_neighbors();
    proof {
        crate::coords::lemma_neighbors_on_grid(field);
    }
    let mut pk: usize = 0;
    while pk < path.0.len()
        invariant
            pk <= path.0@.len(),
            all_on_grid(poss_fields@),
            all_on_grid(path.0@),
        decreases path.0@.len() - pk,
    {
        let fff = path.0[pk];
        if vec_contains(&poss_fields, fff) {
            let ghost before = poss_fields@;
            vec_retain_ne(&mut poss_fields, fff);
            proof {
                assert forall|m: int| 0 <= m < poss_fields@.len() implies on_grid(
                    (#[trigger] poss_fields@[m]).0 as int,
                    poss_fields@[m].1 as int,
                ) by {
                    let w = choose|w: int| 0 <= w < before.len() && before[w] == poss_fields@[m];
                }
            }
        }
        pk += 1;
    }
    let mut free = false;
    let mut esc_f = FieldUsize(0, 0);
    let mut fi: usize = 0;
    while fi < poss_fields.len()
        invariant
            fi <= poss_fields@.len(),
            all_on_grid(poss_fields@),
            free ==> on_grid(esc_f.0 as int, esc_f.1 as int),
        decreases poss_fields@.len() - fi,
    {
        let ff = poss_fields[fi];
        if !bl.check_field(ff) {
            proof {
                assert(on_grid(ff.0 as int, ff.1 as int));
            }
            esc_f = ff;
            free = true;
            break ;
        }
        fi += 1;
    }
    if !free {
        let mut free2 = false;
        let mut esc_field2 = FieldUsize(0, 0);
        let mut pe: usize = 0;
        while pe < poss_fields.len() && !free2
            invariant
                pe <= poss_fields@.len(),
                all_on_grid(poss_fields@),
                all_on_grid(path.0@),
                free2 ==> on_grid(esc_field2.0 as int, esc_field2.1 as int) && on_grid(
                    esc_f.0 as int,
                    esc_f.1 as int,
                ),
            decreases poss_fields@.len() - pe,
        {
            let poss_esc = poss_fields[pe];
            proof {
                assert(on_grid(poss_esc.0 as int, poss_esc.1 as int));
            }
            let mut poss_fields2 = poss_esc.get_neighbors();
            proof {
                crate::coords::lemma_neighbors_on_grid(poss_esc);
            }
            let mut pk2: usize = 0;
            while pk2 < path.0.len()
                invariant
                    pk2 <= path.0@.len(),
                    all_on_grid(poss_fields2@),
                    all_on_grid(path.0@),
                    on_grid(poss_esc.0 as int, poss_esc.1 as int),
                decreases path.0@.len() - pk2,
            {
                let fff = path.0[pk2];
                let ghost before = poss_fields2@;
                vec_retain_ne(&mut poss_fields2, fff);
                proof {
                    assert forall|m: int| 0 <= m < poss_fields2@.len() implies on_grid(
                        (#[trigger] poss_fields2@[m]).0 as int,
                        poss_fields2@[m].1 as int,
                    ) by {
                        let w = choose|w: int| 0 <= w < before.len() && before[w]
                            == poss_fields2@[m];
                    }
                }
                let ghost before2 = poss_fields2@;
                vec_retain_ne(&mut poss_fields2, poss_esc);
                proof {
                    assert forall|m: int| 0 <= m < poss_fields2@.len() implies on_grid(
                        (#[trigger] poss_fields2@[m]).0 as int,
                        poss_fields2@[m].1 as int,
                    ) by {
                        let w = choose|w: int| 0 <= w < before2.len() && before2[w]
                            == poss_fields2@[m];
                    }
                }
                pk2 += 1;
            }
            let mut f2i: usize = 0;
            while f2i < poss_fields2.len() && !free2
                invariant
                    f2i <= poss_fields2@.len(),
                    all_on_grid(poss_fields2@),
                    on_grid(poss_esc.0 as int, poss_esc.1 as int),
                    free2 ==> on_grid(esc_field2.0 as int, esc_field2.1 as int) && on_grid(
                        esc_f.0 as int,
                        esc_f.1 as int,
                    ),
                decreases poss_fields2@.len() - f2i,
            {
                let ff2 = poss_fields2[f2i];
                if !bl.check_field(ff2) {
                    proof {
                        assert(on_grid(ff2.0 as int, ff2.1 as int));
                    }
                    esc_field2 = ff2;
                    esc_f = poss_esc;
                    free2 = true;
                }
                f2i += 1;
            }
            pe += 1;
        }
        if !free2 {
            proof {
                assert(res.instructions@.take(res0.len() as int) =~= res0);
                assert(res.instructions@.skip(res0.len() as int)
                    =~= Seq::<crate::motor::MotorMoveType>::empty());
                assert(moved_pieces@.skip(moved0.len() as int)
                    =~= Seq::<(Field, Field)>::empty());
                assert(res0 + Seq::<crate::motor::MotorMoveType>::empty() =~= res0);
            }
            return false;
        }
        let ghost prev = res.instructions@;
        let ghost pos_t2 = *pos;
        let part = MotorInstructions::diagonal(
            esc_f.to_field(),
            esc_field2.to_field(),
            Speeds::Transportspeed,
            true,
            pos,
        );
        let ghost dp = part.instructions@;
        res.append_wo_pos(part);
        proof {
            assert(res.instructions@ =~= prev + dp);
            crate::motor::lemma_net_concat(prev, dp);
            crate::coords::lemma_steps_bound(
                crate::coords::field_of_cell(esc_field2).0 as int,
                15,
            );
            crate::coords::lemma_steps_bound(
                crate::coords::field_of_cell(esc_field2).1 as int,
                15,
            );
        }
        proof {
            crate::coords::lemma_cell_field(esc_field2);
            crate::coords::lemma_cell_field(esc_f);
            dp_t2_g = dp;
            esc_field2_g = esc_field2;
        }
        moved_pieces.push((esc_field2.to_field(), esc_f.to_field()));
    }
    let ghost prev = res.instructions@;
    let ghost pos_main = *pos;
    let part = MotorInstructions::diagonal(
        field.to_field(),
        esc_f.to_field(),
        Speeds::Transportspeed,
        true,
        pos,
    );
    let ghost dp = part.instructions@;
    res.append_wo_pos(part);
    proof {
        assert(res.instructions@ =~= prev + dp);
        crate::motor::lemma_net_concat(prev, dp);
        crate::coords::lemma_steps_bound(crate::coords::field_of_cell(esc_f).0 as int, 15);
        crate::coords::lemma_steps_bound(crate::coords::field_of_cell(esc_f).1 as int, 15);
    }
    proof {
        crate::coords::lemma_cell_field(esc_f);
        crate::coords::lemma_cell_field(field);
    }
    moved_pieces.push((esc_f.to_field(), field.to_field()));
    proof {
        assert(res.instructions@.take(res0.len() as int) =~= res0);
        crate::motor::lemma_net_concat(res0, res.instructions@.skip(res0.len() as int));
        assert(res0 + res.instructions@.skip(res0.len() as int) =~= res.instructions@);
        let new_entries = moved_pieces@.skip(moved0.len() as int);
        let fe = crate::coords::field_of_cell(field);
        let ee = crate::coords::field_of_cell(esc_f);
        assert(dp == crate::motor::diag_full_instrs(
            fe,
            ee,
            Speeds::Transportspeed,
            true,
            pos_main.xmtr as int,
            pos_main.ymtr as int,
        ));
        if moved_pieces@.len() == moved0.len() + 1 {
            // a free refuge was found at once: one displacement
            assert(new_entries.len() == 1);
            assert(new_entries[0] == (ee, fe));
            assert(pos_main == pos0);
            assert(new_entries.skip(1) =~= Seq::<(Field, Field)>::empty());
            assert(disp_plan(new_entries, pos0.xmtr as int, pos0.ymtr as int) == dp + disp_plan(
                Seq::<(Field, Field)>::empty(),
                pos0.xmtr + net_x(dp),
                pos0.ymtr + net_y(dp),
            ));
            assert(dp + Seq::<crate::motor::MotorMoveType>::empty() =~= dp);
            assert(res.instructions@ =~= res0 + disp_plan(
                new_entries,
                pos0.xmtr as int,
                pos0.ymtr as int,
            ));
        } else {
            // the refuge itself was first cleared: two displacements
            let e2 = crate::coords::field_of_cell(esc_field2_g);
            assert(new_entries.len() == 2);
            assert(new_entries[0] == (e2, ee));
            assert(new_entries[1] == (ee, fe));
            assert(dp_t2_g == crate::motor::diag_full_instrs(
                ee,
                e2,
                Speeds::Transportspeed,
                true,
                pos0.xmtr as int,
                pos0.ymtr as int,
            ));
            assert(pos_main.xmtr == pos0.xmtr + net_x(dp_t2_g));
            assert(pos_main.ymtr == pos0.ymtr + net_y(dp_t2_g));
            assert(new_entries.skip(1) =~= seq![(ee, fe)]);
            assert(seq![(ee, fe)].skip(1) =~= Seq::<(Field, Field)>::empty());
            assert(disp_plan(seq![(ee, fe)], pos_main.xmtr as int, pos_main.ymtr as int) == dp
                + disp_plan(
                Seq::<(Field, Field)>::empty(),
                pos_main.xmtr + net_x(dp),
                pos_main.ymtr + net_y(dp),
            ));
            assert(dp + Seq::<crate::motor::MotorMoveType>::empty() =~= dp);
            assert(disp_plan(new_entries, pos0.xmtr as int, pos0.ymtr as int) == dp_t2_g
                + disp_plan(new_entries.skip(1), pos0.xmtr + net_x(dp_t2_g), pos0.ymtr + net_y(
                dp_t2_g,
            )));
            assert(disp_plan(new_entries, pos0.xmtr as int, pos0.ymtr as int) == dp_t2_g + dp);
            assert(res.instructions@ =~= (res0 + dp_t2_g) + dp);
            assert((res0 + dp_t2_g) + dp =~= res0 + (dp_t2_g + dp));
        }
    }
    true
}


/// Whether every cell a list of sub-moves names lies on the grid.
pub open spec fn pfi_ok(s: Seq<PFIType>) -> bool {
    forall|k: int|
        0 <= k < s.len() ==> (match #[trigger] s[k] {
            PFIType::NMove(a, b) => on_grid(a.0 as int, a.1 as int) && on_grid(
                b.0 as int,
                b.1 as int,
            ),
            PFIType::Custom(a, b) => on_grid(a.0 as int, a.1 as int) && on_grid(
                b.0 as int,
                b.1 as int,
            ),
            PFIType::Rochade(p, cc) => on_grid(cc@[0].0 as int, cc@[0].1 as int) && on_grid(
                cc@[1].0 as int,
                cc@[1].1 as int,
            ) && on_grid(cc@[2].0 as int, cc@[2].1 as int) && on_grid(
                cc@[3].0 as int,
                cc@[3].1 as int,
            ),
        })
}


/// Whether the castling working area — the two ranks `base` and `base + 1`
/// of the occupancy map — marks its cell `(y, x)` occupied, exactly as the
/// planner's two-row slice answers it.
pub open spec fn wa_occ(v: Seq<Seq<(bool, u8)>>, base: int, y: int, x: int) -> bool {
    if on_grid(y, x) && y < 2 {
        v[base + y][x].0
    } else {
        false
    }
}

/// The escape manoeuvre's exact plan: the king swings diagonally to the
/// escape cell behind its rank, the rook slides home, the king lands on
/// its castled square; each leg threaded through the head position it
/// starts from.
pub open spec fn helper_plan(
    coords: [(usize, usize); 4],
    koq: bool,
    col: bool,
    px: int,
    py: int,
) -> Seq<crate::motor::MotorMoveType> {
    let esc0 = if koq {
        FieldUsize(1, 8)
    } else {
        FieldUsize(1, 6)
    };
    let esc = if col {
        FieldUsize((esc0.0 + 5) as usize, esc0.1)
    } else {
        esc0
    };
    let c0 = crate::coords::field_of_cell(FieldUsize(coords@[0].0, coords@[0].1));
    let c1 = crate::coords::field_of_cell(FieldUsize(coords@[1].0, coords@[1].1));
    let c2 = crate::coords::field_of_cell(FieldUsize(coords@[2].0, coords@[2].1));
    let c3 = crate::coords::field_of_cell(FieldUsize(coords@[3].0, coords@[3].1));
    let ef = crate::coords::field_of_cell(esc);
    let p1 = crate::motor::diag_full_instrs(c0, ef, Speeds::Transportspeed, true, px, py);
    let px1 = px + net_x(p1);
    let py1 = py + net_y(p1);
    let p2 = crate::motor::f2f_instrs(c2, c3, Speeds::Transportspeed, true, px1, py1);
    let px2 = px1 + net_x(p2);
    let py2 = py1 + net_y(p2);
    let p3 = crate::motor::diag_full_instrs(ef, c1, Speeds::Transportspeed, true, px2, py2);
    p1 + p2 + p3
}

/// The exact castling plan for the piece `p` on the four squares `coords`,
/// as a function of the occupancy map and the head position: the escape
/// manoeuvre when the cell diagonally behind the king's path is clear; the
/// same manoeuvre bracketed by stepping that cell's piece aside and back
/// when only it is taken; otherwise the route over the staging row beyond
/// the board's edge.
pub open spec fn rochade_plan(
    p: Piece,
    coords: [(usize, usize); 4],
    v: Seq<Seq<(bool, u8)>>,
    px: int,
    py: int,
) -> Seq<crate::motor::MotorMoveType> {
    let col = crate::pieces::spec_color(p);
    let koq = p matches Piece::King(_);
    let base = if col {
        6int
    } else {
        0int
    };
    let kng = if koq {
        FieldUsize(0, 7)
    } else {
        FieldUsize(0, 6)
    };
    let diag_col = if koq {
        kng.1 + 1
    } else {
        kng.1 - 1
    };
    let behind_diag = wa_occ(v, base, 1, diag_col as int);
    let behind = wa_occ(v, base, 1, kng.1 as int);
    let c0 = crate::coords::field_of_cell(FieldUsize(coords@[0].0, coords@[0].1));
    let c1 = crate::coords::field_of_cell(FieldUsize(coords@[1].0, coords@[1].1));
    let c2 = crate::coords::field_of_cell(FieldUsize(coords@[2].0, coords@[2].1));
    let c3 = crate::coords::field_of_cell(FieldUsize(coords@[3].0, coords@[3].1));
    if !behind_diag {
        helper_plan(coords, koq, col, px, py)
    } else if !behind {
        let fak = if !col {
            FieldUsize(1, kng.1)
        } else {
            FieldUsize(7, kng.1)
        };
        let fntfak = if koq {
            FieldUsize(fak.0, (fak.1 + 1) as usize)
        } else {
            FieldUsize(fak.0, (fak.1 - 1) as usize)
        };
        let ff = crate::coords::field_of_cell(fak);
        let fnf = crate::coords::field_of_cell(fntfak);
        let p1 = crate::motor::f2f_instrs(fnf, ff, Speeds::Transportspeed, true, px, py);
        let px1 = px + net_x(p1);
        let py1 = py + net_y(p1);
        let p2 = helper_plan(coords, koq, col, px1, py1);
        let px2 = px1 + net_x(p2);
        let py2 = py1 + net_y(p2);
        let p3 = crate::motor::f2f_instrs(ff, fnf, Speeds::Transportspeed, true, px2, py2);
        p1 + p2 + p3
    } else {
        let fntr0 = if koq {
            FieldUsize(0, 11)
        } else {
            FieldUsize(0, 2)
        };
        let fntr = if col {
            FieldUsize((fntr0.0 + 8) as usize, fntr0.1)
        } else {
            fntr0
        };
        let esc_f = if !col {
            FieldUsize((fntr.0 + 1) as usize, fntr.1)
        } else {
            FieldUsize((fntr.0 - 1) as usize, fntr.1)
        };
        let fr = crate::coords::field_of_cell(fntr);
        let ef = crate::coords::field_of_cell(esc_f);
        let p1 = crate::motor::diag_full_instrs(c2, ef, Speeds::Transportspeed, true, px, py);
        let px1 = px + net_x(p1);
        let py1 = py + net_y(p1);
        let p2 = crate::motor::f2f_instrs(c0, fr, Speeds::Transportspeed, true, px1, py1);
        let px2 = px1 + net_x(p2);
        let py2 = py1 + net_y(p2);
        let p3 = crate::motor::diag_full_instrs(ef, c2, Speeds::Transportspeed, true, px2, py2);
        let px3 = px2 + net_x(p3);
        let py3 = py2 + net_y(p3);
        let p4 = crate::motor::f2f_instrs(c2, c3, Speeds::Transportspeed, true, px3, py3);
        let px4 = px3 + net_x(p4);
        let py4 = py3 + net_y(p4);
        let p5 = crate::motor::f2f_instrs(fr, c1, Speeds::Transportspeed, true, px4, py4);
        p1 + p2 + p3 + p4 + p5
    }
}

/// Plans the castling manoeuvre named by `p` on the four squares `coords`
/// (king from/to, rook from/to). When the rank behind the king is clear the
/// king swings around the rook there; when only the cell diagonally behind
/// is taken, that piece steps aside first and back afterwards; otherwise
/// the king travels by the staging row beyond the board's edge.
#[verifier::rlimit(100)]
pub fn pathfinding_rochade(
    p: Piece,
    coords: [(usize, usize); 4],
    bl: &mut BitList,
    pos: &mut PosNow,
) -> (r: Result<MotorInstructions, PFError>)
    requires
        bl_wf(*old(bl)),
        on_grid(coords@[0].0 as int, coords@[0].1 as int),
        on_grid(coords@[1].0 as int, coords@[1].1 as int),
        on_grid(coords@[2].0 as int, coords@[2].1 as int),
        on_grid(coords@[3].0 as int, coords@[3].1 as int),
        in_pos_window(*old(pos)),
    ensures
        *final(bl) == *old(bl),
        in_pos_window(*final(pos)),
        ((p matches Piece::King(_)) || (p matches Piece::Queen(_))) <==> (r is Ok),
        r matches Ok(mi) ==> {
            &&& mi.instructions@ == rochade_plan(
                p,
                coords,
                bl_view(*old(bl)),
                old(pos).xmtr as int,
                old(pos).ymtr as int,
            )
            &&& final(pos).xmtr == old(pos).xmtr + net_x(mi.instructions@)
            &&& final(pos).ymtr == old(pos).ymtr + net_y(mi.instructions@)
            &&& head_near_cell(*final(pos), 200)
        },
{
    let col = p.piece_to_color();
    let mut wv: Vec<[(bool, u8); 14]> = Vec::new();
    if col {
        wv.push(bl.0[6]);
        wv.push(bl.0[7]);
    } else {
        wv.push(bl.0[0]);
        wv.push(bl.0[1]);
    }
    let working_area = BitList(wv);
    let (kng, koq) = match p {
        Piece::King(_) => (FieldUsize::from_tuple((0u32, 7u32)), true),
        Piece::Queen(_) => (FieldUsize::from_tuple((0u32, 6u32)), false),
        _ => {
            return Err(PFError::Rochade(0));
        },
    };
    let mut res = MotorInstructions::new();
    let behind_diag = if koq {
        working_area.check_coords(kng.add_y(1).add_x(1).to_tuple())
    } else {
        working_area.check_coords(kng.add_y(1).sub_x(1).to_tuple())
    };
    let behind = working_area.check_coords(kng.add_y(1).to_tuple());
    let ghost p0 = *pos;
    if !behind_diag {
        let part = pf_rochade_helper(coords, koq, col, pos);
        let ghost dp = part.instructions@;
        res.append_wo_pos(part);
        proof {
            assert(res.instructions@ =~= Seq::<crate::motor::MotorMoveType>::empty() + dp);
            crate::motor::lemma_net_concat(Seq::<crate::motor::MotorMoveType>::empty(), dp);
        }
    } else if !behind {
        let fak = if !col {
            kng.add_y(1)
        } else {
            kng.add_y(7)
        };
        let fntfak = if koq {
            fak.add_x(1)
        } else {
            fak.sub_x(1)
        };
        let ghost r0 = res.instructions@;
        let part = MotorInstructions::field_to_field(
            Field::from_field_usize(fntfak),
            Field::from_field_usize(fak),
            Speeds::Transportspeed,
            true,
            pos,
        );
        let ghost dp = part.instructions@;
        res.append_wo_pos(part);
        proof {
            assert(res.instructions@ =~= r0 + dp);
            crate::motor::lemma_net_concat(r0, dp);
        }
        let ghost r1 = res.instructions@;
        let part = pf_rochade_helper(coords, koq, col, pos);
        let ghost dp = part.instructions@;
        res.append_wo_pos(part);
        proof {
            assert(res.instructions@ =~= r1 + dp);
            crate::motor::lemma_net_concat(r1, dp);
        }
        let ghost r2 = res.instructions@;
        let part = MotorInstructions::field_to_field(
            Field::from_field_usize(fak),
            Field::from_field_usize(fntfak),
            Speeds::Transportspeed,
            true,
            pos,
        );
        let ghost dp = part.instructions@;
        res.append_wo_pos(part);
        proof {
            assert(res.instructions@ =~= r2 + dp);
            crate::motor::lemma_net_concat(r2, dp);
        }
    } else {
        let mut fntr = if koq {
            FieldUsize(0, 11)
        } else {
            FieldUsize(0, 2)
        };
        if col {
            fntr = fntr.add_y(8);
        }
        let esc_f = if !col {
            fntr.add_y(1)
        } else {
            fntr.sub_y(1)
        };
        let ghost r0 = res.instructions@;
        let part = MotorInstructions::diagonal(
            Field::ind_to_relative_ind(coords[2]),
            Field::from_field_usize(esc_f),
            Speeds::Transportspeed,
            true,
            pos,
        );
        let ghost dp = part.instructions@;
        res.append_wo_pos(part);
        proof {
            assert(res.instructions@ =~= r0 + dp);
            crate::motor::lemma_net_concat(r0, dp);
        }
        let ghost r1 = res.instructions@;
        let part = MotorInstructions::field_to_field(
            Field::ind_to_relative_ind(coords[0]),
            Field::from_field_usize(fntr),
            Speeds::Transportspeed,
            true,
            pos,
        );
        let ghost dp = part.instructions@;
        res.append_wo_pos(part);
        proof {
            assert(res.instructions@ =~= r1 + dp);
            crate::motor::lemma_net_concat(r1, dp);
        }
        let ghost r2 = res.instructions@;
        let part = MotorInstructions::diagonal(
            Field::from_field_usize(esc_f),
            Field::ind_to_relative_ind(coords[2]),
            Speeds::Transportspeed,
            true,
            pos,
        );
        let ghost dp = part.instructions@;
        res.append_wo_pos(part);
        proof {
            assert(res.instructions@ =~= r2 + dp);
            crate::motor::lemma_net_concat(r2, dp);
        }
        let ghost r3 = res.instructions@;
        let part = MotorInstructions::field_to_field(
            Field::ind_to_relative_ind(coords[2]),
            Field::ind_to_relative_ind(coords[3]),
            Speeds::Transportspeed,
            true,
            pos,
        );
        let ghost dp = part.instructions@;
        res.append_wo_pos(part);
        proof {
            assert(res.instructions@ =~= r3 + dp);
            crate::motor::lemma_net_concat(r3, dp);
        }
        let ghost r4 = res.instructions@;
        let part = MotorInstructions::field_to_field(
            Field::from_field_usize(fntr),
            Field::ind_to_relative_ind(coords[1]),
            Speeds::Transportspeed,
            true,
            pos,
        );
        let ghost dp = part.instructions@;
        res.append_wo_pos(part);
        proof {
            assert(res.instructions@ =~= r4 + dp);
            crate::motor::lemma_net_concat(r4, dp);
        }
    }
    Ok(res)
}

/// The escape manoeuvre of a clear back rank: the king steps diagonally
/// behind its rank, the rook slides home, the king lands on its castled
/// square.
fn pf_rochade_helper(coords: [(usize, usize); 4], koq: bool, col: bool, pos: &mut PosNow) -> (r:
    MotorInstructions)
    requires
        on_grid(coords@[0].0 as int, coords@[0].1 as int),
        on_grid(coords@[1].0 as int, coords@[1].1 as int),
        on_grid(coords@[2].0 as int, coords@[2].1 as int),
        on_grid(coords@[3].0 as int, coords@[3].1 as int),
        in_pos_window(*old(pos)),
    ensures
        in_pos_window(*final(pos)),
        final(pos).xmtr == old(pos).xmtr + net_x(r.instructions@),
        final(pos).ymtr == old(pos).ymtr + net_y(r.instructions@),
        crate::motor::near_steps(
            final(pos).xmtr as int,
            crate::coords::field_of_cell(FieldUsize(coords@[1].0, coords@[1].1)).0 as int,
            200,
        ),
        crate::motor::near_steps(
            final(pos).ymtr as int,
            crate::coords::field_of_cell(FieldUsize(coords@[1].0, coords@[1].1)).1 as int,
            200,
        ),
        r.instructions@ == helper_plan(coords, koq, col, old(pos).xmtr as int, old(pos).ymtr as int),
{
    let mut res = MotorInstructions::new();
    let mut esc_f = if koq {
        FieldUsize(1, 8)
    } else {
        FieldUsize(1, 6)
    };
    if col {
        esc_f = esc_f.add_y(5);
    }
    let ghost r0 = res.instructions@;
    let part = MotorInstructions::diagonal(
        Field::ind_to_relative_ind(coords[0]),
        Field::from_field_usize(esc_f),
        Speeds::Transportspeed,
        true,
        pos,
    );
    let ghost dp = part.instructions@;
    res.append_wo_pos(part);
    proof {
        assert(res.instructions@ =~= r0 + dp);
        crate::motor::lemma_net_concat(r0, dp);
    }
    let ghost r1 = res.instructions@;
    let part = MotorInstructions::field_to_field(
        Field::ind_to_relative_ind(coords[2]),
        Field::ind_to_relative_ind(coords[3]),
        Speeds::Transportspeed,
        true,
        pos,
    );
    let ghost dp = part.instructions@;
    res.append_wo_pos(part);
    proof {
        assert(res.instructions@ =~= r1 + dp);
        crate::motor::lemma_net_concat(r1, dp);
    }
    let ghost r2 = res.instructions@;
    let part = MotorInstructions::diagonal(
        Field::from_field_usize(esc_f),
        Field::ind_to_relative_ind(coords[1]),
        Speeds::Transportspeed,
        true,
        pos,
    );
    let ghost dp = part.instructions@;
    res.append_wo_pos(part);
    proof {
        assert(res.instructions@ =~= r2 + dp);
        crate::motor::lemma_net_concat(r2, dp);
    }
    res
}

/// Whether a sub-move is a plain transport along a row, a column, or an
/// exact diagonal: the shapes the planner realizes as one segment, without
/// searching.
pub open spec fn straight_or_diag(m: PFIType) -> bool {
    m matches PFIType::NMove(a, b) && (a.0 == b.0 || a.1 == b.1 || (if a.0 >= b.0 {
        a.0 - b.0
    } else {
        b.0 - a.0
    }) == (if a.1 >= b.1 {
        a.1 - b.1
    } else {
        b.1 - a.1
    }))
}

/// The destination cell of a plain transport.
pub open spec fn nmove_dest(m: PFIType) -> (usize, usize) {
    match m {
        PFIType::NMove(_, b) => b,
        PFIType::Custom(_, b) => b,
        PFIType::Rochade(_, cc) => cc@[1],
    }
}

impl Position {
    /// Compiles a list of physical sub-moves into one motor plan: straight
    /// and purely diagonal transports directly, everything else by the
    /// obstacle-aware planner, castling by its own routine. The occupancy
    /// map is derived from this board and mutated only in the planner's
    /// working copy. A list of plain transports always plans; the head
    /// ends on the last plain transport's destination, and in any case by
    /// the board.
    #[verifier::rlimit(100)]
    pub fn pathfinding(&self, vmove: &Vec<PFIType>, pos: &mut PosNow) -> (r: Result<
        MotorInstructions,
        PFError,
    >)
        requires
            pfi_ok(vmove@),
            in_pos_window(*old(pos)),
        ensures
            in_pos_window(*final(pos)),
            r matches Ok(mi) ==> {
                &&& final(pos).xmtr == old(pos).xmtr + net_x(mi.instructions@)
                &&& final(pos).ymtr == old(pos).ymtr + net_y(mi.instructions@)
            },
            (forall|k: int| 0 <= k < vmove@.len() ==> straight_or_diag(#[trigger] vmove@[k]))
                ==> r is Ok,
            (r is Ok && vmove@.len() > 0 && straight_or_diag(vmove@.last())) ==> {
                &&& crate::motor::near_steps(
                    final(pos).xmtr as int,
                    crate::coords::field_of_cell(
                        FieldUsize(nmove_dest(vmove@.last()).0, nmove_dest(vmove@.last()).1),
                    ).0 as int,
                    200,
                )
                &&& crate::motor::near_steps(
                    final(pos).ymtr as int,
                    crate::coords::field_of_cell(
                        FieldUsize(nmove_dest(vmove@.last()).0, nmove_dest(vmove@.last()).1),
                    ).1 as int,
                    200,
                )
            },
            (r is Ok && vmove@.len() > 0) ==> head_near_cell(*final(pos), 1500),
            vmove@.len() == 1 ==> (vmove@[0] matches PFIType::NMove(a, b) ==> {
                &&& ((a.0 == b.0 || a.1 == b.1) ==> (r matches Ok(mi)
                    && mi.instructions@ == crate::motor::f2f_instrs(
                    crate::coords::field_of_cell(FieldUsize(a.0, a.1)),
                    crate::coords::field_of_cell(FieldUsize(b.0, b.1)),
                    Speeds::NMovespeed,
                    true,
                    old(pos).xmtr as int,
                    old(pos).ymtr as int,
                )))
                &&& ((!(a.0 == b.0 || a.1 == b.1) && (if a.0 >= b.0 {
                    a.0 - b.0
                } else {
                    b.0 - a.0
                }) == (if a.1 >= b.1 {
                    a.1 - b.1
                } else {
                    b.1 - a.1
                })) ==> (r matches Ok(mi) && mi.instructions@ == crate::motor::diag_full_instrs(
                    crate::coords::field_of_cell(FieldUsize(a.0, a.1)),
                    crate::coords::field_of_cell(FieldUsize(b.0, b.1)),
                    Speeds::NMovespeed,
                    true,
                    old(pos).xmtr as int,
                    old(pos).ymtr as int,
                )))
            }),
    {
        let mut res = MotorInstructions::new();
        let mut bitlist = BitList::from_pos(self);
        let mut k: usize = 0;
        while k < vmove.len()
            invariant
                k <= vmove@.len(),
                pfi_ok(vmove@),
                bl_wf(bitlist),
                in_pos_window(*pos),
                pos.xmtr == old(pos).xmtr + net_x(res.instructions@),
                pos.ymtr == old(pos).ymtr + net_y(res.instructions@),
                k > 0 ==> head_near_cell(*pos, 1500),
                k == 0 ==> res.instructions@ == Seq::<crate::motor::MotorMoveType>::empty(),
                (vmove@.len() == 1 && k == 1) ==> (vmove@[0] matches PFIType::NMove(a, b) ==> {
                    &&& ((a.0 == b.0 || a.1 == b.1)
                        ==> res.instructions@ == crate::motor::f2f_instrs(
                        crate::coords::field_of_cell(FieldUsize(a.0, a.1)),
                        crate::coords::field_of_cell(FieldUsize(b.0, b.1)),
                        Speeds::NMovespeed,
                        true,
                        old(pos).xmtr as int,
                        old(pos).ymtr as int,
                    ))
                    &&& ((!(a.0 == b.0 || a.1 == b.1) && (if a.0 >= b.0 {
                        a.0 - b.0
                    } else {
                        b.0 - a.0
                    }) == (if a.1 >= b.1 {
                        a.1 - b.1
                    } else {
                        b.1 - a.1
                    })) ==> res.instructions@ == crate::motor::diag_full_instrs(
                        crate::coords::field_of_cell(FieldUsize(a.0, a.1)),
                        crate::coords::field_of_cell(FieldUsize(b.0, b.1)),
                        Speeds::NMovespeed,
                        true,
                        old(pos).xmtr as int,
                        old(pos).ymtr as int,
                    ))
                }),
                (k > 0 && straight_or_diag(vmove@[k - 1])) ==> {
                    &&& crate::motor::near_steps(
                        pos.xmtr as int,
                        crate::coords::field_of_cell(
                            FieldUsize(nmove_dest(vmove@[k - 1]).0, nmove_dest(vmove@[k - 1]).1),
                        ).0 as int,
                        200,
                    )
                    &&& crate::motor::near_steps(
                        pos.ymtr as int,
                        crate::coords::field_of_cell(
                            FieldUsize(nmove_dest(vmove@[k - 1]).0, nmove_dest(vmove@[k - 1]).1),
                        ).1 as int,
                        200,
                    )
                },
            decreases vmove@.len() - k,
        {
            let mov = vmove[k];
            proof {
                assert(vmove@[k as int] == mov);
            }
            match mov {
                PFIType::NMove(start, end) => {
                    let dr = if start.0 > end.0 {
                        start.0 - end.0
                    } else {
                        end.0 - start.0
                    };
                    let dc = if start.1 > end.1 {
                        start.1 - end.1
                    } else {
                        end.1 - start.1
                    };
                    if start.0 == end.0 || start.1 == end.1 {
                        let ghost r0 = res.instructions@;
                        let part = MotorInstructions::field_to_field(
                            Field::ind_to_relative_ind(start),
                            Field::ind_to_relative_ind(end),
                            Speeds::NMovespeed,
                            true,
                            pos,
                        );
                        let ghost dp = part.instructions@;
                        res.append_wo_pos(part);
                        proof {
                            assert(res.instructions@ =~= r0 + dp);
                            crate::motor::lemma_net_concat(r0, dp);
                            if vmove@.len() == 1 {
                                assert(Seq::<crate::motor::MotorMoveType>::empty() + dp =~= dp);
                            }
                        }
                    } else if dr == dc {
                        let ghost r0 = res.instructions@;
                        let part = MotorInstructions::diagonal(
                            Field::ind_to_relative_ind(start),
                            Field::ind_to_relative_ind(end),
                            Speeds::NMovespeed,
                            true,
                            pos,
                        );
                        let ghost dp = part.instructions@;
                        res.append_wo_pos(part);
                        proof {
                            assert(res.instructions@ =~= r0 + dp);
                            crate::motor::lemma_net_concat(r0, dp);
                            if vmove@.len() == 1 {
                                assert(Seq::<crate::motor::MotorMoveType>::empty() + dp =~= dp);
                            }
                        }
                    } else {
                        // knight-shaped transports go between the occupied
                        // neighbours, so they take the obstacle-aware route
                        let ghost r0 = res.instructions@;
                        let part = match pathfinding_custom(
                            FieldUsize::from_tuple(start),
                            FieldUsize::from_tuple(end),
                            &mut bitlist,
                            pos,
                        ) {
                            Ok(m) => m,
                            Err(e) => {
                                return Err(e);
                            },
                        };
                        let ghost dp = part.instructions@;
                        res.append_wo_pos(part);
                        proof {
                            assert(res.instructions@ =~= r0 + dp);
                            crate::motor::lemma_net_concat(r0, dp);
                        }
                    }
                },
                PFIType::Rochade(p, coords) => {
                    let mut fresh = BitList::from_pos(self);
                    let ghost r0 = res.instructions@;
                    let part = match pathfinding_rochade(p, coords, &mut fresh, pos) {
                        Ok(m) => m,
                        Err(e) => {
                            return Err(e);
                        },
                    };
                    let ghost dp = part.instructions@;
                    res.append_wo_pos(part);
                    proof {
                        assert(res.instructions@ =~= r0 + dp);
                        crate::motor::lemma_net_concat(r0, dp);
                    }
                },
                PFIType::Custom(sft, eft) => {
                    let ghost r0 = res.instructions@;
                    let part = match pathfinding_custom(
                        FieldUsize::from_tuple(sft),
                        FieldUsize::from_tuple(eft),
                        &mut bitlist,
                        pos,
                    ) {
                        Ok(m) => m,
                        Err(e) => {
                            return Err(e);
                        },
                    };
                    let ghost dp = part.instructions@;
                    res.append_wo_pos(part);
                    proof {
                        assert(res.instructions@ =~= r0 + dp);
                        crate::motor::lemma_net_concat(r0, dp);
                    }
                },
            }
            k += 1;
        }
        Ok(res)
    }
}


/// Splicing a span out of the kept list keeps it a legal selection: the
/// new adjacent pair is either the collapse of a detour within one king
/// step (`adjacent_drop`) or closes on a dropped duplicate.
#[verifier::rlimit(100)]
proof fn lemma_selection_splice(
    orig: Seq<FieldUsize>,
    before: Seq<FieldUsize>,
    after: Seq<FieldUsize>,
    idx0: Seq<int>,
    idx1: Seq<int>,
    i: int,
    j: int,
    adjacent_drop: bool,
)
    requires
        ease_selection(orig, before, idx0),
        0 <= i < j < before.len(),
        adjacent_drop ==> after == before.take(i + 1) + before.skip(j) && idx1 == idx0.take(i + 1)
            + idx0.skip(j) && near_cells(before[i], before[j]),
        !adjacent_drop ==> after == before.take(i) + before.skip(j) && idx1 == idx0.take(i)
            + idx0.skip(j) && before[i] == before[j],
    ensures
        ease_selection(orig, after, idx1),
{
    let keep = if adjacent_drop {
        i + 1
    } else {
        i
    };
    assert(idx1.len() == after.len());
    assert(after.len() >= 1);
    assert(idx1.last() == idx0.last());
    assert forall|k: int|
        0 <= k < idx1.len() implies 0 <= #[trigger] idx1[k] < orig.len() && after[k]
        == orig[idx1[k]] by {
        if k < keep {
            assert(idx1[k] == idx0[k]);
            assert(after[k] == before[k]);
        } else {
            assert(idx1[k] == idx0[k + (j - keep)]);
            assert(after[k] == before[k + (j - keep)]);
        }
    }
    assert forall|k: int| 0 <= k < idx1.len() - 1 implies #[trigger] idx1[k] < idx1[k + 1] by {
        if k + 1 < keep {
            assert(idx1[k] == idx0[k]);
            assert(idx1[k + 1] == idx0[k + 1]);
        } else if k >= keep {
            assert(idx1[k] == idx0[k + (j - keep)]);
            assert(idx1[k + 1] == idx0[k + 1 + (j - keep)]);
        } else {
            assert(idx1[k] == idx0[k]);
            assert(idx1[k + 1] == idx0[j]);
            lemma_selection_increasing(orig, before, idx0, k, j);
        }
    }
    assert forall|k: int|
        0 <= k < idx1.len() - 1 implies (#[trigger] idx1[k + 1] == idx1[k] + 1 || near_cells(
            after[k],
            after[k + 1],
        ) || (exists|m: int| idx1[k] < m < idx1[k + 1] && orig[m] == after[k + 1])) by {
        if k + 1 < keep {
            assert(idx1[k] == idx0[k]);
            assert(idx1[k + 1] == idx0[k + 1]);
            assert(after[k] == before[k]);
            assert(after[k + 1] == before[k + 1]);
        } else if k >= keep {
            assert(idx1[k] == idx0[k + (j - keep)]);
            assert(idx1[k + 1] == idx0[k + 1 + (j - keep)]);
            assert(after[k] == before[k + (j - keep)]);
            assert(after[k + 1] == before[k + 1 + (j - keep)]);
        } else {
            // the splice boundary
            assert(idx1[k] == idx0[i + (keep - i - 1)]);
            assert(after[k] == before[k]);
            assert(after[k + 1] == before[j]);
            if adjacent_drop {
                assert(k == i);
                assert(near_cells(after[k], after[k + 1]));
            } else {
                assert(k == i - 1);
                assert(idx1[k] == idx0[i - 1]);
                assert(idx1[k + 1] == idx0[j]);
                lemma_selection_increasing(orig, before, idx0, i - 1, i);
                lemma_selection_increasing(orig, before, idx0, i, j);
                assert(orig[idx0[i]] == before[i]);
                assert(before[i] == before[j]);
                assert(before[j] == after[k + 1]);
                assert(idx1[k] < idx0[i] < idx1[k + 1] && orig[idx0[i]] == after[k + 1]);
            }
        }
    }
}

/// The witness indices of a legal selection grow strictly between any two
/// positions.
proof fn lemma_selection_increasing(
    orig: Seq<FieldUsize>,
    r: Seq<FieldUsize>,
    idx: Seq<int>,
    a: int,
    b: int,
)
    requires
        ease_selection(orig, r, idx),
        0 <= a < b < idx.len(),
    ensures
        idx[a] < idx[b],
    decreases b - a,
{
    if a + 1 < b {
        lemma_selection_increasing(orig, r, idx, a + 1, b);
    }
}

/// Removes the elements of `v` at indices `a..b` and returns how many were
/// removed. The elements before `a` and from `b` on keep their values.
fn remove_span(v: &mut Vec<FieldUsize>, a: usize, b: usize) -> (removed: usize)
    requires
        a <= b <= old(v)@.len(),
    ensures
        removed == b - a,
        final(v)@ == old(v)@.take(a as int) + old(v)@.skip(b as int),
        final(v)@.len() == old(v)@.len() - removed,
{
    let ghost orig = v@;
    let mut n = b - a;
    let removed = n;
    while n > 0
        invariant
            n <= removed,
            removed == b - a,
            a <= b <= orig.len(),
            v@ == orig.take(a as int) + orig.skip(b - n),
        decreases n,
    {
        proof {
            assert(orig.take(a as int) + orig.skip(b - n) =~= v@);
            assert((orig.take(a as int) + orig.skip(b - n)).remove(a as int) =~= orig.take(
                a as int,
            ) + orig.skip(b - n + 1));
        }
        let x = v.remove(a);
        n -= 1;
    }
    proof {
        assert(v@ =~= orig.take(a as int) + orig.skip(b as int));
    }
    removed
}

} // verus!
