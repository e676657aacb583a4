//! Motor instructions and the virtual head position.
//!
//! A `MotorMove` is one motor command: a direction per axis, a step count, a
//! speed class and the magnet state. `MotorInstructions` is the plan a
//! pathfinder emits: an ordered list of straight-axis and diagonal moves.
//! `PosNow` tracks the head in signed motor steps from the home corner and is
//! updated alongside every planned instruction, so that later planning steps
//! know where the head stands.

use vstd::prelude::*;

use crate::coords::{
    fields_to_steps, fields_to_steps_signed, halves_of_steps, lemma_halves_bound,
    lemma_halves_residual, lemma_steps_add, lemma_steps_bound, lemma_steps_err, steps_of,
    Field, HALVES_LIMIT,
};

verus! {

/// The speed classes of the apparatus; the mapping to revolutions per second
/// lives with the pin driver, outside this crate.
#[derive(Debug, Clone, Copy, PartialEq, Eq, PartialOrd, Ord, Structural)]
pub enum Speeds {
    Homingspeed,
    NMovespeed,
    Offsetspeed,
    NoFigurespeed,
    Transportspeed,
}

/// One motor command. `dir` is the primary direction (the x direction for
/// diagonal moves), `dir2` the y direction of a diagonal move; `len` is the
/// step count.
#[derive(Debug, Clone, Copy)]
pub struct MotorMove {
    pub dir: bool,
    pub len: u32,
    pub speed: Speeds,
    pub dir2: bool,
    pub magnet: bool,
}

impl MotorMove {
    /// A zero-length placeholder move.
    pub fn new() -> (r: Self)
        ensures
            r == (MotorMove { dir: true, len: 0, dir2: true, speed: Speeds::NMovespeed, magnet: false }),
    {
        MotorMove { dir: true, len: 0, dir2: true, speed: Speeds::NMovespeed, magnet: false }
    }

    /// A move with the given attributes.
    pub fn new_values(dir: bool, len: u32, dir2: bool, speed: Speeds, magnet: bool) -> (r: Self)
        ensures
            r == (MotorMove { dir, len, dir2, speed, magnet }),
    {
        MotorMove { dir, len, dir2, speed, magnet }
    }
}

/// A motor command tagged with the axis pattern it drives.
#[derive(Debug, Clone, Copy)]
pub enum MotorMoveType {
    StraightX(MotorMove),
    StraightY(MotorMove),
    Diagonal(MotorMove),
}

/// The command inside an instruction.
pub open spec fn mm_of(m: MotorMoveType) -> MotorMove {
    match m {
        MotorMoveType::StraightX(a) => a,
        MotorMoveType::StraightY(a) => a,
        MotorMoveType::Diagonal(a) => a,
    }
}

/// The instruction `m` with its command replaced by `k`.
pub open spec fn with_mm(m: MotorMoveType, k: MotorMove) -> MotorMoveType {
    match m {
        MotorMoveType::StraightX(_) => MotorMoveType::StraightX(k),
        MotorMoveType::StraightY(_) => MotorMoveType::StraightY(k),
        MotorMoveType::Diagonal(_) => MotorMoveType::Diagonal(k),
    }
}

/// Whether two instructions share the axis pattern and every attribute but
/// the length: such instructions may be merged into one.
pub open spec fn same_attrs(a: MotorMoveType, b: MotorMoveType) -> bool {
    &&& match (a, b) {
        (MotorMoveType::StraightX(_), MotorMoveType::StraightX(_)) => true,
        (MotorMoveType::StraightY(_), MotorMoveType::StraightY(_)) => true,
        (MotorMoveType::Diagonal(_), MotorMoveType::Diagonal(_)) => true,
        _ => false,
    }
    &&& mm_of(a).dir == mm_of(b).dir
    &&& mm_of(a).dir2 == mm_of(b).dir2
    &&& mm_of(a).speed == mm_of(b).speed
    &&& mm_of(a).magnet == mm_of(b).magnet
}

/// The merge of two instructions of equal attributes: the first, with the
/// lengths summed.
pub open spec fn merged(a: MotorMoveType, b: MotorMoveType) -> MotorMoveType {
    with_mm(a, MotorMove { len: (mm_of(a).len + mm_of(b).len) as u32, ..mm_of(a) })
}

/// The signed x displacement of one instruction, in steps.
pub open spec fn step_dx(m: MotorMoveType) -> int {
    match m {
        MotorMoveType::StraightX(a) => if a.dir {
            a.len as int
        } else {
            -(a.len as int)
        },
        MotorMoveType::StraightY(_) => 0,
        MotorMoveType::Diagonal(a) => if a.dir {
            a.len as int
        } else {
            -(a.len as int)
        },
    }
}

/// The signed y displacement of one instruction, in steps.
pub open spec fn step_dy(m: MotorMoveType) -> int {
    match m {
        MotorMoveType::StraightX(_) => 0,
        MotorMoveType::StraightY(a) => if a.dir {
            a.len as int
        } else {
            -(a.len as int)
        },
        MotorMoveType::Diagonal(a) => if a.dir2 {
            a.len as int
        } else {
            -(a.len as int)
        },
    }
}

/// The net x displacement of an instruction list, in steps.
pub open spec fn net_x(s: Seq<MotorMoveType>) -> int
    decreases s.len(),
{
    if s.len() == 0 {
        0
    } else {
        net_x(s.drop_last()) + step_dx(s.last())
    }
}

/// The net y displacement of an instruction list, in steps.
pub open spec fn net_y(s: Seq<MotorMoveType>) -> int
    decreases s.len(),
{
    if s.len() == 0 {
        0
    } else {
        net_y(s.drop_last()) + step_dy(s.last())
    }
}

/// The total step count of an instruction list.
pub open spec fn total_len(s: Seq<MotorMoveType>) -> int
    decreases s.len(),
{
    if s.len() == 0 {
        0
    } else {
        total_len(s.drop_last()) + mm_of(s.last()).len
    }
}

/// An instruction with both direction bits negated.
pub open spec fn flipped(m: MotorMoveType) -> MotorMoveType {
    with_mm(m, MotorMove { dir: !mm_of(m).dir, dir2: !mm_of(m).dir2, ..mm_of(m) })
}

/// The instruction list with every instruction's directions negated.
pub open spec fn rev_instrs(s: Seq<MotorMoveType>) -> Seq<MotorMoveType> {
    s.map(|i: int, m: MotorMoveType| flipped(m))
}

/// The fully merged form of an instruction list: adjacent instructions of
/// equal attributes are collapsed, their lengths summed, until none remain.
pub open spec fn spec_ease(s: Seq<MotorMoveType>) -> Seq<MotorMoveType>
    decreases s.len(),
{
    if s.len() <= 1 {
        s
    } else if same_attrs(s[0], s[1]) {
        spec_ease(seq![merged(s[0], s[1])] + s.skip(2))
    } else {
        seq![s[0]] + spec_ease(s.skip(1))
    }
}

/// Whether no two adjacent instructions of the list share their attributes:
/// the list cannot be merged any further.
pub open spec fn fully_eased(s: Seq<MotorMoveType>) -> bool {
    forall|i: int| 0 <= i < s.len() - 1 ==> !same_attrs(#[trigger] s[i], s[i + 1])
}

/// A list in fully merged form is a fixed point of the merge.
pub proof fn lemma_ease_fixed(s: Seq<MotorMoveType>)
    requires
        fully_eased(s),
    ensures
        spec_ease(s) == s,
    decreases s.len(),
{
    if s.len() <= 1 {
    } else {
        assert(!same_attrs(s[0], s[1]));
        assert(fully_eased(s.skip(1))) by {
            assert forall|i: int| 0 <= i < s.skip(1).len() - 1 implies !same_attrs(
                #[trigger] s.skip(1)[i],
                s.skip(1)[i + 1],
            ) by {
                assert(s.skip(1)[i] == s[i + 1]);
                assert(s.skip(1)[i + 1] == s[i + 2]);
            }
        }
        lemma_ease_fixed(s.skip(1));
        assert(seq![s[0]] + s.skip(1) =~= s);
    }
}

/// The merge of any list is fully merged.
pub proof fn lemma_ease_eased(s: Seq<MotorMoveType>)
    ensures
        fully_eased(spec_ease(s)),
        spec_ease(s).len() <= s.len(),
        s.len() > 0 ==> spec_ease(s).len() > 0 && same_attrs(spec_ease(s)[0], s[0]),
    decreases s.len(),
{
    if s.len() <= 1 {
    } else if same_attrs(s[0], s[1]) {
        let t = seq![merged(s[0], s[1])] + s.skip(2);
        lemma_ease_eased(t);
        assert(same_attrs(t[0], s[0]));
    } else {
        let t = s.skip(1);
        lemma_ease_eased(t);
        let r = seq![s[0]] + spec_ease(t);
        assert forall|i: int| 0 <= i < r.len() - 1 implies !same_attrs(#[trigger] r[i], r[i + 1]) by {
            if i == 0 {
                assert(r[0] == s[0]);
                assert(r[1] == spec_ease(t)[0]);
                assert(same_attrs(spec_ease(t)[0], t[0]));
                assert(t[0] == s[1]);
            } else {
                assert(r[i] == spec_ease(t)[i - 1]);
                assert(r[i + 1] == spec_ease(t)[i]);
            }
        }
    }
}

/// Merging is idempotent: merging an already merged plan changes nothing.
pub proof fn lemma_ease_idempotent(s: Seq<MotorMoveType>)
    ensures
        spec_ease(spec_ease(s)) == spec_ease(s),
{
    lemma_ease_eased(s);
    lemma_ease_fixed(spec_ease(s));
}

/// Negating every direction twice restores the plan.
pub proof fn lemma_reverse_involution(s: Seq<MotorMoveType>)
    ensures
        rev_instrs(rev_instrs(s)) == s,
{
    assert forall|i: int| 0 <= i < s.len() implies rev_instrs(rev_instrs(s))[i] == s[i] by {
        assert(rev_instrs(s)[i] == flipped(s[i]));
    }
    assert(rev_instrs(rev_instrs(s)) =~= s);
}


/// Merging a plan changes neither its total step count nor its net
/// displacement, as long as the total fits the step counter.
pub proof fn lemma_ease_preserves(s: Seq<MotorMoveType>)
    requires
        total_len(s) <= u32::MAX,
    ensures
        total_len(spec_ease(s)) == total_len(s),
        net_x(spec_ease(s)) == net_x(s),
        net_y(spec_ease(s)) == net_y(s),
    decreases s.len(),
{
    if s.len() <= 1 {
    } else if same_attrs(s[0], s[1]) {
        let mg = merged(s[0], s[1]);
        let t = seq![mg] + s.skip(2);
        lemma_total_len_pair(s, 0);
        lemma_total_len_nonneg(s);
        assert(mm_of(mg).len == mm_of(s[0]).len + mm_of(s[1]).len);
        let pair = s.subrange(0, 2);
        assert(s =~= pair + s.skip(2));
        lemma_net_concat(pair, s.skip(2));
        lemma_net_singleton(s[0]);
        lemma_net_singleton(s[1]);
        assert(pair.drop_last() =~= seq![s[0]]);
        assert(pair.last() == s[1]);
        lemma_net_singleton(mg);
        lemma_net_concat(seq![mg], s.skip(2));
        assert(step_dx(mg) == step_dx(s[0]) + step_dx(s[1]));
        assert(step_dy(mg) == step_dy(s[0]) + step_dy(s[1]));
        assert(total_len(t) == total_len(s));
        assert(net_x(t) == net_x(s));
        assert(net_y(t) == net_y(s));
        lemma_ease_preserves(t);
    } else {
        let t = s.skip(1);
        assert(s =~= seq![s[0]] + t);
        lemma_net_concat(seq![s[0]], t);
        lemma_net_singleton(s[0]);
        lemma_total_len_nonneg(t);
        lemma_ease_preserves(t);
        lemma_net_concat(seq![s[0]], spec_ease(t));
    }
}

/// The straight decomposition of one displacement is already fully
/// merged: its at most two instructions drive different axes.
pub proof fn lemma_vfield_eased(f: Field, sp: Speeds, m: bool)
    ensures
        fully_eased(vfield_instrs(f, sp, m)),
        forall|k: int|
            0 <= k < vfield_instrs(f, sp, m).len() ==> mm_of(
                #[trigger] vfield_instrs(f, sp, m)[k],
            ).magnet == m && mm_of(vfield_instrs(f, sp, m)[k]).speed == sp,
{
    let s = vfield_instrs(f, sp, m);
    let xs = steps_of(f.0 as int);
    let ys = steps_of(f.1 as int);
    if xs != 0 && ys != 0 {
        assert(s.len() == 2);
        assert(s[0] == MotorMoveType::StraightX(sp_steps_mm(xs, sp, m)));
        assert(s[1] == MotorMoveType::StraightY(sp_steps_mm(ys, sp, m)));
        assert(!same_attrs(s[0], s[1]));
    } else if xs != 0 {
        assert(s.len() == 1);
        assert(s[0] == MotorMoveType::StraightX(sp_steps_mm(xs, sp, m)));
    } else if ys != 0 {
        assert(s.len() == 1);
        assert(s[0] == MotorMoveType::StraightY(sp_steps_mm(ys, sp, m)));
    } else {
        assert(s.len() == 0);
    }
}

/// A magnet-off repositioning followed by a magnet-on move is fully
/// merged: the magnet state splits every pair across the boundary.
pub proof fn lemma_repos_move_eased(d1: Field, d2: Field, speed: Speeds)
    ensures
        fully_eased(
            vfield_instrs(d1, Speeds::NoFigurespeed, false) + vfield_instrs(d2, speed, true),
        ),
{
    let a = vfield_instrs(d1, Speeds::NoFigurespeed, false);
    let b = vfield_instrs(d2, speed, true);
    lemma_vfield_eased(d1, Speeds::NoFigurespeed, false);
    lemma_vfield_eased(d2, speed, true);
    let s = a + b;
    assert forall|k: int| 0 <= k < s.len() - 1 implies !same_attrs(#[trigger] s[k], s[k + 1]) by {
        if k + 1 < a.len() {
            assert(s[k] == a[k]);
            assert(s[k + 1] == a[k + 1]);
        } else if k >= a.len() {
            assert(s[k] == b[k - a.len()]);
            assert(s[k + 1] == b[k + 1 - a.len()]);
        } else {
            assert(s[k] == a[k]);
            assert(s[k + 1] == b[0]);
            assert(mm_of(a[k]).magnet == false);
            assert(mm_of(b[0]).magnet == true);
        }
    }
}

/// A merge prefix step: if the first `i + 1` cells of `s` are pairwise
/// unmergeable, the merge keeps the first `i` cells and recurses behind them.
proof fn lemma_ease_prefix(s: Seq<MotorMoveType>, i: int)
    requires
        0 <= i < s.len(),
        forall|j: int| 0 <= j < i ==> !same_attrs(#[trigger] s[j], s[j + 1]),
    ensures
        spec_ease(s) == s.take(i) + spec_ease(s.skip(i)),
    decreases i,
{
    if i == 0 {
        assert(s.skip(0) =~= s);
        assert(s.take(0) + spec_ease(s) =~= spec_ease(s));
    } else {
        assert(!same_attrs(s[0], s[1]));
        let t = s.skip(1);
        assert forall|j: int| 0 <= j < i - 1 implies !same_attrs(#[trigger] t[j], t[j + 1]) by {
            assert(t[j] == s[j + 1]);
            assert(t[j + 1] == s[j + 2]);
        }
        lemma_ease_prefix(t, i - 1);
        assert(t.skip(i - 1) =~= s.skip(i));
        assert(seq![s[0]] + (t.take(i - 1) + spec_ease(s.skip(i))) =~= s.take(i) + spec_ease(
            s.skip(i),
        ));
    }
}

/// The command for a signed step count along one axis: the sign becomes the
/// direction bit, the magnitude the length.
pub open spec fn sp_steps_mm(n: int, speed: Speeds, magnet: bool) -> MotorMove {
    if n < 0 {
        MotorMove { dir: false, len: (-n) as u32, dir2: true, speed, magnet }
    } else {
        MotorMove { dir: true, len: n as u32, dir2: true, speed, magnet }
    }
}

/// The instructions realizing the displacement `f` (in half-cells) as one
/// straight move per axis, zero-length moves omitted.
pub open spec fn vfield_instrs(f: Field, speed: Speeds, magnet: bool) -> Seq<MotorMoveType> {
    let xs = steps_of(f.0 as int);
    let ys = steps_of(f.1 as int);
    (if xs != 0 {
        seq![MotorMoveType::StraightX(sp_steps_mm(xs, speed, magnet))]
    } else {
        Seq::empty()
    }) + (if ys != 0 {
        seq![MotorMoveType::StraightY(sp_steps_mm(ys, speed, magnet))]
    } else {
        Seq::empty()
    })
}

/// Extending a prefix by one instruction extends the net displacement by
/// that instruction's step vector, and the total length by its length.
pub proof fn lemma_net_take(s: Seq<MotorMoveType>, i: int)
    requires
        0 <= i < s.len(),
    ensures
        net_x(s.take(i + 1)) == net_x(s.take(i)) + step_dx(s[i]),
        net_y(s.take(i + 1)) == net_y(s.take(i)) + step_dy(s[i]),
        total_len(s.take(i + 1)) == total_len(s.take(i)) + mm_of(s[i]).len,
{
    assert(s.take(i + 1).drop_last() =~= s.take(i));
    assert(s.take(i + 1).last() == s[i]);
}

/// Net displacement and total length distribute over concatenation.
pub proof fn lemma_net_concat(a: Seq<MotorMoveType>, b: Seq<MotorMoveType>)
    ensures
        net_x(a + b) == net_x(a) + net_x(b),
        net_y(a + b) == net_y(a) + net_y(b),
        total_len(a + b) == total_len(a) + total_len(b),
    decreases b.len(),
{
    if b.len() == 0 {
        assert(a + b =~= a);
    } else {
        lemma_net_concat(a, b.drop_last());
        assert((a + b).drop_last() =~= a + b.drop_last());
        assert((a + b).last() == b.last());
    }
}

/// Every instruction list has a nonnegative total length.
pub proof fn lemma_total_len_nonneg(s: Seq<MotorMoveType>)
    ensures
        total_len(s) >= 0,
    decreases s.len(),
{
    if s.len() > 0 {
        lemma_total_len_nonneg(s.drop_last());
    }
}

/// An adjacent pair of instructions weighs no more than the whole list.
pub proof fn lemma_total_len_pair(s: Seq<MotorMoveType>, i: int)
    requires
        0 <= i,
        i + 1 < s.len(),
    ensures
        mm_of(s[i]).len + mm_of(s[i + 1]).len <= total_len(s),
{
    let pair = s.subrange(i, i + 2);
    assert(s =~= s.take(i) + pair + s.skip(i + 2));
    lemma_net_concat(s.take(i) + pair, s.skip(i + 2));
    lemma_net_concat(s.take(i), pair);
    lemma_total_len_nonneg(s.take(i));
    lemma_total_len_nonneg(s.skip(i + 2));
    assert(pair.len() == 2);
    assert(pair.drop_last() =~= seq![s[i]]);
    assert(pair.last() == s[i + 1]);
    assert(seq![s[i]].drop_last() =~= Seq::<MotorMoveType>::empty());
    assert(seq![s[i]].len() == 1 && seq![s[i]].last() == s[i]);
    assert(total_len(seq![s[i]]) == total_len(seq![s[i]].drop_last()) + mm_of(s[i]).len);
    assert(total_len(pair) == total_len(pair.drop_last()) + mm_of(s[i + 1]).len);
    assert(total_len(pair) == mm_of(s[i]).len + mm_of(s[i + 1]).len);
}

/// An ordered list of motor instructions: the plan for one or more physical
/// piece transports.
#[derive(Debug, Clone)]
pub struct MotorInstructions {
    pub instructions: Vec<MotorMoveType>,
}

/// Whether the head position `p` stays inside the tracked range while the
/// instructions of `s` are applied one by one.
pub open spec fn pos_stays(p: PosNow, s: Seq<MotorMoveType>) -> bool {
    forall|k: int|
        0 <= k <= s.len() ==> {
            &&& -0x1000_0000_0000 <= p.xmtr + net_x(#[trigger] s.take(k)) <= 0x1000_0000_0000
            &&& -0x1000_0000_0000 <= p.ymtr + net_y(s.take(k)) <= 0x1000_0000_0000
        }
}

impl MotorInstructions {
    /// The empty plan.
    pub fn new() -> (r: Self)
        ensures
            r.instructions@ == Seq::<MotorMoveType>::empty(),
    {
        MotorInstructions { instructions: Vec::new() }
    }

    /// Appends `mi` to the plan and records its displacement on `pos`.
    pub fn append(&mut self, mi: MotorInstructions, pos: &mut PosNow)
        requires
            pos_stays(*old(pos), mi.instructions@),
        ensures
            final(self).instructions@ == old(self).instructions@ + mi.instructions@,
            final(pos).xmtr == old(pos).xmtr + net_x(mi.instructions@),
            final(pos).ymtr == old(pos).ymtr + net_y(mi.instructions@),
    {
        let mut mi = mi.write_to_pos(pos);
        self.instructions.append(&mut mi.instructions);
    }

    /// Appends `mi` to the plan without touching the head position: for parts
    /// whose displacement the caller has already recorded.
    pub fn append_wo_pos(&mut self, mi: MotorInstructions)
        ensures
            final(self).instructions@ == old(self).instructions@ + mi.instructions@,
    {
        let mut mi = mi;
        self.instructions.append(&mut mi.instructions);
    }

    /// The plan with every direction bit negated: executed, it retraces the
    /// plan backwards.
    pub fn reverse(self) -> (r: Self)
        ensures
            r.instructions@ == rev_instrs(self.instructions@),
    {
        let mut v = self.instructions;
        let ghost orig = v@;
        let mut i: usize = 0;
        while i < v.len()
            invariant
                v@.len() == orig.len(),
                forall|j: int| 0 <= j < i ==> v@[j] == flipped(#[trigger] orig[j]),
                forall|j: int| i <= j < orig.len() ==> v@[j] == #[trigger] orig[j],
            decreases v@.len() - i,
        {
            let m = v[i];
            let flipped_m = match m {
                MotorMoveType::StraightX(a) => MotorMoveType::StraightX(
                    MotorMove { dir: !a.dir, dir2: !a.dir2, ..a },
                ),
                MotorMoveType::StraightY(a) => MotorMoveType::StraightY(
                    MotorMove { dir: !a.dir, dir2: !a.dir2, ..a },
                ),
                MotorMoveType::Diagonal(a) => MotorMoveType::Diagonal(
                    MotorMove { dir: !a.dir, dir2: !a.dir2, ..a },
                ),
            };
            v[i] = flipped_m;
            i += 1;
        }
        proof {
            assert(v@ =~= rev_instrs(orig));
        }
        MotorInstructions { instructions: v }
    }

    /// One straight move per axis realizing the displacement `field`.
    pub fn from_vfield(field: Field, speed: Speeds, magnet: bool) -> (r: Self)
        requires
            -HALVES_LIMIT <= field.0 <= HALVES_LIMIT,
            -HALVES_LIMIT <= field.1 <= HALVES_LIMIT,
        ensures
            r.instructions@ == vfield_instrs(field, speed, magnet),
            net_x(r.instructions@) == steps_of(field.0 as int),
            net_y(r.instructions@) == steps_of(field.1 as int),
            total_len(r.instructions@) == iabs2(steps_of(field.0 as int)) + iabs2(
                steps_of(field.1 as int),
            ),
    {
        proof {
            lemma_steps_bound(field.0 as int, HALVES_LIMIT as int);
            lemma_steps_bound(field.1 as int, HALVES_LIMIT as int);
        }
        let mut res: Vec<MotorMoveType> = Vec::new();
        let xlen = fields_to_steps_signed(field.0);
        let ylen = fields_to_steps_signed(field.1);
        if xlen != 0 {
            res.push(MotorMoveType::StraightX(steps_to_motormove(xlen, speed, magnet)));
        }
        if ylen != 0 {
            res.push(MotorMoveType::StraightY(steps_to_motormove(ylen, speed, magnet)));
        }
        proof {
            assert(res@ =~= vfield_instrs(field, speed, magnet));
            reveal_net_of_vfield(field, speed, magnet);
        }
        MotorInstructions { instructions: res }
    }

    /// The homing plan: one straight move per axis back to the home corner,
    /// magnet off. The head position is read, not updated; recording happens
    /// when the plan is appended.
    pub fn to_home(pos: &mut PosNow) -> (r: Self)
        requires
            -0x7fff_fffe <= old(pos).xmtr <= 0x7fff_fffe,
            -0x7fff_fffe <= old(pos).ymtr <= 0x7fff_fffe,
        ensures
            *final(pos) == *old(pos),
            r.instructions@ == seq![
                MotorMoveType::StraightX(
                    sp_steps_mm(-old(pos).xmtr as int, Speeds::Homingspeed, false),
                ),
                MotorMoveType::StraightY(
                    sp_steps_mm(-old(pos).ymtr as int, Speeds::Homingspeed, false),
                ),
            ],
    {
        let x = -self_i32(pos.xmtr);
        let y = -self_i32(pos.ymtr);
        MotorInstructions {
            instructions: vec![
                MotorMoveType::StraightX(steps_to_motormove(x, Speeds::Homingspeed, false)),
                MotorMoveType::StraightY(steps_to_motormove(y, Speeds::Homingspeed, false)),
            ],
        }
    }

    /// The homing plan taken in the other direction: from the home corner out
    /// to `f`, magnet off.
    pub fn home_to_field(f: Field) -> (r: Self)
        requires
            -HALVES_LIMIT <= f.0 <= HALVES_LIMIT,
            -HALVES_LIMIT <= f.1 <= HALVES_LIMIT,
        ensures
            r.instructions@ == vfield_instrs(f, Speeds::Homingspeed, false),
    {
        Self::from_vfield(f, Speeds::Homingspeed, false)
    }

    /// Records the displacement of the whole plan on `pos` and hands the plan
    /// back.
    pub fn write_to_pos(self, pos: &mut PosNow) -> (r: Self)
        requires
            pos_stays(*old(pos), self.instructions@),
        ensures
            r == self,
            final(pos).xmtr == old(pos).xmtr + net_x(self.instructions@),
            final(pos).ymtr == old(pos).ymtr + net_y(self.instructions@),
    {
        let ghost s = self.instructions@;
        let ghost p0 = *pos;
        let mut i: usize = 0;
        proof {
            assert(s.take(0) =~= Seq::<MotorMoveType>::empty());
        }
        while i < self.instructions.len()
            invariant
                i <= s.len(),
                self.instructions@ == s,
                pos_stays(p0, s),
                pos.xmtr == p0.xmtr + net_x(s.take(i as int)),
                pos.ymtr == p0.ymtr + net_y(s.take(i as int)),
            decreases s.len() - i,
        {
            proof {
                lemma_net_take(s, i as int);
                assert(s.take(i as int + 1) == s.take((i + 1) as int));
            }
            match self.instructions[i] {
                MotorMoveType::StraightX(mm) => pos.update(true, mm.len, mm.dir),
                MotorMoveType::StraightY(mm) => pos.update(false, mm.len, mm.dir),
                MotorMoveType::Diagonal(mm) => {
                    pos.update(true, mm.len, mm.dir);
                    pos.update(false, mm.len, mm.dir2);
                },
            }
            i += 1;
        }
        proof {
            assert(s.take(s.len() as int) =~= s);
        }
        self
    }

    /// Merges adjacent instructions of equal attributes, summing their
    /// lengths, until no such pair remains.
    #[verifier::rlimit(100)]
    pub fn ease(&mut self)
        requires
            total_len(old(self).instructions@) <= u32::MAX,
        ensures
            final(self).instructions@ == spec_ease(old(self).instructions@),
    {
        let ghost orig = old(self).instructions@;
        let mut i: usize = 0;
        while self.instructions.len() > 0 && i < self.instructions.len() - 1
            invariant
                total_len(old(self).instructions@) <= u32::MAX,
                i <= self.instructions@.len(),
                total_len(self.instructions@) == total_len(orig),
                spec_ease(self.instructions@) == spec_ease(orig),
                forall|j: int|
                    0 <= j < i ==> !same_attrs(
                        #[trigger] self.instructions@[j],
                        self.instructions@[j + 1],
                    ),
                orig == old(self).instructions@,
            decreases self.instructions@.len() - i,
        {
            let ghost v = self.instructions@;
            let a = self.instructions[i];
            let b = self.instructions[i + 1];
            let same = same_attrs_exec(&a, &b);
            if same {
                proof {
                    lemma_total_len_pair(v, i as int);
                    lemma_total_len_nonneg(v);
                }
                let m = merged_exec(a, b);
                self.instructions[i] = m;
                self.instructions.remove(i + 1);
                proof {
                    let w = self.instructions@;
                    let mg = merged(a, b);
                    assert(mm_of(mg).len == mm_of(a).len + mm_of(b).len);
                    let pre = v.take(i as int);
                    let post = v.skip(i as int + 2);
                    let pair = v.subrange(i as int, i as int + 2);
                    assert(w =~= pre + seq![mg] + post);
                    assert(v =~= pre + pair + post);
                    lemma_ease_step(v, i as int);
                    lemma_net_concat(pre + seq![mg], post);
                    lemma_net_concat(pre, seq![mg]);
                    lemma_net_concat(pre + pair, post);
                    lemma_net_concat(pre, pair);
                    assert(seq![mg].drop_last() =~= Seq::<MotorMoveType>::empty());
                    assert(seq![mg].len() == 1 && seq![mg].last() == mg);
                    assert(total_len(seq![mg]) == total_len(seq![mg].drop_last()) + mm_of(mg).len);
                    assert(total_len(seq![mg]) == mm_of(mg).len);
                    assert(pair.len() == 2);
                    assert(pair.drop_last() =~= seq![a]);
                    assert(pair.last() == b);
                    assert(seq![a].drop_last() =~= Seq::<MotorMoveType>::empty());
                    assert(seq![a].len() == 1 && seq![a].last() == a);
                    assert(total_len(seq![a]) == mm_of(a).len);
                    assert(total_len(pair) == total_len(pair.drop_last()) + mm_of(b).len);
                    assert(total_len(pair) == mm_of(a).len + mm_of(b).len);
                    assert(total_len(w) == total_len(v));
                }
            } else {
                i += 1;
            }
        }
        proof {
            let v = self.instructions@;
            assert(fully_eased(v));
            lemma_ease_fixed(v);
        }
    }
}

/// The componentwise difference `a - b` of two positions.
pub open spec fn fdiff(a: Field, b: Field) -> Field {
    Field((a.0 - b.0) as i32, (a.1 - b.1) as i32)
}

/// The half-cell position nearest to the head position `p`.
pub open spec fn sfh_of(p: PosNow) -> Field {
    Field(halves_of_steps(p.xmtr as int) as i32, halves_of_steps(p.ymtr as int) as i32)
}

/// The exact instruction list of `field_to_field`, as a function of the
/// head's step position at the call: a straight decomposition of the
/// displacement, preceded by a no-magnet repositioning when the head's
/// nearest half-cell is not `f1`.
pub open spec fn f2f_instrs(f1: Field, f2: Field, speed: Speeds, magnet: bool, px: int, py: int) -> Seq<
    MotorMoveType,
> {
    let g = Field(halves_of_steps(px) as i32, halves_of_steps(py) as i32);
    if g == f1 {
        vfield_instrs(fdiff(f2, f1), speed, magnet)
    } else {
        vfield_instrs(fdiff(f1, g), Speeds::NoFigurespeed, false) + vfield_instrs(
            fdiff(f2, f1),
            speed,
            magnet,
        )
    }
}

/// The exact instruction list of `diagonal`, as a function of the head's
/// step position at the call.
pub open spec fn diag_full_instrs(
    f1: Field,
    f2: Field,
    speed: Speeds,
    magnet: bool,
    px: int,
    py: int,
) -> Seq<MotorMoveType> {
    let g = Field(halves_of_steps(px) as i32, halves_of_steps(py) as i32);
    if g == f1 {
        diag_instrs(fdiff(f2, f1), speed, magnet)
    } else {
        vfield_instrs(fdiff(f1, g), Speeds::NoFigurespeed, false) + diag_instrs(
            fdiff(f2, f1),
            speed,
            magnet,
        )
    }
}

/// The smaller of two integers.
pub open spec fn min2(a: int, b: int) -> int {
    if a < b {
        a
    } else {
        b
    }
}

/// The absolute value of an integer.
pub open spec fn iabs2(n: int) -> int {
    if n >= 0 {
        n
    } else {
        -n
    }
}

/// The instructions of a diagonal transport of displacement `vf`, after any
/// repositioning: the longer axis first runs alone for the difference, then
/// both axes run together for the shorter magnitude.
pub open spec fn diag_instrs(vf: Field, speed: Speeds, magnet: bool) -> Seq<MotorMoveType> {
    let a = iabs2(vf.0 as int);
    let b = iabs2(vf.1 as int);
    let ypart: Seq<MotorMoveType> = if a < b {
        seq![
            MotorMoveType::StraightY(
                MotorMove {
                    dir: vf.1 as int >= 0,
                    len: steps_of(b - a) as u32,
                    dir2: true,
                    speed,
                    magnet,
                },
            ),
        ]
    } else {
        Seq::empty()
    };
    let xpart: Seq<MotorMoveType> = if a > b {
        seq![
            MotorMoveType::StraightX(
                MotorMove {
                    dir: vf.0 as int >= 0,
                    len: steps_of(a - b) as u32,
                    dir2: true,
                    speed,
                    magnet,
                },
            ),
        ]
    } else {
        Seq::empty()
    };
    let dpart: Seq<MotorMoveType> = seq![
        MotorMoveType::Diagonal(
            MotorMove {
                dir: vf.0 as int >= 0,
                len: steps_of(min2(a, b)) as u32,
                dir2: vf.1 as int >= 0,
                speed,
                magnet,
            },
        ),
    ];
    ypart + xpart + dpart
}

/// The net displacement of a singleton plan is its instruction's step
/// vector.
pub proof fn lemma_net_singleton(m: MotorMoveType)
    ensures
        net_x(seq![m]) == step_dx(m),
        net_y(seq![m]) == step_dy(m),
        total_len(seq![m]) == mm_of(m).len,
{
    assert(seq![m].len() == 1);
    assert(seq![m].drop_last() =~= Seq::<MotorMoveType>::empty());
    assert(seq![m].last() == m);
    assert(net_x(Seq::<MotorMoveType>::empty()) == 0);
    assert(net_y(Seq::<MotorMoveType>::empty()) == 0);
    assert(total_len(Seq::<MotorMoveType>::empty()) == 0);
    assert(net_x(seq![m]) == net_x(seq![m].drop_last()) + step_dx(seq![m].last()));
    assert(net_y(seq![m]) == net_y(seq![m].drop_last()) + step_dy(seq![m].last()));
    assert(total_len(seq![m]) == total_len(seq![m].drop_last()) + mm_of(seq![m].last()).len);
}

/// The net displacement of a list is bounded by its total length.
pub proof fn lemma_net_abs(s: Seq<MotorMoveType>)
    ensures
        -total_len(s) <= net_x(s) <= total_len(s),
        -total_len(s) <= net_y(s) <= total_len(s),
    decreases s.len(),
{
    if s.len() > 0 {
        lemma_net_abs(s.drop_last());
    }
}

/// A prefix weighs no more than the whole list.
pub proof fn lemma_total_take_le(s: Seq<MotorMoveType>, k: int)
    requires
        0 <= k <= s.len(),
    ensures
        total_len(s.take(k)) <= total_len(s),
    decreases s.len(),
{
    if k == s.len() {
        assert(s.take(k) =~= s);
    } else {
        assert(s.len() > 0);
        assert(s.drop_last().take(k) =~= s.take(k));
        lemma_total_take_le(s.drop_last(), k);
    }
}

/// A head position far enough from the tracking boundary stays inside it
/// throughout a plan of bounded total length.
pub proof fn lemma_pos_stays(p: PosNow, s: Seq<MotorMoveType>, t: int)
    requires
        total_len(s) <= t,
        -0x1000_0000_0000 + t <= p.xmtr <= 0x1000_0000_0000 - t,
        -0x1000_0000_0000 + t <= p.ymtr <= 0x1000_0000_0000 - t,
    ensures
        pos_stays(p, s),
{
    assert forall|k: int| 0 <= k <= s.len() implies {
        &&& -0x1000_0000_0000 <= p.xmtr + net_x(#[trigger] s.take(k)) <= 0x1000_0000_0000
        &&& -0x1000_0000_0000 <= p.ymtr + net_y(s.take(k)) <= 0x1000_0000_0000
    } by {
        lemma_total_take_le(s, k);
        lemma_total_len_nonneg(s.take(k));
        lemma_net_abs(s.take(k));
    }
}

/// The straight decomposition of a bounded displacement has a bounded
/// total step count.
proof fn lemma_vfield_total(f: Field, speed: Speeds, magnet: bool, l: int)
    requires
        0 <= l <= HALVES_LIMIT,
        -l <= f.0 <= l,
        -l <= f.1 <= l,
    ensures
        0 <= total_len(vfield_instrs(f, speed, magnet)) <= 638 * l + 2,
{
    reveal_net_of_vfield(f, speed, magnet);
    lemma_steps_bound(f.0 as int, l);
    lemma_steps_bound(f.1 as int, l);
}

impl MotorInstructions {
    /// The plan that takes the head from `f1` to `f2` as one straight move
    /// per axis: a no-magnet repositioning to `f1` first, when the head is
    /// not already there. The head ends within 200 steps of `f2`.
    #[verifier::rlimit(100)]
    pub fn field_to_field(f1: Field, f2: Field, speed: Speeds, magnet: bool, pos: &mut PosNow) -> (r:
        Self)
        requires
            -50000 <= f1.0 <= 50000,
            -50000 <= f1.1 <= 50000,
            -15 <= f2.0 <= 15,
            -15 <= f2.1 <= 15,
            in_pos_window(*old(pos)),
        ensures
            sfh_of(*old(pos)) == f1 ==> r.instructions@ == vfield_instrs(
                fdiff(f2, f1),
                speed,
                magnet,
            ),
            sfh_of(*old(pos)) != f1 ==> r.instructions@ == vfield_instrs(
                fdiff(f1, sfh_of(*old(pos))),
                Speeds::NoFigurespeed,
                false,
            ) + vfield_instrs(fdiff(f2, f1), speed, magnet),
            final(pos).xmtr == old(pos).xmtr + net_x(r.instructions@),
            final(pos).ymtr == old(pos).ymtr + net_y(r.instructions@),
            near_steps(final(pos).xmtr as int, f2.0 as int, 165),
            near_steps(final(pos).ymtr as int, f2.1 as int, 165),
            in_pos_window(*final(pos)),
            total_len(r.instructions@) <= 84000000,
            (sfh_of(*old(pos)) == f1 && -100 <= f1.0 <= 100 && -100 <= f1.1 <= 100)
                ==> total_len(r.instructions@) <= 75000,
            r.instructions@ == f2f_instrs(
                f1,
                f2,
                speed,
                magnet,
                old(pos).xmtr as int,
                old(pos).ymtr as int,
            ),
    {
        proof {
            lemma_halves_bound(old(pos).xmtr as int, 10000000);
            lemma_halves_bound(old(pos).ymtr as int, 10000000);
        }
        let cur = pos.sfh_to_field();
        let mut res = MotorInstructions::new();
        if cur != f1 {
            let d = f1.minus(cur);
            let part = MotorInstructions::from_vfield(d, Speeds::NoFigurespeed, false);
            proof {
                lemma_steps_bound(d.0 as int, HALVES_LIMIT as int);
                lemma_steps_bound(d.1 as int, HALVES_LIMIT as int);
                lemma_pos_stays(*pos, part.instructions@, 63800002);
            }
            res.append(part, pos);
            proof {
                lemma_halves_residual(old(pos).xmtr as int);
                lemma_halves_residual(old(pos).ymtr as int);
                lemma_steps_add(cur.0 as int, d.0 as int);
                lemma_steps_add(cur.1 as int, d.1 as int);
            }
        } else {
            proof {
                lemma_halves_residual(old(pos).xmtr as int);
                lemma_halves_residual(old(pos).ymtr as int);
            }
        }
        let d2 = f2.minus(f1);
        let part2 = MotorInstructions::from_vfield(d2, speed, magnet);
        proof {
            lemma_steps_bound(d2.0 as int, HALVES_LIMIT as int);
            lemma_steps_bound(d2.1 as int, HALVES_LIMIT as int);
            lemma_pos_stays(*pos, part2.instructions@, 63800002);
            lemma_steps_add(f1.0 as int, d2.0 as int);
            lemma_steps_add(f1.1 as int, d2.1 as int);
            lemma_steps_bound(f2.0 as int, 15);
            lemma_steps_bound(f2.1 as int, 15);
        }
        res.append(part2, pos);
        proof {
            lemma_net_concat(
                if sfh_of(*old(pos)) == f1 {
                    Seq::<MotorMoveType>::empty()
                } else {
                    vfield_instrs(fdiff(f1, sfh_of(*old(pos))), Speeds::NoFigurespeed, false)
                },
                vfield_instrs(fdiff(f2, f1), speed, magnet),
            );
            if sfh_of(*old(pos)) != f1 {
                lemma_vfield_total(
                    fdiff(f1, sfh_of(*old(pos))),
                    Speeds::NoFigurespeed,
                    false,
                    81464,
                );
            }
            lemma_vfield_total(fdiff(f2, f1), speed, magnet, 50015);
            if sfh_of(*old(pos)) == f1 && -100 <= f1.0 <= 100 && -100 <= f1.1 <= 100 {
                lemma_vfield_total(fdiff(f2, f1), speed, magnet, 115);
            }
        }
        res
    }

    /// The plan that carries a piece diagonally from `f1` to `f2`: a
    /// repositioning to `f1` when needed, then the longer axis alone for the
    /// difference of the magnitudes, then both axes together. The head ends
    /// within 200 steps of `f2`.
    #[verifier::rlimit(100)]
    pub fn diagonal(f1: Field, f2: Field, speed: Speeds, magnet: bool, pos: &mut PosNow) -> (r:
        Self)
        requires
            -15 <= f1.0 <= 15,
            -15 <= f1.1 <= 15,
            -15 <= f2.0 <= 15,
            -15 <= f2.1 <= 15,
            in_pos_window(*old(pos)),
        ensures
            sfh_of(*old(pos)) == f1 ==> r.instructions@ == diag_instrs(
                fdiff(f2, f1),
                speed,
                magnet,
            ),
            sfh_of(*old(pos)) != f1 ==> r.instructions@ == vfield_instrs(
                fdiff(f1, sfh_of(*old(pos))),
                Speeds::NoFigurespeed,
                false,
            ) + diag_instrs(fdiff(f2, f1), speed, magnet),
            final(pos).xmtr == old(pos).xmtr + net_x(r.instructions@),
            final(pos).ymtr == old(pos).ymtr + net_y(r.instructions@),
            near_steps(final(pos).xmtr as int, f2.0 as int, 200),
            near_steps(final(pos).ymtr as int, f2.1 as int, 200),
            in_pos_window(*final(pos)),
            total_len(r.instructions@) <= 84100000,
            (-30000 <= old(pos).xmtr <= 30000 && -30000 <= old(pos).ymtr <= 30000)
                ==> total_len(r.instructions@) <= 200000,
            r.instructions@ == diag_full_instrs(
                f1,
                f2,
                speed,
                magnet,
                old(pos).xmtr as int,
                old(pos).ymtr as int,
            ),
    {
        proof {
            lemma_halves_bound(old(pos).xmtr as int, 10000000);
            lemma_halves_bound(old(pos).ymtr as int, 10000000);
            if -30000 <= old(pos).xmtr <= 30000 {
                lemma_halves_bound(old(pos).xmtr as int, 30000);
            }
            if -30000 <= old(pos).ymtr <= 30000 {
                lemma_halves_bound(old(pos).ymtr as int, 30000);
            }
        }
        let cur = pos.sfh_to_field();
        let mut res = MotorInstructions::new();
        if cur != f1 {
            res.append_wo_pos(
                MotorInstructions::field_to_field(cur, f1, Speeds::NoFigurespeed, false, pos),
            );
        } else {
            proof {
                lemma_halves_residual(old(pos).xmtr as int);
                lemma_halves_residual(old(pos).ymtr as int);
            }
        }
        let ghost pre: Seq<MotorMoveType> = res.instructions@;
        let core = MotorInstructions::diagonal_core(f1, f2, speed, magnet, pos);
        res.append_wo_pos(core);
        proof {
            lemma_net_concat(pre, diag_instrs(fdiff(f2, f1), speed, magnet));
            lemma_total_len_nonneg(pre);
        }
        res
    }

    /// The diagonal decomposition itself, for a head already standing at
    /// `f1` (within the repositioning tolerance).
    #[verifier::rlimit(100)]
    fn diagonal_core(f1: Field, f2: Field, speed: Speeds, magnet: bool, pos: &mut PosNow) -> (r:
        Self)
        requires
            -15 <= f1.0 <= 15,
            -15 <= f1.1 <= 15,
            -15 <= f2.0 <= 15,
            -15 <= f2.1 <= 15,
            -165 <= old(pos).xmtr - steps_of(f1.0 as int) <= 165,
            -165 <= old(pos).ymtr - steps_of(f1.1 as int) <= 165,
        ensures
            r.instructions@ == diag_instrs(fdiff(f2, f1), speed, magnet),
            final(pos).xmtr == old(pos).xmtr + net_x(r.instructions@),
            final(pos).ymtr == old(pos).ymtr + net_y(r.instructions@),
            near_steps(final(pos).xmtr as int, f2.0 as int, 200),
            near_steps(final(pos).ymtr as int, f2.1 as int, 200),
            in_pos_window(*final(pos)),
            total_len(r.instructions@) <= 100000,
    {
        proof {
            lemma_steps_bound(f1.0 as int, 15);
            lemma_steps_bound(f1.1 as int, 15);
        }
        let mut res = MotorInstructions::new();
        let vf = f2.minus(f1);
        let a = abs_i32(vf.0);
        let b = abs_i32(vf.1);
        proof {
            lemma_steps_bound(a as int, 62);
            lemma_steps_bound(b as int, 62);
            lemma_steps_bound((a - b) as int, 62);
            lemma_steps_bound((b - a) as int, 62);
        }
        let mut len = fields_to_steps(a);
        if a < b {
            let ylen = fields_to_steps(b - a);
            let part = MotorInstructions {
                instructions: vec![
                    MotorMoveType::StraightY(
                        MotorMove::new_values(vf.1 >= 0, ylen, true, speed, magnet),
                    ),
                ],
            };
            let ghost prev = res.instructions@;
            proof {
                lemma_net_singleton(part.instructions@[0]);
                assert(part.instructions@ =~= seq![part.instructions@[0]]);
                lemma_pos_stays(*pos, part.instructions@, 19779);
            }
            res.append(part, pos);
            proof {
                lemma_net_concat(prev, part.instructions@);
            }
        }
        if a > b {
            len = fields_to_steps(b);
            let xlen = fields_to_steps(a - b);
            let part = MotorInstructions {
                instructions: vec![
                    MotorMoveType::StraightX(
                        MotorMove::new_values(vf.0 >= 0, xlen, true, speed, magnet),
                    ),
                ],
            };
            let ghost prev = res.instructions@;
            proof {
                lemma_net_singleton(part.instructions@[0]);
                assert(part.instructions@ =~= seq![part.instructions@[0]]);
                lemma_pos_stays(*pos, part.instructions@, 19779);
            }
            res.append(part, pos);
            proof {
                lemma_net_concat(prev, part.instructions@);
            }
        }
        proof {
            assert(pos.xmtr == old(pos).xmtr + net_x(res.instructions@));
            assert(pos.ymtr == old(pos).ymtr + net_y(res.instructions@));
        }
        let dpart = MotorInstructions {
            instructions: vec![
                MotorMoveType::Diagonal(MotorMove::new_values(vf.0 >= 0, len, vf.1 >= 0, speed, magnet)),
            ],
        };
        let ghost prev = res.instructions@;
        proof {
            lemma_net_singleton(dpart.instructions@[0]);
            assert(dpart.instructions@ =~= seq![dpart.instructions@[0]]);
            lemma_pos_stays(*pos, dpart.instructions@, 19779);
        }
        res.append(dpart, pos);
        proof {
            lemma_net_concat(prev, dpart.instructions@);
            let vfs = fdiff(f2, f1);
            let di = diag_instrs(vfs, speed, magnet);
            assert(res.instructions@ =~= di);
            assert(pos.xmtr == old(pos).xmtr + net_x(res.instructions@));
            assert(pos.ymtr == old(pos).ymtr + net_y(res.instructions@));
            lemma_diag_drift(old(pos).xmtr as int, old(pos).ymtr as int, f1, f2, speed, magnet);
            lemma_steps_bound(f2.0 as int, 15);
            lemma_steps_bound(f2.1 as int, 15);
        }
        res
    }
}




/// From within the repositioning tolerance of `f1`, running the diagonal
/// decomposition toward `f2` ends within 200 steps of `f2`.
proof fn lemma_diag_drift(p1x: int, p1y: int, f1: Field, f2: Field, speed: Speeds, magnet: bool)
    requires
        -15 <= f1.0 <= 15,
        -15 <= f1.1 <= 15,
        -15 <= f2.0 <= 15,
        -15 <= f2.1 <= 15,
        -165 <= p1x - steps_of(f1.0 as int) <= 165,
        -165 <= p1y - steps_of(f1.1 as int) <= 165,
    ensures
        near_steps(p1x + net_x(diag_instrs(fdiff(f2, f1), speed, magnet)), f2.0 as int, 200),
        near_steps(p1y + net_y(diag_instrs(fdiff(f2, f1), speed, magnet)), f2.1 as int, 200),
{
    let vf = fdiff(f2, f1);
    lemma_diag_net(vf, speed, magnet);
    lemma_steps_add(f1.0 as int, vf.0 as int);
    lemma_steps_add(f1.1 as int, vf.1 as int);
}

/// Every instruction of the diagonal decomposition carries the given
/// speed and magnet state.
pub proof fn lemma_diag_attrs(vf: Field, sp: Speeds, m: bool)
    ensures
        forall|k: int|
            0 <= k < diag_instrs(vf, sp, m).len() ==> mm_of(
                #[trigger] diag_instrs(vf, sp, m)[k],
            ).magnet == m && mm_of(diag_instrs(vf, sp, m)[k]).speed == sp,
{
    let s = diag_instrs(vf, sp, m);
    assert forall|k: int| 0 <= k < s.len() implies mm_of(#[trigger] s[k]).magnet == m && mm_of(
        s[k],
    ).speed == sp by {
        let a = iabs2(vf.0 as int);
        let b = iabs2(vf.1 as int);
        if a < b {
            assert(s.len() == 2);
            assert(k == 0 || k == 1);
        } else if a > b {
            assert(s.len() == 2);
            assert(k == 0 || k == 1);
        } else {
            assert(s.len() == 1);
            assert(k == 0);
        }
    }
}

/// The net displacement of the diagonal decomposition is one step at most
/// away from converting the displacement at once.
#[verifier::rlimit(100)]
proof fn lemma_diag_net(vf: Field, speed: Speeds, magnet: bool)
    requires
        -62 <= vf.0 <= 62,
        -62 <= vf.1 <= 62,
    ensures
        -1 <= net_x(diag_instrs(vf, speed, magnet)) - steps_of(vf.0 as int) <= 1,
        -1 <= net_y(diag_instrs(vf, speed, magnet)) - steps_of(vf.1 as int) <= 1,
        total_len(diag_instrs(vf, speed, magnet)) <= iabs2(steps_of(vf.0 as int)) + iabs2(
            steps_of(vf.1 as int),
        ) + 2,
{
    let a = iabs2(vf.0 as int);
    let b = iabs2(vf.1 as int);
    let s = diag_instrs(vf, speed, magnet);
    lemma_steps_bound(a, 62);
    lemma_steps_bound(b, 62);
    lemma_steps_bound(a - b, 62);
    lemma_steps_bound(b - a, 62);
    lemma_steps_bound(min2(a, b), 62);
    lemma_steps_err(a);
    lemma_steps_err(b);
    lemma_steps_err(vf.0 as int);
    lemma_steps_err(vf.1 as int);
    lemma_steps_err(a - b);
    lemma_steps_err(b - a);
    lemma_steps_add(a - b, b);
    lemma_steps_add(b - a, a);
    let ypart: Seq<MotorMoveType> = if a < b {
        seq![s[0]]
    } else {
        Seq::empty()
    };
    let xpart: Seq<MotorMoveType> = if a > b {
        seq![s[0]]
    } else {
        Seq::empty()
    };
    let dpart: Seq<MotorMoveType> = seq![s.last()];
    assert(s =~= ypart + xpart + dpart);
    lemma_net_concat(ypart + xpart, dpart);
    lemma_net_concat(ypart, xpart);
    if a < b {
        lemma_net_singleton(s[0]);
    }
    if a > b {
        lemma_net_singleton(s[0]);
    }
    lemma_net_singleton(s.last());
}

/// The absolute value of an `i32`.
fn abs_i32(v: i32) -> (r: i32)
    requires
        v > i32::MIN,
    ensures
        r == iabs2(v as int),
{
    if v < 0 {
        -v
    } else {
        v
    }
}

/// The body of the merge step of `ease`: replacing a mergeable adjacent pair
/// by its merge, behind an unmergeable prefix, keeps the fully merged form.
proof fn lemma_ease_step(v: Seq<MotorMoveType>, i: int)
    requires
        0 <= i,
        i + 1 < v.len(),
        same_attrs(v[i], v[i + 1]),
        forall|j: int| 0 <= j < i ==> !same_attrs(#[trigger] v[j], v[j + 1]),
    ensures
        spec_ease(v.take(i) + seq![merged(v[i], v[i + 1])] + v.skip(i + 2)) == spec_ease(v),
        forall|j: int|
            0 <= j < i ==> !same_attrs(
                #[trigger] (v.take(i) + seq![merged(v[i], v[i + 1])] + v.skip(i + 2))[j],
                (v.take(i) + seq![merged(v[i], v[i + 1])] + v.skip(i + 2))[j + 1],
            ),
{
    let w = v.take(i) + seq![merged(v[i], v[i + 1])] + v.skip(i + 2);
    lemma_ease_prefix(v, i);
    assert forall|j: int| 0 <= j < i implies !same_attrs(#[trigger] w[j], w[j + 1]) by {
        assert(w[j] == v[j]);
        if j + 1 < i {
            assert(w[j + 1] == v[j + 1]);
        } else {
            assert(w[j + 1] == merged(v[i], v[i + 1]));
            assert(same_attrs(merged(v[i], v[i + 1]), v[i]));
        }
    }
    assert(w.len() == v.len() - 1);
    if i < w.len() {
        lemma_ease_prefix(w, i);
        let vs = v.skip(i);
        assert(vs[0] == v[i] && vs[1] == v[i + 1]);
        assert(same_attrs(vs[0], vs[1]));
        assert(spec_ease(vs) == spec_ease(seq![merged(vs[0], vs[1])] + vs.skip(2)));
        assert(seq![merged(vs[0], vs[1])] + vs.skip(2) =~= w.skip(i));
        assert(w.take(i) =~= v.take(i));
    } else {
        // the pair sat at the very end: w ends with the merged instruction
        assert(i == w.len());
        lemma_ease_prefix(v, i);
        let vs = v.skip(i);
        assert(vs.len() == 2);
        assert(vs[0] == v[i] && vs[1] == v[i + 1]);
        assert(spec_ease(vs) == spec_ease(seq![merged(vs[0], vs[1])] + vs.skip(2)));
        assert(seq![merged(vs[0], vs[1])] + vs.skip(2) =~= seq![merged(v[i], v[i + 1])]);
        assert(spec_ease(seq![merged(v[i], v[i + 1])]) == seq![merged(v[i], v[i + 1])]);
        assert(w =~= v.take(i) + seq![merged(v[i], v[i + 1])]);
        lemma_ease_prefix_full(w, i);
    }
}

/// `lemma_ease_prefix` in the border case where only one element follows the
/// unmergeable prefix.
proof fn lemma_ease_prefix_full(s: Seq<MotorMoveType>, i: int)
    requires
        0 <= i,
        i + 1 == s.len(),
        forall|j: int| 0 <= j < i ==> !same_attrs(#[trigger] s[j], s[j + 1]),
    ensures
        spec_ease(s) == s,
{
    assert(fully_eased(s));
    lemma_ease_fixed(s);
}

/// Runtime form of `same_attrs`.
fn same_attrs_exec(a: &MotorMoveType, b: &MotorMoveType) -> (r: bool)
    ensures
        r == same_attrs(*a, *b),
{
    let am = match a {
        MotorMoveType::StraightX(m) => m,
        MotorMoveType::StraightY(m) => m,
        MotorMoveType::Diagonal(m) => m,
    };
    let bm = match b {
        MotorMoveType::StraightX(m) => m,
        MotorMoveType::StraightY(m) => m,
        MotorMoveType::Diagonal(m) => m,
    };
    let variants = match (a, b) {
        (MotorMoveType::StraightX(_), MotorMoveType::StraightX(_)) => true,
        (MotorMoveType::StraightY(_), MotorMoveType::StraightY(_)) => true,
        (MotorMoveType::Diagonal(_), MotorMoveType::Diagonal(_)) => true,
        _ => false,
    };
    variants && am.dir == bm.dir && am.dir2 == bm.dir2 && am.speed == bm.speed && am.magnet
        == bm.magnet
}

/// Runtime form of `merged`.
fn merged_exec(a: MotorMoveType, b: MotorMoveType) -> (r: MotorMoveType)
    requires
        mm_of(a).len + mm_of(b).len <= u32::MAX,
    ensures
        r == merged(a, b),
{
    let bl = match b {
        MotorMoveType::StraightX(m) => m.len,
        MotorMoveType::StraightY(m) => m.len,
        MotorMoveType::Diagonal(m) => m.len,
    };
    match a {
        MotorMoveType::StraightX(m) => MotorMoveType::StraightX(MotorMove { len: m.len + bl, ..m }),
        MotorMoveType::StraightY(m) => MotorMoveType::StraightY(MotorMove { len: m.len + bl, ..m }),
        MotorMoveType::Diagonal(m) => MotorMoveType::Diagonal(MotorMove { len: m.len + bl, ..m }),
    }
}

/// Unfolds the net displacement of `vfield_instrs` to the converted step
/// counts.
proof fn reveal_net_of_vfield(f: Field, speed: Speeds, magnet: bool)
    requires
        -HALVES_LIMIT <= f.0 <= HALVES_LIMIT,
        -HALVES_LIMIT <= f.1 <= HALVES_LIMIT,
    ensures
        net_x(vfield_instrs(f, speed, magnet)) == steps_of(f.0 as int),
        net_y(vfield_instrs(f, speed, magnet)) == steps_of(f.1 as int),
        total_len(vfield_instrs(f, speed, magnet)) == iabs2(steps_of(f.0 as int)) + iabs2(
            steps_of(f.1 as int),
        ),
{
    lemma_steps_bound(f.0 as int, HALVES_LIMIT as int);
    lemma_steps_bound(f.1 as int, HALVES_LIMIT as int);
    let xs = steps_of(f.0 as int);
    let ys = steps_of(f.1 as int);
    let xpart: Seq<MotorMoveType> = if xs != 0 {
        seq![MotorMoveType::StraightX(sp_steps_mm(xs, speed, magnet))]
    } else {
        Seq::empty()
    };
    let ypart: Seq<MotorMoveType> = if ys != 0 {
        seq![MotorMoveType::StraightY(sp_steps_mm(ys, speed, magnet))]
    } else {
        Seq::empty()
    };
    lemma_net_concat(xpart, ypart);
    assert(vfield_instrs(f, speed, magnet) == xpart + ypart);
    if xs != 0 {
        let m = MotorMoveType::StraightX(sp_steps_mm(xs, speed, magnet));
        assert(xpart.len() == 1 && xpart.last() == m);
        lemma_net_singleton(m);
        assert(step_dx(m) == xs);
        assert(mm_of(m).len == iabs2(xs));
    }
    if ys != 0 {
        let m = MotorMoveType::StraightY(sp_steps_mm(ys, speed, magnet));
        assert(ypart.len() == 1 && ypart.last() == m);
        lemma_net_singleton(m);
        assert(step_dy(m) == ys);
        assert(mm_of(m).len == iabs2(ys));
    }
}

/// Extracts an `i64` step coordinate known to fit an `i32`.
fn self_i32(v: i64) -> (r: i32)
    requires
        i32::MIN <= v <= i32::MAX,
    ensures
        r == v,
{
    v as i32
}

/// The command for `ind` signed steps: negative counts run with the
/// direction bit cleared.
pub fn steps_to_motormove(ind: i32, speed: Speeds, magnet: bool) -> (r: MotorMove)
    requires
        ind > i32::MIN,
    ensures
        r == sp_steps_mm(ind as int, speed, magnet),
{
    if ind < 0 {
        MotorMove::new_values(false, (-ind) as u32, true, speed, magnet)
    } else {
        MotorMove::new_values(true, ind as u32, true, speed, magnet)
    }
}

impl MotorMoveType {
    /// The command inside, for reading or adjusting in place.
    pub fn get_motormove(&mut self) -> (r: &mut MotorMove)
        ensures
            *r == mm_of(*old(self)),
            *final(self) == with_mm(*old(self), *final(r)),
    {
        match self {
            Self::StraightX(a) => a,
            Self::StraightY(a) => a,
            Self::Diagonal(a) => a,
        }
    }
}

impl MotorInstructions {
    /// The seating nudge: one move of `len` steps along the given axes and
    /// the exact counter-move back, at `Offsetspeed`. The magnet is on for
    /// the outward move and off for the return when `magnet_first` holds,
    /// and the other way round to undo a nudge. With no axis given the
    /// plan is empty; the net displacement is always zero.
    pub fn offset_nudge(x: Option<bool>, y: Option<bool>, len: u32, magnet_first: bool) -> (r:
        Self)
        ensures
            r.instructions@ == nudge_instrs(x, y, len, magnet_first),
            net_x(r.instructions@) == 0,
            net_y(r.instructions@) == 0,
    {
        let mut res: Vec<MotorMoveType> = Vec::new();
        match (x, y) {
            (Some(xd), Some(yd)) => {
                res.push(
                    MotorMoveType::Diagonal(
                        MotorMove::new_values(xd, len, yd, Speeds::Offsetspeed, magnet_first),
                    ),
                );
                res.push(
                    MotorMoveType::Diagonal(
                        MotorMove::new_values(!xd, len, !yd, Speeds::Offsetspeed, !magnet_first),
                    ),
                );
            },
            (Some(xd), Option::None) => {
                res.push(
                    MotorMoveType::StraightX(
                        MotorMove::new_values(xd, len, true, Speeds::Offsetspeed, magnet_first),
                    ),
                );
                res.push(
                    MotorMoveType::StraightX(
                        MotorMove::new_values(!xd, len, true, Speeds::Offsetspeed, !magnet_first),
                    ),
                );
            },
            (Option::None, Some(yd)) => {
                res.push(
                    MotorMoveType::StraightY(
                        MotorMove::new_values(yd, len, true, Speeds::Offsetspeed, magnet_first),
                    ),
                );
                res.push(
                    MotorMoveType::StraightY(
                        MotorMove::new_values(!yd, len, true, Speeds::Offsetspeed, !magnet_first),
                    ),
                );
            },
            (Option::None, Option::None) => {},
        }
        proof {
            assert(res@ =~= nudge_instrs(x, y, len, magnet_first));
            if res@.len() == 2 {
                lemma_net_concat(res@.take(1), res@.skip(1));
                assert(res@.take(1) + res@.skip(1) =~= res@);
                lemma_net_singleton(res@[0]);
                lemma_net_singleton(res@[1]);
                assert(res@.take(1) =~= seq![res@[0]]);
                assert(res@.skip(1) =~= seq![res@[1]]);
            }
        }
        MotorInstructions { instructions: res }
    }
}

/// The instruction pair of the seating nudge.
pub open spec fn nudge_instrs(x: Option<bool>, y: Option<bool>, len: u32, magnet_first: bool) -> Seq<
    MotorMoveType,
> {
    match (x, y) {
        (Some(xd), Some(yd)) => seq![
            MotorMoveType::Diagonal(
                MotorMove { dir: xd, len, dir2: yd, speed: Speeds::Offsetspeed, magnet: magnet_first },
            ),
            MotorMoveType::Diagonal(
                MotorMove {
                    dir: !xd,
                    len,
                    dir2: !yd,
                    speed: Speeds::Offsetspeed,
                    magnet: !magnet_first,
                },
            ),
        ],
        (Some(xd), Option::None) => seq![
            MotorMoveType::StraightX(
                MotorMove { dir: xd, len, dir2: true, speed: Speeds::Offsetspeed, magnet: magnet_first },
            ),
            MotorMoveType::StraightX(
                MotorMove {
                    dir: !xd,
                    len,
                    dir2: true,
                    speed: Speeds::Offsetspeed,
                    magnet: !magnet_first,
                },
            ),
        ],
        (Option::None, Some(yd)) => seq![
            MotorMoveType::StraightY(
                MotorMove { dir: yd, len, dir2: true, speed: Speeds::Offsetspeed, magnet: magnet_first },
            ),
            MotorMoveType::StraightY(
                MotorMove {
                    dir: !yd,
                    len,
                    dir2: true,
                    speed: Speeds::Offsetspeed,
                    magnet: !magnet_first,
                },
            ),
        ],
        (Option::None, Option::None) => Seq::empty(),
    }
}

/// The head position in signed motor steps from the home corner.
#[derive(Debug, Clone, Copy)]
pub struct PosNow {
    pub xmtr: i64,
    pub ymtr: i64,
}

/// The window within which head positions are tracked; it covers the board
/// many times over and keeps all step arithmetic far from overflow.
pub open spec fn in_pos_window(p: PosNow) -> bool {
    -10000000 <= p.xmtr <= 10000000 && -10000000 <= p.ymtr <= 10000000
}

/// Whether step position `p` lies within `d` steps of the step position of
/// the half-cell coordinate `h`.
pub open spec fn near_steps(p: int, h: int, d: int) -> bool {
    -d <= p - steps_of(h) <= d
}

impl PosNow {
    /// The home position.
    pub fn new() -> (r: Self)
        ensures
            r == (PosNow { xmtr: 0, ymtr: 0 }),
    {
        PosNow { xmtr: 0, ymtr: 0 }
    }

    /// The step position of a continuous position.
    pub fn new_from_field(f: Field) -> (r: Self)
        requires
            -HALVES_LIMIT <= f.0 <= HALVES_LIMIT,
            -HALVES_LIMIT <= f.1 <= HALVES_LIMIT,
        ensures
            r.xmtr == steps_of(f.0 as int),
            r.ymtr == steps_of(f.1 as int),
    {
        PosNow {
            xmtr: fields_to_steps_signed(f.0) as i64,
            ymtr: fields_to_steps_signed(f.1) as i64,
        }
    }

    /// Records `steps` motor steps on one axis in direction `dir`.
    pub fn update(&mut self, xaxis: bool, steps: u32, dir: bool)
        requires
            i64::MIN + 0x1_0000_0000 <= old(self).xmtr <= i64::MAX - 0x1_0000_0000,
            i64::MIN + 0x1_0000_0000 <= old(self).ymtr <= i64::MAX - 0x1_0000_0000,
        ensures
            final(self).xmtr == if xaxis {
                if dir {
                    old(self).xmtr + steps
                } else {
                    old(self).xmtr - steps
                }
            } else {
                old(self).xmtr as int
            },
            final(self).ymtr == if !xaxis {
                if dir {
                    old(self).ymtr + steps
                } else {
                    old(self).ymtr - steps
                }
            } else {
                old(self).ymtr as int
            },
    {
        if xaxis {
            if dir {
                self.xmtr = self.xmtr + steps as i64;
            } else {
                self.xmtr = self.xmtr - steps as i64;
            }
        } else {
            if dir {
                self.ymtr = self.ymtr + steps as i64;
            } else {
                self.ymtr = self.ymtr - steps as i64;
            }
        }
    }

    /// The half-cell position nearest to the head's step position. This is
    /// the inverse of the forward step formula, so it loses at most half a
    /// half-cell.
    pub fn sfh_to_field(&self) -> (r: Field)
        requires
            in_pos_window(*self),
        ensures
            r == (Field(
                halves_of_steps(self.xmtr as int) as i32,
                halves_of_steps(self.ymtr as int) as i32,
            )),
    {
        let x2: i32 = halves_of_steps_exec(self.xmtr);
        let y2: i32 = halves_of_steps_exec(self.ymtr);
        Field(x2, y2)
    }
}

/// The executable form of `halves_of_steps`.
fn halves_of_steps_exec(p: i64) -> (r: i32)
    requires
        -10000000 <= p <= 10000000,
    ensures
        r == halves_of_steps(p as int),
{
    if p >= 0 {
        ((5654i64 * p + 900000) / 1800000) as i32
    } else {
        (-((5654i64 * (-p) + 900000) / 1800000)) as i32
    }
}

} // verus!
