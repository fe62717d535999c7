//! Grid model and direction bitset shared by both solvers.
use vstd::arithmetic::div_mod::{lemma_fundamental_div_mod, lemma_fundamental_div_mod_converse};
use vstd::prelude::*;

pub mod astar;
pub mod flood;

verus! {

/// Set of directions from which a field is entered with its known cost.
/// Bit 0 is LEFT, bit 1 UP, bit 2 RIGHT and bit 3 DOWN; a flag names the
/// side of the field that the path came in through.
#[derive(Clone, Copy, PartialEq, Eq, Debug, Structural)]
pub struct Dir(u8);

/// Rotation one step to the left on the 4-bit ring: each flag moves to the
/// next lower bit, bit 0 wraps to bit 3.
pub open spec fn rotl(b: u8) -> u8 {
    ((b & 1u8) << 3u8) | (b >> 1u8)
}

/// Rotation one step to the right on the 4-bit ring.
pub open spec fn rotr(b: u8) -> u8 {
    ((b << 1u8) | ((b & 8u8) >> 3u8)) & 15u8
}

pub open spec fn rot(b: u8, to_left: bool) -> u8 {
    if to_left { rotl(b) } else { rotr(b) }
}

/// `b` rotated `n` times in one sense.
pub open spec fn rot_n(b: u8, n: nat, to_left: bool) -> u8
    decreases n,
{
    if n == 0 { b } else { rot(rot_n(b, (n - 1) as nat, to_left), to_left) }
}

/// Union of the flags visited by rotating `a` zero to `n` times.
pub open spec fn swept(a: u8, n: nat, to_left: bool) -> u8
    decreases n,
{
    if n == 0 { a } else { swept(a, (n - 1) as nat, to_left) | rot_n(a, n, to_left) }
}

/// Every flag of `t` is met while rotating `a` at most `n` times.
pub open spec fn covered(a: u8, n: nat, t: u8, to_left: bool) -> bool {
    t & !swept(a, n, to_left) == 0
}

/// The least number of rotations of the single flag `a` in one sense that
/// meets every flag of `t`.
pub open spec fn sweep_steps(a: u8, t: u8, to_left: bool) -> nat {
    if covered(a, 0, t, to_left) {
        0
    } else if covered(a, 1, t, to_left) {
        1
    } else if covered(a, 2, t, to_left) {
        2
    } else {
        3
    }
}

/// Fewest rotations from anchor flag `a`, or 4 when `s` lacks that flag.
pub open spec fn anchor_steps(s: u8, a: u8, t: u8) -> nat {
    if s & a == a {
        vstd::math::min(sweep_steps(a, t, true) as int, sweep_steps(a, t, false) as int) as nat
    } else {
        4
    }
}

/// The minimum rotation heuristic: the fewest rotations of one flag of `s`,
/// in either sense, that meet every flag of `t`; 4 when `s` is empty.
pub open spec fn min_rotation_of(s: u8, t: u8) -> nat {
    vstd::math::min(
        vstd::math::min(
            vstd::math::min(
                vstd::math::min(4, anchor_steps(s, 1, t) as int),
                anchor_steps(s, 4, t) as int,
            ),
            anchor_steps(s, 2, t) as int,
        ),
        anchor_steps(s, 8, t) as int,
    ) as nat
}

/// Direction flag for one coordinate axis: `lo` when `from < to`, `hi` when
/// `from > to`, none when they are equal.
pub open spec fn axis_flag(from: usize, to: usize, lo: u8, hi: u8) -> u8 {
    if from < to {
        lo
    } else if from > to {
        hi
    } else {
        0
    }
}

proof fn lemma_sweep_full(a: u8, to_left: bool)
    requires
        a == 1 || a == 2 || a == 4 || a == 8,
    ensures
        swept(a, 3, to_left) == 15,
{
    reveal_with_fuel(rot_n, 4);
    reveal_with_fuel(swept, 4);
    assert(rotl(1) == 8 && rotl(8) == 4 && rotl(4) == 2 && rotl(2) == 1) by (bit_vector);
    assert(rotr(1) == 2 && rotr(2) == 4 && rotr(4) == 8 && rotr(8) == 1) by (bit_vector);
    assert((1u8 | 8u8 | 4u8 | 2u8) == 15u8 && (1u8 | 2u8 | 4u8 | 8u8) == 15u8) by (bit_vector);
    assert((2u8 | 1u8 | 8u8 | 4u8) == 15u8 && (2u8 | 4u8 | 8u8 | 1u8) == 15u8) by (bit_vector);
    assert((4u8 | 2u8 | 1u8 | 8u8) == 15u8 && (4u8 | 8u8 | 1u8 | 2u8) == 15u8) by (bit_vector);
    assert((8u8 | 4u8 | 2u8 | 1u8) == 15u8 && (8u8 | 1u8 | 2u8 | 4u8) == 15u8) by (bit_vector);
}

/// Flag of entering through the left side.
pub const LEFT: u8 = 1;
/// Flag of entering through the upper side.
pub const UP: u8 = 2;
/// Flag of entering through the right side.
pub const RIGHT: u8 = 4;
/// Flag of entering through the lower side.
pub const DOWN: u8 = 8;
/// All four flags.
pub const ANY: u8 = 15;

impl Dir {
    /// The set holding exactly the flags of `b`.
    pub fn from_bits(b: u8) -> (r: Dir)
        requires
            b < 16,
        ensures
            r.bits() == b,
            r.wf(),
    {
        Dir(b)
    }

    /// The flags as a 4-bit number.
    pub closed spec fn bits(self) -> u8 {
        self.0
    }

    /// Only the four direction bits may be set.
    pub open spec fn wf(self) -> bool {
        self.bits() < 16
    }

    /// The flags as a number.
    pub fn as_bits(self) -> (r: u8)
        ensures
            r == self.bits(),
    {
        self.0
    }

    /// Every flag of `other` is present in `self`.
    pub fn has_all(&self, other: Dir) -> (r: bool)
        ensures
            r == (self.bits() & other.bits() == other.bits()),
    {
        self.0 & other.0 == other.0
    }

    /// Union of both sets of flags.
    pub fn union(self, other: Dir) -> (r: Dir)
        ensures
            r.bits() == self.bits() | other.bits(),
    {
        Dir(self.0 | other.0)
    }

    /// Directions in which at least one step is needed to get from `from` to
    /// `to`: LEFT when `to` lies at a larger column, RIGHT at a smaller one,
    /// UP when it lies at a larger row, DOWN at a smaller one.
    pub fn vec(from: (usize, usize), to: (usize, usize)) -> (r: Dir)
        ensures
            r.bits() == axis_flag(from.0, to.0, 1, 4) | axis_flag(from.1, to.1, 2, 8),
            r.wf(),
    {
        let h: u8 = if from.0 < to.0 {
            1
        } else if from.0 > to.0 {
            4
        } else {
            0
        };
        let v: u8 = if from.1 < to.1 {
            2
        } else if from.1 > to.1 {
            8
        } else {
            0
        };
        assert(h < 16 && v < 16 ==> (h | v) < 16) by (bit_vector);
        Dir(h | v)
    }

    /// Rotates every flag one step to the left on the ring.
    pub fn left(self) -> (r: Dir)
        ensures
            r.bits() == rotl(self.bits()),
    {
        let down: u8 = (self.0 & 1) << 3;
        Dir(down | (self.0 >> 1))
    }

    /// Rotates every flag one step to the right on the ring.
    pub fn right(self) -> (r: Dir)
        ensures
            r.bits() == rotr(self.bits()),
    {
        let left: u8 = (self.0 & 8) >> 3;
        Dir(((self.0 << 1) | left) & 15)
    }

    /// Rotations of the single flag `anchor` in one sense until every flag of
    /// `target` has been met.
    fn sweep(anchor: Dir, target: Dir, to_left: bool) -> (r: usize)
        requires
            anchor.bits() == 1 || anchor.bits() == 2 || anchor.bits() == 4 || anchor.bits() == 8,
            target.wf(),
        ensures
            r == sweep_steps(anchor.bits(), target.bits(), to_left),
    {
        let a = anchor.0;
        let t = target.0;
        let mut d = anchor;
        let mut o: u8 = t & !a;
        let mut cnt: usize = 0;
        proof {
            lemma_sweep_full(a, to_left);
            assert(t < 16 ==> t & !15u8 == 0) by (bit_vector);
        }
        while o != 0
            invariant
                cnt <= 3,
                d.0 == rot_n(a, cnt as nat, to_left),
                o == t & !swept(a, cnt as nat, to_left),
                forall|j: nat| j < cnt ==> !covered(a, j, t, to_left),
                swept(a, 3, to_left) == 15,
                t < 16,
            decreases 3 - cnt,
        {
            assert(!covered(a, cnt as nat, t, to_left));
            if cnt == 3 {
                assert(t & !15u8 == 0) by (bit_vector)
                    requires t < 16;
                assert(false);
            }
            cnt = cnt + 1;
            d = if to_left { d.left() } else { d.right() };
            let ghost m = swept(a, (cnt - 1) as nat, to_left);
            let dd = d.0;
            assert(o & !dd == t & !(m | dd)) by (bit_vector)
                requires o == t & !m;
            o = o & !d.0;
        }
        proof {
            assert(covered(a, cnt as nat, t, to_left));
        }
        cnt
    }

    /// Minimal number of rotations, anchored at one flag of `self` and turned
    /// in one sense, after which every flag of `other` has been met; 4 when
    /// `self` holds no flag.
    pub fn min_rotation(self, other: Dir) -> (r: usize)
        requires
            other.wf(),
        ensures
            r == min_rotation_of(self.bits(), other.bits()),
    {
        let anchors: [Dir; 4] = [Dir(LEFT), Dir(RIGHT), Dir(UP), Dir(DOWN)];
        let mut min: usize = 4;
        let mut i: usize = 0;
        while i < 4
            invariant
                anchors@ == seq![Dir(1), Dir(4), Dir(2), Dir(8)],
                other.wf(),
                min == (if i == 0 {
                    4
                } else if i == 1 {
                    vstd::math::min(4, anchor_steps(self.0, 1, other.0) as int)
                } else if i == 2 {
                    vstd::math::min(
                        vstd::math::min(4, anchor_steps(self.0, 1, other.0) as int),
                        anchor_steps(self.0, 4, other.0) as int,
                    )
                } else if i == 3 {
                    vstd::math::min(
                        vstd::math::min(
                            vstd::math::min(4, anchor_steps(self.0, 1, other.0) as int),
                            anchor_steps(self.0, 4, other.0) as int,
                        ),
                        anchor_steps(self.0, 2, other.0) as int,
                    )
                } else {
                    min_rotation_of(self.0, other.0) as int
                }),
            decreases 4 - i,
        {
            let dir = anchors[i];
            if self.has_all(dir) {
                let l = Dir::sweep(dir, other, true);
                let r = Dir::sweep(dir, other, false);
                if l < min {
                    min = l;
                }
                if r < min {
                    min = r;
                }
            }
            i = i + 1;
        }
        min
    }
}

/// The set holding exactly the flags of `b`.
pub closed spec fn dir_of(b: u8) -> Dir {
    Dir(b)
}

pub proof fn lemma_dir_of(b: u8)
    ensures
        #[trigger] dir_of(b).bits() == b,
{
}

/// Two sets with the same flags are equal.
pub proof fn lemma_dir_eq(a: Dir, b: Dir)
    requires
        a.bits() == b.bits(),
    ensures
        a == b,
{
}

/// Rotating left undoes rotating right and the other way round, four
/// rotations in either sense give the set back, and the set of all four flags
/// is left as it is by both.
pub proof fn lemma_rotation_ring(d: Dir)
    requires
        d.wf(),
    ensures
        rotl(rotr(d.bits())) == d.bits(),
        rotr(rotl(d.bits())) == d.bits(),
        rot_n(d.bits(), 4, true) == d.bits(),
        rot_n(d.bits(), 4, false) == d.bits(),
        rotl(ANY) == ANY,
        rotr(ANY) == ANY,
{
    let b = d.bits();
    reveal_with_fuel(rot_n, 5);
    assert(b < 16 ==> rotl(rotr(b)) == b) by (bit_vector);
    assert(b < 16 ==> rotr(rotl(b)) == b) by (bit_vector);
    assert(b < 16 ==> rotl(rotl(rotl(rotl(b)))) == b) by (bit_vector);
    assert(b < 16 ==> rotr(rotr(rotr(rotr(b)))) == b) by (bit_vector);
    assert(rotl(15) == 15 && rotr(15) == 15) by (bit_vector);
}

/// A point lies in no direction from itself.
pub proof fn lemma_vec_same_point(p: (usize, usize))
    ensures
        axis_flag(p.0, p.0, 1, 4) | axis_flag(p.1, p.1, 2, 8) == 0,
{
    assert(0u8 | 0u8 == 0u8) by (bit_vector);
}

/// The heuristic of an empty set is never zero: it is 4 whatever the target.
pub proof fn lemma_min_rotation_empty(t: u8)
    ensures
        min_rotation_of(0, t) == 4,
        min_rotation_of(0, t) != 0,
{
    assert(0u8 & 1u8 != 1u8 && 0u8 & 2u8 != 2u8 && 0u8 & 4u8 != 4u8 && 0u8 & 8u8 != 8u8)
        by (bit_vector);
}

/// Single field of the maze.
#[derive(Clone, Copy, PartialEq, Eq, Debug, Structural)]
pub enum Field {
    /// Passable, not reached yet.
    Empty,
    /// Impassable.
    Wall,
    /// Passable and reached: the directions of entry that achieve the cost,
    /// and the cost, counted in turns along some path from a seeded field.
    Calculated(Dir, usize),
}

/// The field that an input byte describes: `'0'` a wall, `'1'` an open field.
pub open spec fn field_of_byte(b: u8) -> Field {
    if b == 48 {
        Field::Wall
    } else {
        Field::Empty
    }
}

pub open spec fn is_maze_byte(b: u8) -> bool {
    b == 48 || b == 49
}

/// The header and rows describe a maze: both sizes positive, at least
/// `height` rows of at least `width` bytes, each of the first `width` bytes of
/// those rows a `'0'` or a `'1'`, and a field count that fits.
pub open spec fn input_ok(width: usize, height: usize, rows: Seq<Vec<u8>>) -> bool {
    &&& width > 0
    &&& height > 0
    &&& width * height < usize::MAX
    &&& rows.len() >= height
    &&& forall|r: int| 0 <= r < height ==> #[trigger] rows[r]@.len() >= width
    &&& forall|r: int, c: int|
        0 <= r < height && 0 <= c < width ==> is_maze_byte(#[trigger] rows[r]@[c])
}

/// Turns taken when a path leaves a field entered through `d` and enters
/// the next field through its side `f`: none when `d` holds `f`, one else.
pub open spec fn turn(d: Dir, f: u8) -> nat {
    if d.bits() & f == f {
        0
    } else {
        1
    }
}

/// Cost of entering a field through its side `f` from `nbr`, the field on
/// that side; None where `nbr` is not reached, or the cost does not fit.
pub open spec fn entry_cost(nbr: Field, f: u8) -> Option<usize> {
    match nbr {
        Field::Calculated(d, c) => {
            if c + turn(d, f) <= usize::MAX {
                Some((c + turn(d, f)) as usize)
            } else {
                None
            }
        },
        _ => None,
    }
}

/// A single direction flag.
pub open spec fn is_flag(f: u8) -> bool {
    f == LEFT || f == UP || f == RIGHT || f == DOWN
}

/// `new` is as good as `old`: walls stay walls, open fields stay open, and a
/// reached field stays reached at a lower cost, or at the same cost with at
/// least the same directions.
pub open spec fn no_worse(new: Field, old: Field) -> bool {
    match old {
        Field::Wall => new == Field::Wall,
        Field::Empty => new == Field::Empty || new is Calculated,
        Field::Calculated(od, oc) => match new {
            Field::Calculated(nd, nc) => nc < oc || (nc == oc && nd.bits() & od.bits()
                == od.bits()),
            _ => false,
        },
    }
}

/// `new` is strictly better than `old`: newly reached, a lower cost, or more
/// directions at the same cost.
pub open spec fn better(new: Field, old: Field) -> bool {
    match old {
        Field::Wall => false,
        Field::Empty => new is Calculated,
        Field::Calculated(od, oc) => match new {
            Field::Calculated(nd, nc) => nc < oc || (nc == oc && nd.bits() & od.bits()
                == od.bits() && nd.bits() != od.bits()),
            _ => false,
        },
    }
}

/// Number of open fields not reached yet.
pub open spec fn empties(s: Seq<Field>) -> nat
    decreases s.len(),
{
    if s.len() == 0 {
        0
    } else {
        empties(s.drop_last()) + if s.last() == Field::Empty {
            1nat
        } else {
            0nat
        }
    }
}

pub open spec fn field_weight(f: Field) -> nat {
    match f {
        Field::Calculated(d, c) => (c * 256 + (255 - d.bits())) as nat,
        _ => 0,
    }
}

/// Sum of the costs of the reached fields, each weighted so that a lower
/// cost or more directions make it smaller.
pub open spec fn weight(s: Seq<Field>) -> nat
    decreases s.len(),
{
    if s.len() == 0 {
        0
    } else {
        weight(s.drop_last()) + field_weight(s.last())
    }
}

pub proof fn lemma_no_worse_trans(a: Field, b: Field, c: Field)
    requires
        no_worse(a, b),
        no_worse(b, c),
    ensures
        no_worse(a, c),
{
    match (a, b, c) {
        (Field::Calculated(ad, _), Field::Calculated(bd, _), Field::Calculated(cd, _)) => {
            let (x, y, z) = (ad.bits(), bd.bits(), cd.bits());
            assert(x & y == y && y & z == z ==> x & z == z) by (bit_vector);
        },
        _ => {},
    }
}

pub proof fn lemma_no_worse_refl(a: Field)
    ensures
        no_worse(a, a),
{
    if let Field::Calculated(d, _) = a {
        let x = d.bits();
        assert(x & x == x) by (bit_vector);
    }
}

proof fn lemma_field_weight(a: Field, b: Field)
    requires
        no_worse(a, b),
        a is Calculated,
        b is Calculated,
    ensures
        field_weight(a) <= field_weight(b),
        better(a, b) ==> field_weight(a) < field_weight(b),
{
    if let (Field::Calculated(ad, ac), Field::Calculated(bd, bc)) = (a, b) {
        let (x, y) = (ad.bits(), bd.bits());
        assert(x & y == y ==> x >= y) by (bit_vector);
        if ac < bc {
            assert(ac * 256 + 255 < bc * 256) by (nonlinear_arith)
                requires ac < bc;
        }
    }
}

/// Pointwise progress between two grids of one shape shows in the pair
/// (open fields, weight), ordered lexicographically: it never grows, and it
/// shrinks where some field got strictly better.
pub proof fn lemma_progress(a: Seq<Field>, b: Seq<Field>)
    requires
        a.len() == b.len(),
        forall|i: int| 0 <= i < a.len() ==> no_worse(#[trigger] a[i], b[i]),
    ensures
        empties(a) <= empties(b),
        empties(a) == empties(b) ==> weight(a) <= weight(b),
        (exists|i: int| 0 <= i < a.len() && better(#[trigger] a[i], b[i])) ==> (empties(a)
            < empties(b) || (empties(a) == empties(b) && weight(a) < weight(b))),
    decreases a.len(),
{
    if a.len() > 0 {
        let (a0, b0) = (a.drop_last(), b.drop_last());
        assert forall|i: int| 0 <= i < a0.len() implies no_worse(#[trigger] a0[i], b0[i]) by {
            assert(a0[i] == a[i] && b0[i] == b[i]);
        }
        lemma_progress(a0, b0);
        let (x, y) = (a.last(), b.last());
        assert(no_worse(x, y));
        if x is Calculated && y is Calculated {
            lemma_field_weight(x, y);
        }
        if exists|i: int| 0 <= i < a.len() && better(#[trigger] a[i], b[i]) {
            let i = choose|i: int| 0 <= i < a.len() && better(#[trigger] a[i], b[i]);
            if i < a0.len() {
                assert(a0[i] == a[i] && b0[i] == b[i]);
            }
        }
    }
}

/// `field` needs no update from a cost `cand` of entering it through `f`.
pub open spec fn settled(field: Field, cand: Option<usize>, f: u8) -> bool {
    match cand {
        None => true,
        Some(t) => match field {
            Field::Calculated(d, c) => c < t || (c == t && d.bits() & f == f),
            _ => false,
        },
    }
}

impl Maze {
    /// No reached field can improve an open neighbour: every open field
    /// beside a reached one is reached, at a lower cost than entering it from
    /// there, or at that cost with that side among its directions.
    pub open spec fn closed(&self) -> bool {
        forall|i: int, f: u8|
            0 <= i < self.cells().len() && is_flag(f) && self.cells()[i] != Field::Wall
                ==> settled(self.cells()[i], #[trigger] entry_cost(self.at(self.neighbor(i, f)), f), f)
    }
}

/// Being closed depends on the fields and the width alone.
pub proof fn lemma_closed_same(a: Maze, b: Maze)
    requires
        a.cells() == b.cells(),
        a.width() == b.width(),
        a.closed(),
    ensures
        b.closed(),
{
    assert forall|i: int, f: u8|
        0 <= i < b.cells().len() && is_flag(f) && b.cells()[i] != Field::Wall implies settled(
        b.cells()[i],
        #[trigger] entry_cost(b.at(b.neighbor(i, f)), f),
        f,
    ) by {
        assert(a.neighbor(i, f) == b.neighbor(i, f));
        assert(a.at(a.neighbor(i, f)) == b.at(b.neighbor(i, f)));
        assert(settled(a.cells()[i], entry_cost(a.at(a.neighbor(i, f)), f), f));
    }
}

/// What the solver found at one field.
#[derive(Clone, Copy, PartialEq, Eq, Debug, Structural)]
pub enum Outcome {
    /// The field is reached with this cost.
    Cost(usize),
    /// The field is open but no path reaches it.
    Unreachable,
    /// The field is a wall or lies outside the maze.
    Invalid,
}

/// Index of the field at column `x`, row `y` of `len` fields in rows of `w`;
/// -1 outside.
pub open spec fn index_in(w: int, len: int, x: int, y: int) -> int {
    if 0 <= x < w && 0 <= y < len / w {
        y * w + x
    } else {
        -1
    }
}

/// Field `i` of `s`; a wall for an index outside.
pub open spec fn cell_of(s: Seq<Field>, i: int) -> Field {
    if 0 <= i < s.len() {
        s[i]
    } else {
        Field::Wall
    }
}

/// Index of the field beside field `i` on the side that flag `d` names, in
/// `len` fields laid out in rows of `w`; -1 where that side is the edge. A
/// value of `d` that is not a single flag gives `i` itself.
pub open spec fn step_index(w: int, len: int, i: int, d: u8) -> int {
    if d == UP {
        if i >= w { i - w } else { -1 }
    } else if d == DOWN {
        if i + w < len { i + w } else { -1 }
    } else if d == LEFT {
        if i % w != 0 { i - 1 } else { -1 }
    } else if d == RIGHT {
        if (i + 1) % w != 0 { i + 1 } else { -1 }
    } else {
        i
    }
}

/// Whole maze: fields flattened row by row, and the width that maps
/// coordinates to indices.
pub struct Maze {
    maze: Vec<Field>,
    w: usize,
}

proof fn lemma_split(i: int, w: int)
    requires
        w > 0,
        i >= 0,
    ensures
        i == (i / w) * w + i % w,
        0 <= i % w < w,
        i / w >= 0,
{
    lemma_fundamental_div_mod(i, w);
    assert(w * (i / w) == (i / w) * w) by (nonlinear_arith);
    assert(i / w >= 0) by (nonlinear_arith)
        requires i >= 0, w > 0;
}

impl Maze {
    /// The fields, row by row.
    pub closed spec fn cells(&self) -> Seq<Field> {
        self.maze@
    }

    /// Number of fields in a row.
    pub closed spec fn width(&self) -> nat {
        self.w as nat
    }

    /// A positive width that divides the number of fields, and room for an
    /// index past the last field.
    pub open spec fn wf(&self) -> bool {
        &&& self.width() > 0
        &&& self.cells().len() % self.width() == 0
        &&& self.cells().len() < usize::MAX
    }

    /// Number of rows.
    pub open spec fn height(&self) -> nat {
        self.cells().len() / self.width()
    }

    /// Index of the field at column `x`, row `y`; -1 outside the maze.
    pub open spec fn index_of(&self, x: int, y: int) -> int {
        index_in(self.width() as int, self.cells().len() as int, x, y)
    }

    /// The field at index `i`; a wall for an index outside the maze.
    pub open spec fn at(&self, i: int) -> Field {
        cell_of(self.cells(), i)
    }

    /// The field at column `x`, row `y`; a wall outside the maze.
    pub open spec fn field_at(&self, x: int, y: int) -> Field {
        self.at(self.index_of(x, y))
    }

    /// Index of the field beside field `i` on the side that flag `d` names;
    /// -1 where that side is the maze's edge. A value of `d` that is not a
    /// single flag gives `i` itself.
    pub open spec fn neighbor(&self, i: int, d: u8) -> int {
        step_index(self.width() as int, self.cells().len() as int, i, d)
    }

    /// Maps coordinates to an index; an index past the last field for a
    /// coordinate outside the maze.
    fn idx(&self, x: usize, y: usize) -> (r: usize)
        requires
            self.wf(),
        ensures
            self.index_of(x as int, y as int) >= 0 ==> r == self.index_of(x as int, y as int),
            self.index_of(x as int, y as int) < 0 ==> r >= self.cells().len(),
            r < self.cells().len() <==> self.index_of(x as int, y as int) >= 0,
    {
        let w = self.w;
        let len = self.maze.len();
        proof {
            lemma_split(len as int, w as int);
        }
        if x >= w {
            return usize::MAX;
        }
        match y.checked_mul(w) {
            Some(m) => {
                proof {
                    let h = len as int / w as int;
                    if y < h {
                        assert(y * w + x < len) by (nonlinear_arith)
                            requires y < h, x < w, len == h * w + 0, y * w == m, w > 0;
                    } else {
                        assert(y * w >= len) by (nonlinear_arith)
                            requires y >= h, len == h * w + 0, w > 0;
                    }
                }
                let r = m.saturating_add(x);
                proof {
                    let h = len as int / w as int;
                    if y < h {
                        assert(r == y * w + x);
                    }
                }
                r
            }
            None => {
                proof {
                    let h = len as int / w as int;
                    if y < h {
                        assert(y * w <= len) by (nonlinear_arith)
                            requires y < h, len == h * w + 0, w > 0;
                    }
                }
                usize::MAX
            },
        }
    }

    /// Maps an index to its column and row.
    fn coords(&self, idx: usize) -> (r: (usize, usize))
        requires
            self.wf(),
        ensures
            r.0 == idx as int % self.width() as int,
            r.1 == idx as int / self.width() as int,
    {
        (idx % self.w, idx / self.w)
    }

    /// Index of the field beside field `idx` in direction `dir`; an index past
    /// the last field where that side is the maze's edge.
    fn in_dir_idx(&self, idx: usize, dir: Dir) -> (r: usize)
        requires
            self.wf(),
            idx < self.cells().len(),
        ensures
            self.neighbor(idx as int, dir.bits()) >= 0 ==> r == self.neighbor(idx as int, dir.bits()),
            self.neighbor(idx as int, dir.bits()) < 0 ==> r >= self.cells().len(),
    {
        let (x, y) = self.coords(idx);
        let ghost w = self.w as int;
        let ghost len = self.maze.len() as int;
        let ghost i = idx as int;
        let ghost h = len / w;
        proof {
            lemma_split(i, w);
            lemma_split(len, w);
            assert(y < h) by (nonlinear_arith)
                requires i == y * w + x, i < len, len == h * w + 0, 0 <= x, w > 0, y >= 0;
        }
        if dir.0 == UP {
            if y == 0 {
                proof {
                    assert(i < w) by (nonlinear_arith) requires i == y * w + x, y == 0, x < w;
                }
                usize::MAX
            } else {
                proof {
                    assert((y - 1) * w + x == i - w && i >= w) by (nonlinear_arith)
                        requires i == y * w + x, y >= 1, x >= 0, w > 0;
                }
                self.idx(x, y - 1)
            }
        } else if dir.0 == DOWN {
            proof {
                if y + 1 < h {
                    assert((y + 1) * w + x == i + w && i + w < len) by (nonlinear_arith)
                        requires i == y * w + x, y + 1 < h, x < w, len == h * w + 0, w > 0;
                } else {
                    assert(i + w >= len) by (nonlinear_arith)
                        requires i == y * w + x, y + 1 >= h, x >= 0, len == h * w + 0, w > 0;
                }
            }
            self.idx(x, y + 1)
        } else if dir.0 == LEFT {
            if x == 0 {
                usize::MAX
            } else {
                self.idx(x - 1, y)
            }
        } else if dir.0 == RIGHT {
            proof {
                if x + 1 < w {
                    lemma_fundamental_div_mod_converse(i + 1, w, y as int, x + 1);
                } else {
                    assert(i + 1 == (y + 1) * w + 0) by (nonlinear_arith)
                        requires i == y * w + x, x + 1 == w;
                    lemma_fundamental_div_mod_converse(i + 1, w, y + 1, 0);
                }
            }
            self.idx(x + 1, y)
        } else {
            idx
        }
    }

    /// Field beside field `idx` in direction `dir`; a wall past the maze's
    /// edge.
    fn in_dir(&self, idx: usize, dir: Dir) -> (r: Field)
        requires
            self.wf(),
            idx < self.cells().len(),
        ensures
            r == self.at(self.neighbor(idx as int, dir.bits())),
    {
        let n = self.in_dir_idx(idx, dir);
        if n < self.maze.len() {
            self.maze[n]
        } else {
            Field::Wall
        }
    }

    /// Field at column `x`, row `y`; a wall outside the maze.
    pub fn field(&self, x: usize, y: usize) -> (r: Field)
        requires
            self.wf(),
        ensures
            r == self.field_at(x as int, y as int),
    {
        let i = self.idx(x, y);
        if i < self.maze.len() {
            self.maze[i]
        } else {
            Field::Wall
        }
    }

    /// Sets the field at column `x`, row `y`. Returns false, and changes
    /// nothing, where the coordinates lie outside the maze.
    pub fn set_field(&mut self, x: usize, y: usize, f: Field) -> (r: bool)
        requires
            old(self).wf(),
        ensures
            final(self).wf(),
            final(self).width() == old(self).width(),
            r == (old(self).index_of(x as int, y as int) >= 0),
            r ==> final(self).cells() == old(self).cells().update(
                old(self).index_of(x as int, y as int),
                f,
            ),
            !r ==> final(self).cells() == old(self).cells(),
    {
        let i = self.idx(x, y);
        if i < self.maze.len() {
            self.maze.set(i, f);
            true
        } else {
            false
        }
    }

    /// Builds the maze of `width` by `height` fields from the first `width`
    /// bytes of each of the first `height` rows: `'0'` a wall, `'1'` an open
    /// field. None where the input does not describe a maze.
    pub fn from_input(width: usize, height: usize, rows: &Vec<Vec<u8>>) -> (r: Option<Maze>)
        ensures
            r.is_some() <==> input_ok(width, height, rows@),
            r matches Some(m) ==> {
                &&& m.wf()
                &&& m.width() == width
                &&& m.cells().len() == width * height
                &&& forall|i: int|
                    0 <= i < width * height ==> #[trigger] m.cells()[i] == field_of_byte(
                        rows@[i / width as int]@[i % width as int],
                    )
            },
    {
        if width == 0 || height == 0 {
            return None;
        }
        match width.checked_mul(height) {
            None => {
                return None;
            },
            Some(n) => {
                if n == usize::MAX {
                    return None;
                }
            },
        }
        if rows.len() < height {
            return None;
        }
        let ghost x = width as int;
        let mut maze: Vec<Field> = Vec::new();
        let mut r: usize = 0;
        while r < height
            invariant
                width > 0,
                x == width,
                width * height < usize::MAX,
                rows@.len() >= height,
                r <= height,
                maze@.len() == r * width,
                forall|i: int|
                    0 <= i < r * width ==> #[trigger] maze@[i] == field_of_byte(
                        rows@[i / x]@[i % x],
                    ),
                forall|rr: int| 0 <= rr < r ==> #[trigger] rows@[rr]@.len() >= width,
                forall|rr: int, cc: int|
                    0 <= rr < r && 0 <= cc < width ==> is_maze_byte(#[trigger] rows@[rr]@[cc]),
            decreases height - r,
        {
            let row = &rows[r];
            if row.len() < width {
                return None;
            }
            let mut c: usize = 0;
            while c < width
                invariant
                    width > 0,
                    width * height < usize::MAX,
                    r < height,
                    c <= width,
                    row@ == rows@[r as int]@,
                    row@.len() >= width,
                    x == width,
                    maze@.len() == r * width + c,
                    forall|i: int|
                        0 <= i < r * width + c ==> #[trigger] maze@[i] == field_of_byte(
                            rows@[i / x]@[i % x],
                        ),
                    forall|cc: int| 0 <= cc < c ==> is_maze_byte(#[trigger] row@[cc]),
                decreases width - c,
            {
                proof {
                    assert(r * width + c < width * height) by (nonlinear_arith)
                        requires r < height, c < width;
                    lemma_fundamental_div_mod_converse(r * width + c, x, r as int, c as int);
                }
                let b = row[c];
                if b == 48 {
                    maze.push(Field::Wall);
                } else if b == 49 {
                    maze.push(Field::Empty);
                } else {
                    return None;
                }
                c = c + 1;
            }
            proof {
                assert((r + 1) * width == r * width + width) by (nonlinear_arith);
            }
            r = r + 1;
        }
        proof {
            assert(height * width == width * height) by (nonlinear_arith);
            lemma_split(maze@.len() as int, x);
            lemma_fundamental_div_mod_converse(maze@.len() as int, x, height as int, 0);
        }
        Some(Maze { maze, w: width })
    }

    /// Number of fields in a row.
    pub fn width_of(&self) -> (r: usize)
        ensures
            r == self.width(),
    {
        self.w
    }

    /// Number of fields.
    pub fn len(&self) -> (r: usize)
        ensures
            r == self.cells().len(),
    {
        self.maze.len()
    }

    /// What the field at column `x`, row `y` tells of a search that ended
    /// there: its cost where it is reached, unreachable where it is still
    /// open, invalid where it is a wall or outside the maze.
    pub fn outcome(&self, x: usize, y: usize) -> (r: Outcome)
        requires
            self.wf(),
        ensures
            r == (match self.field_at(x as int, y as int) {
                Field::Empty => Outcome::Unreachable,
                Field::Wall => Outcome::Invalid,
                Field::Calculated(_, c) => Outcome::Cost(c),
            }),
    {
        match self.field(x, y) {
            Field::Empty => Outcome::Unreachable,
            Field::Wall => Outcome::Invalid,
            Field::Calculated(_, c) => Outcome::Cost(c),
        }
    }
}

/// Which solver to run.
#[derive(Clone, Copy, PartialEq, Eq, Debug, Structural)]
pub enum Alg {
    /// The flood relaxation.
    Flood,
    /// The best-first search.
    AStar,
}

/// Whether field `i` of a `width`-wide maze read from `rows` is a wall.
pub open spec fn input_wall(width: usize, rows: Seq<Vec<u8>>, i: int) -> bool {
    field_of_byte(rows[i / width as int]@[i % width as int]) == Field::Wall
}

/// The fields that the search starts from: those that `rows` describe, with
/// the entry at index `width` (column 0, row 1) reached at cost 0 from every
/// direction.
pub open spec fn seeded_cells(width: usize, height: usize, rows: Seq<Vec<u8>>) -> Seq<Field> {
    Seq::new(
        (width * height) as nat,
        |i: int|
            if i == width {
                Field::Calculated(dir_of(ANY), 0)
            } else {
                field_of_byte(rows[i / width as int]@[i % width as int])
            },
    )
}

/// What a search reports for the exit field `f`.
pub open spec fn outcome_of(f: Field) -> Outcome {
    match f {
        Field::Empty => Outcome::Unreachable,
        Field::Wall => Outcome::Invalid,
        Field::Calculated(_, c) => Outcome::Cost(c),
    }
}

/// What `alg` reports for the exit at index `e` of the fields `s`, laid out
/// in rows of `w`, for the exit at `exit`: the exit field of the grid at the
/// first step at which the solver stops.
pub open spec fn solved_as(
    alg: Alg,
    s: Seq<Field>,
    w: int,
    exit: (usize, usize),
    e: int,
    o: Outcome,
) -> bool {
    match alg {
        Alg::Flood => exists|n: nat|
            {
                &&& o == outcome_of(cell_of(flood::flood_state(s, w, n).0, e))
                &&& flood::stops_after(s, w, e, n)
                &&& forall|j: nat| j < n ==> !#[trigger] flood::stops_after(s, w, e, j)
            },
        Alg::AStar => {
            let q = astar::initial_queue(s, w, exit, s.len());
            exists|n: nat|
                {
                    &&& o == outcome_of(cell_of(astar::search_state(s, w, exit, q, n).0, e))
                    &&& astar::search_halts(s, w, exit, q, e, n)
                    &&& forall|j: nat| j < n ==> !#[trigger] astar::search_halts(s, w, exit, q, e, j)
                }
        },
    }
}

/// Builds the maze of `width` by `height` fields from `rows`, seeds the
/// entry at column 0, row 1 with cost 0 from every direction, runs the
/// solver `alg`, and reports what it found at the exit at column `width - 1`,
/// row `height - 2`. None where the input describes no maze with those two
/// fields.
///
/// The outcome is what the solver's grid holds at the exit at the first step
/// at which it stops. The exit is invalid exactly where the input has a wall
/// there (and it is not the entry). It is unreachable only where it is open
/// and a closed grid with the input's walls has the entry reached and the
/// exit not.
pub fn solve(width: usize, height: usize, rows: &Vec<Vec<u8>>, alg: Alg) -> (r: Option<Outcome>)
    ensures
        r is Some <==> input_ok(width, height, rows@) && height >= 2,
        r matches Some(o) ==> (o == Outcome::Invalid <==> (rows@[height - 2]@[width - 1] == 48
            && !(width == 1 && height == 3))),
        r matches Some(o) ==> (o == Outcome::Unreachable ==> rows@[height - 2]@[width - 1] == 49),
        r matches Some(o) ==> solved_as(
            alg,
            seeded_cells(width, height, rows@),
            width as int,
            ((width - 1) as usize, (height - 2) as usize),
            (height - 2) * width + width - 1,
            o,
        ),
        r == Some(Outcome::Unreachable) ==> exists|m: Maze|
            {
                &&& #[trigger] m.closed()
                &&& m.wf()
                &&& m.width() == width
                &&& m.cells().len() == width * height
                &&& forall|i: int|
                    0 <= i < width * height ==> ((#[trigger] m.cells()[i] == Field::Wall) <==> (
                    input_wall(width, rows@, i) && i != width))
                &&& m.field_at(0, 1) is Calculated
                &&& m.field_at(width - 1, height - 2) == Field::Empty
            },
{
    if height < 2 {
        proof {
            assert(!(input_ok(width, height, rows@) && height >= 2));
        }
        return None;
    }
    let maze = Maze::from_input(width, height, rows);
    let mut maze = match maze {
        None => {
            return None;
        },
        Some(m) => m,
    };
    let ghost m0 = maze;
    proof {
        assert(width * height == height * width) by (nonlinear_arith);
        lemma_fundamental_div_mod_converse(m0.cells().len() as int, width as int, height as int, 0);
        assert(m0.height() == height);
    }
    let seeded = maze.set_field(0, 1, Field::Calculated(Dir::from_bits(ANY), 0));
    let ghost m1 = maze;
    let ghost w = width as int;
    let ghost e = (height - 2) * w + (w - 1);
    proof {
        assert(seeded);
        assert(1 * w == w);
        assert(m0.index_of(0, 1) == w);
        assert(w < m0.cells().len()) by (nonlinear_arith)
            requires m0.cells().len() == w * height, height >= 2, w >= 1;
        assert(m1.cells().len() == m0.cells().len());
        assert(m1.height() == height);
        assert(1 * w == w);
        assert(m1.index_of(0, 1) == w);
        assert(e < width * height) by (nonlinear_arith)
            requires e == (height - 2) * w + (w - 1), w == width, height >= 2, w >= 1;
        assert(m1.index_of(w - 1, height - 2) == e);
        lemma_fundamental_div_mod_converse(e, w, height - 2, w - 1);
        assert(e == w <==> (width == 1 && height == 3)) by (nonlinear_arith)
            requires e == (height - 2) * w + (w - 1), w == width, height >= 2, w >= 1;
        assert(m1.field_at(0, 1) == m1.cells()[w]);
        lemma_dir_of(ANY);
        lemma_dir_eq(Dir(ANY), dir_of(ANY));
        assert(m1.cells() =~= seeded_cells(width, height, rows@));
    }
    let solved = match alg {
        Alg::Flood => flood::flood(maze, width - 1, height - 2),
        Alg::AStar => astar::astar(maze, width - 1, height - 2),
    };
    let o = solved.outcome(width - 1, height - 2);
    proof {
        assert(o == outcome_of(cell_of(solved.cells(), e)));
        assert(solved.index_of(w - 1, height - 2) == e);
        assert(solved.index_of(0, 1) == w);
        assert(no_worse(solved.cells()[e], m1.cells()[e]));
        assert(no_worse(solved.cells()[w], m1.cells()[w]));
        if o == Outcome::Unreachable {
            assert forall|i: int| 0 <= i < width * height implies ((#[trigger] solved.cells()[i]
                == Field::Wall) <==> (input_wall(width, rows@, i) && i != width)) by {
                assert(no_worse(solved.cells()[i], m1.cells()[i]));
            }
            assert(solved.field_at(w - 1, height - 2) == Field::Empty);
            assert(solved.field_at(0, 1) is Calculated);
            assert(solved.closed());
        }
    }
    Some(o)
}

} // verus!
