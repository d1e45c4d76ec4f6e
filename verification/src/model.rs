use vstd::prelude::*;
use rand_xoshiro::Xoshiro512StarStar;
use crate::config::{Config, Scoring, Randomness};
use crate::tetrimino::{Tetrimino, tetrimino, tetrimino_diffs, tetrimino_parity};
use crate::rng::{
    rng_from_seed, rng_from_entropy, rng_gen_below, rng_shuffle, rng_state_of_seed,
    rng_draw_value, rng_draw_state, rng_shuffle_values, rng_shuffle_state,
};

verus! {

/// An ordered pair of signed integers (row, column), used both as an
/// absolute board coordinate and as a relative offset.
#[derive(Debug, Eq, PartialEq, Hash, Clone, Copy, Structural)]
pub struct Point(pub i32, pub i32);

impl View for Point {
    type V = (int, int);

    open spec fn view(&self) -> (int, int) {
        (self.0 as int, self.1 as int)
    }
}

pub open spec fn points_of(s: Seq<Point>) -> Seq<(int, int)> {
    s.map_values(|p: Point| p@)
}

impl Point {
    /// Coordinates small enough that translating by a piece offset can
    /// never overflow an i32.
    pub open spec fn bounded(&self) -> bool {
        &&& -0x1000000 <= self.0 <= 0x1000000
        &&& -0x1000000 <= self.1 <= 0x1000000
    }
}

/// The playfield: a `height` x `width` grid of cells, 0 for empty and
/// 1..=7 naming the piece kind that occupies the cell.
#[derive(Debug, Eq, PartialEq, Clone)]
pub struct Field {
    pub cells: Vec<Vec<u8>>,
    pub height: usize,
    pub width: usize,
}

pub open spec fn rows_view(v: Vec<Vec<u8>>) -> Seq<Seq<u8>> {
    v@.map_values(|r: Vec<u8>| r@)
}

impl Field {
    pub open spec fn grid(&self) -> Seq<Seq<u8>> {
        rows_view(self.cells)
    }

    pub open spec fn wf(&self) -> bool {
        &&& self.cells@.len() == self.height
        &&& forall|i: int| 0 <= i < self.cells@.len() ==> (#[trigger] self.cells@[i])@.len() == self.width
        &&& self.height <= 1000000
        &&& self.width <= 1000000
    }

    pub open spec fn cell(&self, i: int, j: int) -> u8 {
        self.cells@[i]@[j]
    }
}

#[derive(Debug, Eq, PartialEq, Clone, Copy, Structural)]
pub enum Action {
    Left,
    Right,
    Down,
    RotateCW,
    RotateCCW,
    HardDrop,
    Tick,
}

// ---------------------------------------------------------------------
// Rotation engine
// ---------------------------------------------------------------------
/// One clockwise quarter turn of an offset in the doubled coordinate
/// system: negate the row, then swap the axes.
pub open spec fn rot1(p: (int, int)) -> (int, int) {
    (p.1, -p.0)
}

pub open spec fn rot_n(p: (int, int), n: nat) -> (int, int)
    decreases n,
{
    if n == 0 {
        p
    } else {
        rot1(rot_n(p, (n - 1) as nat))
    }
}

/// The parity vector follows the same axis swap, without negation.
pub open spec fn swap_n(p: (int, int), n: nat) -> (int, int) {
    if n % 2 == 0 {
        p
    } else {
        (p.1, p.0)
    }
}

/// Projection from the doubled coordinate system back to cell offsets.
pub open spec fn half_point(d: (int, int), par: (int, int)) -> (int, int) {
    ((d.0 + par.0) / 2, (d.1 + par.1) / 2)
}

/// What rotating a diff set `r` quarter turns yields: the rotation index
/// is taken modulo 4 (true modulo, so negative `r` resolves into 0..3),
/// each doubled offset is turned that many times together with the
/// parity vector, and the result is projected back to cell offsets.
pub open spec fn rotate_diffs(diffs: Seq<(int, int)>, par: (int, int), r: int) -> Seq<(int, int)> {
    let n = (r % 4) as nat;
    diffs.map_values(|d: (int, int)| half_point(rot_n(d, n), swap_n(par, n)))
}

pub open spec fn tet_rotate_spec(t: Tetrimino, r: int) -> Seq<(int, int)> {
    rotate_diffs(points_of(t.diffs@), t.parity@, r)
}

proof fn lemma_rot_even(d: (int, int), par: (int, int), n: nat)
    requires
        (d.0 + par.0) % 2 == 0,
        (d.1 + par.1) % 2 == 0,
    ensures
        (rot_n(d, n).0 + swap_n(par, n).0) % 2 == 0,
        (rot_n(d, n).1 + swap_n(par, n).1) % 2 == 0,
    decreases n,
{
    if n > 0 {
        lemma_rot_even(d, par, (n - 1) as nat);
        let prev = rot_n(d, (n - 1) as nat);
        let pprev = swap_n(par, (n - 1) as nat);
        assert(rot_n(d, n) == (prev.1, -prev.0));
        assert(swap_n(par, n) == (pprev.1, pprev.0));
        assert((-prev.0 + pprev.0) % 2 == 0) by {
            assert((-prev.0 + pprev.0) == (prev.0 + pprev.0) + (-2) * prev.0);
        };
    }
}

proof fn lemma_rot_bounded(d: (int, int), n: nat, m: int)
    requires
        -m <= d.0 <= m,
        -m <= d.1 <= m,
    ensures
        -m <= rot_n(d, n).0 <= m,
        -m <= rot_n(d, n).1 <= m,
    decreases n,
{
    if n > 0 {
        lemma_rot_bounded(d, (n - 1) as nat, m);
    }
}

pub(crate) fn points4(a0: i32, a1: i32, b0: i32, b1: i32, c0: i32, c1: i32, d0: i32, d1: i32) -> (v: Vec<
    Point,
>)
    ensures
        points_of(v@) == seq![
            (a0 as int, a1 as int),
            (b0 as int, b1 as int),
            (c0 as int, c1 as int),
            (d0 as int, d1 as int),
        ],
        v@.len() == 4,
{
    let mut v: Vec<Point> = Vec::new();
    v.push(Point(a0, a1));
    v.push(Point(b0, b1));
    v.push(Point(c0, c1));
    v.push(Point(d0, d1));
    proof {
        assert(points_of(v@) =~= seq![
            (a0 as int, a1 as int),
            (b0 as int, b1 as int),
            (c0 as int, c1 as int),
            (d0 as int, d1 as int),
        ]);
    }
    v
}

/// Rotate a piece's diff set `r` quarter turns clockwise, re-centred to
/// integer cell offsets.  Total over every `r`, negatives included.
pub fn rotate(shape: &Tetrimino, r: i8) -> (pts: Vec<Point>)
    requires
        shape.consistent(),
    ensures
        points_of(pts@) == tet_rotate_spec(*shape, r as int),
        pts@.len() == shape.diffs@.len(),
        forall|k: int| 0 <= k < pts@.len() ==> (#[trigger] pts@[k])@.0 <= 10001
            && -10001 <= pts@[k]@.0 && -10001 <= pts@[k]@.1 && pts@[k]@.1 <= 10001,
{
    // true modulo, not the remainder: negative r must land in 0..3
    let k: i8 = (r % 4 + 4) % 4;
    proof {
        assert(k as int == (r as int) % 4);
    }
    let ghost n = (k as int) as nat;
    let len = shape.diffs.len();
    let mut pts: Vec<Point> = Vec::new();
    let mut idx: usize = 0;
    while idx < len
        invariant
            idx <= len,
            len == shape.diffs@.len(),
            shape.consistent(),
            n == ((r as int) % 4) as nat,
            0 <= k < 4,
            k as int == n,
            pts@.len() == idx,
            forall|q: int|
                0 <= q < idx ==> (#[trigger] pts@[q])@ == half_point(
                    rot_n(shape.diffs@[q]@, n),
                    swap_n(shape.parity@, n),
                ),
            forall|q: int| 0 <= q < idx ==> (#[trigger] pts@[q])@.0 <= 10001
                && -10001 <= pts@[q]@.0 && -10001 <= pts@[q]@.1 && pts@[q]@.1 <= 10001,
        decreases len - idx,
    {
        let d = shape.diffs[idx];
        let mut a: i32 = d.0;
        let mut b: i32 = d.1;
        let mut t: i8 = 0;
        while t < k
            invariant
                0 <= t <= k,
                0 <= k < 4,
                -10000 <= d.0 <= 10000,
                -10000 <= d.1 <= 10000,
                (a as int, b as int) == rot_n(d@, t as nat),
                -10000 <= a <= 10000,
                -10000 <= b <= 10000,
            decreases k - t,
        {
            proof {
                lemma_rot_bounded(d@, t as nat, 10000);
            }
            let tmp: i32 = -a;
            a = b;
            b = tmp;
            t = t + 1;
        }
        let (pa, pb): (i32, i32) = if k % 2 == 1 {
            (shape.parity.1, shape.parity.0)
        } else {
            (shape.parity.0, shape.parity.1)
        };
        proof {
            assert((pa as int, pb as int) == swap_n(shape.parity@, n));
            lemma_rot_even(d@, shape.parity@, n);
            assert((a + pa) % 2 == 0);
            assert((b + pb) % 2 == 0);
        }
        let p = Point((a + pa) / 2, (b + pb) / 2);
        pts.push(p);
        idx += 1;
    }
    proof {
        assert(points_of(pts@) =~= tet_rotate_spec(*shape, r as int));
    }
    pts
}

// ---------------------------------------------------------------------
// Collision model
// ---------------------------------------------------------------------
/// A placement is legal iff every cell, translated by `base`, lands
/// inside the field on an empty cell.
pub open spec fn placement_ok(f: Field, base: (int, int), rel: Seq<(int, int)>) -> bool {
    forall|k: int|
        0 <= k < rel.len() ==> {
            let i = base.0 + (#[trigger] rel[k]).0;
            let j = base.1 + rel[k].1;
            &&& 0 <= i < f.height as int
            &&& 0 <= j < f.width as int
            &&& f.cell(i, j) == 0
        }
}

/// What trying a placement returns: the rotated cells translated by
/// `base` when the placement is legal, and nothing otherwise.
pub open spec fn try_diffs_spec(
    f: Field,
    base: (int, int),
    r: int,
    diffs: Seq<(int, int)>,
    par: (int, int),
) -> Option<Seq<(int, int)>> {
    let rel = rotate_diffs(diffs, par, r);
    if placement_ok(f, base, rel) {
        Some(rel.map_values(|d: (int, int)| (base.0 + d.0, base.1 + d.1)))
    } else {
        None
    }
}

pub open spec fn try_shape_spec(f: Field, base: (int, int), r: int, t: Tetrimino) -> Option<
    Seq<(int, int)>,
> {
    try_diffs_spec(f, base, r, points_of(t.diffs@), t.parity@)
}

/// The rotated cell offsets of the catalog piece with the given index.
pub open spec fn cat_rotate(idx: int, r: int) -> Seq<(int, int)> {
    rotate_diffs(tetrimino_diffs(idx), tetrimino_parity(idx), r)
}

/// The same, for the catalog piece with the given index.
pub open spec fn cat_try(f: Field, base: (int, int), r: int, idx: int) -> Option<
    Seq<(int, int)>,
> {
    try_diffs_spec(f, base, r, tetrimino_diffs(idx), tetrimino_parity(idx))
}

pub open spec fn pts_bounded(s: Seq<Point>) -> bool {
    forall|k: int| 0 <= k < s.len() ==> (#[trigger] s[k])@.0 <= 0x2000000 && -0x2000000 <= s[k]@.0
        && -0x2000000 <= s[k]@.1 && s[k]@.1 <= 0x2000000
}

/// Does the already-rotated diff set `points`, translated by `base`, fit
/// the field?  Pure: reads the field, changes nothing.
pub fn is_valid(field: &Field, base: &Point, points: &Vec<Point>) -> (ok: bool)
    requires
        field.wf(),
        base.bounded(),
        pts_bounded(points@),
    ensures
        ok == placement_ok(*field, base@, points_of(points@)),
{
    let len = points.len();
    let mut k: usize = 0;
    while k < len
        invariant
            k <= len,
            len == points@.len(),
            field.wf(),
            base.bounded(),
            pts_bounded(points@),
            forall|q: int|
                0 <= q < k ==> {
                    let i = base@.0 + (#[trigger] points_of(points@)[q]).0;
                    let j = base@.1 + points_of(points@)[q].1;
                    &&& 0 <= i < field.height as int
                    &&& 0 <= j < field.width as int
                    &&& field.cell(i, j) == 0
                },
        decreases len - k,
    {
        let p = points[k];
        proof {
            assert(points_of(points@)[k as int] == p@);
        }
        let i = base.0 + p.0;
        let j = base.1 + p.1;
        if i < 0 || (field.height as i32) <= i {
            proof {
                assert(!placement_ok(*field, base@, points_of(points@)));
            }
            return false;
        }
        if j < 0 || (field.width as i32) <= j {
            proof {
                assert(!placement_ok(*field, base@, points_of(points@)));
            }
            return false;
        }
        if field.cells[i as usize][j as usize] != 0 {
            proof {
                assert(field.cell(i as int, j as int) != 0);
                assert(!placement_ok(*field, base@, points_of(points@)));
            }
            return false;
        }
        k += 1;
    }
    true
}

/// Rotate `shape` by `rotation`, translate by `base`, and hand back the
/// absolute cells when they all fit on empty field cells.  The field is
/// only read; failure changes nothing.
pub fn try_shape(field: &Field, base: &Point, rotation: i8, shape: &Tetrimino) -> (res: Option<
    Vec<Point>,
>)
    requires
        field.wf(),
        shape.consistent(),
        base.bounded(),
    ensures
        match res {
            Some(cells) => {
                &&& try_shape_spec(*field, base@, rotation as int, *shape) == Some(
                    points_of(cells@),
                )
                &&& cells@.len() == shape.diffs@.len()
                &&& pts_bounded(cells@)
            },
            None => try_shape_spec(*field, base@, rotation as int, *shape) is None,
        },
{
    let rel = rotate(shape, rotation);
    if !is_valid(field, base, &rel) {
        return None;
    }
    let len = rel.len();
    let mut out: Vec<Point> = Vec::new();
    let mut k: usize = 0;
    while k < len
        invariant
            k <= len,
            len == rel@.len(),
            base.bounded(),
            forall|q: int| 0 <= q < rel@.len() ==> (#[trigger] rel@[q])@.0 <= 10001
                && -10001 <= rel@[q]@.0 && -10001 <= rel@[q]@.1 && rel@[q]@.1 <= 10001,
            out@.len() == k,
            forall|q: int|
                0 <= q < k ==> (#[trigger] out@[q])@ == (
                    base@.0 + points_of(rel@)[q].0,
                    base@.1 + points_of(rel@)[q].1,
                ),
            forall|q: int| 0 <= q < k ==> (#[trigger] out@[q])@.0 <= 0x2000000
                && -0x2000000 <= out@[q]@.0 && -0x2000000 <= out@[q]@.1 && out@[q]@.1 <= 0x2000000,
        decreases len - k,
    {
        let p = rel[k];
        out.push(Point(base.0 + p.0, base.1 + p.1));
        k += 1;
    }
    proof {
        assert(points_of(out@) =~= points_of(rel@).map_values(
            |d: (int, int)| (base@.0 + d.0, base@.1 + d.1),
        ));
        assert(points_of(rel@) == tet_rotate_spec(*shape, rotation as int));
    }
    Some(out)
}

} // verus!

verus! {

// ---------------------------------------------------------------------
// Field contents: rows, burning, drawing
// ---------------------------------------------------------------------
pub open spec fn row_full(row: Seq<u8>) -> bool {
    forall|j: int| 0 <= j < row.len() ==> row[j] != 0
}

pub open spec fn zero_row(w: nat) -> Seq<u8> {
    Seq::new(w, |j: int| 0u8)
}

/// The rows that survive a burn, bottom order preserved.
pub open spec fn kept_rows(g: Seq<Seq<u8>>) -> Seq<Seq<u8>>
    decreases g.len(),
{
    if g.len() == 0 {
        Seq::empty()
    } else {
        let rest = kept_rows(g.drop_last());
        if row_full(g.last()) {
            rest
        } else {
            rest.push(g.last())
        }
    }
}

pub proof fn lemma_kept_rows_len(g: Seq<Seq<u8>>)
    ensures
        kept_rows(g).len() <= g.len(),
    decreases g.len(),
{
    if g.len() > 0 {
        lemma_kept_rows_len(g.drop_last());
    }
}

pub open spec fn full_count(g: Seq<Seq<u8>>) -> int {
    g.len() - kept_rows(g).len()
}

/// Burning compacts the non-full rows to the bottom, keeping their
/// order, and fills the vacated rows at the top with zeros.
pub open spec fn burn_grid(g: Seq<Seq<u8>>, w: nat) -> Seq<Seq<u8>> {
    Seq::new(full_count(g) as nat, |i: int| zero_row(w)) + kept_rows(g)
}

proof fn lemma_kept_rows_push(s: Seq<Seq<u8>>, x: Seq<u8>)
    ensures
        kept_rows(s.push(x)) == if !row_full(x) {
            kept_rows(s).push(x)
        } else {
            kept_rows(s)
        },
{
    assert(s.push(x).drop_last() =~= s);
    assert(s.push(x).last() == x);
}

/// The score a lock event earns under the given policy.
pub open spec fn score_delta(sc: Scoring, burnt: int, w: int) -> int {
    match sc {
        Scoring::BurnOnly => 1,
        Scoring::PieceAndBurn => 1 + burnt * burnt * w,
    }
}

/// Writing value `v` into the grid at each of `cells`, in order.
pub open spec fn draw_grid(g: Seq<Seq<u8>>, cells: Seq<(int, int)>, v: u8) -> Seq<Seq<u8>>
    decreases cells.len(),
{
    if cells.len() == 0 {
        g
    } else {
        let prev = draw_grid(g, cells.drop_last(), v);
        let c = cells.last();
        prev.update(c.0, prev[c.0].update(c.1, v))
    }
}

// ---------------------------------------------------------------------
// Game state machine
// ---------------------------------------------------------------------
/// The mutable aggregate: field, the active piece (anchor, rotation and
/// cached absolute cells), current and next piece indices, score, the
/// pseudo-random generator and the bag queue of unseen piece indices.
#[derive(Debug, Clone)]
pub struct GameState {
    pub config: Config,
    pub field: Field,
    pub game_over: bool,
    pub base: Point,
    pub rotation: i8,
    pub curr_cells: Vec<Point>,
    pub curr_shape_idx: usize,
    pub next_shape_idx: usize,
    pub score: u32,
    pub rng: Xoshiro512StarStar,
    pub rng_queue: Vec<usize>,
}

/// The bag queue only ever holds piece indices below 7, each at most once.
pub open spec fn queue_wf(q: Seq<usize>) -> bool {
    &&& forall|k: int| 0 <= k < q.len() ==> (#[trigger] q[k]) < 7
    &&& forall|k1: int, k2: int| 0 <= k1 < k2 < q.len() ==> q[k1] != q[k2]
}

impl GameState {
    /// Structural well-formedness: every stored coordinate in range, the
    /// shape indices valid, the rotation normalised, the anchor near the
    /// field, and the bag queue a set of piece indices.  An active game
    /// caches exactly the four cells of its piece.
    pub open spec fn wf(&self) -> bool {
        &&& self.field.wf()
        &&& self.curr_shape_idx < 7
        &&& self.next_shape_idx < 7
        &&& 0 <= self.rotation < 4
        &&& (self.game_over || self.curr_cells@.len() == 4)
        &&& forall|k: int|
            0 <= k < self.curr_cells@.len() ==> {
                let p = (#[trigger] self.curr_cells@[k])@;
                &&& 0 <= p.0 < self.field.height as int
                &&& 0 <= p.1 < self.field.width as int
            }
        &&& -16 <= self.base@.0 <= self.field.height as int + 16
        &&& -16 <= self.base@.1 <= self.field.width as int + 16
        &&& queue_wf(self.rng_queue@)
    }

    /// Try the current piece at the given anchor and rotation.  Reads
    /// the field only; the state is untouched.
    pub fn try_current_shape(&self, base: &Point, rotation: i8) -> (res: Option<Vec<Point>>)
        requires
            self.field.wf(),
            self.curr_shape_idx < 7,
            base.bounded(),
        ensures
            match res {
                Some(cells) => {
                    &&& cat_try(self.field, base@, rotation as int, self.curr_shape_idx as int)
                        == Some(points_of(cells@))
                    &&& cells@.len() == 4
                    &&& pts_bounded(cells@)
                },
                None => cat_try(self.field, base@, rotation as int, self.curr_shape_idx as int)
                    is None,
            },
    {
        let shape = tetrimino(self.curr_shape_idx);
        try_shape(&self.field, base, rotation, &shape)
    }

    /// Lock the current piece: write its index (plus one) into the field
    /// at each cached cell.
    pub fn draw_current_shape(&mut self)
        requires
            old(self).wf(),
        ensures
            final(self).field.grid() == draw_grid(
                old(self).field.grid(),
                points_of(old(self).curr_cells@),
                (old(self).curr_shape_idx + 1) as u8,
            ),
            final(self).field.wf(),
            final(self).field.height == old(self).field.height,
            final(self).field.width == old(self).field.width,
            final(self).config == old(self).config,
            final(self).game_over == old(self).game_over,
            final(self).base == old(self).base,
            final(self).rotation == old(self).rotation,
            final(self).curr_cells == old(self).curr_cells,
            final(self).curr_shape_idx == old(self).curr_shape_idx,
            final(self).next_shape_idx == old(self).next_shape_idx,
            final(self).score == old(self).score,
            final(self).rng == old(self).rng,
            final(self).rng_queue == old(self).rng_queue,
            final(self).wf(),
    {
        let val: u8 = (self.curr_shape_idx + 1) as u8;
        let len = self.curr_cells.len();
        let ghost g0 = self.field.grid();
        let ghost cs = points_of(self.curr_cells@);
        let mut k: usize = 0;
        while k < len
            invariant
                k <= len,
                len == self.curr_cells@.len(),
                old(self).wf(),
                val == old(self).curr_shape_idx + 1,
                g0 == old(self).field.grid(),
                cs == points_of(old(self).curr_cells@),
                self.field.grid() == draw_grid(g0, cs.take(k as int), val),
                self.field.cells@.len() == old(self).field.cells@.len(),
                forall|i: int|
                    0 <= i < self.field.cells@.len() ==> (#[trigger] self.field.cells@[i])@.len()
                        == old(self).field.width,
                self.field.height == old(self).field.height,
                self.field.width == old(self).field.width,
                self.config == old(self).config,
                self.game_over == old(self).game_over,
                self.base == old(self).base,
                self.rotation == old(self).rotation,
                self.curr_cells == old(self).curr_cells,
                self.curr_shape_idx == old(self).curr_shape_idx,
                self.next_shape_idx == old(self).next_shape_idx,
                self.score == old(self).score,
                self.rng == old(self).rng,
                self.rng_queue == old(self).rng_queue,
            decreases len - k,
        {
            let p = self.curr_cells[k];
            let i = p.0 as usize;
            let j = p.1 as usize;
            let ghost gprev = self.field.grid();
            self.field.cells[i][j] = val;
            proof {
                assert(self.field.grid() =~~= gprev.update(i as int, gprev[i as int].update(j as int, val)));
                assert(cs.take(k as int + 1).drop_last() =~= cs.take(k as int));
                assert(cs.take(k as int + 1).last() == cs[k as int]);
            }
            k += 1;
        }
        proof {
            assert(cs.take(len as int) =~= cs);
        }
    }
}

fn row_is_full(row: &Vec<u8>) -> (b: bool)
    ensures
        b == row_full(row@),
{
    let len = row.len();
    let mut j: usize = 0;
    while j < len
        invariant
            j <= len,
            len == row@.len(),
            forall|q: int| 0 <= q < j ==> row@[q] != 0,
        decreases len - j,
    {
        if row[j] == 0 {
            return false;
        }
        j += 1;
    }
    true
}

fn zero_row_vec(w: usize) -> (v: Vec<u8>)
    ensures
        v@ == zero_row(w as nat),
{
    let mut v: Vec<u8> = Vec::new();
    let mut j: usize = 0;
    while j < w
        invariant
            j <= w,
            v@.len() == j,
            forall|q: int| 0 <= q < j ==> v@[q] == 0,
        decreases w - j,
    {
        v.push(0u8);
        j += 1;
    }
    proof {
        assert(v@ =~= zero_row(w as nat));
    }
    v
}

impl GameState {
    /// Scan the field for full rows, drop them, compact the remaining
    /// rows downward, zero-fill the vacated rows at the top, and award
    /// the score the active policy gives the lock event.  Returns how
    /// many lines burnt.
    pub fn burn_lines(&mut self) -> (burnt: usize)
        requires
            old(self).field.wf(),
            old(self).score + score_delta(
                old(self).config.scoring,
                full_count(old(self).field.grid()),
                old(self).field.width as int,
            ) <= u32::MAX,
        ensures
            final(self).field.wf(),
            final(self).field.height == old(self).field.height,
            final(self).field.width == old(self).field.width,
            final(self).field.grid() == burn_grid(
                old(self).field.grid(),
                old(self).field.width as nat,
            ),
            burnt == full_count(old(self).field.grid()),
            final(self).score == old(self).score + score_delta(
                old(self).config.scoring,
                burnt as int,
                old(self).field.width as int,
            ),
            final(self).config == old(self).config,
            final(self).game_over == old(self).game_over,
            final(self).base == old(self).base,
            final(self).rotation == old(self).rotation,
            final(self).curr_cells == old(self).curr_cells,
            final(self).curr_shape_idx == old(self).curr_shape_idx,
            final(self).next_shape_idx == old(self).next_shape_idx,
            final(self).rng == old(self).rng,
            final(self).rng_queue == old(self).rng_queue,
    {
        let ghost g0 = self.field.grid();
        let height = self.field.height;
        let width = self.field.width;
        let mut kept: Vec<Vec<u8>> = Vec::new();
        let mut i: usize = 0;
        while i < height
            invariant
                i <= height,
                *self == *old(self),
                old(self).field.wf(),
                height == self.field.height,
                width == self.field.width,
                g0 == self.field.grid(),
                rows_view(kept) == kept_rows(g0.take(i as int)),
                forall|q: int| 0 <= q < kept@.len() ==> (#[trigger] kept@[q])@.len() == width,
            decreases height - i,
        {
            let full = row_is_full(&self.field.cells[i]);
            proof {
                assert(g0.take(i as int + 1) =~= g0.take(i as int).push(g0[i as int]));
                assert(g0[i as int] == self.field.cells@[i as int]@);
                lemma_kept_rows_push(g0.take(i as int), g0[i as int]);
            }
            if !full {
                let row = self.field.cells[i].clone();
                proof {
                    assert(row@ =~= self.field.cells@[i as int]@);
                }
                kept.push(row);
                proof {
                    assert(rows_view(kept) =~= kept_rows(g0.take(i as int + 1)));
                }
            }
            i += 1;
        }
        proof {
            assert(g0.take(height as int) =~= g0);
            lemma_kept_rows_len(g0);
        }
        let burnt = height - kept.len();
        let mut cells: Vec<Vec<u8>> = Vec::new();
        let mut z: usize = 0;
        while z < burnt
            invariant
                z <= burnt,
                cells@.len() == z,
                width == self.field.width,
                forall|q: int| 0 <= q < z ==> (#[trigger] cells@[q])@ == zero_row(width as nat),
            decreases burnt - z,
        {
            cells.push(zero_row_vec(width));
            z += 1;
        }
        let ghost zpart = rows_view(cells);
        proof {
            assert(zpart =~= Seq::new(full_count(g0) as nat, |i: int| zero_row(width as nat)));
        }
        let mut kept_moved = kept;
        cells.append(&mut kept_moved);
        proof {
            assert(rows_view(cells) =~~= burn_grid(g0, width as nat));
        }
        self.field.cells = cells;
        let delta64: u64 = match self.config.scoring {
            Scoring::BurnOnly => 1,
            Scoring::PieceAndBurn => {
                proof {
                    assert((burnt as u64) * (burnt as u64) <= 1000000000000u64)
                        by (nonlinear_arith)
                        requires
                            burnt <= 1000000,
                    ;
                    assert((burnt as u64) * (burnt as u64) * (width as u64)
                        <= 1000000000000000000u64) by (nonlinear_arith)
                        requires
                            burnt <= 1000000,
                            width <= 1000000,
                    ;
                }
                1u64 + (burnt as u64) * (burnt as u64) * (width as u64)
            },
        };
        proof {
            assert(delta64 == score_delta(self.config.scoring, burnt as int, width as int));
        }
        self.score = self.score + (delta64 as u32);
        burnt
    }
}

} // verus!

verus! {

// ---------------------------------------------------------------------
// Wall-kick table
// ---------------------------------------------------------------------
/// The ordered candidate offsets tried when rotating `from -> to`, in
/// (row, column) coordinates.  One table for the I piece, one shared by
/// the other six; only the 8 valid quarter-turn transitions are mapped.
pub open spec fn kick_offsets(is_i: bool, from: int, to: int) -> Option<Seq<(int, int)>> {
    if is_i {
        if from == 0 && to == 1 {
            Some(seq![(0int, 0int), (0int, -2int), (0int, 1int), (1int, -2int)])
        } else if from == 1 && to == 0 {
            Some(seq![(0int, 0int), (0int, 2int), (0int, -1int), (-1int, 2int)])
        } else if from == 1 && to == 2 {
            Some(seq![(0int, 0int), (0int, -1int), (0int, 2int), (-2int, -1int)])
        } else if from == 2 && to == 1 {
            Some(seq![(0int, 0int), (0int, 1int), (0int, -2int), (2int, 1int)])
        } else if from == 2 && to == 3 {
            Some(seq![(0int, 0int), (0int, 2int), (0int, -1int), (-1int, 2int)])
        } else if from == 3 && to == 2 {
            Some(seq![(0int, 0int), (0int, -2int), (0int, 1int), (1int, -2int)])
        } else if from == 3 && to == 0 {
            Some(seq![(0int, 0int), (0int, 1int), (0int, -2int), (2int, 1int)])
        } else if from == 0 && to == 3 {
            Some(seq![(0int, 0int), (0int, -1int), (0int, 2int), (-2int, -1int)])
        } else {
            None
        }
    } else {
        if from == 0 && to == 1 {
            Some(seq![(0int, 0int), (0int, -1int), (-1int, -1int), (2int, 0int)])
        } else if from == 1 && to == 0 {
            Some(seq![(0int, 0int), (0int, 1int), (1int, 1int), (-2int, 0int)])
        } else if from == 1 && to == 2 {
            Some(seq![(0int, 0int), (0int, 1int), (1int, 1int), (-2int, 0int)])
        } else if from == 2 && to == 1 {
            Some(seq![(0int, 0int), (0int, -1int), (-1int, -1int), (2int, 0int)])
        } else if from == 2 && to == 3 {
            Some(seq![(0int, 0int), (0int, 1int), (-1int, 1int), (2int, 0int)])
        } else if from == 3 && to == 2 {
            Some(seq![(0int, 0int), (0int, -1int), (1int, -1int), (-2int, 0int)])
        } else if from == 3 && to == 0 {
            Some(seq![(0int, 0int), (0int, -1int), (1int, -1int), (-2int, 0int)])
        } else if from == 0 && to == 3 {
            Some(seq![(0int, 0int), (0int, 1int), (-1int, 1int), (2int, 0int)])
        } else {
            None
        }
    }
}

/// The candidate offsets for one transition, as concrete points.
fn kick_table(is_i: bool, from: i8, to: i8) -> (res: Option<Vec<Point>>)
    ensures
        match res {
            Some(offs) => {
                &&& kick_offsets(is_i, from as int, to as int) == Some(points_of(offs@))
                &&& offs@.len() == 4
                &&& forall|k: int| 0 <= k < offs@.len() ==> -2 <= (#[trigger] offs@[k])@.0 <= 2
                    && -2 <= offs@[k]@.1 <= 2
            },
            None => kick_offsets(is_i, from as int, to as int) is None,
        },
{
    if is_i {
        if from == 0 && to == 1 {
            Some(points4(0, 0, 0, -2, 0, 1, 1, -2))
        } else if from == 1 && to == 0 {
            Some(points4(0, 0, 0, 2, 0, -1, -1, 2))
        } else if from == 1 && to == 2 {
            Some(points4(0, 0, 0, -1, 0, 2, -2, -1))
        } else if from == 2 && to == 1 {
            Some(points4(0, 0, 0, 1, 0, -2, 2, 1))
        } else if from == 2 && to == 3 {
            Some(points4(0, 0, 0, 2, 0, -1, -1, 2))
        } else if from == 3 && to == 2 {
            Some(points4(0, 0, 0, -2, 0, 1, 1, -2))
        } else if from == 3 && to == 0 {
            Some(points4(0, 0, 0, 1, 0, -2, 2, 1))
        } else if from == 0 && to == 3 {
            Some(points4(0, 0, 0, -1, 0, 2, -2, -1))
        } else {
            None
        }
    } else {
        if from == 0 && to == 1 {
            Some(points4(0, 0, 0, -1, -1, -1, 2, 0))
        } else if from == 1 && to == 0 {
            Some(points4(0, 0, 0, 1, 1, 1, -2, 0))
        } else if from == 1 && to == 2 {
            Some(points4(0, 0, 0, 1, 1, 1, -2, 0))
        } else if from == 2 && to == 1 {
            Some(points4(0, 0, 0, -1, -1, -1, 2, 0))
        } else if from == 2 && to == 3 {
            Some(points4(0, 0, 0, 1, -1, 1, 2, 0))
        } else if from == 3 && to == 2 {
            Some(points4(0, 0, 0, -1, 1, -1, -2, 0))
        } else if from == 3 && to == 0 {
            Some(points4(0, 0, 0, -1, 1, -1, -2, 0))
        } else if from == 0 && to == 3 {
            Some(points4(0, 0, 0, 1, -1, 1, 2, 0))
        } else {
            None
        }
    }
}

// ---------------------------------------------------------------------
// Catalog bounds
// ---------------------------------------------------------------------
/// Every catalog piece keeps its rotated cell offsets within two cells
/// of the anchor.
pub proof fn lemma_cat_rotate_bounded(idx: int, r: int)
    requires
        0 <= idx < 7,
    ensures
        cat_rotate(idx, r).len() == 4,
        forall|k: int| 0 <= k < 4 ==> -2 <= (#[trigger] cat_rotate(idx, r)[k]).0 <= 2
            && -2 <= cat_rotate(idx, r)[k].1 <= 2,
{
    let diffs = tetrimino_diffs(idx);
    let par = tetrimino_parity(idx);
    let n = (r % 4) as nat;
    assert forall|k: int| 0 <= k < 4 implies -2 <= (#[trigger] cat_rotate(idx, r)[k]).0 <= 2
        && -2 <= cat_rotate(idx, r)[k].1 <= 2 by {
        assert(-3 <= diffs[k].0 <= 3 && -3 <= diffs[k].1 <= 3);
        lemma_rot_bounded(diffs[k], n, 3);
        assert(cat_rotate(idx, r)[k] == half_point(rot_n(diffs[k], n), swap_n(par, n)));
    }
}

/// The catalog piece used for a placement pins its anchor near the field.
pub proof fn lemma_cat_try_base_bounds(f: Field, base: (int, int), r: int, idx: int)
    requires
        0 <= idx < 7,
        cat_try(f, base, r, idx) is Some,
    ensures
        -2 <= base.0 <= f.height as int + 1,
        -2 <= base.1 <= f.width as int + 1,
{
    lemma_cat_rotate_bounded(idx, r);
    let rel = cat_rotate(idx, r);
    assert(placement_ok(f, base, rel));
    assert(0 <= base.0 + rel[0].0 < f.height as int && 0 <= base.1 + rel[0].1 < f.width as int);
}

/// What a rotated placement looks like as a set of in-field cells.
pub proof fn lemma_cat_try_cells(f: Field, base: (int, int), r: int, idx: int)
    requires
        0 <= idx < 7,
        cat_try(f, base, r, idx) is Some,
    ensures
        cat_try(f, base, r, idx)->Some_0.len() == 4,
        forall|k: int|
            0 <= k < 4 ==> {
                let c = (#[trigger] cat_try(f, base, r, idx)->Some_0[k]);
                &&& 0 <= c.0 < f.height as int
                &&& 0 <= c.1 < f.width as int
            },
{
    lemma_cat_rotate_bounded(idx, r);
    let rel = cat_rotate(idx, r);
    assert(placement_ok(f, base, rel));
    assert forall|k: int| 0 <= k < 4 implies {
        let c = (#[trigger] cat_try(f, base, r, idx)->Some_0[k]);
        0 <= c.0 < f.height as int && 0 <= c.1 < f.width as int
    } by {
        assert(cat_try(f, base, r, idx)->Some_0[k] == (base.0 + rel[k].0, base.1 + rel[k].1));
    }
}

// ---------------------------------------------------------------------
// Wall kick search and hard drop
// ---------------------------------------------------------------------
/// The first candidate offset that admits the rotated placement, with
/// the shifted anchor and the cells it yields.
pub open spec fn first_kick(gs: GameState, offs: Seq<(int, int)>, to: int, k: int) -> Option<
    ((int, int), Seq<(int, int)>),
>
    decreases offs.len() - k,
{
    if 0 <= k < offs.len() {
        let nb = (gs.base@.0 + offs[k].0, gs.base@.1 + offs[k].1);
        match cat_try(gs.field, nb, to, gs.curr_shape_idx as int) {
            Some(cells) => Some((nb, cells)),
            None => first_kick(gs, offs, to, k + 1),
        }
    } else {
        None
    }
}

/// What rotating the active piece `from -> to` yields: the candidates of
/// the transition's kick row, tried in order.
pub open spec fn wall_kick_spec(gs: GameState, from: int, to: int) -> Option<
    ((int, int), Seq<(int, int)>),
> {
    match kick_offsets(gs.curr_shape_idx == 0, from, to) {
        Some(offs) => first_kick(gs, offs, to, 0),
        None => None,
    }
}

impl GameState {
    /// Try each candidate offset of the transition's kick row in order;
    /// the first that admits the rotated placement wins.  Reads only.
    pub fn wall_kick_current_shape(&self, transition: (i8, i8)) -> (res: Option<(Point, Vec<Point>)>)
        requires
            self.field.wf(),
            self.curr_shape_idx < 7,
            -16 <= self.base@.0 <= self.field.height as int + 16,
            -16 <= self.base@.1 <= self.field.width as int + 16,
        ensures
            match res {
                Some(bc) => {
                    &&& wall_kick_spec(*self, transition.0 as int, transition.1 as int)
                        == Some((bc.0@, points_of(bc.1@)))
                    &&& bc.1@.len() == 4
                    &&& pts_bounded(bc.1@)
                    &&& -2 <= bc.0@.0 <= self.field.height as int + 1
                    &&& -2 <= bc.0@.1 <= self.field.width as int + 1
                    &&& cat_try(self.field, bc.0@, transition.1 as int, self.curr_shape_idx as int)
                        == Some(points_of(bc.1@))
                },
                None => wall_kick_spec(*self, transition.0 as int, transition.1 as int) is None,
            },
    {
        let offs = match kick_table(self.curr_shape_idx == 0, transition.0, transition.1) {
            Some(offs) => offs,
            None => {
                return None;
            },
        };
        let ghost offs_spec = points_of(offs@);
        let len = offs.len();
        let mut k: usize = 0;
        while k < len
            invariant
                k <= len,
                len == offs@.len(),
                len == 4,
                self.field.wf(),
                self.curr_shape_idx < 7,
                -16 <= self.base@.0 <= self.field.height as int + 16,
                -16 <= self.base@.1 <= self.field.width as int + 16,
                offs_spec == points_of(offs@),
                kick_offsets(self.curr_shape_idx == 0, transition.0 as int, transition.1 as int)
                    == Some(offs_spec),
                forall|q: int| 0 <= q < offs@.len() ==> -2 <= (#[trigger] offs@[q])@.0 <= 2
                    && -2 <= offs@[q]@.1 <= 2,
                first_kick(*self, offs_spec, transition.1 as int, 0) == first_kick(
                    *self,
                    offs_spec,
                    transition.1 as int,
                    k as int,
                ),
            decreases len - k,
        {
            let off = offs[k];
            let nb = Point(self.base.0 + off.0, self.base.1 + off.1);
            proof {
                assert(nb.bounded());
            }
            match self.try_current_shape(&nb, transition.1) {
                Some(cells) => {
                    proof {
                        lemma_cat_try_base_bounds(
                            self.field,
                            nb@,
                            transition.1 as int,
                            self.curr_shape_idx as int,
                        );
                    }
                    return Some((nb, cells));
                },
                None => {},
            }
            k += 1;
        }
        None
    }
}

/// Can the active piece sit at row `i` of its current column and rotation?
pub open spec fn can_place(gs: GameState, i: int) -> bool {
    cat_try(gs.field, (i, gs.base@.1), gs.rotation as int, gs.curr_shape_idx as int) is Some
}

/// The row where a hard drop stops probing: the first row at or below
/// the anchor whose placement fails.  The fuel only serves termination;
/// a placement always fails within it.
pub open spec fn drop_stop_from(gs: GameState, i: int, fuel: nat) -> int
    decreases fuel,
{
    if fuel == 0 {
        i
    } else if !can_place(gs, i) {
        i
    } else {
        drop_stop_from(gs, i + 1, (fuel - 1) as nat)
    }
}

pub open spec fn drop_stop(gs: GameState) -> int {
    drop_stop_from(gs, gs.base@.0, (gs.field.height + 40) as nat)
}

impl GameState {
    /// Probe increasing rows at the current column and rotation until a
    /// placement fails; hand back that row together with the cells of
    /// the last placement that succeeded, if any did.
    pub fn drop_current_shape(&self) -> (res: (i32, Option<Vec<Point>>))
        requires
            self.wf(),
        ensures
            res.0 as int == drop_stop(*self),
            match res.1 {
                Some(cells) => {
                    &&& drop_stop(*self) > self.base@.0
                    &&& cat_try(
                        self.field,
                        (drop_stop(*self) - 1, self.base@.1),
                        self.rotation as int,
                        self.curr_shape_idx as int,
                    ) == Some(points_of(cells@))
                    &&& cells@.len() == 4
                    &&& pts_bounded(cells@)
                },
                None => {
                    &&& drop_stop(*self) == self.base@.0
                    &&& !can_place(*self, self.base@.0)
                },
            },
    {
        let ghost fuel0 = (self.field.height + 40) as nat;
        let mut i: i32 = self.base.0;
        let mut cur_cells: Option<Vec<Point>> = None;
        loop
            invariant
                self.wf(),
                self.base@.0 <= i as int <= self.field.height as int + 16,
                drop_stop(*self) == drop_stop_from(
                    *self,
                    i as int,
                    (fuel0 - (i - self.base@.0)) as nat,
                ),
                fuel0 == (self.field.height + 40) as nat,
                fuel0 - (i - self.base@.0) >= 8,
                match cur_cells {
                    Some(cells) => {
                        &&& i as int > self.base@.0
                        &&& cat_try(
                            self.field,
                            (i as int - 1, self.base@.1),
                            self.rotation as int,
                            self.curr_shape_idx as int,
                        ) == Some(points_of(cells@))
                        &&& cells@.len() == 4
                        &&& pts_bounded(cells@)
                    },
                    None => i as int == self.base@.0,
                },
            ensures
                drop_stop(*self) == i as int,
                !can_place(*self, i as int),
                match cur_cells {
                    Some(cells) => {
                        &&& i as int > self.base@.0
                        &&& cat_try(
                            self.field,
                            (i as int - 1, self.base@.1),
                            self.rotation as int,
                            self.curr_shape_idx as int,
                        ) == Some(points_of(cells@))
                        &&& cells@.len() == 4
                        &&& pts_bounded(cells@)
                    },
                    None => i as int == self.base@.0,
                },
            decreases self.field.height as int + 16 - i,
        {
            let base_new = Point(i, self.base.1);
            proof {
                assert(base_new.bounded());
            }
            let cells = self.try_current_shape(&base_new, self.rotation);
            if cells.is_none() {
                proof {
                    assert(!can_place(*self, i as int));
                    assert(drop_stop_from(
                        *self,
                        i as int,
                        (fuel0 - (i - self.base@.0)) as nat,
                    ) == i as int);
                }
                break;
            }
            proof {
                lemma_cat_try_base_bounds(
                    self.field,
                    base_new@,
                    self.rotation as int,
                    self.curr_shape_idx as int,
                );
            }
            cur_cells = cells;
            i = i + 1;
        }
        (i, cur_cells)
    }
}

} // verus!

verus! {

// ---------------------------------------------------------------------
// Randomizer strategies
// ---------------------------------------------------------------------
/// The seven piece indices of one full bag.
pub open spec fn bag_full() -> Seq<usize> {
    seq![0usize, 1usize, 2usize, 3usize, 4usize, 5usize, 6usize]
}

/// The bag law: a refilled queue is a permutation of the seven piece
/// indices, so the seven draws that empty it -- one window of seven
/// consecutive spawns -- name every piece kind exactly once.
pub proof fn lemma_bag_perm(s: Seq<usize>)
    requires
        s.to_multiset() == bag_full().to_multiset(),
    ensures
        s.len() == 7,
        queue_wf(s),
        forall|v: usize| v < 7 ==> s.to_multiset().count(v) == 1,
        forall|v: usize| v >= 7 ==> s.to_multiset().count(v) == 0,
{
    broadcast use vstd::seq_lib::group_to_multiset_ensures;
    broadcast use vstd::multiset::group_multiset_axioms;

    let bag = bag_full();
    assert(bag.no_duplicates());
    bag.lemma_multiset_has_no_duplicates();
    assert forall|v: usize| v < 7 implies bag.to_multiset().count(v) == 1 by {
        assert(bag.contains(v)) by {
            if v == 0 {
                assert(bag[0] == v);
            } else if v == 1 {
                assert(bag[1] == v);
            } else if v == 2 {
                assert(bag[2] == v);
            } else if v == 3 {
                assert(bag[3] == v);
            } else if v == 4 {
                assert(bag[4] == v);
            } else if v == 5 {
                assert(bag[5] == v);
            } else {
                assert(bag[6] == v);
            }
        };
    }
    assert forall|v: usize| v >= 7 implies bag.to_multiset().count(v) == 0 by {
        if bag.to_multiset().count(v) > 0 {
            assert(bag.contains(v));
            let i = choose|i: int| 0 <= i < bag.len() && bag[i] == v;
            assert(bag[i] < 7);
        }
    }
    s.lemma_multiset_has_no_duplicates_conv();
    assert(s.len() == s.to_multiset().len());
    assert(bag.len() == bag.to_multiset().len());
    assert forall|k: int| 0 <= k < s.len() implies (#[trigger] s[k]) < 7 by {
        assert(s.contains(s[k]));
        assert(s.to_multiset().count(s[k]) > 0);
    }
}

// One draw of a piece index is a pure function of the randomizer
// policy, the generator state and the bag queue: `JustRandom` consults
// the generator and leaves the queue alone; `ShuffledQueue` pops the
// back of the queue, refilling an empty bag with a fresh shuffle of
// all seven indices first.
/// The index one draw yields.
pub open spec fn drawn_value(cfg: Randomness, rpre: Xoshiro512StarStar, qpre: Seq<usize>) -> usize {
    match cfg {
        Randomness::JustRandom => rng_draw_value(rpre, 7),
        Randomness::ShuffledQueue => {
            if qpre.len() > 0 {
                qpre.last()
            } else {
                rng_shuffle_values(rpre, bag_full()).last()
            }
        },
    }
}

/// The bag queue one draw leaves behind.
pub open spec fn drawn_queue(cfg: Randomness, rpre: Xoshiro512StarStar, qpre: Seq<usize>) -> Seq<
    usize,
> {
    match cfg {
        Randomness::JustRandom => qpre,
        Randomness::ShuffledQueue => {
            if qpre.len() > 0 {
                qpre.drop_last()
            } else {
                rng_shuffle_values(rpre, bag_full()).drop_last()
            }
        },
    }
}

/// The generator state one draw leaves behind.
pub open spec fn drawn_rng(
    cfg: Randomness,
    rpre: Xoshiro512StarStar,
    qpre: Seq<usize>,
) -> Xoshiro512StarStar {
    match cfg {
        Randomness::JustRandom => rng_draw_state(rpre, 7),
        Randomness::ShuffledQueue => {
            if qpre.len() > 0 {
                rpre
            } else {
                rng_shuffle_state(rpre, bag_full())
            }
        },
    }
}

/// Where a piece of the given index spawns: the I piece (index 0) on
/// row 0 -- it lies flat across the top row -- and every other piece
/// on row 1, both centred on the field.
pub open spec fn spawn_base(idx: int, w: int) -> (int, int) {
    (if idx == 0 { 0int } else { 1int }, w / 2)
}

/// The relation `spawn_next_shape` establishes: the next piece is
/// promoted, a new next index is drawn (the drawn index, the remaining
/// queue and the new generator state are all functions of the state
/// before), the anchor and rotation reset, and the promotion rolled
/// back into Terminal when the promoted piece cannot be placed.
pub open spec fn spawn_post(pre: GameState, post: GameState) -> bool {
    let promoted = pre.next_shape_idx;
    let sbase = spawn_base(promoted as int, pre.field.width as int);
    let cfg = pre.config.randomness;
    &&& post.rng_queue@ == drawn_queue(cfg, pre.rng, pre.rng_queue@)
    &&& post.rng == drawn_rng(cfg, pre.rng, pre.rng_queue@)
    &&& post.config == pre.config
    &&& post.field == pre.field
    &&& post.score == pre.score
    &&& post.rotation == 0
    &&& post.base@ == sbase
    &&& match cat_try(pre.field, sbase, 0, promoted as int) {
        Some(cells) => {
            &&& post.curr_shape_idx == promoted
            &&& post.next_shape_idx == drawn_value(cfg, pre.rng, pre.rng_queue@)
            &&& points_of(post.curr_cells@) == cells
            &&& post.curr_cells@.len() == 4
            &&& post.game_over == pre.game_over
        },
        None => {
            &&& post.curr_shape_idx == pre.curr_shape_idx
            &&& post.next_shape_idx == pre.next_shape_idx
            &&& post.curr_cells == pre.curr_cells
            &&& post.game_over
        },
    }
}

/// The cells of a successful catalog placement lie inside the field.
pub proof fn lemma_cells_from_cat(f: Field, base: (int, int), r: int, idx: int, v: Seq<Point>)
    requires
        0 <= idx < 7,
        cat_try(f, base, r, idx) == Some(points_of(v)),
    ensures
        forall|k: int|
            0 <= k < v.len() ==> {
                let p = (#[trigger] v[k])@;
                &&& 0 <= p.0 < f.height as int
                &&& 0 <= p.1 < f.width as int
            },
{
    lemma_cat_try_cells(f, base, r, idx);
    assert forall|k: int| 0 <= k < v.len() implies {
        let p = (#[trigger] v[k])@;
        0 <= p.0 < f.height as int && 0 <= p.1 < f.width as int
    } by {
        assert(points_of(v)[k] == v[k]@);
        assert(cat_try(f, base, r, idx)->Some_0[k] == v[k]@);
    }
}

fn fresh_bag() -> (q: Vec<usize>)
    ensures
        q@ == bag_full(),
{
    let mut q: Vec<usize> = Vec::new();
    q.push(0);
    q.push(1);
    q.push(2);
    q.push(3);
    q.push(4);
    q.push(5);
    q.push(6);
    proof {
        assert(q@ =~= bag_full());
    }
    q
}

impl GameState {
    /// Promote the next piece to current, draw a new next index from the
    /// active randomizer, and place the promoted piece at its spawn
    /// anchor.  A spawn collision rolls the promotion back and enters
    /// Terminal, so the piece that ended the game keeps its identity.
    pub fn spawn_next_shape(&mut self)
        requires
            old(self).wf(),
        ensures
            final(self).wf(),
            spawn_post(*old(self), *final(self)),
    {
        let prev_shape_idx = self.curr_shape_idx;
        self.curr_shape_idx = self.next_shape_idx;
        let drawn: usize = match self.config.randomness {
            Randomness::JustRandom => rng_gen_below(&mut self.rng, 7),
            Randomness::ShuffledQueue => {
                let popped = self.rng_queue.pop();
                match popped {
                    Some(idx) => idx,
                    None => {
                        let mut q = fresh_bag();
                        rng_shuffle(&mut self.rng, &mut q);
                        proof {
                            lemma_bag_perm(q@);
                        }
                        self.rng_queue = q;
                        let p2 = self.rng_queue.pop();
                        match p2 {
                            Some(idx) => idx,
                            None => {
                                proof {
                                    assert(false);
                                }
                                0
                            },
                        }
                    },
                }
            },
        };
        self.next_shape_idx = drawn;
        self.rotation = 0;
        self.base = if self.curr_shape_idx == 0 {
            Point(0, (self.field.width / 2) as i32)
        } else {
            Point(1, (self.field.width / 2) as i32)
        };
        let placed = self.try_current_shape(&self.base, self.rotation);
        match placed {
            Some(cells) => {
                proof {
                    lemma_cells_from_cat(
                        self.field,
                        self.base@,
                        0,
                        self.curr_shape_idx as int,
                        cells@,
                    );
                }
                self.curr_cells = cells;
            },
            None => {
                // keep the dying piece's identity: undo the promotion
                self.next_shape_idx = self.curr_shape_idx;
                self.curr_shape_idx = prev_shape_idx;
                self.game_over = true;
            },
        }
        proof {
            assert(spawn_post(*old(self), *self));
        }
    }
}

} // verus!

verus! {

/// What both draws of a reset yield under the active randomizer, as
/// functions of the generator state `rpre` it started from:
/// `JustRandom` draws current then next independently; `ShuffledQueue`
/// builds a fresh shuffled bag and pops current, then next, off its
/// back.  `rpost` is the generator state left behind.
pub open spec fn reset_draws(
    cfg: Randomness,
    rpre: Xoshiro512StarStar,
    rpost: Xoshiro512StarStar,
    qpost: Seq<usize>,
    curr: usize,
    next: usize,
) -> bool {
    match cfg {
        Randomness::JustRandom => {
            let r1 = rng_draw_state(rpre, 7);
            &&& curr == rng_draw_value(rpre, 7)
            &&& next == rng_draw_value(r1, 7)
            &&& rpost == rng_draw_state(r1, 7)
            &&& curr < 7
            &&& next < 7
            &&& qpost.len() == 0
        },
        Randomness::ShuffledQueue => {
            let perm = rng_shuffle_values(rpre, bag_full());
            &&& perm.to_multiset() == bag_full().to_multiset()
            &&& perm.len() == 7
            &&& curr == perm[6]
            &&& next == perm[5]
            &&& qpost == perm.take(5)
            &&& rpost == rng_shuffle_state(rpre, bag_full())
        },
    }
}

/// A freshly reset state: zeroed field, zero score, rotation 0, both
/// piece indices drawn by the active randomizer, the current piece at
/// its spawn anchor -- or Terminal at once if even the spawn placement
/// collides (possible only on degenerate field sizes).
pub open spec fn fresh_state(
    gs: GameState,
    config: Config,
    h: int,
    w: int,
    rpre: Xoshiro512StarStar,
) -> bool {
    &&& gs.config == config
    &&& gs.field.wf()
    &&& gs.field.height == h
    &&& gs.field.width == w
    &&& gs.field.grid() == Seq::new(h as nat, |i: int| zero_row(w as nat))
    &&& gs.score == 0
    &&& gs.rotation == 0
    &&& gs.curr_shape_idx < 7
    &&& gs.next_shape_idx < 7
    &&& reset_draws(
        config.randomness,
        rpre,
        gs.rng,
        gs.rng_queue@,
        gs.curr_shape_idx,
        gs.next_shape_idx,
    )
    &&& gs.base@ == spawn_base(gs.curr_shape_idx as int, w)
    &&& match cat_try(gs.field, gs.base@, 0, gs.curr_shape_idx as int) {
        Some(cells) => {
            &&& points_of(gs.curr_cells@) == cells
            &&& gs.curr_cells@.len() == 4
            &&& !gs.game_over
        },
        None => {
            &&& gs.game_over
            &&& gs.curr_cells@.len() == 0
        },
    }
}

/// Two game states that agree on everything observable: configuration,
/// field contents and dimensions, terminal flag, active piece (anchor,
/// rotation, cells), shape indices, score, generator state and queue.
pub open spec fn same_game(a: GameState, b: GameState) -> bool {
    &&& a.config == b.config
    &&& a.field.height == b.field.height
    &&& a.field.width == b.field.width
    &&& a.field.grid() == b.field.grid()
    &&& a.game_over == b.game_over
    &&& a.base == b.base
    &&& a.rotation == b.rotation
    &&& points_of(a.curr_cells@) == points_of(b.curr_cells@)
    &&& a.curr_shape_idx == b.curr_shape_idx
    &&& a.next_shape_idx == b.next_shape_idx
    &&& a.score == b.score
    &&& a.rng == b.rng
    &&& a.rng_queue@ == b.rng_queue@
}

/// Placement probing reads only the field's dimensions and grid.
pub proof fn lemma_cat_try_congruent(f1: Field, f2: Field, base: (int, int), r: int, idx: int)
    requires
        f1.wf(),
        f2.wf(),
        f1.height == f2.height,
        f1.width == f2.width,
        f1.grid() == f2.grid(),
    ensures
        cat_try(f1, base, r, idx) == cat_try(f2, base, r, idx),
{
    let rel = cat_rotate(idx, r);
    assert(placement_ok(f1, base, rel) == placement_ok(f2, base, rel)) by {
        if placement_ok(f1, base, rel) {
            assert forall|k: int|
                0 <= k < rel.len() implies {
                let i = base.0 + (#[trigger] rel[k]).0;
                let j = base.1 + rel[k].1;
                0 <= i < f2.height as int && 0 <= j < f2.width as int && f2.cell(i, j) == 0
            } by {
                let i = base.0 + rel[k].0;
                let j = base.1 + rel[k].1;
                assert(f1.cell(i, j) == f1.grid()[i][j]);
                assert(f2.cell(i, j) == f2.grid()[i][j]);
            }
        }
        if placement_ok(f2, base, rel) {
            assert forall|k: int|
                0 <= k < rel.len() implies {
                let i = base.0 + (#[trigger] rel[k]).0;
                let j = base.1 + rel[k].1;
                0 <= i < f1.height as int && 0 <= j < f1.width as int && f1.cell(i, j) == 0
            } by {
                let i = base.0 + rel[k].0;
                let j = base.1 + rel[k].1;
                assert(f1.cell(i, j) == f1.grid()[i][j]);
                assert(f2.cell(i, j) == f2.grid()[i][j]);
            }
        }
    }
}

/// Seeded construction is reproducible: two freshly reset games built
/// over the same dimensions and configuration from the same generator
/// state agree on everything observable, the generator included.
pub proof fn lemma_initial_reproducible(
    a: GameState,
    b: GameState,
    config: Config,
    h: int,
    w: int,
    r0: Xoshiro512StarStar,
)
    requires
        fresh_state(a, config, h, w, r0),
        fresh_state(b, config, h, w, r0),
    ensures
        same_game(a, b),
{
    assert(a.rng_queue@ =~= b.rng_queue@);
    assert(a.base == b.base) by {
        assert(a.base@ == b.base@);
        assert(a.base.0 as int == b.base.0 as int && a.base.1 as int == b.base.1 as int);
    }
    lemma_cat_try_congruent(a.field, b.field, a.base@, 0, a.curr_shape_idx as int);
    match cat_try(a.field, a.base@, 0, a.curr_shape_idx as int) {
        Some(cells) => {},
        None => {
            assert(points_of(a.curr_cells@) =~= points_of(b.curr_cells@));
        },
    }
}

impl GameState {
    /// Mutate the state back to a fresh game: clear the field, redraw
    /// both piece indices (the generator itself is not reseeded, but the
    /// bag queue starts over), and place the first piece.
    pub fn reset(&mut self)
        requires
            old(self).field.wf(),
        ensures
            final(self).wf(),
            fresh_state(
                *final(self),
                old(self).config,
                old(self).field.height as int,
                old(self).field.width as int,
                old(self).rng,
            ),
    {
        let curr_shape_idx: usize;
        let next_shape_idx: usize;
        let rng_queue: Vec<usize>;
        match self.config.randomness {
            Randomness::JustRandom => {
                curr_shape_idx = rng_gen_below(&mut self.rng, 7);
                next_shape_idx = rng_gen_below(&mut self.rng, 7);
                rng_queue = Vec::new();
            },
            Randomness::ShuffledQueue => {
                let mut q = fresh_bag();
                rng_shuffle(&mut self.rng, &mut q);
                proof {
                    lemma_bag_perm(q@);
                }
                let ghost perm = q@;
                let c1 = match q.pop() {
                    Some(idx) => idx,
                    None => 0,
                };
                let n1 = match q.pop() {
                    Some(idx) => idx,
                    None => 0,
                };
                proof {
                    assert(c1 == perm[6] && n1 == perm[5]);
                    assert(q@ =~= perm.take(5));
                }
                curr_shape_idx = c1;
                next_shape_idx = n1;
                rng_queue = q;
            },
        }
        let h = self.field.height;
        let w = self.field.width;
        let mut cells: Vec<Vec<u8>> = Vec::new();
        let mut i: usize = 0;
        while i < h
            invariant
                i <= h,
                w == self.field.width,
                cells@.len() == i,
                forall|q: int| 0 <= q < i ==> (#[trigger] cells@[q])@ == zero_row(w as nat),
            decreases h - i,
        {
            cells.push(zero_row_vec(w));
            i += 1;
        }
        self.field.cells = cells;
        proof {
            assert(self.field.grid() =~~= Seq::new(h as nat, |i: int| zero_row(w as nat)));
        }
        self.curr_shape_idx = curr_shape_idx;
        self.next_shape_idx = next_shape_idx;
        self.rng_queue = rng_queue;
        self.base = if self.curr_shape_idx == 0 {
            Point(0, (w / 2) as i32)
        } else {
            Point(1, (w / 2) as i32)
        };
        self.rotation = 0;
        self.score = 0;
        let placed = self.try_current_shape(&self.base, self.rotation);
        match placed {
            Some(curr_cells) => {
                proof {
                    lemma_cells_from_cat(
                        self.field,
                        self.base@,
                        0,
                        self.curr_shape_idx as int,
                        curr_cells@,
                    );
                }
                self.curr_cells = curr_cells;
                self.game_over = false;
            },
            None => {
                self.curr_cells = Vec::new();
                self.game_over = true;
            },
        }
    }

    /// Build a game: seed the generator (or draw entropy when no seed is
    /// given), then reset onto a zeroed `height` x `width` field.  With
    /// the same seed and the same actions, a game replays identically.
    pub fn initial(height: usize, width: usize, config: Config, seed: Option<u64>) -> (gs: GameState)
        requires
            height <= 1000000,
            width <= 1000000,
        ensures
            gs.wf(),
            seed matches Some(s) ==> fresh_state(
                gs,
                config,
                height as int,
                width as int,
                rng_state_of_seed(s),
            ),
            seed is None ==> exists|r0: Xoshiro512StarStar|
                #[trigger] fresh_state(gs, config, height as int, width as int, r0),
    {
        let rng = match seed {
            Some(s) => rng_from_seed(s),
            None => rng_from_entropy(),
        };
        let ghost r0 = rng;
        let mut gs = GameState {
            config,
            field: Field { cells: Vec::new(), height: 0, width: 0 },
            game_over: true,
            base: Point(0, 0),
            rotation: 0,
            curr_cells: Vec::new(),
            curr_shape_idx: 0,
            next_shape_idx: 0,
            score: 0,
            rng,
            rng_queue: Vec::new(),
        };
        let mut cells: Vec<Vec<u8>> = Vec::new();
        let mut i: usize = 0;
        while i < height
            invariant
                i <= height,
                cells@.len() == i,
                forall|q: int| 0 <= q < i ==> (#[trigger] cells@[q])@.len() == width,
            decreases height - i,
        {
            cells.push(zero_row_vec(width));
            i += 1;
        }
        gs.field = Field { cells, height, width };
        gs.reset();
        gs
    }
}

} // verus!

verus! {

// ---------------------------------------------------------------------
// The step relation
// ---------------------------------------------------------------------
/// Everything a plain piece move leaves alone.
pub open spec fn same_except_piece(pre: GameState, post: GameState) -> bool {
    &&& post.config == pre.config
    &&& post.field == pre.field
    &&& post.game_over == pre.game_over
    &&& post.curr_shape_idx == pre.curr_shape_idx
    &&& post.next_shape_idx == pre.next_shape_idx
    &&& post.score == pre.score
    &&& post.rng == pre.rng
    &&& post.rng_queue == pre.rng_queue
}

/// A one-cell translation of the active piece: committed when the
/// shifted placement is legal, rejected silently otherwise.
pub open spec fn shifted_state(pre: GameState, post: GameState, di: int, dj: int) -> bool {
    let nb = (pre.base@.0 + di, pre.base@.1 + dj);
    match cat_try(pre.field, nb, pre.rotation as int, pre.curr_shape_idx as int) {
        Some(cells) => {
            &&& same_except_piece(pre, post)
            &&& post.rotation == pre.rotation
            &&& post.base@ == nb
            &&& points_of(post.curr_cells@) == cells
            &&& post.curr_cells@.len() == 4
        },
        None => post == pre,
    }
}

/// A rotation of the active piece to `to`: the first fitting wall-kick
/// candidate is adopted; with none, the rotation is rejected silently.
pub open spec fn rotated_state(pre: GameState, post: GameState, to: int) -> bool {
    match wall_kick_spec(pre, pre.rotation as int, to) {
        Some(bc) => {
            &&& same_except_piece(pre, post)
            &&& post.rotation as int == to
            &&& post.base@ == bc.0
            &&& points_of(post.curr_cells@) == bc.1
            &&& post.curr_cells@.len() == 4
        },
        None => post == pre,
    }
}

pub open spec fn can_move_down(gs: GameState) -> bool {
    cat_try(
        gs.field,
        (gs.base@.0 + 1, gs.base@.1),
        gs.rotation as int,
        gs.curr_shape_idx as int,
    ) is Some
}

/// A lock event: the cells `lockcells` are drawn into the field, full
/// rows burn and score, and the next piece spawns (or the game ends on
/// a spawn collision).  The drawn index, the remaining queue and the
/// new generator state are all functions of the state before the lock.
pub open spec fn lock_and_spawn(
    pre: GameState,
    post: GameState,
    lockcells: Seq<(int, int)>,
    burnt: nat,
) -> bool {
    let g1 = draw_grid(pre.field.grid(), lockcells, (pre.curr_shape_idx + 1) as u8);
    let promoted = pre.next_shape_idx;
    let w = pre.field.width as int;
    let sbase = spawn_base(promoted as int, w);
    let cfg = pre.config.randomness;
    &&& post.config == pre.config
    &&& post.field.height == pre.field.height
    &&& post.field.width == pre.field.width
    &&& post.field.grid() == burn_grid(g1, pre.field.width as nat)
    &&& burnt == full_count(g1)
    &&& post.score == pre.score + score_delta(pre.config.scoring, burnt as int, w)
    &&& post.rotation == 0
    &&& post.base@ == sbase
    &&& post.rng_queue@ == drawn_queue(cfg, pre.rng, pre.rng_queue@)
    &&& post.rng == drawn_rng(cfg, pre.rng, pre.rng_queue@)
    &&& match cat_try(post.field, sbase, 0, promoted as int) {
        Some(spawncells) => {
            &&& post.curr_shape_idx == promoted
            &&& post.next_shape_idx == drawn_value(cfg, pre.rng, pre.rng_queue@)
            &&& points_of(post.curr_cells@) == spawncells
            &&& post.curr_cells@.len() == 4
            &&& post.game_over == pre.game_over
        },
        None => {
            &&& post.curr_shape_idx == pre.curr_shape_idx
            &&& post.next_shape_idx == pre.next_shape_idx
            &&& points_of(post.curr_cells@) == lockcells
            &&& post.game_over
        },
    }
}

/// The cells where a hard drop locks: the last successful placement
/// above the row where probing stopped.
pub open spec fn drop_lock_cells(pre: GameState) -> Seq<(int, int)> {
    cat_try(
        pre.field,
        (drop_stop(pre) - 1, pre.base@.1),
        pre.rotation as int,
        pre.curr_shape_idx as int,
    )->Some_0
}

/// The whole transition table of `step`, relating the state before and
/// after one action to the `(lines burnt, terminal)` pair it returns.
/// Terminal is absorbing: a finished game ignores every action.
pub open spec fn step_post(pre: GameState, post: GameState, action: Action, r: (usize, bool)) -> bool {
    if pre.game_over {
        &&& post == pre
        &&& r == (0usize, true)
    } else {
        &&& r.1 == post.game_over
        &&& match action {
            Action::Left => shifted_state(pre, post, 0, -1) && r.0 == 0,
            Action::Right => shifted_state(pre, post, 0, 1) && r.0 == 0,
            Action::Down => shifted_state(pre, post, 1, 0) && r.0 == 0,
            Action::Tick => {
                if can_move_down(pre) {
                    shifted_state(pre, post, 1, 0) && r.0 == 0
                } else {
                    lock_and_spawn(pre, post, points_of(pre.curr_cells@), r.0 as nat)
                }
            },
            Action::RotateCW => rotated_state(pre, post, (pre.rotation + 1) % 4) && r.0 == 0,
            Action::RotateCCW => rotated_state(pre, post, (pre.rotation + 3) % 4) && r.0 == 0,
            Action::HardDrop => {
                if can_place(pre, pre.base@.0) {
                    lock_and_spawn(pre, post, drop_lock_cells(pre), r.0 as nat)
                } else {
                    &&& post.game_over
                    &&& post.config == pre.config
                    &&& post.field == pre.field
                    &&& post.base == pre.base
                    &&& post.rotation == pre.rotation
                    &&& post.curr_cells == pre.curr_cells
                    &&& post.curr_shape_idx == pre.curr_shape_idx
                    &&& post.next_shape_idx == pre.next_shape_idx
                    &&& post.score == pre.score
                    &&& post.rng == pre.rng
                    &&& post.rng_queue == pre.rng_queue
                    &&& r.0 == 0
                }
            },
        }
    }
}

pub proof fn lemma_score_delta_mono(sc: Scoring, b1: int, b2: int, w: int)
    requires
        0 <= b1 <= b2,
        0 <= w,
    ensures
        score_delta(sc, b1, w) <= score_delta(sc, b2, w),
{
    match sc {
        Scoring::BurnOnly => {},
        Scoring::PieceAndBurn => {
            assert(b1 * b1 * w <= b2 * b2 * w) by (nonlinear_arith)
                requires
                    0 <= b1 <= b2,
                    0 <= w,
            ;
        },
    }
}

impl GameState {
    /// The single state-transition entry point: apply one action and
    /// report how many lines burnt and whether the game is over.
    #[verifier::rlimit(100)]
    pub fn step(&mut self, action: Action) -> (res: (usize, bool))
        requires
            old(self).wf(),
            // only a lock event can touch the score, so only the locking
            // actions of an active game demand overflow headroom
            !old(self).game_over && (action is Tick || action is HardDrop) ==> old(self).score
                + score_delta(
                old(self).config.scoring,
                old(self).field.height as int,
                old(self).field.width as int,
            ) <= u32::MAX,
        ensures
            final(self).wf(),
            step_post(*old(self), *final(self), action, res),
    {
        if self.game_over {
            return (0, true);
        }
        let ghost pre = *old(self);
        let mut lines_burnt: usize = 0;
        match action {
            Action::Tick => {
                let base_new = Point(self.base.0 + 1, self.base.1);
                let tried = self.try_current_shape(&base_new, self.rotation);
                match tried {
                    Some(cells) => {
                        proof {
                            lemma_cat_try_base_bounds(
                                self.field,
                                base_new@,
                                self.rotation as int,
                                self.curr_shape_idx as int,
                            );
                            lemma_cells_from_cat(
                                self.field,
                                base_new@,
                                self.rotation as int,
                                self.curr_shape_idx as int,
                                cells@,
                            );
                        }
                        self.base = base_new;
                        self.curr_cells = cells;
                    },
                    None => {
                        self.draw_current_shape();
                        proof {
                            lemma_kept_rows_len(self.field.grid());
                            lemma_score_delta_mono(
                                pre.config.scoring,
                                full_count(self.field.grid()),
                                pre.field.height as int,
                                pre.field.width as int,
                            );
                        }
                        lines_burnt = self.burn_lines();
                        let ghost mid = *self;
                        self.spawn_next_shape();
                        proof {
                            assert(spawn_post(mid, *self));
                            assert(lock_and_spawn(
                                pre,
                                *self,
                                points_of(pre.curr_cells@),
                                lines_burnt as nat,
                            ));
                        }
                    },
                }
            },
            Action::HardDrop => {
                let dropped = self.drop_current_shape();
                let ish = dropped.0;
                match dropped.1 {
                    Some(cells) => {
                        proof {
                            lemma_cat_try_base_bounds(
                                self.field,
                                (ish as int - 1, self.base@.1),
                                self.rotation as int,
                                self.curr_shape_idx as int,
                            );
                            lemma_cells_from_cat(
                                self.field,
                                (ish as int - 1, self.base@.1),
                                self.rotation as int,
                                self.curr_shape_idx as int,
                                cells@,
                            );
                        }
                        self.curr_cells = cells;
                        self.base = Point(ish, self.base.1);
                        self.draw_current_shape();
                        proof {
                            lemma_kept_rows_len(self.field.grid());
                            lemma_score_delta_mono(
                                pre.config.scoring,
                                full_count(self.field.grid()),
                                pre.field.height as int,
                                pre.field.width as int,
                            );
                        }
                        lines_burnt = self.burn_lines();
                        let ghost mid = *self;
                        self.spawn_next_shape();
                        proof {
                            assert(spawn_post(mid, *self));
                            assert(points_of(cells@) == drop_lock_cells(pre));
                            assert(lock_and_spawn(
                                pre,
                                *self,
                                drop_lock_cells(pre),
                                lines_burnt as nat,
                            ));
                            assert(can_place(pre, pre.base@.0));
                        }
                    },
                    None => {
                        self.game_over = true;
                    },
                }
            },
            Action::Down => {
                let base_new = Point(self.base.0 + 1, self.base.1);
                let tried = self.try_current_shape(&base_new, self.rotation);
                match tried {
                    Some(cells) => {
                        proof {
                            lemma_cat_try_base_bounds(
                                self.field,
                                base_new@,
                                self.rotation as int,
                                self.curr_shape_idx as int,
                            );
                            lemma_cells_from_cat(
                                self.field,
                                base_new@,
                                self.rotation as int,
                                self.curr_shape_idx as int,
                                cells@,
                            );
                        }
                        self.base = base_new;
                        self.curr_cells = cells;
                    },
                    None => {},
                }
            },
            Action::Left => {
                let base_new = Point(self.base.0, self.base.1 - 1);
                let tried = self.try_current_shape(&base_new, self.rotation);
                match tried {
                    Some(cells) => {
                        proof {
                            lemma_cat_try_base_bounds(
                                self.field,
                                base_new@,
                                self.rotation as int,
                                self.curr_shape_idx as int,
                            );
                            lemma_cells_from_cat(
                                self.field,
                                base_new@,
                                self.rotation as int,
                                self.curr_shape_idx as int,
                                cells@,
                            );
                        }
                        self.base = base_new;
                        self.curr_cells = cells;
                    },
                    None => {},
                }
            },
            Action::Right => {
                let base_new = Point(self.base.0, self.base.1 + 1);
                let tried = self.try_current_shape(&base_new, self.rotation);
                match tried {
                    Some(cells) => {
                        proof {
                            lemma_cat_try_base_bounds(
                                self.field,
                                base_new@,
                                self.rotation as int,
                                self.curr_shape_idx as int,
                            );
                            lemma_cells_from_cat(
                                self.field,
                                base_new@,
                                self.rotation as int,
                                self.curr_shape_idx as int,
                                cells@,
                            );
                        }
                        self.base = base_new;
                        self.curr_cells = cells;
                    },
                    None => {},
                }
            },
            Action::RotateCCW => {
                let rotation_new = (self.rotation + 3) % 4;
                let transition = (self.rotation, rotation_new);
                let kicked = self.wall_kick_current_shape(transition);
                match kicked {
                    Some(bc) => {
                        let (nb, cells) = bc;
                        proof {
                            lemma_cells_from_cat(
                                self.field,
                                nb@,
                                rotation_new as int,
                                self.curr_shape_idx as int,
                                cells@,
                            );
                        }
                        self.base = nb;
                        self.rotation = rotation_new;
                        self.curr_cells = cells;
                    },
                    None => {},
                }
            },
            Action::RotateCW => {
                let rotation_new = (self.rotation + 1) % 4;
                let transition = (self.rotation, rotation_new);
                let kicked = self.wall_kick_current_shape(transition);
                match kicked {
                    Some(bc) => {
                        let (nb, cells) = bc;
                        proof {
                            lemma_cells_from_cat(
                                self.field,
                                nb@,
                                rotation_new as int,
                                self.curr_shape_idx as int,
                                cells@,
                            );
                        }
                        self.base = nb;
                        self.rotation = rotation_new;
                        self.curr_cells = cells;
                    },
                    None => {},
                }
            },
        }
        (lines_burnt, self.game_over)
    }
}

} // verus!

verus! {

// ---------------------------------------------------------------------
// Laws of the engine
// ---------------------------------------------------------------------
/// Rotation is periodic with period four: rotating `r + 4` quarter
/// turns yields exactly the cells of rotating `r`, for every diff set,
/// every parity vector and every integer `r`, negatives included.
pub proof fn lemma_rotate_period(diffs: Seq<(int, int)>, par: (int, int), r: int)
    ensures
        rotate_diffs(diffs, par, r + 4) == rotate_diffs(diffs, par, r),
{
    assert((r + 4) % 4 == r % 4);
}

/// The same, for every catalog piece.
pub proof fn lemma_cat_rotate_period(idx: int, r: int)
    ensures
        cat_rotate(idx, r + 4) == cat_rotate(idx, r),
{
    lemma_rotate_period(tetrimino_diffs(idx), tetrimino_parity(idx), r);
}

/// Rotating zero turns only projects the doubled offsets back to cell
/// offsets: the diff set itself is untouched.
pub proof fn lemma_rotate_zero(diffs: Seq<(int, int)>, par: (int, int))
    ensures
        rotate_diffs(diffs, par, 0) == diffs.map_values(|d: (int, int)| half_point(d, par)),
{
    assert(rotate_diffs(diffs, par, 0) =~= diffs.map_values(
        |d: (int, int)| half_point(d, par),
    ));
}

/// Four quarter turns return every offset to itself: the round trip of
/// any piece's doubled diff set is exact.
pub proof fn lemma_rotate_round_trip(p: (int, int))
    ensures
        rot_n(p, 4) == p,
{
    reveal_with_fuel(rot_n, 5);
    assert(rot_n(p, 1) == (p.1, -p.0));
    assert(rot_n(p, 2) == (-p.0, -p.1));
    assert(rot_n(p, 3) == (-p.1, p.0));
}

/// `try_shape` is a pure function of its arguments: equal fields,
/// anchors, rotations and pieces give equal results, and the field,
/// taken by shared reference, is never written.
pub proof fn lemma_try_shape_deterministic(
    f1: Field,
    f2: Field,
    b1: Point,
    b2: Point,
    r1: i8,
    r2: i8,
    t1: Tetrimino,
    t2: Tetrimino,
)
    requires
        f1 == f2,
        b1 == b2,
        r1 == r2,
        t1 == t2,
    ensures
        try_shape_spec(f1, b1@, r1 as int, t1) == try_shape_spec(f2, b2@, r2 as int, t2),
{
}

/// How many occupied cells a row holds.
pub open spec fn row_occ(row: Seq<u8>) -> int
    decreases row.len(),
{
    if row.len() == 0 {
        0
    } else {
        row_occ(row.drop_last()) + (if row.last() != 0 {
            1int
        } else {
            0int
        })
    }
}

/// How many occupied cells a grid holds.
pub open spec fn grid_occ(g: Seq<Seq<u8>>) -> int
    decreases g.len(),
{
    if g.len() == 0 {
        0
    } else {
        grid_occ(g.drop_last()) + row_occ(g.last())
    }
}

proof fn lemma_row_occ_zero(w: nat)
    ensures
        row_occ(zero_row(w)) == 0,
    decreases w,
{
    if w > 0 {
        assert(zero_row(w).drop_last() =~= zero_row((w - 1) as nat));
        lemma_row_occ_zero((w - 1) as nat);
    }
}

proof fn lemma_row_occ_full(row: Seq<u8>)
    requires
        row_full(row),
    ensures
        row_occ(row) == row.len(),
    decreases row.len(),
{
    if row.len() > 0 {
        assert(row_full(row.drop_last()));
        lemma_row_occ_full(row.drop_last());
    }
}

proof fn lemma_grid_occ_concat(a: Seq<Seq<u8>>, b: Seq<Seq<u8>>)
    ensures
        grid_occ(a + b) == grid_occ(a) + grid_occ(b),
    decreases b.len(),
{
    if b.len() == 0 {
        assert(a + b =~= a);
    } else {
        assert((a + b).drop_last() =~= a + b.drop_last());
        assert((a + b).last() == b.last());
        lemma_grid_occ_concat(a, b.drop_last());
    }
}

proof fn lemma_zero_grid_occ(k: nat, w: nat)
    ensures
        grid_occ(Seq::new(k, |i: int| zero_row(w))) == 0,
    decreases k,
{
    let g = Seq::new(k, |i: int| zero_row(w));
    if k > 0 {
        assert(g.drop_last() =~= Seq::new((k - 1) as nat, |i: int| zero_row(w)));
        lemma_zero_grid_occ((k - 1) as nat, w);
        lemma_row_occ_zero(w);
    }
}

/// Splitting a grid's occupied cells between its kept rows and its
/// full rows: every full row holds exactly `w` cells.
proof fn lemma_occ_split(g: Seq<Seq<u8>>, w: nat)
    requires
        forall|i: int| 0 <= i < g.len() ==> (#[trigger] g[i]).len() == w,
    ensures
        grid_occ(g) == grid_occ(kept_rows(g)) + full_count(g) * w,
    decreases g.len(),
{
    lemma_kept_rows_len(g);
    if g.len() == 0 {
        assert(kept_rows(g) =~= g);
        assert(full_count(g) == 0);
        assert(full_count(g) * w == 0) by (nonlinear_arith)
            requires
                full_count(g) == 0,
        ;
    } else {
        let h = g.drop_last();
        assert(forall|i: int| 0 <= i < h.len() ==> (#[trigger] h[i]).len() == w);
        lemma_occ_split(h, w);
        lemma_kept_rows_len(h);
        if row_full(g.last()) {
            lemma_row_occ_full(g.last());
            assert(g.last().len() == w);
            assert(kept_rows(g) == kept_rows(h));
            assert(full_count(g) == full_count(h) + 1);
            assert(grid_occ(g) == grid_occ(h) + row_occ(g.last()));
            assert(full_count(g) * w == full_count(h) * w + w) by (nonlinear_arith)
                requires
                    full_count(g) == full_count(h) + 1,
            ;
        } else {
            assert(kept_rows(g) == kept_rows(h).push(g.last()));
            assert(kept_rows(g).drop_last() =~= kept_rows(h));
            assert(grid_occ(kept_rows(g)) == grid_occ(kept_rows(h)) + row_occ(g.last()));
            assert(full_count(g) == full_count(h));
        }
    }
}

/// Line burn is a no-op on a field with no full rows.
pub proof fn lemma_burn_no_full_rows(g: Seq<Seq<u8>>, w: nat)
    requires
        forall|i: int| 0 <= i < g.len() ==> !row_full(#[trigger] g[i]),
    ensures
        burn_grid(g, w) == g,
{
    assert(kept_rows(g) =~= g) by {
        lemma_kept_rows_id(g);
    }
    assert(burn_grid(g, w) =~= g);
}

proof fn lemma_kept_rows_id(g: Seq<Seq<u8>>)
    requires
        forall|i: int| 0 <= i < g.len() ==> !row_full(#[trigger] g[i]),
    ensures
        kept_rows(g) == g,
    decreases g.len(),
{
    if g.len() > 0 {
        let h = g.drop_last();
        assert(forall|i: int| 0 <= i < h.len() ==> !row_full(#[trigger] h[i]));
        lemma_kept_rows_id(h);
        assert(kept_rows(g) =~= g);
    }
}

/// Line burn removes exactly `lines cleared x width` occupied cells:
/// the cells of the burnt rows, and no others.
pub proof fn lemma_burn_occupied(g: Seq<Seq<u8>>, w: nat)
    requires
        forall|i: int| 0 <= i < g.len() ==> (#[trigger] g[i]).len() == w,
    ensures
        grid_occ(burn_grid(g, w)) == grid_occ(g) - full_count(g) * w,
{
    lemma_kept_rows_len(g);
    let zeros = Seq::new(full_count(g) as nat, |i: int| zero_row(w));
    lemma_zero_grid_occ(full_count(g) as nat, w);
    lemma_grid_occ_concat(zeros, kept_rows(g));
    lemma_occ_split(g, w);
}

} // verus!

verus! {

// ---------------------------------------------------------------------
// Determinism of the step relation
// ---------------------------------------------------------------------
proof fn lemma_first_kick_congruent(
    g1: GameState,
    g2: GameState,
    offs: Seq<(int, int)>,
    to: int,
    k: int,
)
    requires
        same_game(g1, g2),
        g1.field.wf(),
        g2.field.wf(),
    ensures
        first_kick(g1, offs, to, k) == first_kick(g2, offs, to, k),
    decreases offs.len() - k,
{
    if 0 <= k < offs.len() {
        let nb = (g1.base@.0 + offs[k].0, g1.base@.1 + offs[k].1);
        lemma_cat_try_congruent(g1.field, g2.field, nb, to, g1.curr_shape_idx as int);
        match cat_try(g1.field, nb, to, g1.curr_shape_idx as int) {
            Some(cells) => {},
            None => {
                lemma_first_kick_congruent(g1, g2, offs, to, k + 1);
            },
        }
    }
}

proof fn lemma_wall_kick_congruent(g1: GameState, g2: GameState, from: int, to: int)
    requires
        same_game(g1, g2),
        g1.field.wf(),
        g2.field.wf(),
    ensures
        wall_kick_spec(g1, from, to) == wall_kick_spec(g2, from, to),
{
    match kick_offsets(g1.curr_shape_idx == 0, from, to) {
        Some(offs) => {
            lemma_first_kick_congruent(g1, g2, offs, to, 0);
        },
        None => {},
    }
}

proof fn lemma_drop_stop_from_congruent(g1: GameState, g2: GameState, i: int, fuel: nat)
    requires
        same_game(g1, g2),
        g1.field.wf(),
        g2.field.wf(),
    ensures
        drop_stop_from(g1, i, fuel) == drop_stop_from(g2, i, fuel),
    decreases fuel,
{
    if fuel > 0 {
        lemma_cat_try_congruent(
            g1.field,
            g2.field,
            (i, g1.base@.1),
            g1.rotation as int,
            g1.curr_shape_idx as int,
        );
        if can_place(g1, i) {
            lemma_drop_stop_from_congruent(g1, g2, i + 1, (fuel - 1) as nat);
        }
    }
}

/// The step relation is deterministic: two observably equal active
/// games given the same action end observably equal and report the
/// same result.  Together with `lemma_initial_reproducible` this gives
/// seeded replay: same seed, same actions, same game, at every step.
#[verifier::rlimit(100)]
pub proof fn lemma_step_deterministic(
    pre1: GameState,
    post1: GameState,
    pre2: GameState,
    post2: GameState,
    action: Action,
    r1: (usize, bool),
    r2: (usize, bool),
)
    requires
        same_game(pre1, pre2),
        pre1.wf(),
        pre2.wf(),
        post1.wf(),
        post2.wf(),
        step_post(pre1, post1, action, r1),
        step_post(pre2, post2, action, r2),
    ensures
        same_game(post1, post2),
        r1 == r2,
{
    if pre1.game_over {
        return ;
    }
    let idx = pre1.curr_shape_idx as int;
    match action {
        Action::Left => {
            lemma_cat_try_congruent(
                pre1.field,
                pre2.field,
                (pre1.base@.0, pre1.base@.1 - 1),
                pre1.rotation as int,
                idx,
            );
        },
        Action::Right => {
            lemma_cat_try_congruent(
                pre1.field,
                pre2.field,
                (pre1.base@.0, pre1.base@.1 + 1),
                pre1.rotation as int,
                idx,
            );
        },
        Action::Down => {
            lemma_cat_try_congruent(
                pre1.field,
                pre2.field,
                (pre1.base@.0 + 1, pre1.base@.1),
                pre1.rotation as int,
                idx,
            );
        },
        Action::Tick => {
            lemma_cat_try_congruent(
                pre1.field,
                pre2.field,
                (pre1.base@.0 + 1, pre1.base@.1),
                pre1.rotation as int,
                idx,
            );
            if !can_move_down(pre1) {
                let lockcells = points_of(pre1.curr_cells@);
                let g1 = draw_grid(pre1.field.grid(), lockcells, (pre1.curr_shape_idx + 1) as u8);
                let sbase = spawn_base(pre1.next_shape_idx as int, pre1.field.width as int);
                lemma_cat_try_congruent(
                    post1.field,
                    post2.field,
                    sbase,
                    0,
                    pre1.next_shape_idx as int,
                );
            }
        },
        Action::RotateCW => {
            lemma_wall_kick_congruent(pre1, pre2, pre1.rotation as int, (pre1.rotation + 1) % 4);
        },
        Action::RotateCCW => {
            lemma_wall_kick_congruent(pre1, pre2, pre1.rotation as int, (pre1.rotation + 3) % 4);
        },
        Action::HardDrop => {
            lemma_cat_try_congruent(
                pre1.field,
                pre2.field,
                (pre1.base@.0, pre1.base@.1),
                pre1.rotation as int,
                idx,
            );
            if can_place(pre1, pre1.base@.0) {
                lemma_drop_stop_from_congruent(
                    pre1,
                    pre2,
                    pre1.base@.0,
                    (pre1.field.height + 40) as nat,
                );
                let stop = drop_stop(pre1);
                lemma_cat_try_congruent(
                    pre1.field,
                    pre2.field,
                    (stop - 1, pre1.base@.1),
                    pre1.rotation as int,
                    idx,
                );
                let lockcells = drop_lock_cells(pre1);
                let sbase = spawn_base(pre1.next_shape_idx as int, pre1.field.width as int);
                lemma_cat_try_congruent(
                    post1.field,
                    post2.field,
                    sbase,
                    0,
                    pre1.next_shape_idx as int,
                );
            }
        },
    }
}

} // verus!

verus! {

// ---------------------------------------------------------------------
// Data-model invariants the machine maintains
// ---------------------------------------------------------------------
/// An active game's cached cells are exactly the legal placement of its
/// current piece at its anchor and rotation.  This cannot sit inside
/// `wf`: the lock sequence (draw, then burn, then spawn) passes through
/// states where the field has changed under the resting piece, and a
/// caller may swap the field wholesale; the lemmas below show every
/// full `step` re-establishes it.
pub open spec fn piece_placed(gs: GameState) -> bool {
    gs.game_over || cat_try(gs.field, gs.base@, gs.rotation as int, gs.curr_shape_idx as int)
        == Some(points_of(gs.curr_cells@))
}

/// Every cell of a grid is empty or names one of the seven pieces.
pub open spec fn cells_in_range(g: Seq<Seq<u8>>) -> bool {
    forall|i: int, j: int|
        0 <= i < g.len() && 0 <= j < g[i].len() ==> (#[trigger] g[i][j]) <= 7
}

/// A freshly reset game satisfies both data-model invariants.
pub proof fn lemma_fresh_state_model(
    gs: GameState,
    config: Config,
    h: int,
    w: int,
    r0: Xoshiro512StarStar,
)
    requires
        fresh_state(gs, config, h, w, r0),
    ensures
        piece_placed(gs),
        cells_in_range(gs.field.grid()),
{
}

proof fn lemma_first_kick_sound(gs: GameState, offs: Seq<(int, int)>, to: int, k: int)
    ensures
        match first_kick(gs, offs, to, k) {
            Some(bc) => cat_try(gs.field, bc.0, to, gs.curr_shape_idx as int) == Some(bc.1),
            None => true,
        },
    decreases offs.len() - k,
{
    if 0 <= k < offs.len() {
        let nb = (gs.base@.0 + offs[k].0, gs.base@.1 + offs[k].1);
        match cat_try(gs.field, nb, to, gs.curr_shape_idx as int) {
            Some(cells) => {},
            None => {
                lemma_first_kick_sound(gs, offs, to, k + 1);
            },
        }
    }
}

/// Cells that lie inside the grid's shape.
pub open spec fn cells_within(g: Seq<Seq<u8>>, cells: Seq<(int, int)>) -> bool {
    forall|k: int|
        0 <= k < cells.len() ==> {
            let c = #[trigger] cells[k];
            &&& 0 <= c.0 < g.len()
            &&& 0 <= c.1 < g[c.0].len()
        }
}

proof fn lemma_draw_grid_range(g: Seq<Seq<u8>>, cells: Seq<(int, int)>, v: u8)
    requires
        cells_in_range(g),
        cells_within(g, cells),
        v <= 7,
    ensures
        cells_in_range(draw_grid(g, cells, v)),
        draw_grid(g, cells, v).len() == g.len(),
        forall|i: int|
            0 <= i < g.len() ==> (#[trigger] draw_grid(g, cells, v)[i]).len() == g[i].len(),
    decreases cells.len(),
{
    if cells.len() > 0 {
        assert(cells_within(g, cells.drop_last()));
        lemma_draw_grid_range(g, cells.drop_last(), v);
        let prev = draw_grid(g, cells.drop_last(), v);
        let c = cells.last();
        let cur = draw_grid(g, cells, v);
        let row = prev[c.0].update(c.1, v);
        assert(0 <= c.0 < g.len() && 0 <= c.1 < g[c.0].len());
        assert(cur == prev.update(c.0, row));
        assert(row.len() == prev[c.0].len());
        assert forall|i: int, j: int|
            0 <= i < cur.len() && 0 <= j < cur[i].len() implies (#[trigger] cur[i][j]) <= 7 by {
            if i == c.0 {
                assert(cur[i] == row);
                if j != c.1 {
                    assert(row[j] == prev[c.0][j]);
                    assert(prev[c.0][j] <= 7);
                } else {
                    assert(row[j] == v);
                }
            } else {
                assert(cur[i] == prev[i]);
                assert(prev[i][j] <= 7);
            }
        }
        assert forall|i: int| 0 <= i < g.len() implies (#[trigger] cur[i]).len() == g[i].len() by {
            if i == c.0 {
                assert(cur[i] == row);
            } else {
                assert(cur[i] == prev[i]);
            }
        }
    }
}

/// A hard drop that starts on a legal placement stops strictly below it,
/// and the row just above the stop is a legal placement.
pub proof fn lemma_drop_stop_sound(gs: GameState, i: int, fuel: nat)
    requires
        can_place(gs, i),
        fuel > 0,
    ensures
        drop_stop_from(gs, i, fuel) > i,
        can_place(gs, drop_stop_from(gs, i, fuel) - 1),
    decreases fuel,
{
    reveal_with_fuel(drop_stop_from, 3);
    if fuel > 1 && can_place(gs, i + 1) {
        lemma_drop_stop_sound(gs, i + 1, (fuel - 1) as nat);
    }
}

proof fn lemma_kept_rows_range(g: Seq<Seq<u8>>)
    requires
        cells_in_range(g),
    ensures
        cells_in_range(kept_rows(g)),
    decreases g.len(),
{
    if g.len() > 0 {
        let h = g.drop_last();
        assert(cells_in_range(h)) by {
            assert forall|i: int, j: int|
                0 <= i < h.len() && 0 <= j < h[i].len() implies (#[trigger] h[i][j]) <= 7 by {
                assert(g[i][j] <= 7);
            }
        }
        lemma_kept_rows_range(h);
        if !row_full(g.last()) {
            assert forall|i: int, j: int|
                0 <= i < kept_rows(g).len() && 0 <= j < kept_rows(g)[i].len() implies (
            #[trigger] kept_rows(g)[i][j]) <= 7 by {
                if i == kept_rows(g).len() - 1 {
                    assert(kept_rows(g)[i] == g.last());
                    assert(g[g.len() - 1][j] <= 7);
                } else {
                    assert(kept_rows(g)[i] == kept_rows(h)[i]);
                }
            }
        }
    }
}

proof fn lemma_burn_grid_range(g: Seq<Seq<u8>>, w: nat)
    requires
        cells_in_range(g),
    ensures
        cells_in_range(burn_grid(g, w)),
{
    lemma_kept_rows_range(g);
    lemma_kept_rows_len(g);
    let zeros = Seq::new(full_count(g) as nat, |i: int| zero_row(w));
    assert forall|i: int, j: int|
        0 <= i < burn_grid(g, w).len() && 0 <= j < burn_grid(g, w)[i].len() implies (
    #[trigger] burn_grid(g, w)[i][j]) <= 7 by {
        if i < zeros.len() {
            assert(burn_grid(g, w)[i] == zero_row(w));
        } else {
            assert(burn_grid(g, w)[i] == kept_rows(g)[i - zeros.len()]);
            assert(kept_rows(g)[i - zeros.len()][j] <= 7);
        }
    }
}

/// Every step of an active game re-establishes both data-model
/// invariants: the piece cache stays the legal placement it names, and
/// no cell value ever leaves 0..=7.
pub proof fn lemma_step_preserves_model(
    pre: GameState,
    post: GameState,
    action: Action,
    r: (usize, bool),
)
    requires
        pre.wf(),
        piece_placed(pre),
        cells_in_range(pre.field.grid()),
        step_post(pre, post, action, r),
    ensures
        piece_placed(post),
        cells_in_range(post.field.grid()),
{
    if pre.game_over {
        return ;
    }
    let idx = pre.curr_shape_idx as int;
    match action {
        Action::Left => {},
        Action::Right => {},
        Action::Down => {},
        Action::Tick => {
            if !can_move_down(pre) {
                let lockcells = points_of(pre.curr_cells@);
                let g1 = draw_grid(pre.field.grid(), lockcells, (pre.curr_shape_idx + 1) as u8);
                assert(cells_within(pre.field.grid(), lockcells)) by {
                    assert forall|k: int| 0 <= k < lockcells.len() implies {
                        let c = #[trigger] lockcells[k];
                        0 <= c.0 < pre.field.grid().len() && 0 <= c.1 < pre.field.grid()[c.0].len()
                    } by {
                        assert(lockcells[k] == pre.curr_cells@[k]@);
                    }
                }
                lemma_draw_grid_range(pre.field.grid(), lockcells, (pre.curr_shape_idx + 1) as u8);
                lemma_burn_grid_range(g1, pre.field.width as nat);
            }
        },
        Action::RotateCW => {
            match kick_offsets(pre.curr_shape_idx == 0, pre.rotation as int, (pre.rotation + 1) % 4) {
                Some(offs) => {
                    lemma_first_kick_sound(pre, offs, (pre.rotation + 1) % 4, 0);
                },
                None => {},
            }
        },
        Action::RotateCCW => {
            match kick_offsets(pre.curr_shape_idx == 0, pre.rotation as int, (pre.rotation + 3) % 4) {
                Some(offs) => {
                    lemma_first_kick_sound(pre, offs, (pre.rotation + 3) % 4, 0);
                },
                None => {},
            }
        },
        Action::HardDrop => {
            if can_place(pre, pre.base@.0) {
                lemma_drop_stop_sound(pre, pre.base@.0, (pre.field.height + 40) as nat);
                let stop = drop_stop(pre);
                lemma_cat_try_cells(
                    pre.field,
                    (stop - 1, pre.base@.1),
                    pre.rotation as int,
                    idx,
                );
                let lockcells = drop_lock_cells(pre);
                let g1 = draw_grid(pre.field.grid(), lockcells, (pre.curr_shape_idx + 1) as u8);
                assert(cells_within(pre.field.grid(), lockcells));
                lemma_draw_grid_range(pre.field.grid(), lockcells, (pre.curr_shape_idx + 1) as u8);
                lemma_burn_grid_range(g1, pre.field.width as nat);
            }
        },
    }
}

} // verus!
