use vstd::prelude::*;
use crate::agent::{DQNState, DQNAction};
use crate::config::{Config, Scoring};
use crate::model::{
    GameState, Action, Point, points_of, cat_try, cat_rotate, placement_ok, same_except_piece,
    step_post, score_delta, fresh_state, lemma_cat_try_base_bounds, lemma_cells_from_cat,
    wall_kick_spec, is_valid, pts_bounded, rotate,
};
use crate::tetrimino::{tetrimino, tetrimino_diffs, tetrimino_parity};

verus! {

/// The engine wrapped as a reinforcement-learning environment: the game
/// state plus how many lines the last applied action burnt.
#[derive(Debug, Clone)]
pub struct TetrisEnv {
    pub gs: GameState,
    pub lines_burnt: usize,
}

// ---------------------------------------------------------------------
// Board features
// ---------------------------------------------------------------------
pub open spec fn abs_i(x: int) -> int {
    if x >= 0 {
        x
    } else {
        -x
    }
}

/// The stack height of column `j`, scanning down from row `i`: the
/// number of rows at or below the topmost occupied cell.
pub open spec fn col_height_from(g: Seq<Seq<u8>>, j: int, i: int) -> int
    decreases g.len() - i
    when 0 <= i <= g.len()
{
    if i >= g.len() {
        0
    } else if g[i][j] != 0 {
        g.len() - i
    } else {
        col_height_from(g, j, i + 1)
    }
}

pub open spec fn col_height(g: Seq<Seq<u8>>, j: int) -> int {
    col_height_from(g, j, 0)
}

/// The per-column stack heights of the whole field.
pub open spec fn heights_of(g: Seq<Seq<u8>>, w: int) -> Seq<u16> {
    Seq::new(w as nat, |j: int| col_height(g, j) as u16)
}

/// How many empty cells sit at or below row `i` of column `j`.
pub open spec fn col_holes_from(g: Seq<Seq<u8>>, j: int, i: int) -> int
    decreases g.len() - i
    when 0 <= i <= g.len()
{
    if i >= g.len() {
        0
    } else {
        (if g[i][j] == 0 {
            1int
        } else {
            0int
        }) + col_holes_from(g, j, i + 1)
    }
}

/// The holes of the first `j` columns: empty cells beneath each
/// column's topmost block.
pub open spec fn holes_sum(g: Seq<Seq<u8>>, hs: Seq<u16>, j: int) -> int
    decreases j,
{
    if j <= 0 {
        0
    } else {
        holes_sum(g, hs, j - 1) + col_holes_from(g, j - 1, g.len() - hs[j - 1])
    }
}

pub open spec fn sum_holes_spec(g: Seq<Seq<u8>>, hs: Seq<u16>) -> int {
    holes_sum(g, hs, hs.len() as int)
}

/// The total of the first `j` column heights.
pub open spec fn heights_sum(hs: Seq<u16>, j: int) -> int
    decreases j,
{
    if j <= 0 {
        0
    } else {
        heights_sum(hs, j - 1) + hs[j - 1]
    }
}

pub open spec fn sum_height_spec(hs: Seq<u16>) -> int {
    heights_sum(hs, hs.len() as int)
}

/// The total absolute height difference between adjacent columns,
/// over the first `j` columns.
pub open spec fn bumps_sum(hs: Seq<u16>, j: int) -> int
    decreases j,
{
    if j <= 1 {
        0
    } else {
        bumps_sum(hs, j - 1) + abs_i(hs[j - 1] - hs[j - 2])
    }
}

pub open spec fn sum_bumps_spec(hs: Seq<u16>) -> int {
    bumps_sum(hs, hs.len() as int)
}

/// What the condensed observation of an environment must hold.
pub open spec fn dqn_state_matches(st: DQNState, env: TetrisEnv) -> bool {
    let g = env.gs.field.grid();
    let hs = heights_of(g, env.gs.field.width as int);
    &&& st.lines_burnt == env.lines_burnt
    &&& st.sum_holes as int == sum_holes_spec(g, hs)
    &&& st.sum_bumps as int == sum_bumps_spec(hs)
    &&& st.sum_height as int == sum_height_spec(hs)
    &&& st.curr_shape_idx == env.gs.curr_shape_idx
}

proof fn lemma_col_height_prefix(g: Seq<Seq<u8>>, j: int, i: int)
    requires
        0 <= i <= g.len(),
        forall|q: int| 0 <= q < i ==> g[q][j] == 0,
    ensures
        col_height(g, j) == col_height_from(g, j, i),
    decreases i,
{
    if i > 0 {
        lemma_col_height_prefix(g, j, i - 1);
    }
}

proof fn lemma_col_height_le(g: Seq<Seq<u8>>, j: int, i: int)
    requires
        0 <= i <= g.len(),
    ensures
        0 <= col_height_from(g, j, i) <= g.len() - i,
    decreases g.len() - i,
{
    if i < g.len() {
        lemma_col_height_le(g, j, i + 1);
    }
}

proof fn lemma_col_holes_le(g: Seq<Seq<u8>>, j: int, i: int)
    requires
        0 <= i <= g.len(),
    ensures
        0 <= col_holes_from(g, j, i) <= g.len() - i,
    decreases g.len() - i,
{
    if i < g.len() {
        lemma_col_holes_le(g, j, i + 1);
    }
}

/// Adopting a requested placement before a hard drop: committed when it
/// is legal, ignored otherwise.
pub open spec fn adopted(pre: GameState, a: DQNAction, mid: GameState) -> bool {
    match cat_try(pre.field, a.base@, a.rotation as int, pre.curr_shape_idx as int) {
        Some(cells) => {
            &&& same_except_piece(pre, mid)
            &&& mid.base == a.base
            &&& mid.rotation == a.rotation
            &&& points_of(mid.curr_cells@) == cells
            &&& mid.curr_cells@.len() == 4
        },
        None => mid == pre,
    }
}

pub proof fn lemma_score_delta_nonneg(sc: Scoring, b: int, w: int)
    requires
        0 <= b,
        0 <= w,
    ensures
        score_delta(sc, b, w) >= 0,
{
    match sc {
        Scoring::BurnOnly => {},
        Scoring::PieceAndBurn => {
            assert(b * b * w >= 0) by (nonlinear_arith)
                requires
                    0 <= b,
                    0 <= w,
            ;
        },
    }
}

/// One `step` never lowers the score.
pub proof fn lemma_step_score_monotone(pre: GameState, post: GameState, a: Action, r: (
    usize,
    bool,
))
    requires
        step_post(pre, post, a, r),
        pre.field.wf(),
    ensures
        post.score >= pre.score,
{
    if !pre.game_over {
        match a {
            Action::Tick => {
                if !crate::model::can_move_down(pre) {
                    lemma_score_delta_nonneg(
                        pre.config.scoring,
                        r.0 as int,
                        pre.field.width as int,
                    );
                }
            },
            Action::HardDrop => {
                if crate::model::can_place(pre, pre.base@.0) {
                    lemma_score_delta_nonneg(
                        pre.config.scoring,
                        r.0 as int,
                        pre.field.width as int,
                    );
                }
            },
            _ => {},
        }
    }
}

impl TetrisEnv {
    /// A fresh environment over the standard 22 x 10 field with the
    /// default configuration.
    pub fn new(seed: Option<u64>) -> (env: TetrisEnv)
        ensures
            env.gs.wf(),
            seed matches Some(s) ==> fresh_state(
                env.gs,
                env.gs.config,
                22,
                10,
                crate::rng::rng_state_of_seed(s),
            ),
            exists|r0: rand_xoshiro::Xoshiro512StarStar|
                #[trigger] fresh_state(env.gs, env.gs.config, 22, 10, r0),
            env.lines_burnt == 0,
    {
        TetrisEnv { gs: GameState::initial(22, 10, Config::default(), seed), lines_burnt: 0 }
    }

    /// Per-column stack heights: for each column, the number of rows at
    /// or below its topmost occupied cell.
    pub fn get_block_heights(&self) -> (heights: Vec<u16>)
        requires
            self.gs.field.wf(),
            self.gs.field.height <= 65535,
        ensures
            heights@ == heights_of(self.gs.field.grid(), self.gs.field.width as int),
            heights@.len() == self.gs.field.width,
            forall|j: int| 0 <= j < heights@.len() ==> (#[trigger] heights@[j]) as int <= self.gs.field.height,
    {
        let n = self.gs.field.width;
        let m = self.gs.field.height;
        let ghost g = self.gs.field.grid();
        let mut heights: Vec<u16> = Vec::new();
        let mut j: usize = 0;
        while j < n
            invariant
                j <= n,
                self.gs.field.wf(),
                m == self.gs.field.height,
                n == self.gs.field.width,
                m <= 65535,
                g == self.gs.field.grid(),
                heights@.len() == j,
                forall|q: int| 0 <= q < j ==> (#[trigger] heights@[q]) as int == col_height(g, q),
                forall|q: int| 0 <= q < j ==> (#[trigger] heights@[q]) as int <= m,
            decreases n - j,
        {
            let mut block_height: u16 = 0;
            let mut i: usize = 0;
            let mut found = false;
            while i < m
                invariant_except_break
                    i <= m,
                    !found,
                    self.gs.field.wf(),
                    m == self.gs.field.height,
                    n == self.gs.field.width,
                    m <= 65535,
                    j < n,
                    g == self.gs.field.grid(),
                    block_height == 0,
                    forall|q: int| 0 <= q < i ==> g[q][j as int] == 0,
                ensures
                    found ==> block_height as int == col_height(g, j as int),
                    !found ==> block_height == 0 && (forall|q: int|
                        0 <= q < m ==> g[q][j as int] == 0),
                decreases m - i,
            {
                if self.gs.field.cells[i][j] > 0 {
                    block_height = (m - i) as u16;
                    proof {
                        lemma_col_height_prefix(g, j as int, i as int);
                    }
                    found = true;
                    break;
                }
                i += 1;
            }
            proof {
                if !found {
                    lemma_col_height_prefix(g, j as int, m as int);
                }
                lemma_col_height_le(g, j as int, 0);
            }
            heights.push(block_height);
            j += 1;
        }
        proof {
            assert(heights@ =~= heights_of(g, n as int));
        }
        heights
    }

    /// Empty cells hidden beneath each column's topmost block, summed
    /// over all columns.
    pub fn get_sum_holes(&self, block_heights: &[u16]) -> (holes: u16)
        requires
            self.gs.field.wf(),
            self.gs.field.height * self.gs.field.width <= 65535,
            block_heights@.len() == self.gs.field.width,
            forall|j: int| 0 <= j < block_heights@.len() ==> (#[trigger] block_heights@[j]) as int
                <= self.gs.field.height,
        ensures
            holes as int == sum_holes_spec(self.gs.field.grid(), block_heights@),
    {
        let n = self.gs.field.width;
        let m = self.gs.field.height;
        let ghost g = self.gs.field.grid();
        let ghost hs = block_heights@;
        let mut sum_holes: u16 = 0;
        let mut j: usize = 0;
        while j < n
            invariant
                j <= n,
                self.gs.field.wf(),
                m == self.gs.field.height,
                n == self.gs.field.width,
                m * n <= 65535,
                g == self.gs.field.grid(),
                hs == block_heights@,
                hs.len() == n,
                forall|q: int| 0 <= q < hs.len() ==> (#[trigger] hs[q]) as int <= m,
                sum_holes as int == holes_sum(g, hs, j as int),
                sum_holes as int <= j * m,
            decreases n - j,
        {
            let m1 = m - (block_heights[j] as usize);
            let mut col: u16 = 0;
            let mut i: usize = m1;
            while i < m
                invariant
                    m1 <= i <= m,
                    self.gs.field.wf(),
                    m == self.gs.field.height,
                    n == self.gs.field.width,
                    m * n <= 65535,
                    j < n,
                    g == self.gs.field.grid(),
                    col as int + col_holes_from(g, j as int, i as int) == col_holes_from(
                        g,
                        j as int,
                        m1 as int,
                    ),
                    col as int <= i - m1,
                decreases m - i,
            {
                proof {
                    lemma_col_holes_le(g, j as int, i as int + 1);
                    assert(m <= m * n) by (nonlinear_arith)
                        requires
                            1 <= n,
                            0 <= m,
                    ;
                    assert(col as int <= i - m1);
                }
                if self.gs.field.cells[i][j] == 0 {
                    col = col + 1;
                }
                i += 1;
            }
            proof {
                assert(col as int == col_holes_from(g, j as int, m1 as int));
                lemma_col_holes_le(g, j as int, m1 as int);
                assert((j as int + 1) * m <= m * n) by (nonlinear_arith)
                    requires
                        j as int + 1 <= n,
                        0 <= m,
                ;
                assert((j as int) * m + m == (j as int + 1) * m) by (nonlinear_arith);
            }
            sum_holes = sum_holes + col;
            j += 1;
        }
        sum_holes
    }

    /// The sum of all column heights.
    pub fn get_sum_height(&self, block_heights: &[u16]) -> (total: u16)
        requires
            self.gs.field.wf(),
            self.gs.field.height * self.gs.field.width <= 65535,
            block_heights@.len() == self.gs.field.width,
            forall|j: int| 0 <= j < block_heights@.len() ==> (#[trigger] block_heights@[j]) as int
                <= self.gs.field.height,
        ensures
            total as int == sum_height_spec(block_heights@),
    {
        let n = self.gs.field.width;
        let ghost m = self.gs.field.height as int;
        let ghost hs = block_heights@;
        let mut total: u16 = 0;
        let mut j: usize = 0;
        while j < n
            invariant
                j <= n,
                n == self.gs.field.width,
                m == self.gs.field.height as int,
                m * n <= 65535,
                0 <= m,
                hs == block_heights@,
                hs.len() == n,
                forall|q: int| 0 <= q < hs.len() ==> (#[trigger] hs[q]) as int <= m,
                total as int == heights_sum(hs, j as int),
                total as int <= j * m,
            decreases n - j,
        {
            proof {
                assert(hs[j as int] as int <= m);
                assert((j as int + 1) * m <= m * n) by (nonlinear_arith)
                    requires
                        j as int + 1 <= n,
                        0 <= m,
                ;
                assert((j as int) * m + m == (j as int + 1) * m) by (nonlinear_arith);
            }
            total = total + block_heights[j];
            j += 1;
        }
        total
    }

    /// The sum of absolute height differences between adjacent columns.
    pub fn get_sum_bumps(&self, block_heights: &[u16]) -> (bumps: u16)
        requires
            self.gs.field.wf(),
            self.gs.field.height * self.gs.field.width <= 65535,
            block_heights@.len() == self.gs.field.width,
            forall|j: int| 0 <= j < block_heights@.len() ==> (#[trigger] block_heights@[j]) as int
                <= self.gs.field.height,
        ensures
            bumps as int == sum_bumps_spec(block_heights@),
    {
        let n = self.gs.field.width;
        let ghost m = self.gs.field.height as int;
        let ghost hs = block_heights@;
        let mut sum_bumps: u16 = 0;
        if n == 0 {
            return 0;
        }
        let mut j: usize = 1;
        while j < n
            invariant
                1 <= j <= n || (n == 0 && j == 1),
                n == self.gs.field.width,
                m == self.gs.field.height as int,
                m * n <= 65535,
                0 <= m,
                hs == block_heights@,
                hs.len() == n,
                forall|q: int| 0 <= q < hs.len() ==> (#[trigger] hs[q]) as int <= m,
                sum_bumps as int == bumps_sum(hs, j as int),
                sum_bumps as int <= (j - 1) * m,
            decreases n - j,
        {
            let h1 = block_heights[j - 1];
            let h2 = block_heights[j];
            let bump: u16 = if h1 > h2 {
                h1 - h2
            } else {
                h2 - h1
            };
            proof {
                assert(bump as int == abs_i(hs[j as int] - hs[j as int - 1]));
                assert(bump as int <= m);
                assert((j as int) * m <= m * n) by (nonlinear_arith)
                    requires
                        j as int <= n,
                        0 <= m,
                ;
                assert((j as int - 1) * m + m == (j as int) * m) by (nonlinear_arith);
            }
            sum_bumps = sum_bumps + bump;
            j += 1;
        }
        sum_bumps
    }

    /// Condense the board into the observation an agent consumes.
    fn convert_to_dqn_state(&self) -> (st: DQNState)
        requires
            self.gs.field.wf(),
            self.gs.field.height <= 65535,
            self.gs.field.height * self.gs.field.width <= 65535,
        ensures
            dqn_state_matches(st, *self),
    {
        let block_heights = self.get_block_heights();
        DQNState {
            lines_burnt: self.lines_burnt,
            sum_holes: self.get_sum_holes(block_heights.as_slice()),
            sum_bumps: self.get_sum_bumps(block_heights.as_slice()),
            sum_height: self.get_sum_height(block_heights.as_slice()),
            curr_shape_idx: self.gs.curr_shape_idx,
        }
    }

    /// Reset the game and report the fresh observation.
    pub fn reset(&mut self) -> (st: DQNState)
        requires
            old(self).gs.field.wf(),
            old(self).gs.field.height <= 65535,
            old(self).gs.field.height * old(self).gs.field.width <= 65535,
        ensures
            final(self).gs.wf(),
            fresh_state(
                final(self).gs,
                old(self).gs.config,
                old(self).gs.field.height as int,
                old(self).gs.field.width as int,
                old(self).gs.rng,
            ),
            final(self).lines_burnt == 0,
            dqn_state_matches(st, *final(self)),
    {
        self.gs.reset();
        self.lines_burnt = 0;
        self.convert_to_dqn_state()
    }

    /// Adopt a requested placement when it is legal, hard-drop, and
    /// report the new observation, the score gained, and whether the
    /// game ended.
    pub fn step(&mut self, dqn_action: DQNAction) -> (res: (DQNState, u32, bool))
        requires
            old(self).gs.wf(),
            0 <= dqn_action.rotation < 4,
            dqn_action.base.bounded(),
            !old(self).gs.game_over ==> old(self).gs.score + score_delta(
                old(self).gs.config.scoring,
                old(self).gs.field.height as int,
                old(self).gs.field.width as int,
            ) <= u32::MAX,
            old(self).gs.field.height <= 65535,
            old(self).gs.field.height * old(self).gs.field.width <= 65535,
        ensures
            final(self).gs.wf(),
            res.2 == final(self).gs.game_over,
            res.1 == final(self).gs.score - old(self).gs.score,
            res.0.lines_burnt == final(self).lines_burnt,
            dqn_state_matches(res.0, *final(self)),
            exists|mid: GameState|
                {
                    &&& #[trigger] adopted(old(self).gs, dqn_action, mid)
                    &&& step_post(
                        mid,
                        final(self).gs,
                        Action::HardDrop,
                        (final(self).lines_burnt, res.2),
                    )
                },
    {
        let old_score = self.gs.score;
        let tried = self.gs.try_current_shape(&dqn_action.base, dqn_action.rotation);
        match tried {
            Some(cells) => {
                proof {
                    lemma_cat_try_base_bounds(
                        self.gs.field,
                        dqn_action.base@,
                        dqn_action.rotation as int,
                        self.gs.curr_shape_idx as int,
                    );
                    lemma_cells_from_cat(
                        self.gs.field,
                        dqn_action.base@,
                        dqn_action.rotation as int,
                        self.gs.curr_shape_idx as int,
                        cells@,
                    );
                }
                self.gs.base = dqn_action.base;
                self.gs.rotation = dqn_action.rotation;
                self.gs.curr_cells = cells;
            },
            None => {},
        }
        let ghost mid = self.gs;
        let stepped = self.gs.step(Action::HardDrop);
        self.lines_burnt = stepped.0;
        proof {
            lemma_step_score_monotone(mid, self.gs, Action::HardDrop, stepped);
        }
        let reward = self.gs.score - old_score;
        let st = self.convert_to_dqn_state();
        proof {
            assert(adopted(old(self).gs, dqn_action, mid));
        }
        (st, reward, self.gs.game_over)
    }
}

} // verus!

verus! {

// ---------------------------------------------------------------------
// Enumerating resting placements
// ---------------------------------------------------------------------
/// How many distinct rotations are worth trying per piece kind: the O
/// piece has one, I, S and Z two, and T, J, L all four.
pub open spec fn rot_count(idx: int) -> int {
    if idx == 1 {
        1
    } else if idx == 0 || idx == 3 || idx == 4 {
        2
    } else {
        4
    }
}

/// Is the placement at anchor `b` shifted `dj` columns legal?
pub open spec fn shift_ok(gs: GameState, b: (int, int), r: int, dj: int) -> bool {
    placement_ok(gs.field, (b.0, b.1 + dj), cat_rotate(gs.curr_shape_idx as int, r))
}

/// The length of the maximal run of legal shifts `1..=run` in direction
/// `dir`, probing columns outward from the anchor like the scan does.
pub open spec fn scan_run(gs: GameState, b: (int, int), r: int, dir: int, t: int) -> int
    decreases gs.field.width + 1 - t
    when 1 <= t <= gs.field.width + 1
{
    if t >= gs.field.width {
        t - 1
    } else if shift_ok(gs, b, r, dir * t) {
        scan_run(gs, b, r, dir, t + 1)
    } else {
        t - 1
    }
}

/// The column shifts that admit the piece at rotation `r`, anchored at
/// `b`: a contiguous run to the left, the anchor column itself if it
/// fits, and a contiguous run to the right, in ascending order.
pub open spec fn shifts_for(gs: GameState, b: (int, int), r: int) -> Seq<int> {
    let l = scan_run(gs, b, r, -1, 1);
    let rr = scan_run(gs, b, r, 1, 1);
    Seq::new(l as nat, |i: int| i - l) + (if shift_ok(gs, b, r, 0) {
        seq![0int]
    } else {
        Seq::empty()
    }) + Seq::new(rr as nat, |i: int| i + 1)
}

pub open spec fn actions_for(gs: GameState, b: (int, int), r: int) -> Seq<DQNAction> {
    shifts_for(gs, b, r).map_values(
        |dj: int|
            DQNAction { base: Point(b.0 as i32, (b.1 + dj) as i32), rotation: r as i8 },
    )
}

/// The actions contributed by rotations `k` and beyond: rotation 0 uses
/// the spawn anchor; a later rotation uses its wall-kicked anchor, and a
/// rotation that cannot kick at all cuts the enumeration short.
pub open spec fn actions_from(gs: GameState, k: int) -> Seq<DQNAction>
    decreases rot_count(gs.curr_shape_idx as int) - k
    when 0 <= k <= rot_count(gs.curr_shape_idx as int)
{
    if k >= rot_count(gs.curr_shape_idx as int) {
        Seq::empty()
    } else if k == 0 {
        actions_for(gs, gs.base@, 0) + actions_from(gs, 1)
    } else {
        match wall_kick_spec(gs, k - 1, k) {
            Some(bc) => actions_for(gs, bc.0, k) + actions_from(gs, k + 1),
            None => Seq::empty(),
        }
    }
}

/// Every legal resting placement of the current piece reachable by
/// sideways moves at each reachable rotation, sorted by column shift.
pub open spec fn valid_actions_spec(gs: GameState) -> Seq<DQNAction> {
    actions_from(gs, 0)
}

impl TetrisEnv {
    /// Enumerate the placements an agent may request for the current
    /// piece: for each reachable rotation, every column the piece can
    /// slide to, in ascending column order.
    #[verifier::rlimit(100)]
    pub fn get_valid_actions(&self) -> (valid_actions: Vec<DQNAction>)
        requires
            self.gs.wf(),
        ensures
            valid_actions@ == valid_actions_spec(self.gs),
    {
        let idx = self.gs.curr_shape_idx;
        let nrot: i8 = if idx == 1 {
            1
        } else if idx == 0 || idx == 3 || idx == 4 {
            2
        } else {
            4
        };
        let n = self.gs.field.width;
        let shape = tetrimino(idx);
        let mut valid_actions: Vec<DQNAction> = Vec::new();
        let mut rotation: i8 = 0;
        while rotation < nrot
            invariant_except_break
                0 <= rotation <= nrot,
                nrot as int == rot_count(idx as int),
                idx == self.gs.curr_shape_idx,
                n == self.gs.field.width,
                self.gs.wf(),
                shape.wf(),
                points_of(shape.diffs@) == tetrimino_diffs(idx as int),
                shape.parity@ == tetrimino_parity(idx as int),
                valid_actions@ + actions_from(self.gs, rotation as int) == valid_actions_spec(
                    self.gs,
                ),
            ensures
                valid_actions@ == valid_actions_spec(self.gs),
            decreases nrot - rotation,
        {
            let gs_base: Point;
            if rotation > 0 {
                match self.gs.wall_kick_current_shape((rotation - 1, rotation)) {
                    Some(bc) => {
                        gs_base = bc.0;
                    },
                    None => {
                        proof {
                            assert(actions_from(self.gs, rotation as int) =~= Seq::empty());
                            assert(valid_actions@ =~= valid_actions_spec(self.gs));
                        }
                        break;
                    },
                }
            } else {
                gs_base = self.gs.base;
            }
            let ghost b = gs_base@;
            proof {
                assert(-16 <= b.0 <= self.gs.field.height as int + 16);
                assert(-16 <= b.1 <= self.gs.field.width as int + 16);
            }
            let rotated = rotate(&shape, rotation);
            proof {
                assert(points_of(rotated@) == cat_rotate(idx as int, rotation as int));
                assert(pts_bounded(rotated@));
            }
            // how far the piece slides to the left
            let mut dj: usize = 1;
            while dj < n
                invariant_except_break
                    1 <= dj <= n || (n == 0 && dj == 1),
                    self.gs.wf(),
                    n == self.gs.field.width,
                    idx == self.gs.curr_shape_idx,
                    -16 <= b.0 <= self.gs.field.height as int + 16,
                    -16 <= b.1 <= self.gs.field.width as int + 16,
                    b == gs_base@,
                    points_of(rotated@) == cat_rotate(idx as int, rotation as int),
                    pts_bounded(rotated@),
                    scan_run(self.gs, b, rotation as int, -1, 1) == scan_run(
                        self.gs,
                        b,
                        rotation as int,
                        -1,
                        dj as int,
                    ),
                    forall|t: int| 1 <= t < dj ==> #[trigger] shift_ok(self.gs, b, rotation as int, -t),
                ensures
                    1 <= dj,
                    dj <= n || (n == 0 && dj == 1),
                    scan_run(self.gs, b, rotation as int, -1, 1) == dj - 1,
                decreases n - dj,
            {
                let bj = Point(gs_base.0, gs_base.1 - dj as i32);
                if !is_valid(&self.gs.field, &bj, &rotated) {
                    proof {
                        assert(!shift_ok(self.gs, b, rotation as int, -(dj as int)));
                        assert(scan_run(self.gs, b, rotation as int, -1, dj as int) == dj - 1);
                    }
                    break;
                }
                proof {
                    assert(shift_ok(self.gs, b, rotation as int, -(dj as int)));
                }
                dj += 1;
            }
            let l_count = dj - 1;
            // how far it slides to the right
            let mut dk: usize = 1;
            while dk < n
                invariant_except_break
                    1 <= dk <= n || (n == 0 && dk == 1),
                    self.gs.wf(),
                    n == self.gs.field.width,
                    idx == self.gs.curr_shape_idx,
                    -16 <= b.0 <= self.gs.field.height as int + 16,
                    -16 <= b.1 <= self.gs.field.width as int + 16,
                    b == gs_base@,
                    points_of(rotated@) == cat_rotate(idx as int, rotation as int),
                    pts_bounded(rotated@),
                    scan_run(self.gs, b, rotation as int, 1, 1) == scan_run(
                        self.gs,
                        b,
                        rotation as int,
                        1,
                        dk as int,
                    ),
                    forall|t: int| 1 <= t < dk ==> #[trigger] shift_ok(self.gs, b, rotation as int, t),
                ensures
                    1 <= dk,
                    dk <= n || (n == 0 && dk == 1),
                    scan_run(self.gs, b, rotation as int, 1, 1) == dk - 1,
                decreases n - dk,
            {
                let bj = Point(gs_base.0, gs_base.1 + dk as i32);
                if !is_valid(&self.gs.field, &bj, &rotated) {
                    proof {
                        assert(!shift_ok(self.gs, b, rotation as int, dk as int));
                        assert(scan_run(self.gs, b, rotation as int, 1, dk as int) == dk - 1);
                    }
                    break;
                }
                proof {
                    assert(shift_ok(self.gs, b, rotation as int, dk as int));
                }
                dk += 1;
            }
            let r_count = dk - 1;
            // assemble this rotation's actions in ascending column order
            let ghost l = l_count as int;
            let ghost rr = r_count as int;
            let mut seg: Vec<DQNAction> = Vec::new();
            let mut t: usize = 0;
            while t < l_count
                invariant
                    t <= l_count,
                    l_count <= n,
                    n <= 1000000,
                    -16 <= b.0 <= 1000016,
                    -16 <= b.1 <= n + 16,
                    b == gs_base@,
                    l == l_count as int,
                    seg@.len() == t,
                    forall|q: int|
                        0 <= q < t ==> (#[trigger] seg@[q]) == (DQNAction {
                            base: Point(b.0 as i32, (b.1 + (q - l)) as i32),
                            rotation: rotation,
                        }),
                decreases l_count - t,
            {
                seg.push(
                    DQNAction {
                        base: Point(gs_base.0, gs_base.1 - (l_count as i32 - t as i32)),
                        rotation,
                    },
                );
                t += 1;
            }
            let bj0 = Point(gs_base.0, gs_base.1);
            let ok0 = is_valid(&self.gs.field, &bj0, &rotated);
            if ok0 {
                seg.push(DQNAction { base: bj0, rotation });
                proof {
                    assert(shift_ok(self.gs, b, rotation as int, 0));
                }
            } else {
                proof {
                    assert(!shift_ok(self.gs, b, rotation as int, 0));
                }
            }
            let ghost mid_len = seg@.len() as int;
            let mut u: usize = 1;
            while u <= r_count
                invariant
                    1 <= u <= r_count + 1,
                    r_count <= n,
                    l_count <= n,
                    n <= 1000000,
                    -16 <= b.0 <= 1000016,
                    -16 <= b.1 <= n + 16,
                    b == gs_base@,
                    l == l_count as int,
                    mid_len == l + (if shift_ok(self.gs, b, rotation as int, 0) {
                        1int
                    } else {
                        0int
                    }),
                    seg@.len() == mid_len + u - 1,
                    forall|q: int|
                        0 <= q < l ==> (#[trigger] seg@[q]) == (DQNAction {
                            base: Point(b.0 as i32, (b.1 + (q - l)) as i32),
                            rotation: rotation,
                        }),
                    shift_ok(self.gs, b, rotation as int, 0) ==> seg@[l] == (DQNAction {
                        base: Point(b.0 as i32, b.1 as i32),
                        rotation: rotation,
                    }),
                    forall|q: int|
                        mid_len <= q < seg@.len() ==> (#[trigger] seg@[q]) == (DQNAction {
                            base: Point(b.0 as i32, (b.1 + (q - mid_len + 1)) as i32),
                            rotation: rotation,
                        }),
                decreases r_count + 1 - u,
            {
                seg.push(DQNAction { base: Point(gs_base.0, gs_base.1 + u as i32), rotation });
                u += 1;
            }
            proof {
                assert(seg@ =~= actions_for(self.gs, b, rotation as int));
                assert(actions_from(self.gs, rotation as int) == actions_for(
                    self.gs,
                    b,
                    rotation as int,
                ) + actions_from(self.gs, rotation as int + 1));
            }
            let mut seg_moved = seg;
            valid_actions.append(&mut seg_moved);
            proof {
                assert(valid_actions@ + actions_from(self.gs, rotation as int + 1)
                    =~= valid_actions_spec(self.gs));
            }
            rotation = rotation + 1;
        }
        valid_actions
    }
}

} // verus!
