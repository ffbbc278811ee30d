use vstd::prelude::*;
use crate::grid::{
    Cell, on_board, board_fits, cell_index, index_cell, lemma_cell_index, lemma_index_cell,
    lemma_distinct_cells_fit, lemma_free_cell_exists,
};
use crate::rand::{Rng, xorshift, nonzero};

verus! {

/// Reward for running into a wall or into the snake's own body, in hundredths.
pub const CRASH_REWARD: i32 = -1000;

/// Reward for eating the food, in hundredths.
pub const FOOD_REWARD: i32 = 1000;

/// Reward when the step budget runs out, in hundredths.
pub const TIMEOUT_REWARD: i32 = -100;

/// Reward for any other move, in hundredths.
pub const MOVE_REWARD: i32 = -2;

/// Observation code of the snake's head (a weight of one).
pub const HEAD_CODE: i8 = 2;

/// Observation code of the rest of the body (a weight of one half).
pub const BODY_CODE: i8 = 1;

/// Observation code of the food (a weight of minus one).
pub const FOOD_CODE: i8 = -2;

/// The outcome of one move.
///
/// `obs` holds one code per board cell in row-major order, then four entries
/// for the heading (up, right, down, left), all in halves: a code `c` stands
/// for the weight `c / 2`. `reward` is in hundredths.
pub struct Step {
    pub obs: Vec<i8>,
    pub reward: i32,
    pub done: bool,
}

/// The heading after `action`: 0 keeps it, 1 turns left, 2 turns right.
pub open spec fn turn(dir: usize, action: usize) -> usize {
    if action == 0 {
        dir
    } else if action == 1 {
        ((dir + 3) % 4) as usize
    } else {
        ((dir + 1) % 4) as usize
    }
}

/// The move of one cell along a heading: up, right, down, left.
pub open spec fn delta(dir: usize) -> (int, int) {
    if dir == 0 {
        (0, -1)
    } else if dir == 1 {
        (1, 0)
    } else if dir == 2 {
        (0, 1)
    } else {
        (-1, 0)
    }
}

fn heading_delta(dir: usize) -> (d: (i32, i32))
    requires
        dir < 4,
    ensures
        d.0 == delta(dir).0,
        d.1 == delta(dir).1,
{
    if dir == 0 {
        (0, -1)
    } else if dir == 1 {
        (1, 0)
    } else if dir == 2 {
        (0, 1)
    } else {
        (-1, 0)
    }
}

/// The cell drawn from `state` by `below(w)` for the column and then
/// `below(h)` for the row, and the state after the two draws.
pub open spec fn draw_cell(state: u64, w: usize, h: usize) -> (Cell, u64) {
    let a = xorshift(state);
    let b = xorshift(nonzero(a));
    (((a % (w as u64)) as i32, (b % (h as u64)) as i32), nonzero(b))
}

/// The state after `k` cells have been drawn from `state`.
pub open spec fn after_draws(state: u64, w: usize, h: usize, k: nat) -> u64
    decreases k,
{
    if k == 0 {
        state
    } else {
        draw_cell(after_draws(state, w, h, (k - 1) as nat), w, h).1
    }
}

/// Cell number `k` drawn from `state`.
pub open spec fn nth_draw(state: u64, w: usize, h: usize, k: nat) -> Cell {
    draw_cell(after_draws(state, w, h, k), w, h).0
}

/// `c` is where food lands on a `w` by `h` board around `body` when the
/// generator goes from `s0` to `s1`: the first drawn cell off the body; or,
/// should `u64::MAX` draws all land on the body, the first free cell in
/// row-major order.
pub open spec fn spawned(s0: u64, s1: u64, w: usize, h: usize, body: Seq<Cell>, c: Cell) -> bool {
    ||| exists|k: nat|
        {
            &&& k < u64::MAX
            &&& #[trigger] nth_draw(s0, w, h, k) == c
            &&& !body.contains(c)
            &&& forall|j: nat| j < k ==> body.contains(#[trigger] nth_draw(s0, w, h, j))
            &&& s1 == after_draws(s0, w, h, k + 1)
        }
    ||| {
        &&& forall|j: nat| j < u64::MAX ==> body.contains(#[trigger] nth_draw(s0, w, h, j))
        &&& s1 == after_draws(s0, w, h, u64::MAX as nat)
        &&& on_board(w as int, h as int, c)
        &&& !body.contains(c)
        &&& forall|d: Cell|
            on_board(w as int, h as int, d) && (d.1 < c.1 || (d.1 == c.1 && d.0 < c.0))
                ==> #[trigger] body.contains(d)
    }
}

/// Snake on a `w` by `h` board: steer left, right or straight, eat the food to
/// grow, and die on walls, on yourself, or when the step budget runs out.
pub struct Snake {
    pub w: usize,
    pub h: usize,
    pub max_steps: usize,
    /// The cells of the snake, head first.
    pub body: Vec<Cell>,
    /// The heading: 0 up, 1 right, 2 down, 3 left.
    pub dir: usize,
    pub food: Cell,
    pub steps: usize,
}

fn has_cell(cells: &Vec<Cell>, c: Cell) -> (r: bool)
    ensures
        r == cells@.contains(c),
{
    let mut i: usize = 0;
    while i < cells.len()
        invariant
            i <= cells@.len(),
            forall|j: int| 0 <= j < i ==> cells@[j] != c,
        decreases cells@.len() - i,
    {
        let d = cells[i];
        if d.0 == c.0 && d.1 == c.1 {
            assert(cells@[i as int] == c);
            return true;
        }
        i = i + 1;
    }
    false
}

impl Snake {
    pub open spec fn on_board(&self, c: Cell) -> bool {
        on_board(self.w as int, self.h as int, c)
    }

    /// The board's size fits the coordinate and observation types.
    pub open spec fn dims_ok(&self) -> bool {
        board_fits(self.w as int, self.h as int)
    }

    /// A game in progress: every cell of the snake is on the board and no two
    /// coincide, the food is on the board, and the heading is one of four.
    pub open spec fn wf(&self) -> bool {
        &&& self.dims_ok()
        &&& self.dir < 4
        &&& 1 <= self.body@.len()
        &&& self.body@.no_duplicates()
        &&& forall|i: int| 0 <= i < self.body@.len() ==> self.on_board(#[trigger] self.body@[i])
        &&& self.on_board(self.food)
    }

    /// The food lies on a free cell.
    pub open spec fn food_free(&self) -> bool {
        !self.body@.contains(self.food)
    }

    /// The code of observation entry `k`.
    pub open spec fn code_at(&self, k: int) -> i8 {
        let n = self.w * self.h;
        if k < n {
            let c = index_cell(self.w as int, k);
            if c == self.food {
                FOOD_CODE
            } else if c == self.body@[0] {
                HEAD_CODE
            } else if self.body@.contains(c) {
                BODY_CODE
            } else {
                0
            }
        } else if k - n == self.dir {
            HEAD_CODE
        } else {
            0
        }
    }

    /// The observation of the current state: the board, then the heading.
    pub open spec fn observation(&self) -> Seq<i8> {
        Seq::new((self.w * self.h + 4) as nat, |k: int| self.code_at(k))
    }

    /// The cell the head moves into under `action`.
    pub open spec fn next_head(&self, action: usize) -> Cell {
        let d = delta(turn(self.dir, action));
        ((self.body@[0].0 + d.0) as i32, (self.body@[0].1 + d.1) as i32)
    }

    /// The move under `action` runs into a wall or into the body.
    pub open spec fn crashes(&self, action: usize) -> bool {
        let d = delta(turn(self.dir, action));
        let x = self.body@[0].0 + d.0;
        let y = self.body@[0].1 + d.1;
        !(0 <= x < self.w && 0 <= y < self.h) || self.body@.contains(self.next_head(action))
    }

    /// The cells of the snake and its heading right after `reset`.
    pub open spec fn start_body(w: usize, h: usize) -> Seq<Cell> {
        let cx = (w / 2) as i32;
        let cy = (h / 2) as i32;
        seq![(cx, cy), ((cx - 1) as i32, cy)]
    }

    pub fn new(w: usize, h: usize, max_steps: usize) -> (s: Snake)
        ensures
            s.w == w,
            s.h == h,
            s.max_steps == max_steps,
            s.body@ == Seq::<Cell>::empty(),
            s.dir == 1,
            s.food == (0i32, 0i32),
            s.steps == 0,
    {
        Snake { w, h, max_steps, body: Vec::new(), dir: 1, food: (0, 0), steps: 0 }
    }

    /// The number of actions: straight, left, right.
    pub fn n_actions(&self) -> (n: usize)
        ensures
            n == 3,
    {
        3
    }

    /// The length of an observation.
    pub fn obs_dim(&self) -> (n: usize)
        requires
            self.w * self.h + 4 <= usize::MAX,
        ensures
            n == self.w * self.h + 4,
    {
        proof {
            assert(0 <= self.w * self.h) by (nonlinear_arith);
        }
        self.w * self.h + 4
    }

    /// Row-major position of a cell on the board.
    fn index_of(&self, c: Cell) -> (k: usize)
        requires
            self.dims_ok(),
            self.on_board(c),
        ensures
            k == cell_index(self.w as int, c),
            k < self.w * self.h,
    {
        proof {
            lemma_cell_index(self.w as int, self.h as int, c);
        }
        (c.1 as usize) * self.w + (c.0 as usize)
    }

    /// A uniformly drawn free cell: draws a column and a row until they name a
    /// cell outside the body.
    fn empty_cell(&self, rng: &mut Rng) -> (c: Cell)
        requires
            self.dims_ok(),
            self.body@.len() < self.w * self.h,
            old(rng).wf(),
        ensures
            self.on_board(c),
            !self.body@.contains(c),
            spawned(old(rng)@, final(rng)@, self.w, self.h, self.body@, c),
            final(rng).wf(),
    {
        let ghost s0 = rng@;
        let mut found: Option<Cell> = None;
        let mut tries: u64 = 0;
        while tries < u64::MAX
            invariant_except_break
                found is None,
                rng@ == after_draws(s0, self.w, self.h, tries as nat),
                forall|j: nat|
                    j < tries ==> self.body@.contains(#[trigger] nth_draw(s0, self.w, self.h, j)),
            invariant
                self.dims_ok(),
                rng.wf(),
            ensures
                found matches Some(c) ==> self.on_board(c) && !self.body@.contains(c) && spawned(
                    s0,
                    rng@,
                    self.w,
                    self.h,
                    self.body@,
                    c,
                ),
                found is None ==> rng@ == after_draws(s0, self.w, self.h, u64::MAX as nat),
                found is None ==> forall|j: nat|
                    j < u64::MAX ==> self.body@.contains(#[trigger] nth_draw(s0, self.w, self.h, j)),
            decreases u64::MAX - tries,
        {
            let x = rng.below(self.w) as i32;
            let y = rng.below(self.h) as i32;
            assert((x, y) == nth_draw(s0, self.w, self.h, tries as nat));
            assert(rng@ == after_draws(s0, self.w, self.h, (tries + 1) as nat));
            if !has_cell(&self.body, (x, y)) {
                proof {
                    let k = tries as nat;
                    assert(after_draws(s0, self.w, self.h, k + 1) == rng@);
                }
                found = Some((x, y));
                break;
            }
            tries = tries + 1;
        }
        if let Some(c) = found {
            return c;
        }
        // The draws above go on for longer than any run; should they all
        // land on the body, take the first free cell in row-major order.
        proof {
            lemma_free_cell_exists(self.w as int, self.h as int, self.body@);
        }
        let mut y: usize = 0;
        while y < self.h
            invariant_except_break
                found is None,
                forall|c: Cell| on_board(self.w as int, y as int, c) ==> self.body@.contains(c),
            invariant
                self.dims_ok(),
                self.body@.len() < self.w * self.h,
                rng.wf(),
                rng@ == after_draws(s0, self.w, self.h, u64::MAX as nat),
                forall|j: nat|
                    j < u64::MAX ==> self.body@.contains(#[trigger] nth_draw(s0, self.w, self.h, j)),
                y <= self.h,
            ensures
                found matches Some(c) ==> self.on_board(c) && !self.body@.contains(c) && spawned(
                    s0,
                    rng@,
                    self.w,
                    self.h,
                    self.body@,
                    c,
                ),
                found is None ==> forall|c: Cell|
                    on_board(self.w as int, self.h as int, c) ==> self.body@.contains(c),
            decreases self.h - y,
        {
            let mut x: usize = 0;
            while x < self.w
                invariant_except_break
                    found is None,
                    forall|c: Cell| c.1 == y && 0 <= c.0 < x ==> #[trigger] self.body@.contains(c),
                invariant
                    self.dims_ok(),
                    rng.wf(),
                    rng@ == after_draws(s0, self.w, self.h, u64::MAX as nat),
                    forall|j: nat|
                        j < u64::MAX ==> self.body@.contains(
                            #[trigger] nth_draw(s0, self.w, self.h, j),
                        ),
                    y < self.h,
                    x <= self.w,
                    forall|c: Cell| on_board(self.w as int, y as int, c) ==> self.body@.contains(c),
                ensures
                    found matches Some(c) ==> self.on_board(c) && !self.body@.contains(c)
                        && spawned(s0, rng@, self.w, self.h, self.body@, c),
                    found is None ==> forall|c: Cell|
                        c.1 == y && 0 <= c.0 < self.w ==> #[trigger] self.body@.contains(c),
                decreases self.w - x,
            {
                if !has_cell(&self.body, (x as i32, y as i32)) {
                    let c = (x as i32, y as i32);
                    assert forall|d: Cell|
                        on_board(self.w as int, self.h as int, d) && (d.1 < c.1 || (d.1 == c.1
                            && d.0 < c.0)) implies #[trigger] self.body@.contains(d) by {
                        if d.1 < c.1 {
                            assert(on_board(self.w as int, y as int, d));
                        }
                    }
                    found = Some(c);
                    break;
                }
                x = x + 1;
            }
            if found.is_some() {
                break;
            }
            proof {
                assert forall|c: Cell| on_board(self.w as int, y + 1, c) implies self.body@.contains(
                    c,
                ) by {
                    if c.1 == y {
                        assert(self.body@.contains(c));
                    } else {
                        assert(on_board(self.w as int, y as int, c));
                    }
                }
            }
            y = y + 1;
        }
        match found {
            Some(c) => c,
            None => {
                proof {
                    lemma_free_cell_exists(self.w as int, self.h as int, self.body@);
                }
                (0, 0)
            },
        }
    }

    /// The observation of the current state.
    fn obs(&self) -> (o: Vec<i8>)
        requires
            self.wf(),
        ensures
            o@ == self.observation(),
    {
        let n = self.w * self.h;
        let mut o: Vec<i8> = vec![0i8; n + 4];
        let mut i: usize = 0;
        while i < self.body.len()
            invariant
                self.wf(),
                n == self.w * self.h,
                i <= self.body@.len(),
                o@.len() == n + 4,
                forall|k: int|
                    0 <= k < n ==> #[trigger] o@[k] == (if self.body@.take(i as int).contains(
                        index_cell(self.w as int, k),
                    ) {
                        if index_cell(self.w as int, k) == self.body@[0] {
                            HEAD_CODE
                        } else {
                            BODY_CODE
                        }
                    } else {
                        0
                    }),
                forall|k: int| n <= k < n + 4 ==> #[trigger] o@[k] == 0,
            decreases self.body@.len() - i,
        {
            let c = self.body[i];
            let p = self.index_of(c);
            let v: i8 = if i == 0 {
                HEAD_CODE
            } else {
                BODY_CODE
            };
            o.set(p, v);
            proof {
                lemma_cell_index(self.w as int, self.h as int, c);
                assert forall|k: int| 0 <= k < n implies #[trigger] o@[k] == (if self.body@.take(
                    i + 1,
                ).contains(index_cell(self.w as int, k)) {
                    if index_cell(self.w as int, k) == self.body@[0] {
                        HEAD_CODE
                    } else {
                        BODY_CODE
                    }
                } else {
                    0
                }) by {
                    let ck = index_cell(self.w as int, k);
                    lemma_index_cell(self.w as int, self.h as int, k);
                    assert(self.body@.take(i + 1) == self.body@.take(i as int).push(c));
                    if k == p {
                        assert(ck == c);
                        assert(self.body@.take(i + 1)[i as int] == c);
                        assert(self.body@.take(i + 1).contains(ck));
                        assert(self.body@[0] == c <==> i == 0);
                    } else {
                        assert(ck != c);
                        if self.body@.take(i + 1).contains(ck) {
                            let j = choose|j: int| 0 <= j < i + 1 && #[trigger] self.body@.take(i + 1)[j] == ck;
                            assert(self.body@.take(i as int)[j] == ck);
                        }
                    }
                }
            }
            i = i + 1;
        }
        let fp = self.index_of(self.food);
        o.set(fp, FOOD_CODE);
        o.set(n + self.dir, HEAD_CODE);
        proof {
            lemma_cell_index(self.w as int, self.h as int, self.food);
            assert(self.body@.take(self.body@.len() as int) == self.body@);
            assert forall|k: int| 0 <= k < n + 4 implies #[trigger] o@[k] == self.code_at(k) by {
                if k < n {
                    lemma_index_cell(self.w as int, self.h as int, k);
                    let ck = index_cell(self.w as int, k);
                    if k != fp {
                        assert(ck != self.food);
                    }
                    assert(self.body@.contains(self.body@[0]));
                }
            }
            assert(o@ == self.observation());
        }
        o
    }

    /// Starts a new game: a two-cell snake in the middle of the board heading
    /// right, and food on a free cell.
    pub fn reset(&mut self, rng: &mut Rng) -> (o: Vec<i8>)
        requires
            old(self).dims_ok(),
            old(self).w >= 2,
            old(self).w * old(self).h >= 3,
            old(rng).wf(),
        ensures
            final(self).w == old(self).w,
            final(self).h == old(self).h,
            final(self).max_steps == old(self).max_steps,
            final(self).body@ == Self::start_body(old(self).w, old(self).h),
            final(self).body@.len() == 2,
            final(self).body@[0] == ((old(self).w / 2) as i32, (old(self).h / 2) as i32),
            final(self).body@[1] == ((old(self).w / 2 - 1) as i32, (old(self).h / 2) as i32),
            final(self).dir == 1,
            final(self).steps == 0,
            final(self).wf(),
            final(self).food_free(),
            spawned(
                old(rng)@,
                final(rng)@,
                final(self).w,
                final(self).h,
                final(self).body@,
                final(self).food,
            ),
            o@ == final(self).observation(),
            final(rng).wf(),
    {
        let cx = (self.w / 2) as i32;
        let cy = (self.h / 2) as i32;
        self.body = vec![(cx, cy), (cx - 1, cy)];
        self.dir = 1;
        self.steps = 0;
        assert(self.body@ == Self::start_body(self.w, self.h));
        self.food = self.empty_cell(rng);
        self.obs()
    }

    /// Moves the snake one cell under `action` (0 straight, 1 left, 2 right).
    pub fn step(&mut self, action: usize, rng: &mut Rng) -> (st: Step)
        requires
            old(self).wf(),
            action < 3,
            old(self).steps < usize::MAX,
            old(rng).wf(),
        ensures
            final(self).wf(),
            final(self).w == old(self).w,
            final(self).h == old(self).h,
            final(self).max_steps == old(self).max_steps,
            final(self).dir == turn(old(self).dir, action),
            final(self).steps == old(self).steps + 1,
            st.obs@ == final(self).observation(),
            final(rng).wf(),
            old(self).crashes(action) ==> ({
                &&& final(self).body@ == old(self).body@
                &&& final(self).food == old(self).food
                &&& st.reward == CRASH_REWARD
                &&& st.done
                &&& final(rng)@ == old(rng)@
            }),
            !old(self).crashes(action) && old(self).next_head(action) == old(self).food ==> ({
                &&& final(self).body@ == seq![old(self).next_head(action)] + old(self).body@
                &&& st.reward == FOOD_REWARD
                &&& st.done == (final(self).body@.len() == final(self).w * final(self).h)
                &&& st.done ==> final(self).food == old(self).food && final(rng)@ == old(rng)@
                &&& !st.done ==> final(self).food_free() && spawned(
                    old(rng)@,
                    final(rng)@,
                    final(self).w,
                    final(self).h,
                    final(self).body@,
                    final(self).food,
                )
            }),
            !old(self).crashes(action) && old(self).next_head(action) != old(self).food ==> ({
                &&& final(self).body@ == seq![old(self).next_head(action)]
                    + old(self).body@.drop_last()
                &&& final(self).food == old(self).food
                &&& final(rng)@ == old(rng)@
                &&& st.done == (final(self).steps >= final(self).max_steps)
                &&& st.reward == (if st.done {
                    TIMEOUT_REWARD
                } else {
                    MOVE_REWARD
                })
            }),
            old(self).food_free() && !(st.done && st.reward == FOOD_REWARD)
                ==> final(self).food_free(),
    {
        self.dir = if action == 0 {
            self.dir
        } else if action == 1 {
            (self.dir + 3) % 4
        } else {
            (self.dir + 1) % 4
        };
        self.steps = self.steps + 1;
        let head = self.body[0];
        let d = heading_delta(self.dir);
        let nx = head.0 + d.0;
        let ny = head.1 + d.1;
        if nx < 0 || ny < 0 || nx >= self.w as i32 || ny >= self.h as i32 {
            return Step { obs: self.obs(), reward: CRASH_REWARD, done: true };
        }
        if has_cell(&self.body, (nx, ny)) {
            return Step { obs: self.obs(), reward: CRASH_REWARD, done: true };
        }
        let ghost old_body = self.body@;
        self.body.insert(0, (nx, ny));
        assert(self.body@ == seq![(nx, ny)] + old_body);
        assert(self.body@.no_duplicates()) by {
            assert forall|i: int, j: int|
                0 <= i < self.body@.len() && 0 <= j < self.body@.len() && i != j implies
                self.body@[i] != self.body@[j] by {
                if i > 0 && j > 0 {
                    assert(self.body@[i] == old_body[i - 1]);
                    assert(self.body@[j] == old_body[j - 1]);
                } else if i == 0 {
                    assert(old_body.contains(self.body@[j]));
                } else {
                    assert(old_body.contains(self.body@[i]));
                }
            }
        }
        if nx == self.food.0 && ny == self.food.1 {
            if self.body.len() == self.w * self.h {
                return Step { obs: self.obs(), reward: FOOD_REWARD, done: true };
            }
            proof {
                lemma_distinct_cells_fit(self.w as int, self.h as int, self.body@);
            }
            self.food = self.empty_cell(rng);
            return Step { obs: self.obs(), reward: FOOD_REWARD, done: false };
        }
        self.body.pop();
        assert(self.body@ == seq![(nx, ny)] + old_body.drop_last());
        assert(self.body@.no_duplicates()) by {
            assert forall|i: int, j: int|
                0 <= i < self.body@.len() && 0 <= j < self.body@.len() && i != j implies
                self.body@[i] != self.body@[j] by {
                if i > 0 && j > 0 {
                    assert(self.body@[i] == old_body[i - 1]);
                    assert(self.body@[j] == old_body[j - 1]);
                } else if i == 0 {
                    assert(old_body.contains(self.body@[j]));
                } else {
                    assert(old_body.contains(self.body@[i]));
                }
            }
        }
        if self.steps >= self.max_steps {
            return Step { obs: self.obs(), reward: TIMEOUT_REWARD, done: true };
        }
        Step { obs: self.obs(), reward: MOVE_REWARD, done: false }
    }
}

/// How the snake steers, read off the cell its head moves into: going
/// straight moves one cell along the heading (up, right, down, left for
/// headings 0 to 3, rows counted downwards), turning right moves along that
/// step rotated a quarter clockwise, turning left a quarter anticlockwise.
pub proof fn lemma_steering(s: Snake)
    requires
        s.wf(),
    ensures
        ({
            let hx = s.body@[0].0 as int;
            let hy = s.body@[0].1 as int;
            let sx = s.next_head(0).0 - hx;
            let sy = s.next_head(0).1 - hy;
            &&& s.dir == 0 ==> sx == 0 && sy == -1
            &&& s.dir == 1 ==> sx == 1 && sy == 0
            &&& s.dir == 2 ==> sx == 0 && sy == 1
            &&& s.dir == 3 ==> sx == -1 && sy == 0
            &&& s.next_head(2).0 - hx == -sy && s.next_head(2).1 - hy == sx
            &&& s.next_head(1).0 - hx == sy && s.next_head(1).1 - hy == -sx
        }),
{
    assert(s.on_board(s.body@[0]));
}

/// What the observation of a game in progress shows: every cell of the snake
/// after the head carries the body code and the head the head code (unless
/// the food lies there), the food carries the food code, every other board
/// cell is empty, and of the four heading entries exactly the one of the
/// current heading is set.
pub proof fn lemma_observation_shows_state(s: Snake)
    requires
        s.wf(),
    ensures
        s.observation().len() == s.w * s.h + 4,
        forall|j: int|
            1 <= j < s.body@.len() && s.body@[j] != s.food ==> s.observation()[cell_index(
                s.w as int,
                #[trigger] s.body@[j],
            )] == BODY_CODE,
        s.body@[0] != s.food ==> s.observation()[cell_index(s.w as int, s.body@[0])] == HEAD_CODE,
        s.observation()[cell_index(s.w as int, s.food)] == FOOD_CODE,
        forall|c: Cell|
            s.on_board(c) && c != s.food && !s.body@.contains(c) ==> s.observation()[cell_index(
                s.w as int,
                c,
            )] == 0,
        forall|k: int|
            s.w * s.h <= k < s.w * s.h + 4 ==> #[trigger] s.observation()[k] == (if k - s.w * s.h
                == s.dir {
                HEAD_CODE
            } else {
                0
            }),
{
    let w = s.w as int;
    let h = s.h as int;
    assert forall|j: int|
        1 <= j < s.body@.len() && s.body@[j] != s.food implies s.observation()[cell_index(
        w,
        #[trigger] s.body@[j],
    )] == BODY_CODE by {
        let c = s.body@[j];
        lemma_cell_index(w, h, c);
        assert(s.body@[0] != c);
        assert(s.body@.contains(c));
    }
    lemma_cell_index(w, h, s.body@[0]);
    lemma_cell_index(w, h, s.food);
    assert(s.body@.contains(s.body@[0]));
    assert forall|c: Cell|
        s.on_board(c) && c != s.food && !s.body@.contains(c) implies s.observation()[cell_index(
        w,
        c,
    )] == 0 by {
        lemma_cell_index(w, h, c);
    }
}

/// The character a board cell with observation code `c` is drawn as: the head
/// `#`, the body `o`, the food `*` and an empty cell `.`.
pub open spec fn glyph(c: i8) -> char {
    if c == HEAD_CODE {
        '#'
    } else if c == BODY_CODE {
        'o'
    } else if c == FOOD_CODE {
        '*'
    } else {
        '.'
    }
}

fn glyph_of(c: i8) -> (g: char)
    ensures
        g == glyph(c),
{
    if c == HEAD_CODE {
        '#'
    } else if c == BODY_CODE {
        'o'
    } else if c == FOOD_CODE {
        '*'
    } else {
        '.'
    }
}

/// The board part of an observation of a `w` by `h` board as rows of
/// characters, top row first, one character per cell.
pub fn board_glyphs(obs: &[i8], w: usize, h: usize) -> (rows: Vec<Vec<char>>)
    requires
        w * h <= obs@.len(),
    ensures
        rows@.len() == h,
        forall|y: int|
            0 <= y < h ==> (#[trigger] rows@[y])@.len() == w && forall|x: int|
                0 <= x < w ==> rows@[y]@[x] == glyph(obs@[y * w + x]),
{
    let total = obs.len();
    let mut rows: Vec<Vec<char>> = Vec::new();
    let mut y: usize = 0;
    while y < h
        invariant
            total == obs@.len(),
            w * h <= obs@.len(),
            y <= h,
            rows@.len() == y,
            forall|q: int|
                0 <= q < y ==> (#[trigger] rows@[q])@.len() == w && forall|x: int|
                    0 <= x < w ==> rows@[q]@[x] == glyph(obs@[q * w + x]),
        decreases h - y,
    {
        proof {
            assert(y * w + w <= w * h) by (nonlinear_arith)
                requires
                    y < h,
            ;
        }
        let start = y * w;
        let mut row: Vec<char> = Vec::new();
        let mut x: usize = 0;
        while x < w
            invariant
                total == obs@.len(),
                start == y * w,
                start + w <= obs@.len(),
                x <= w,
                row@.len() == x,
                forall|q: int| 0 <= q < x ==> row@[q] == glyph(obs@[start + q]),
            decreases w - x,
        {
            row.push(glyph_of(obs[start + x]));
            x = x + 1;
        }
        rows.push(row);
        y = y + 1;
    }
    rows
}

} // verus!
