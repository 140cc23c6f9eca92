//! The grid model and the step simulation.
//!
//! A `GameState` holds the board, the snake body (head first), an optional
//! fruit, the velocity, the score and the terminal flag. One `step_with`
//! advances the game by exactly one tick: it applies the requested turn,
//! shifts the body, detects wall and self collisions, spawns or collects the
//! fruit and charges the tick cost. The whole tick is characterised by the
//! spec function `spec_step` over the mathematical view `GameView`.

use vstd::prelude::*;

verus! {

/// Mathematical model of one game, with positions as unbounded integers.
pub ghost struct GameView {
    /// Board extent: (width, height) in cells.
    pub board: (int, int),
    /// Snake body, head at index 0, tail last; never empty.
    pub body: Seq<(int, int)>,
    /// The fruit cell, if one is on the board.
    pub fruit: Option<(int, int)>,
    /// Current velocity; one axis is ±1, the other 0.
    pub vel: (int, int),
    /// Score: +20 per fruit, -1 per tick advanced; may go negative.
    pub score: int,
    /// Terminal flag: set by a wall or self collision, cleared by a reset.
    pub game_over: bool,
}

/// The positions of a body, widened to unbounded integers.
pub open spec fn view_positions(s: Seq<(isize, isize)>) -> Seq<(int, int)> {
    s.map_values(|p: (isize, isize)| (p.0 as int, p.1 as int))
}

/// A position lies on the board.
pub open spec fn in_bounds(p: (int, int), board: (int, int)) -> bool {
    0 <= p.0 < board.0 && 0 <= p.1 < board.1
}

/// A board large enough to play on and small enough for cell indices to fit
/// the machine's integers.
pub open spec fn board_ok(board: (int, int)) -> bool {
    2 <= board.0 <= 0x1000 && 2 <= board.1 <= 0x1000
}

/// Exactly one axis of motion, with magnitude 1.
pub open spec fn unit_velocity(v: (int, int)) -> bool {
    ((v.0 == 1 || v.0 == -1) && v.1 == 0) || (v.0 == 0 && (v.1 == 1 || v.1 == -1))
}

/// No two entries of the sequence are equal.
pub open spec fn distinct_positions(body: Seq<(int, int)>) -> bool {
    forall|i: int, j: int| 0 <= i < j < body.len() ==> body[i] != body[j]
}

/// Every entry of the sequence lies on the board.
pub open spec fn all_in_bounds(body: Seq<(int, int)>, board: (int, int)) -> bool {
    forall|i: int| 0 <= i < body.len() ==> in_bounds(body[i], board)
}

impl GameView {
    /// The state invariant. While the game is running the whole body lies on
    /// the board and is free of duplicates; a present fruit always lies on
    /// the board and never on the body; the velocity always moves along
    /// exactly one axis.
    pub open spec fn wf(self) -> bool {
        &&& board_ok(self.board)
        &&& self.body.len() >= 1
        &&& unit_velocity(self.vel)
        &&& !self.game_over ==> all_in_bounds(self.body, self.board)
            && distinct_positions(self.body)
        &&& match self.fruit {
            Some(f) => in_bounds(f, self.board) && !self.body.contains(f),
            None => true,
        }
    }
}

/// The velocity after a request is weighed against the current one. A unit
/// request along the axis the snake does not move on is accepted; a request
/// that keeps or reverses the axis of motion, and any malformed request, is
/// silently ignored and the current velocity kept.
pub open spec fn next_velocity(cur: (int, int), req: (int, int)) -> (int, int) {
    if (req.0 == 1 || req.0 == -1) && req.1 == 0 {
        if cur.0 == 0 {
            req
        } else {
            cur
        }
    } else if req.0 == 0 && (req.1 == 1 || req.1 == -1) {
        if cur.1 == 0 {
            req
        } else {
            cur
        }
    } else {
        cur
    }
}

/// The cell the head moves to this tick: one velocity step from the head.
pub open spec fn step_head(v: GameView) -> (int, int) {
    (v.body[0].0 + v.vel.0, v.body[0].1 + v.vel.1)
}

/// The body after the shift: every segment takes the position of its
/// predecessor and the head advances by the velocity; the tail's old cell is
/// vacated.
pub open spec fn shifted_body(v: GameView) -> Seq<(int, int)> {
    seq![step_head(v)] + v.body.drop_last()
}

/// Whether this tick ends the game: the new head leaves the board, or lands
/// on one of the already shifted segments.
pub open spec fn step_collides(v: GameView) -> bool {
    !in_bounds(step_head(v), v.board) || v.body.drop_last().contains(step_head(v))
}

/// The fruit after the spawn phase of a tick, on the already shifted state
/// `mid`. An existing fruit stays. Otherwise the drawn candidate cell is
/// taken if it is free; if not, the just vacated tail cell `last` is taken if
/// it is free; if even that cell is occupied again, the spawn waits for the
/// next tick.
pub open spec fn spawned_fruit(mid: GameView, cand: (int, int), last: (int, int)) -> Option<
    (int, int),
> {
    match mid.fruit {
        Some(f) => Some(f),
        None => if !mid.body.contains(cand) {
            Some(cand)
        } else if !mid.body.contains(last) {
            Some(last)
        } else {
            None
        },
    }
}

/// The environment phase of a tick, on the already shifted state `mid`: the
/// fruit is spawned if absent, and if the head sits on the fruit cell the
/// body grows by the vacated tail cell `last`, the fruit is collected and the
/// score rises by 20; the tick itself costs 1 either way.
pub open spec fn spec_update_env(mid: GameView, cand: (int, int), last: (int, int)) -> GameView {
    let f0 = spawned_fruit(mid, cand, last);
    if f0 == Some(mid.body[0]) {
        GameView { body: mid.body.push(last), fruit: None, score: mid.score + 19, ..mid }
    } else {
        GameView { fruit: f0, score: mid.score - 1, ..mid }
    }
}

/// One whole tick on the model: accept or ignore the requested velocity,
/// shift the body, stop on a collision (the shifted body is the terminal
/// snapshot; fruit and score are left as they were), else run the
/// environment phase with the drawn candidate cell `cand`.
pub open spec fn spec_step(pre: GameView, req: (int, int), cand: (int, int)) -> GameView {
    let turned = GameView { vel: next_velocity(pre.vel, req), ..pre };
    let mid = GameView { body: shifted_body(turned), ..turned };
    if step_collides(turned) {
        GameView { game_over: true, ..mid }
    } else {
        spec_update_env(mid, cand, pre.body.last())
    }
}

/// Whether a tick started from `pre` with request `req` ends the game. This
/// does not depend on the fruit candidate draw.
pub open spec fn collides_after(pre: GameView, req: (int, int)) -> bool {
    step_collides(GameView { vel: next_velocity(pre.vel, req), ..pre })
}

/// The state a fresh game starts in: a one-cell body at the board's centre,
/// moving rightward, no fruit, score zero.
pub open spec fn initial_view(board: (int, int)) -> GameView {
    GameView {
        board,
        body: seq![(board.0 / 2, board.1 / 2)],
        fruit: None,
        vel: (1, 0),
        score: 0,
        game_over: false,
    }
}

/// One game: board, body, fruit, velocity, score and terminal flag.
pub struct GameState {
    /// Board extent: (width, height) in cells; fixed for one game.
    pub board_size: (isize, isize),
    /// Snake body, head at index 0, tail last.
    pub snake_position: Vec<(isize, isize)>,
    /// The fruit cell, if one is on the board.
    pub fruit_position: Option<(isize, isize)>,
    /// Current velocity.
    pub snake_velocity: (isize, isize),
    /// Current score.
    pub score: isize,
    /// Terminal flag.
    pub game_over: bool,
}

impl View for GameState {
    type V = GameView;

    open spec fn view(&self) -> GameView {
        GameView {
            board: (self.board_size.0 as int, self.board_size.1 as int),
            body: view_positions(self.snake_position@),
            fruit: match self.fruit_position {
                Some(f) => Some((f.0 as int, f.1 as int)),
                None => None,
            },
            vel: (self.snake_velocity.0 as int, self.snake_velocity.1 as int),
            score: self.score as int,
            game_over: self.game_over,
        }
    }
}

impl GameState {
    /// Starts a game on a `width` × `height` board. A board smaller than
    /// 2 × 2 offers no viable play and is ruled out as a precondition.
    pub fn init(width: isize, height: isize) -> (s: GameState)
        requires
            board_ok((width as int, height as int)),
        ensures
            s@ == initial_view((width as int, height as int)),
            s@.wf(),
    {
        let cx: isize = ((width as usize) / 2) as isize;
        let cy: isize = ((height as usize) / 2) as isize;
        let mut body: Vec<(isize, isize)> = Vec::new();
        body.push((cx, cy));
        let s = GameState {
            board_size: (width, height),
            snake_position: body,
            fruit_position: None,
            snake_velocity: (1, 0),
            score: 0,
            game_over: false,
        };
        proof {
            assert(s@.body =~= initial_view((width as int, height as int)).body);
        }
        s
    }

    /// Returns the game to its start condition, keeping the board.
    pub fn reset(&mut self)
        requires
            board_ok(old(self)@.board),
        ensures
            final(self)@ == initial_view(old(self)@.board),
            final(self)@.wf(),
    {
        let cx: isize = ((self.board_size.0 as usize) / 2) as isize;
        let cy: isize = ((self.board_size.1 as usize) / 2) as isize;
        let mut body: Vec<(isize, isize)> = Vec::new();
        body.push((cx, cy));
        self.snake_position = body;
        self.fruit_position = None;
        self.snake_velocity = (1, 0);
        self.score = 0;
        self.game_over = false;
        proof {
            assert(self@.body =~= initial_view(old(self)@.board).body);
        }
    }

    /// Applies a requested velocity for the coming tick. A request that
    /// keeps or reverses the current axis of motion, or is malformed, leaves
    /// the velocity unchanged; nothing else of the state moves.
    pub fn apply_request(&mut self, requested: (isize, isize))
        ensures
            final(self)@ == (GameView {
                vel: next_velocity(
                    old(self)@.vel,
                    (requested.0 as int, requested.1 as int),
                ),
                ..old(self)@
            }),
    {
        let cur: (isize, isize) = self.snake_velocity;
        if (requested.0 == 1 || requested.0 == -1) && requested.1 == 0 {
            if cur.0 == 0 {
                self.snake_velocity = requested;
            }
        } else if requested.0 == 0 && (requested.1 == 1 || requested.1 == -1) {
            if cur.1 == 0 {
                self.snake_velocity = requested;
            }
        }
    }

    /// The movement phase of a tick: shifts every segment one slot toward
    /// the tail, advances the head by the current velocity, and sets the
    /// terminal flag on a wall or self collision. Returns the vacated tail
    /// cell, the candidate growth position of this tick.
    pub fn update_snake(&mut self) -> (last: (isize, isize))
        requires
            old(self)@.wf(),
            !old(self).game_over,
        ensures
            (last.0 as int, last.1 as int) == old(self)@.body.last(),
            final(self)@ == (GameView {
                body: shifted_body(old(self)@),
                game_over: step_collides(old(self)@),
                ..old(self)@
            }),
    {
        let ghost orig = *self;
        let n: usize = self.snake_position.len();
        let last: (isize, isize) = self.snake_position[n - 1];
        let saved: (isize, isize) = self.snake_position[0];
        let mut i: usize = n - 1;
        while i >= 1
            invariant
                n == self.snake_position.len(),
                1 <= n,
                i < n,
                forall|j: int| i < j < n ==> self.snake_position@[j] == orig.snake_position@[j - 1],
                forall|j: int| 0 <= j <= i ==> self.snake_position@[j] == orig.snake_position@[j],
                self.board_size == orig.board_size,
                self.snake_velocity == orig.snake_velocity,
                self.fruit_position == orig.fruit_position,
                self.score == orig.score,
                self.game_over == orig.game_over,
            decreases i,
        {
            let prev: (isize, isize) = self.snake_position[i - 1];
            self.snake_position[i] = prev;
            i = i - 1;
        }
        proof {
            assert(orig@.body[0] == (saved.0 as int, saved.1 as int));
            assert(in_bounds(orig@.body[0], orig@.board));
        }
        let vx: isize = self.snake_velocity.0;
        let vy: isize = self.snake_velocity.1;
        let hx: isize = saved.0 + vx;
        let hy: isize = saved.1 + vy;
        self.snake_position[0] = (hx, hy);
        let mut over: bool = hx >= self.board_size.0 || hy >= self.board_size.1 || hx < 0 || hy
            < 0;
        proof {
            assert(over == !in_bounds((hx as int, hy as int), orig@.board));
            assert((hx as int, hy as int) == step_head(orig@));
        }
        let mut k: usize = 1;
        while k < n
            invariant
                n == self.snake_position.len(),
                1 <= k <= n,
                over == (!in_bounds((hx as int, hy as int), orig@.board) || exists|j: int|
                    1 <= j < k && self.snake_position@[j] == (hx, hy)),
                forall|j: int| 1 <= j < n ==> self.snake_position@[j] == orig.snake_position@[j - 1],
                self.snake_position@[0] == (hx, hy),
                self.board_size == orig.board_size,
                self.snake_velocity == orig.snake_velocity,
                self.fruit_position == orig.fruit_position,
                self.score == orig.score,
                self.game_over == orig.game_over,
            decreases n - k,
        {
            let p: (isize, isize) = self.snake_position[k];
            if p.0 == hx && p.1 == hy {
                over = true;
                proof {
                    assert(self.snake_position@[k as int] == (hx, hy));
                }
            }
            k = k + 1;
        }
        self.game_over = over;
        proof {
            let head = step_head(orig@);
            if exists|j: int| 1 <= j < n && self.snake_position@[j] == (hx, hy) {
                let j: int = choose|j: int| 1 <= j < n && self.snake_position@[j] == (hx, hy);
                assert(orig@.body.drop_last()[j - 1] == head);
                assert(orig@.body.drop_last().contains(head));
            }
            if orig@.body.drop_last().contains(head) {
                let j: int = choose|j: int| 0 <= j < orig@.body.drop_last().len()
                    && orig@.body.drop_last()[j] == head;
                assert(orig.snake_position@[j] == (hx, hy));
                assert(self.snake_position@[j + 1] == (hx, hy));
            }
            assert(over == step_collides(orig@));
            assert(self@.body =~= shifted_body(orig@));
        }
        last
    }

    /// The environment phase of a tick, run on the already shifted state:
    /// spawns the fruit if absent (taking the drawn candidate cell, else the
    /// vacated tail cell `last`, else waiting a tick), grows the body by
    /// `last` when the head sits on the fruit, and settles the score.
    pub fn update_env(&mut self, cand: (isize, isize), last: (isize, isize))
        requires
            board_ok(old(self)@.board),
            old(self)@.body.len() >= 1,
            !old(self).game_over,
            all_in_bounds(old(self)@.body, old(self)@.board),
            distinct_positions(old(self)@.body),
            in_bounds((cand.0 as int, cand.1 as int), old(self)@.board),
            in_bounds((last.0 as int, last.1 as int), old(self)@.board),
            match old(self)@.fruit {
                Some(f) => in_bounds(f, old(self)@.board) && forall|j: int|
                    1 <= j < old(self)@.body.len() ==> old(self)@.body[j] != f,
                None => true,
            },
            old(self)@.fruit == Some(old(self)@.body[0]) ==> !old(self)@.body.contains(
                (last.0 as int, last.1 as int),
            ),
            old(self).score - 1 >= isize::MIN,
            old(self).score + 19 <= isize::MAX,
        ensures
            final(self)@ == spec_update_env(
                old(self)@,
                (cand.0 as int, cand.1 as int),
                (last.0 as int, last.1 as int),
            ),
    {
        let ghost orig = *self;
        let head: (isize, isize) = self.snake_position[0];
        if self.fruit_position.is_none() {
            if !body_contains(&self.snake_position, cand) {
                self.fruit_position = Some(cand);
            } else if !body_contains(&self.snake_position, last) {
                self.fruit_position = Some(last);
            }
        }
        proof {
            let f0 = spawned_fruit(
                orig@,
                (cand.0 as int, cand.1 as int),
                (last.0 as int, last.1 as int),
            );
            assert(self@ == (GameView { fruit: f0, ..orig@ }));
        }
        let mut grew: bool = false;
        let fruit_now: Option<(isize, isize)> = self.fruit_position;
        if let Some(f) = fruit_now {
            if f.0 == head.0 && f.1 == head.1 {
                self.score = self.score + 19;
                self.snake_position.push(last);
                self.fruit_position = None;
                grew = true;
            }
        }
        if !grew {
            self.score = self.score - 1;
        }
        proof {
            let f0 = spawned_fruit(
                orig@,
                (cand.0 as int, cand.1 as int),
                (last.0 as int, last.1 as int),
            );
            assert(orig@.body[0] == (head.0 as int, head.1 as int));
            if grew {
                assert(f0 == Some(orig@.body[0]));
                assert(self@.body =~= orig@.body.push((last.0 as int, last.1 as int)));
            } else {
                assert(f0 != Some(orig@.body[0]));
                assert(self@.body =~= orig@.body);
            }
        }
    }

    /// One whole tick with the fruit candidate cell passed in: the
    /// deterministic core of `step`. The resulting state is exactly
    /// `spec_step` of the old state, the request and the candidate.
    pub fn step_with(&mut self, requested: (isize, isize), cand: (isize, isize))
        requires
            old(self)@.wf(),
            !old(self).game_over,
            in_bounds((cand.0 as int, cand.1 as int), old(self)@.board),
            old(self).score - 1 >= isize::MIN,
            old(self).score + 19 <= isize::MAX,
        ensures
            final(self)@ == spec_step(
                old(self)@,
                (requested.0 as int, requested.1 as int),
                (cand.0 as int, cand.1 as int),
            ),
            final(self)@.wf(),
            final(self).game_over == collides_after(
                old(self)@,
                (requested.0 as int, requested.1 as int),
            ),
    {
        let ghost pre = old(self)@;
        let ghost req = (requested.0 as int, requested.1 as int);
        let ghost cv = (cand.0 as int, cand.1 as int);
        let ghost turned = GameView { vel: next_velocity(pre.vel, req), ..pre };
        self.apply_request(requested);
        proof {
            assert(self@ == turned);
            assert(turned.wf());
        }
        let last: (isize, isize) = self.update_snake();
        let ghost mid = GameView { body: shifted_body(turned), ..turned };
        if !self.game_over {
            proof {
                assert(self@ == (GameView { game_over: false, ..mid }));
                assert(!step_collides(turned));
                let head = step_head(turned);
                let rest = turned.body.drop_last();
                assert(forall|j: int| 0 <= j < rest.len() ==> rest[j] == pre.body[j]);
                assert(!rest.contains(head));
                assert(forall|j: int| 0 <= j < rest.len() ==> rest[j] != head) by {
                    if exists|j: int| 0 <= j < rest.len() && rest[j] == head {
                        let j: int = choose|j: int| 0 <= j < rest.len() && rest[j] == head;
                        assert(rest.contains(head));
                    }
                }
                assert(all_in_bounds(mid.body, mid.board));
                assert(distinct_positions(mid.body));
                let lv = (last.0 as int, last.1 as int);
                assert(lv == pre.body.last());
                assert(in_bounds(lv, pre.board)) by {
                    assert(pre.body[pre.body.len() - 1] == lv);
                }
                match mid.fruit {
                    Some(f) => {
                        assert(forall|j: int| 0 <= j < pre.body.len() ==> pre.body[j] != f) by {
                            assert(!pre.body.contains(f));
                            if exists|j: int| 0 <= j < pre.body.len() && pre.body[j] == f {
                                let j: int = choose|j: int|
                                    0 <= j < pre.body.len() && pre.body[j] == f;
                                assert(pre.body.contains(f));
                            }
                        }
                        assert(forall|j: int| 1 <= j < mid.body.len() ==> mid.body[j] != f);
                        if mid.fruit == Some(mid.body[0]) {
                            // A capture is coming: the vacated tail cell is
                            // free of the shifted body.
                            assert(!mid.body.contains(lv)) by {
                                if mid.body.contains(lv) {
                                    let j: int = choose|j: int|
                                        0 <= j < mid.body.len() && mid.body[j] == lv;
                                    if j == 0 {
                                        assert(f == lv);
                                        assert(pre.body[pre.body.len() - 1] == lv);
                                        assert(pre.body.contains(f));
                                    } else {
                                        assert(pre.body[j - 1] == lv);
                                        assert(pre.body[pre.body.len() - 1] == lv);
                                        assert(distinct_positions(pre.body));
                                    }
                                }
                            }
                        }
                    },
                    None => {},
                }
            }
            self.update_env(cand, last);
        }
        proof {
            lemma_step_preserves_wf(pre, req, cv);
            assert(final(self)@ == spec_step(pre, req, cv));
        }
    }

    /// One whole tick: the fruit candidate cell is drawn uniformly at
    /// random over the board, so the result is `spec_step` for some
    /// candidate on the board. Whether the tick ends the game does not
    /// depend on the draw.
    pub fn step(&mut self, requested: (isize, isize))
        requires
            old(self)@.wf(),
            !old(self).game_over,
            old(self).score - 1 >= isize::MIN,
            old(self).score + 19 <= isize::MAX,
        ensures
            exists|c: (int, int)|
                in_bounds(c, old(self)@.board) && final(self)@ == spec_step(
                    old(self)@,
                    (requested.0 as int, requested.1 as int),
                    c,
                ),
            final(self)@.wf(),
            final(self).game_over == collides_after(
                old(self)@,
                (requested.0 as int, requested.1 as int),
            ),
    {
        let cand_x: isize = crate::rng::random_coord(self.board_size.0);
        let cand_y: isize = crate::rng::random_coord(self.board_size.1);
        self.step_with(requested, (cand_x, cand_y));
        proof {
            let c = (cand_x as int, cand_y as int);
            assert(in_bounds(c, old(self)@.board));
        }
    }
}

/// Whether a tick started from `pre` collects the fruit: the tick does not
/// end the game and the head comes to sit on the fruit cell as the spawn
/// phase leaves it.
pub open spec fn captures(pre: GameView, req: (int, int), cand: (int, int)) -> bool {
    let turned = GameView { vel: next_velocity(pre.vel, req), ..pre };
    let mid = GameView { body: shifted_body(turned), ..turned };
    !step_collides(turned) && spawned_fruit(mid, cand, pre.body.last()) == Some(step_head(turned))
}

/// The body never shrinks across a tick, and it grows by exactly one
/// segment on the tick the head occupies the fruit's position, by none
/// otherwise.
pub proof fn lemma_body_growth(pre: GameView, req: (int, int), cand: (int, int))
    requires
        pre.body.len() >= 1,
    ensures
        captures(pre, req, cand) ==> spec_step(pre, req, cand).body.len() == pre.body.len() + 1,
        !captures(pre, req, cand) ==> spec_step(pre, req, cand).body.len() == pre.body.len(),
        spec_step(pre, req, cand).body.len() >= pre.body.len(),
{
}

/// Requesting a velocity that reverses the current axis of motion never
/// changes the velocity.
pub proof fn lemma_reversal_ignored(cur: (int, int), req: (int, int))
    requires
        unit_velocity(cur),
        req.0 == -cur.0,
        req.1 == -cur.1,
    ensures
        next_velocity(cur, req) == cur,
{
}

/// On a board whose cells are all occupied but one, the spawn phase always
/// places the fruit on the single free cell, in one draw and with no retry.
/// The one situation left out is the head having re-occupied the cell the
/// tail just vacated: then that cell is not free either and the spawn waits
/// a tick.
pub proof fn lemma_respawn_fills_single_free_cell(
    mid: GameView,
    cand: (int, int),
    last: (int, int),
    free: (int, int),
)
    requires
        mid.body.len() >= 1,
        mid.fruit is None,
        in_bounds(cand, mid.board),
        in_bounds(last, mid.board),
        in_bounds(free, mid.board),
        !mid.body.contains(free),
        forall|p: (int, int)| in_bounds(p, mid.board) && p != free ==> mid.body.contains(p),
        !mid.body.contains(last),
    ensures
        spec_update_env(mid, cand, last).fruit == Some(free),
{
    assert(last == free);
    if !mid.body.contains(cand) {
        assert(cand == free);
    }
    assert(spawned_fruit(mid, cand, last) == Some(free));
    assert(mid.body.contains(mid.body[0]));
    assert(mid.body[0] != free);
}

/// Every reachable state is well formed: one tick taken from a well-formed,
/// running state leaves a well-formed state. In particular, while the game
/// is not over the head and the whole body stay on the board and no two
/// segments coincide, and a present fruit never lies on the body.
pub proof fn lemma_step_preserves_wf(pre: GameView, req: (int, int), cand: (int, int))
    requires
        pre.wf(),
        !pre.game_over,
        in_bounds(cand, pre.board),
    ensures
        spec_step(pre, req, cand).wf(),
{
    let turned = GameView { vel: next_velocity(pre.vel, req), ..pre };
    let mid = GameView { body: shifted_body(turned), ..turned };
    let head = step_head(turned);
    let rest = pre.body.drop_last();
    let last = pre.body.last();
    let post = spec_step(pre, req, cand);
    assert(unit_velocity(turned.vel));
    assert(forall|j: int| 0 <= j < rest.len() ==> rest[j] == pre.body[j]);
    assert(mid.body.len() == pre.body.len());
    assert(forall|j: int| 1 <= j < mid.body.len() ==> mid.body[j] == pre.body[j - 1]);
    if step_collides(turned) {
        // The terminal snapshot: the fruit, if present, is away from the
        // shifted body because it was away from the old body and differs
        // from the colliding head.
        if pre.fruit is Some {
            let f = pre.fruit->0;
            assert(!pre.body.contains(f));
            assert(forall|j: int| 0 <= j < pre.body.len() ==> pre.body[j] != f);
            if rest.contains(head) {
                let j: int = choose|j: int| 0 <= j < rest.len() && rest[j] == head;
                assert(pre.body[j] == head);
                assert(head != f);
            }
            assert(forall|j: int| 0 <= j < mid.body.len() ==> mid.body[j] != f);
            assert(!post.body.contains(f)) by {
                if post.body.contains(f) {
                    let j: int = choose|j: int| 0 <= j < post.body.len() && post.body[j] == f;
                }
            }
        }
    } else {
        assert(in_bounds(head, turned.board));
        assert(!rest.contains(head));
        assert(forall|j: int| 0 <= j < rest.len() ==> rest[j] != head) by {
            if exists|j: int| 0 <= j < rest.len() && rest[j] == head {
                let j: int = choose|j: int| 0 <= j < rest.len() && rest[j] == head;
                assert(rest.contains(head));
            }
        }
        assert(all_in_bounds(mid.body, mid.board));
        assert(distinct_positions(mid.body));
        let f0 = spawned_fruit(mid, cand, last);
        if f0 == Some(mid.body[0]) {
            // Growth: the appended cell is the vacated tail cell, which is
            // free, on the board, and distinct from every shifted segment.
            assert(mid.body[0] == head);
            assert(!mid.body.contains(last)) by {
                match pre.fruit {
                    Some(g) => {
                        assert(g == head);
                        if mid.body.contains(last) {
                            let j: int = choose|j: int|
                                0 <= j < mid.body.len() && mid.body[j] == last;
                            if j == 0 {
                                // then last == head == g, but g is off the old body
                                assert(pre.body.contains(last)) by {
                                    assert(pre.body[pre.body.len() - 1] == last);
                                }
                            } else {
                                assert(pre.body[j - 1] == last);
                                assert(pre.body[pre.body.len() - 1] == last);
                                assert(distinct_positions(pre.body));
                            }
                        }
                    },
                    None => {
                        // A fresh spawn lands on a free cell, never the head.
                        assert(!mid.body.contains(mid.body[0]));
                        assert(mid.body.contains(mid.body[0]));
                    },
                }
            }
            assert(in_bounds(last, pre.board)) by {
                assert(pre.body[pre.body.len() - 1] == last);
            }
            assert(post.body == mid.body.push(last));
            assert(all_in_bounds(post.body, post.board)) by {
                assert(forall|j: int| 0 <= j < mid.body.len() ==> post.body[j] == mid.body[j]);
                assert(post.body[mid.body.len() as int] == last);
            }
            assert(distinct_positions(post.body)) by {
                assert(forall|j: int| 0 <= j < mid.body.len() ==> post.body[j] == mid.body[j]);
                assert(forall|j: int| 0 <= j < mid.body.len() ==> mid.body[j] != last) by {
                    if exists|j: int| 0 <= j < mid.body.len() && mid.body[j] == last {
                        let j: int = choose|j: int| 0 <= j < mid.body.len() && mid.body[j] == last;
                        assert(mid.body.contains(last));
                    }
                }
            }
        } else {
            // No growth: a fruit the spawn phase leaves behind is on the
            // board and away from the shifted body, the head included.
            match f0 {
                Some(f) => {
                    assert(f != mid.body[0]);
                    assert(in_bounds(f, pre.board) && !mid.body.contains(f)) by {
                        match pre.fruit {
                            Some(g) => {
                                assert(f == g);
                                assert(forall|j: int|
                                    0 <= j < pre.body.len() ==> pre.body[j] != g) by {
                                    assert(!pre.body.contains(g));
                                    if exists|j: int| 0 <= j < pre.body.len() && pre.body[j] == g {
                                        let j: int = choose|j: int|
                                            0 <= j < pre.body.len() && pre.body[j] == g;
                                        assert(pre.body.contains(g));
                                    }
                                }
                                if mid.body.contains(g) {
                                    let j: int = choose|j: int|
                                        0 <= j < mid.body.len() && mid.body[j] == g;
                                    if j == 0 {
                                        assert(mid.body[0] == g);
                                    } else {
                                        assert(pre.body[j - 1] == g);
                                    }
                                }
                            },
                            None => {
                                assert(in_bounds(last, pre.board)) by {
                                    assert(pre.body[pre.body.len() - 1] == last);
                                }
                            },
                        }
                    }
                },
                None => {},
            }
        }
    }
}

/// Whether the body holds the given position.
fn body_contains(body: &Vec<(isize, isize)>, p: (isize, isize)) -> (r: bool)
    ensures
        r == view_positions(body@).contains((p.0 as int, p.1 as int)),
{
    let n: usize = body.len();
    let mut k: usize = 0;
    let mut found: bool = false;
    while k < n
        invariant
            n == body@.len(),
            0 <= k <= n,
            found == exists|j: int| 0 <= j < k && body@[j] == p,
        decreases n - k,
    {
        let q: (isize, isize) = body[k];
        if q.0 == p.0 && q.1 == p.1 {
            found = true;
            proof {
                assert(body@[k as int] == p);
            }
        }
        k = k + 1;
    }
    proof {
        let pv = (p.0 as int, p.1 as int);
        if found {
            let j: int = choose|j: int| 0 <= j < n && body@[j] == p;
            assert(view_positions(body@)[j] == pv);
            assert(view_positions(body@).contains(pv));
        }
        if view_positions(body@).contains(pv) {
            let j: int = choose|j: int| 0 <= j < view_positions(body@).len()
                && view_positions(body@)[j] == pv;
            assert(body@[j] == p);
        }
    }
    found
}

} // verus!
