//! The controller abstraction: who decides the next move.
//!
//! Both controllers produce the same thing for a tick: an [`Intent`]. A
//! direct session maps key events to intents, latches the most recent one
//! between simulation steps and fires a step every fixed number of frames; a
//! remote session receives the intent ready-made from an agent. The
//! simulation engine is oblivious to which controller is active, and
//! [`lemma_modes_agree`] states that the trajectory depends on the intents
//! and the fruit draws alone.

use vstd::prelude::*;

use crate::engine::{
    GameState, GameView, board_ok, collides_after, in_bounds, initial_view, next_velocity,
    spec_step,
};

verus! {

/// A requested directional change for the upcoming step, or a no-op.
#[derive(Clone, Copy, PartialEq, Eq, Structural, Debug)]
pub enum Intent {
    Up,
    Down,
    Left,
    Right,
    Pass,
}

/// The velocity an intent asks for, given the current velocity: the four
/// directions map to the four unit vectors, a no-op keeps the current one.
pub open spec fn request_of(m: Intent, cur: (int, int)) -> (int, int) {
    match m {
        Intent::Up => (0, -1),
        Intent::Down => (0, 1),
        Intent::Left => (-1, 0),
        Intent::Right => (1, 0),
        Intent::Pass => cur,
    }
}

/// Turns an intent into the velocity it requests.
pub fn request_for(m: Intent, cur: (isize, isize)) -> (r: (isize, isize))
    ensures
        (r.0 as int, r.1 as int) == request_of(m, (cur.0 as int, cur.1 as int)),
{
    match m {
        Intent::Up => (0, -1),
        Intent::Down => (0, 1),
        Intent::Left => (-1, 0),
        Intent::Right => (1, 0),
        Intent::Pass => cur,
    }
}

impl GameState {
    /// One tick driven by a controller intent: the intent's requested
    /// velocity is weighed against the current one and the engine advances
    /// once, with the fruit candidate drawn at random over the board.
    pub fn step_intent(&mut self, m: Intent)
        requires
            old(self)@.wf(),
            !old(self).game_over,
            old(self).score - 1 >= isize::MIN,
            old(self).score + 19 <= isize::MAX,
        ensures
            exists|c: (int, int)|
                in_bounds(c, old(self)@.board) && final(self)@ == spec_step(
                    old(self)@,
                    request_of(m, old(self)@.vel),
                    c,
                ),
            final(self)@.wf(),
            final(self).game_over == collides_after(old(self)@, request_of(m, old(self)@.vel)),
    {
        let req: (isize, isize) = request_for(m, self.snake_velocity);
        self.step(req);
    }
}

/// A raw input event a direct session reacts to.
#[derive(Clone, Copy, PartialEq, Eq, Structural, Debug)]
pub enum KeyEvent {
    Up,
    Down,
    Left,
    Right,
    PauseToggle,
    Confirm,
}

/// The intent a key event carries, if it is directional.
pub open spec fn key_intent(k: KeyEvent) -> Option<Intent> {
    match k {
        KeyEvent::Up => Some(Intent::Up),
        KeyEvent::Down => Some(Intent::Down),
        KeyEvent::Left => Some(Intent::Left),
        KeyEvent::Right => Some(Intent::Right),
        KeyEvent::PauseToggle => None,
        KeyEvent::Confirm => None,
    }
}

/// Maps a directional key event to its intent.
pub fn intent_of_key(k: KeyEvent) -> (r: Option<Intent>)
    ensures
        r == key_intent(k),
{
    match k {
        KeyEvent::Up => Some(Intent::Up),
        KeyEvent::Down => Some(Intent::Down),
        KeyEvent::Left => Some(Intent::Left),
        KeyEvent::Right => Some(Intent::Right),
        KeyEvent::PauseToggle => None,
        KeyEvent::Confirm => None,
    }
}

/// The intent a direct session holds latched after a frame's key event:
/// a directional key replaces the previous latch, anything else keeps it.
pub open spec fn latched_after(prev: Intent, key: Option<KeyEvent>) -> Intent {
    match key {
        Some(k) => match key_intent(k) {
            Some(m) => m,
            None => prev,
        },
        None => prev,
    }
}

/// The per-frame state of a direct (keyboard) session: the pause flag, the
/// frame counter that rations simulation steps, and the latched intent.
pub struct DirectDriver {
    /// While set, frames pass without the simulation advancing.
    pub paused: bool,
    /// Frames seen since the last simulation step, always below the
    /// interval; a step fires on the frame this stands at zero.
    pub frames_since_step: usize,
    /// One simulation step for this many presentation frames.
    pub step_interval: usize,
    /// The most recent directional intent since the last step.
    pub latched: Intent,
}

impl DirectDriver {
    /// The driver invariant: a positive interval bounds the frame counter.
    pub open spec fn wf(self) -> bool {
        1 <= self.step_interval && self.frames_since_step < self.step_interval
    }

    /// A fresh driver: unpaused, a step due on the first frame, no latch.
    pub fn new(step_interval: usize) -> (d: DirectDriver)
        requires
            1 <= step_interval,
        ensures
            d == (DirectDriver {
                paused: false,
                frames_since_step: 0,
                step_interval,
                latched: Intent::Pass,
            }),
            d.wf(),
    {
        DirectDriver { paused: false, frames_since_step: 0, step_interval, latched: Intent::Pass }
    }

    /// One presentation frame of a direct session. A finished game accepts
    /// only the confirm key, which resets it. A running game first honours
    /// the pause toggle; while paused nothing else moves. Otherwise the
    /// frame's directional key, if any, is latched, and on the frame the
    /// counter stands at zero the simulation advances one step with the
    /// latched intent, which is then spent.
    pub fn direct_tick(&mut self, game: &mut GameState, key: Option<KeyEvent>)
        requires
            old(self).wf(),
            old(game)@.wf(),
            old(game).score - 1 >= isize::MIN,
            old(game).score + 19 <= isize::MAX,
        ensures
            final(self).wf(),
            final(game)@.wf(),
            final(self).step_interval == old(self).step_interval,
            old(game).game_over ==> {
                if key == Some(KeyEvent::Confirm) {
                    final(game)@ == initial_view(old(game)@.board) && *final(self) == (
                    DirectDriver { latched: Intent::Pass, ..*old(self) })
                } else {
                    *final(game) == *old(game) && *final(self) == *old(self)
                }
            },
            !old(game).game_over && key == Some(KeyEvent::PauseToggle) ==> *final(game) == *old(
                game,
            ) && *final(self) == (DirectDriver { paused: !old(self).paused, ..*old(self) }),
            !old(game).game_over && key != Some(KeyEvent::PauseToggle) && old(self).paused
                ==> *final(game) == *old(game) && *final(self) == *old(self),
            !old(game).game_over && key != Some(KeyEvent::PauseToggle) && !old(self).paused ==> {
                let m = latched_after(old(self).latched, key);
                let next_frames: int = if old(self).frames_since_step + 1
                    == old(self).step_interval {
                    0
                } else {
                    old(self).frames_since_step + 1
                };
                &&& final(self).paused == old(self).paused
                &&& final(self).frames_since_step == next_frames
                &&& if old(self).frames_since_step == 0 {
                    final(self).latched == Intent::Pass && exists|c: (int, int)|
                        in_bounds(c, old(game)@.board) && final(game)@ == spec_step(
                            old(game)@,
                            request_of(m, old(game)@.vel),
                            c,
                        )
                } else {
                    final(self).latched == m && *final(game) == *old(game)
                }
            },
    {
        if game.game_over {
            if matches!(key, Some(KeyEvent::Confirm)) {
                game.reset();
                self.latched = Intent::Pass;
            }
            return ;
        }
        if matches!(key, Some(KeyEvent::PauseToggle)) {
            self.paused = !self.paused;
            return ;
        }
        if self.paused {
            return ;
        }
        if let Some(k) = key {
            if let Some(m) = intent_of_key(k) {
                self.latched = m;
            }
        }
        let fire: bool = self.frames_since_step == 0;
        if self.frames_since_step + 1 == self.step_interval {
            self.frames_since_step = 0;
        } else {
            self.frames_since_step = self.frames_since_step + 1;
        }
        if fire {
            let m: Intent = self.latched;
            game.step_intent(m);
            self.latched = Intent::Pass;
        }
    }
}

/// One tick of the model under an intent: the intent's requested velocity
/// against the current one, then the step with the given fruit draw.
pub open spec fn step_intent_view(v: GameView, m: Intent, cand: (int, int)) -> GameView {
    spec_step(v, request_of(m, v.vel), cand)
}

/// A whole session on the model: one tick per intent, consuming one fruit
/// draw per tick.
pub open spec fn run_intents(v: GameView, ms: Seq<Intent>, cands: Seq<(int, int)>) -> GameView
    decreases ms.len(),
{
    if ms.len() == 0 {
        v
    } else {
        run_intents(step_intent_view(v, ms[0], cands[0]), ms.skip(1), cands.skip(1))
    }
}

/// A direct session on the model: each tick consumes one key event, whose
/// intent (or a no-op, for a non-directional key) drives the step.
pub open spec fn run_keys(v: GameView, ks: Seq<KeyEvent>, cands: Seq<(int, int)>) -> GameView
    decreases ks.len(),
{
    if ks.len() == 0 {
        v
    } else {
        let m = match key_intent(ks[0]) {
            Some(m) => m,
            None => Intent::Pass,
        };
        run_keys(step_intent_view(v, m, cands[0]), ks.skip(1), cands.skip(1))
    }
}

/// A remote session fed a sequence of intents and a direct session fed the
/// equivalent key events on matching ticks drive the simulation through the
/// same trajectory, given identical fruit draws: the outcome depends on the
/// intents and the draws alone, never on which controller produced them.
pub proof fn lemma_modes_agree(
    v: GameView,
    ks: Seq<KeyEvent>,
    ms: Seq<Intent>,
    cands: Seq<(int, int)>,
)
    requires
        ks.len() == ms.len(),
        forall|i: int| #![trigger ks[i]]
            0 <= i < ks.len() ==> key_intent(ks[i]) == Some(ms[i]) || (key_intent(ks[i]) is None
                && ms[i] == Intent::Pass),
    ensures
        run_keys(v, ks, cands) == run_intents(v, ms, cands),
    decreases ks.len(),
{
    if ks.len() != 0 {
        assert(key_intent(ks[0]) == Some(ms[0]) || (key_intent(ks[0]) is None && ms[0]
            == Intent::Pass));
        assert(forall|i: int| #![trigger ks.skip(1)[i]]
            0 <= i < ks.skip(1).len() ==> ks.skip(1)[i] == ks[i + 1] && ms.skip(1)[i] == ms[i
                + 1]);
        lemma_modes_agree(step_intent_view(v, ms[0], cands[0]), ks.skip(1), ms.skip(1), cands.skip(
            1,
        ));
    }
}

} // verus!
