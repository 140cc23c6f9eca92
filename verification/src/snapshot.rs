//! The flat cell-occupancy snapshot sent to an external agent.
//!
//! One entry per board cell, indexed `column * height + row`, with 0 for an
//! empty cell, 1 for a snake segment and 2 for the fruit, plus the score.

use vstd::prelude::*;

use crate::engine::{
    GameState, GameView, board_ok, in_bounds, initial_view, view_positions,
};

verus! {

/// A read-only copy of the grid: one entry per cell, plus the score.
pub struct Snapshot {
    /// Cell codes, one per board cell: 0 empty, 1 snake, 2 fruit.
    pub cells: Vec<isize>,
    /// The score at the moment the snapshot was taken.
    pub score: isize,
}

/// The code a snapshot holds for one cell: 2 on the fruit, 1 on a snake
/// segment, 0 elsewhere. A present fruit never lies on the body, so the
/// cases do not overlap.
pub open spec fn cell_code(v: GameView, col: int, row: int) -> int {
    if v.fruit == Some((col, row)) {
        2
    } else if v.body.contains((col, row)) {
        1
    } else {
        0
    }
}

/// The flat position of a cell in the snapshot: `column * height + row`.
pub open spec fn flat_index(col: int, row: int, h: int) -> int {
    col * h + row
}

/// A cell's flat index lies inside the board's cell count.
proof fn lemma_flat_index_range(c: int, r: int, w: int, h: int)
    by (nonlinear_arith)
    requires
        0 <= c < w,
        0 <= r < h,
    ensures
        0 <= c * h + r < w * h,
        0 <= flat_index(c, r, h) < w * h,
{
}

/// Two distinct cells never share a flat index.
proof fn lemma_flat_index_injective(c1: int, r1: int, c2: int, r2: int, h: int)
    by (nonlinear_arith)
    requires
        0 <= r1 < h,
        0 <= r2 < h,
        flat_index(c1, r1, h) == flat_index(c2, r2, h),
    ensures
        c1 == c2,
        r1 == r2,
{
}

impl GameState {
    /// Serialises the grid into the flat cell-occupancy form, together with
    /// the score: every cell of the board carries exactly its code.
    #[verifier::loop_isolation(false)]
    pub fn snapshot(&self) -> (snap: Snapshot)
        requires
            self@.wf(),
            !self.game_over,
        ensures
            snap.cells@.len() == self@.board.0 * self@.board.1,
            forall|c: int, r: int| #![trigger flat_index(c, r, self@.board.1)]
                0 <= c < self@.board.0 && 0 <= r < self@.board.1 ==> snap.cells@[flat_index(
                    c,
                    r,
                    self@.board.1,
                )] == cell_code(self@, c, r),
            snap.score == self.score,
    {
        let w: usize = self.board_size.0 as usize;
        let h: usize = self.board_size.1 as usize;
        proof {
            assert(w == self@.board.0 && h == self@.board.1);
            assert(w * h <= 0x1000000) by (nonlinear_arith)
                requires
                    w <= 0x1000,
                    h <= 0x1000,
            ;
        }
        let total: usize = w * h;
        let mut cells: Vec<isize> = Vec::new();
        while cells.len() < total
            invariant
                cells@.len() <= total,
                forall|t: int| 0 <= t < cells@.len() ==> cells@[t] == 0,
            decreases total - cells@.len(),
        {
            cells.push(0);
        }
        proof {
            assert forall|c: int, r: int| #![trigger flat_index(c, r, h as int)]
                0 <= c < w && 0 <= r < h implies cells@[flat_index(c, r, h as int)] == 0 by {
                lemma_flat_index_range(c, r, w as int, h as int);
            }
        }
        let n: usize = self.snake_position.len();
        let ghost body = view_positions(self.snake_position@);
        let mut j: usize = 0;
        while j < n
            invariant
                0 <= j <= n,
                cells@.len() == total,
                forall|c: int, r: int| #![trigger flat_index(c, r, h as int)]
                    0 <= c < w && 0 <= r < h ==> cells@[flat_index(c, r, h as int)] == (
                    if exists|t: int| 0 <= t < j && body[t] == (c, r) {
                        1int
                    } else {
                        0int
                    }),
            decreases n - j,
        {
            let seg: (isize, isize) = self.snake_position[j];
            proof {
                assert(body[j as int] == (seg.0 as int, seg.1 as int));
                assert(in_bounds((seg.0 as int, seg.1 as int), self@.board));
                lemma_flat_index_range(seg.0 as int, seg.1 as int, w as int, h as int);
            }
            let idx: usize = (seg.0 as usize) * h + (seg.1 as usize);
            proof {
                assert(idx == flat_index(seg.0 as int, seg.1 as int, h as int));
            }
            let ghost cells0 = cells@;
            cells[idx] = 1;
            proof {
                assert forall|c: int, r: int| #![trigger flat_index(c, r, h as int)]
                    0 <= c < w && 0 <= r < h implies cells@[flat_index(c, r, h as int)] == (
                if exists|t: int| 0 <= t < j + 1 && body[t] == (c, r) {
                    1int
                } else {
                    0int
                }) by {
                    lemma_flat_index_range(c, r, w as int, h as int);
                    if c == seg.0 as int && r == seg.1 as int {
                        assert(body[j as int] == (c, r));
                    } else {
                        if flat_index(c, r, h as int) == flat_index(
                            seg.0 as int,
                            seg.1 as int,
                            h as int,
                        ) {
                            lemma_flat_index_injective(c, r, seg.0 as int, seg.1 as int, h as int);
                        }
                        assert(cells@[flat_index(c, r, h as int)] == cells0[flat_index(
                            c,
                            r,
                            h as int,
                        )]);
                        if exists|t: int| 0 <= t < j + 1 && body[t] == (c, r) {
                            let t: int = choose|t: int| 0 <= t < j + 1 && body[t] == (c, r);
                            assert(t != j);
                            assert(exists|u: int| 0 <= u < j && body[u] == (c, r));
                        }
                    }
                }
            }
            j = j + 1;
        }
        proof {
            assert forall|c: int, r: int| #![trigger flat_index(c, r, h as int)]
                0 <= c < w && 0 <= r < h implies cells@[flat_index(c, r, h as int)] == (
            if body.contains((c, r)) {
                1int
            } else {
                0int
            }) by {
                if exists|t: int| 0 <= t < n && body[t] == (c, r) {
                    let t: int = choose|t: int| 0 <= t < n && body[t] == (c, r);
                    assert(body.contains((c, r)));
                }
                if body.contains((c, r)) {
                    let t: int = choose|t: int| 0 <= t < body.len() && body[t] == (c, r);
                    assert(exists|u: int| 0 <= u < n && body[u] == (c, r));
                }
            }
        }
        if let Some(f) = self.fruit_position {
            proof {
                assert(self@.fruit == Some((f.0 as int, f.1 as int)));
                assert(in_bounds((f.0 as int, f.1 as int), self@.board));
                lemma_flat_index_range(f.0 as int, f.1 as int, w as int, h as int);
            }
            let idx: usize = (f.0 as usize) * h + (f.1 as usize);
            proof {
                assert(idx == flat_index(f.0 as int, f.1 as int, h as int));
            }
            cells[idx] = 2;
            proof {
                assert forall|c: int, r: int| #![trigger flat_index(c, r, h as int)]
                    0 <= c < w && 0 <= r < h implies cells@[flat_index(c, r, h as int)]
                    == cell_code(self@, c, r) by {
                    lemma_flat_index_range(c, r, w as int, h as int);
                    if c == f.0 as int && r == f.1 as int {
                        assert(self@.fruit == Some((c, r)));
                    } else {
                        if flat_index(c, r, h as int) == flat_index(
                            f.0 as int,
                            f.1 as int,
                            h as int,
                        ) {
                            lemma_flat_index_injective(c, r, f.0 as int, f.1 as int, h as int);
                        }
                        assert(self@.fruit != Some((c, r)));
                    }
                }
            }
        }
        Snapshot { cells, score: self.score }
    }

    /// The remote controller's view of this tick: a finished game is reset
    /// in place of being observed; a running game is left untouched and
    /// serialised for the agent.
    pub fn remote_observe(&mut self) -> (snap: Option<Snapshot>)
        requires
            old(self)@.wf(),
        ensures
            old(self).game_over ==> snap is None && final(self)@ == initial_view(
                old(self)@.board,
            ) && final(self)@.wf(),
            !old(self).game_over ==> *final(self) == *old(self) && (snap matches Some(s) && {
                &&& s.cells@.len() == old(self)@.board.0 * old(self)@.board.1
                &&& forall|c: int, r: int| #![trigger flat_index(c, r, old(self)@.board.1)]
                    0 <= c < old(self)@.board.0 && 0 <= r < old(self)@.board.1 ==> s.cells@[
                    flat_index(c, r, old(self)@.board.1)] == cell_code(old(self)@, c, r)
                &&& s.score == old(self).score
            }),
    {
        if self.game_over {
            self.reset();
            None
        } else {
            Some(self.snapshot())
        }
    }
}

} // verus!
