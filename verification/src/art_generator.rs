//! The engine that drives a routing strategy to completion.
//!
//! The generator owns the board, a strategy, the nail each color's strand
//! currently ends at, the ordered pattern of committed moves, and an
//! output canvas onto which each committed strand is painted, first
//! writer wins per pixel.  Every committed move strictly shrinks the
//! strategy's remaining coverage, so a run always terminates.

use crate::art_algo::ArtAlgo;
use crate::board::table_view;
use crate::board::Board;
use crate::coverage::count_some;
use crate::coverage::painted;
use crate::coverage::path_in_grid;
use crate::coverage::pix_idx;
use crate::raster::lemma_row_major_in_range;
use crate::raster::Canvas;
use vstd::prelude::*;

verus! {

/// The pattern entries for the starting positions: one `(color, nail)`
/// pair per color that participates, in color order.
pub open spec fn initial_pattern(pos: Seq<Option<usize>>) -> Seq<(usize, usize)>
    decreases pos.len(),
{
    if pos.len() == 0 {
        Seq::empty()
    } else {
        let rest = initial_pattern(pos.drop_last());
        if pos.last() is Some {
            rest.push(((pos.len() - 1) as usize, pos.last()->0))
        } else {
            rest
        }
    }
}

/// The stepping engine around a routing strategy.
pub struct ArtGenerator<A: ArtAlgo> {
    pub board: Board,
    pub algo: A,
    pub current_nails: Vec<Option<usize>>,
    pub pattern: Vec<(usize, usize)>,
    pub art: Canvas,
}

impl<A: ArtAlgo> ArtGenerator<A> {
    /// Structural soundness: a sound board and strategy that agree on the
    /// nail count, one current nail slot per color, each on the board,
    /// and a canvas of the board's size.
    pub open spec fn wf(&self) -> bool {
        &&& self.board.wf()
        &&& self.algo.inv()
        &&& self.algo.num_nails() == self.board.nails@.len()
        &&& self.current_nails@.len() == self.algo.num_colors()
        &&& forall|c: int|
            0 <= c < self.current_nails@.len() && self.current_nails@[c] is Some ==> ((
            #[trigger] self.current_nails@[c])->0 as nat) < self.algo.num_nails()
        &&& self.art.wf()
        &&& self.art.width == self.board.width
        &&& self.art.height == self.board.height
    }

    /// An engine over a board and a strategy, with every strand at its
    /// starting nail and the starting positions already in the pattern.
    pub fn new(board: Board, algo: A) -> (g: ArtGenerator<A>)
        requires
            board.wf(),
            algo.inv(),
            algo.num_nails() == board.nails@.len(),
            (board.width as int) * (board.height as int) <= usize::MAX,
        ensures
            g.wf(),
            g.board == board,
            g.algo == algo,
            g.current_nails@ == algo.initial_positions(),
            g.pattern@ == initial_pattern(g.current_nails@),
            g.art.cells@.len() == (board.width as int) * (board.height as int),
            forall|i: int| 0 <= i < g.art.cells@.len() ==> g.art.cells@[i] is None,
    {
        let current_nails = algo.initial_nails();
        let mut pattern: Vec<(usize, usize)> = Vec::new();
        let mut c: usize = 0;
        while c < current_nails.len()
            invariant
                0 <= c <= current_nails@.len(),
                pattern@ == initial_pattern(current_nails@.subrange(0, c as int)),
            decreases current_nails@.len() - c,
        {
            match current_nails[c] {
                Some(nail) => {
                    pattern.push((c, nail));
                },
                None => {},
            }
            proof {
                let sub1 = current_nails@.subrange(0, c as int + 1);
                assert(sub1.drop_last() =~= current_nails@.subrange(0, c as int));
                assert(sub1.last() == current_nails@[c as int]);
            }
            c = c + 1;
        }
        proof {
            assert(current_nails@.subrange(0, current_nails@.len() as int) =~= current_nails@);
        }
        let art = Canvas::new(board.width, board.height);
        ArtGenerator { board, algo, current_nails, pattern, art }
    }

    /// Paints the stored path between two nails onto the canvas in the
    /// given color; a pixel some earlier strand painted keeps its color.
    fn paint_path(&mut self, last_nail: usize, next_nail: usize, color: usize)
        requires
            old(self).wf(),
            last_nail < old(self).board.nails@.len(),
            next_nail < old(self).board.nails@.len(),
        ensures
            final(self).wf(),
            final(self).board == old(self).board,
            final(self).algo == old(self).algo,
            final(self).current_nails == old(self).current_nails,
            final(self).pattern == old(self).pattern,
            final(self).art.width == old(self).art.width,
            final(self).art.height == old(self).art.height,
            final(self).art.cells@ == painted(
                old(self).art.cells@,
                table_view(old(self).board.paths)[last_nail as int][next_nail as int],
                old(self).board.width as int,
                color,
            ),
    {
        let ghost tv = table_view(self.board.paths);
        let ghost w = self.board.width as int;
        let ghost h = self.board.height as int;
        let ghost cv0 = self.art.cells@;
        let ghost pathv = tv[last_nail as int][next_nail as int];
        let width = self.board.width;
        proof {
            assert(self.board.paths@[last_nail as int]@.len() == self.board.nails@.len());
            assert forall|k: int| 0 <= k < pathv.len() implies (#[trigger] pathv[k]).0 < w
                && pathv[k].1 < h by {
                assert(tv[last_nail as int][next_nail as int][k] == pathv[k]);
            }
            assert forall|k: int| 0 <= k < pathv.len() implies 0 <= #[trigger] pix_idx(pathv[k], w)
                < cv0.len() by {
                assert(pathv[k].0 < w && pathv[k].1 < h);
                lemma_row_major_in_range(pathv[k].0 as int, pathv[k].1 as int, w, h);
            }
        }
        let mut k: usize = 0;
        while k < self.board.paths[last_nail][next_nail].len()
            invariant
                0 <= k <= pathv.len(),
                self.board == old(self).board,
                self.algo == old(self).algo,
                self.current_nails == old(self).current_nails,
                self.pattern == old(self).pattern,
                old(self).wf(),
                last_nail < self.board.nails@.len(),
                next_nail < self.board.nails@.len(),
                tv == table_view(self.board.paths),
                w == self.board.width as int,
                h == self.board.height as int,
                width == self.board.width,
                pathv == tv[last_nail as int][next_nail as int],
                path_in_grid(pathv, w, cv0.len() as int),
                self.art.width == old(self).art.width,
                self.art.height == old(self).art.height,
                self.art.cells@.len() == cv0.len(),
                self.art.cells@ == painted(cv0, pathv.subrange(0, k as int), w, color),
            decreases pathv.len() - k,
        {
            let p = self.board.paths[last_nail][next_nail][k];
            let _len: usize = self.art.cells.len();
            proof {
                assert(tv[last_nail as int][next_nail as int][k as int] == pathv[k as int]);
                assert(0 <= pix_idx(pathv[k as int], w) < cv0.len());
            }
            let i: usize = (p.1 as usize) * (width as usize) + (p.0 as usize);
            let cell = self.art.cells[i];
            if cell.is_none() {
                self.art.cells.set(i, Some(color));
            }
            proof {
                let sub1 = pathv.subrange(0, k as int + 1);
                assert(sub1.drop_last() =~= pathv.subrange(0, k as int));
                assert(sub1.last() == pathv[k as int]);
            }
            k = k + 1;
        }
        proof {
            assert(pathv.subrange(0, pathv.len() as int) =~= pathv);
        }
    }

    /// One routing step: asks the strategy for its move against the
    /// current positions and commits it, painting the strand, appending
    /// it to the pattern and advancing that color's nail.  `None` is the
    /// terminal state and leaves everything untouched.
    pub fn step(&mut self) -> (r: Option<(usize, usize)>)
        requires
            old(self).wf(),
        ensures
            final(self).wf(),
            final(self).board == old(self).board,
            r == old(self).algo.next_choice(old(self).current_nails@),
            count_some(final(self).algo.coverage()) <= count_some(old(self).algo.coverage()),
            r is None ==> *final(self) == *old(self),
            r matches Some(m) ==> {
                &&& (m.0 as int) < old(self).current_nails@.len()
                &&& old(self).current_nails@[m.0 as int] is Some
                &&& final(self).pattern@ == old(self).pattern@.push(m)
                &&& final(self).current_nails@ == old(self).current_nails@.update(
                    m.0 as int,
                    Some(m.1),
                )
                &&& final(self).art.cells@ == painted(
                    old(self).art.cells@,
                    table_view(old(self).board.paths)[(old(self).current_nails@[m.0 as int]->0) as int][m.1 as int],
                    old(self).board.width as int,
                    m.0,
                )
                &&& count_some(final(self).algo.coverage()) < count_some(
                    old(self).algo.coverage(),
                )
            },
    {
        let nail_choice = self.algo.next_nail(&self.current_nails);
        match nail_choice {
            None => None,
            Some((color, next_nail)) => {
                let last_nail = match self.current_nails[color] {
                    Some(s) => s,
                    None => {
                        proof {
                            assert(false);
                        }
                        0
                    },
                };
                self.paint_path(last_nail, next_nail, color);
                self.pattern.push((color, next_nail));
                self.current_nails.set(color, Some(next_nail));
                Some((color, next_nail))
            },
        }
    }

    /// Runs the engine to its terminal state: when it returns, the
    /// strategy has no move left to commit.  Every step strictly shrinks
    /// the strategy's remaining coverage, so the run commits at most as
    /// many moves as there were remaining pixels, and always terminates;
    /// the pattern grows only by the committed moves, the entries already
    /// recorded staying in place.
    pub fn run(&mut self)
        requires
            old(self).wf(),
        ensures
            final(self).wf(),
            final(self).board == old(self).board,
            final(self).algo.next_choice(final(self).current_nails@) is None,
            count_some(final(self).algo.coverage()) <= count_some(old(self).algo.coverage()),
            old(self).pattern@.len() <= final(self).pattern@.len(),
            final(self).pattern@.subrange(0, old(self).pattern@.len() as int) == old(
                self,
            ).pattern@,
            final(self).pattern@.len() + count_some(final(self).algo.coverage()) <= old(
                self,
            ).pattern@.len() + count_some(old(self).algo.coverage()),
    {
        loop
            invariant
                self.wf(),
                self.board == old(self).board,
                count_some(self.algo.coverage()) <= count_some(old(self).algo.coverage()),
                old(self).pattern@.len() <= self.pattern@.len(),
                self.pattern@.subrange(0, old(self).pattern@.len() as int) == old(self).pattern@,
                self.pattern@.len() + count_some(self.algo.coverage()) <= old(self).pattern@.len()
                    + count_some(old(self).algo.coverage()),
            ensures
                self.wf(),
                self.board == old(self).board,
                self.algo.next_choice(self.current_nails@) is None,
                count_some(self.algo.coverage()) <= count_some(old(self).algo.coverage()),
                old(self).pattern@.len() <= self.pattern@.len(),
                self.pattern@.subrange(0, old(self).pattern@.len() as int) == old(self).pattern@,
                self.pattern@.len() + count_some(self.algo.coverage()) <= old(self).pattern@.len()
                    + count_some(old(self).algo.coverage()),
            decreases count_some(self.algo.coverage()),
        {
            let ghost pre = self.pattern@;
            let r = self.step();
            if r.is_none() {
                break;
            }
            proof {
                assert(self.pattern@.subrange(0, old(self).pattern@.len() as int) == old(
                    self,
                ).pattern@) by {
                    assert(self.pattern@ == pre.push(r->0));
                    assert(self.pattern@.subrange(0, old(self).pattern@.len() as int)
                        =~= pre.subrange(0, old(self).pattern@.len() as int));
                }
            }
        }
    }

    /// The ordered pattern of committed `(color, nail)` moves.
    pub fn pattern(&self) -> (p: &Vec<(usize, usize)>)
        ensures
            p == &self.pattern,
    {
        &self.pattern
    }

    /// The output canvas.
    pub fn art(&self) -> (a: &Canvas)
        ensures
            a == &self.art,
    {
        &self.art
    }

    /// The board.
    pub fn board(&self) -> (b: &Board)
        ensures
            b == &self.board,
    {
        &self.board
    }
}

} // verus!
