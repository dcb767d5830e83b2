//! The routing-strategy interface.
//!
//! The engine that drives stepping is independent of the heuristic that
//! picks each move: a strategy provides the starting nail per color and,
//! given the nail each color currently ends at, the next committed move.
//! The contract below is what the engine needs to make progress and
//! terminate: every committed move consumes at least one remaining pixel.

use crate::coverage::count_some;
use vstd::prelude::*;

verus! {

/// A strand-routing strategy.
pub trait ArtAlgo: Sized {
    /// The strategy's internal soundness.
    spec fn inv(&self) -> bool;

    /// How many palette colors the strategy routes.
    spec fn num_colors(&self) -> nat;

    /// How many nails its board has.
    spec fn num_nails(&self) -> nat;

    /// The remaining coverage: which pixels still need which color.
    spec fn coverage(&self) -> Seq<Option<usize>>;

    /// The nail each color's strand starts at, as a value of the
    /// strategy's state: what `initial_nails` returns.
    spec fn initial_positions(&self) -> Seq<Option<usize>>;

    /// The move the strategy commits against the given positions, as a
    /// value of its state: what `next_nail` returns, `None` in the
    /// terminal state.
    spec fn next_choice(&self, positions: Seq<Option<usize>>) -> Option<(usize, usize)>;

    /// The nail each color's strand starts at, `None` for a color that
    /// does not participate.
    fn initial_nails(&self) -> (r: Vec<Option<usize>>)
        requires
            self.inv(),
        ensures
            r@ == self.initial_positions(),
            r@.len() == self.num_colors(),
            forall|c: int|
                0 <= c < r@.len() && r@[c] is Some ==> ((#[trigger] r@[c])->0 as nat)
                    < self.num_nails(),
    ;

    /// The next committed move, or `None` in the terminal state.  The
    /// result is exactly the strategy's choice; a committed move names a
    /// color that has a current nail, stays on the board, and strictly
    /// shrinks the remaining coverage; `None` leaves the strategy
    /// untouched.
    fn next_nail(&mut self, nails: &Vec<Option<usize>>) -> (r: Option<(usize, usize)>)
        requires
            old(self).inv(),
            nails@.len() == old(self).num_colors(),
            forall|c: int|
                0 <= c < nails@.len() && nails@[c] is Some ==> ((#[trigger] nails@[c])->0 as nat)
                    < old(self).num_nails(),
        ensures
            final(self).inv(),
            final(self).num_colors() == old(self).num_colors(),
            final(self).num_nails() == old(self).num_nails(),
            r == old(self).next_choice(nails@),
            count_some(final(self).coverage()) <= count_some(old(self).coverage()),
            r matches Some(m) ==> {
                &&& (m.0 as int) < nails@.len()
                &&& (m.1 as nat) < old(self).num_nails()
                &&& nails@[m.0 as int] is Some
                &&& count_some(final(self).coverage()) < count_some(old(self).coverage())
            },
            r is None ==> *final(self) == *old(self),
    ;
}

} // verus!
