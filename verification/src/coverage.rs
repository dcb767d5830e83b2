//! The model of the shrinking coverage state.
//!
//! The coverage state is a row-major grid of cells: `Some(c)` means the
//! pixel still needs the palette color with index `c`, `None` means it has
//! been claimed (or never carried a palette color).  This module gives the
//! specification-level view of that grid: how many pixels remain, what a
//! bulk removal along a strand path leaves behind, and what painting a path
//! onto an output canvas leaves behind.

use vstd::prelude::*;

verus! {

/// Row-major cell index of the pixel `p` on a grid `w` pixels wide.
pub open spec fn pix_idx(p: (u32, u32), w: int) -> int {
    (p.1 as int) * w + (p.0 as int)
}

/// Every pixel of `path` lies inside a grid of width `w` whose cell vector
/// has length `n`.
pub open spec fn path_in_grid(path: Seq<(u32, u32)>, w: int, n: int) -> bool {
    forall|k: int| 0 <= k < path.len() ==> 0 <= #[trigger] pix_idx(path[k], w) < n
}

/// The number of still-needed pixels in a coverage grid.
pub open spec fn count_some(s: Seq<Option<usize>>) -> nat
    decreases s.len(),
{
    if s.len() == 0 {
        0
    } else {
        count_some(s.drop_last()) + (if s.last() is Some {
            1nat
        } else {
            0nat
        })
    }
}

/// The coverage grid after removing every pixel of `path` from `cov`
/// (removing an already-absent pixel is a no-op).
pub open spec fn cleared(cov: Seq<Option<usize>>, path: Seq<(u32, u32)>, w: int) -> Seq<Option<usize>>
    decreases path.len(),
{
    if path.len() == 0 {
        cov
    } else {
        cleared(cov, path.drop_last(), w).update(pix_idx(path.last(), w), None)
    }
}

/// The canvas after painting every pixel of `path` with palette index
/// `color`, first writer wins: a cell already painted keeps its color.
pub open spec fn painted(cv: Seq<Option<usize>>, path: Seq<(u32, u32)>, w: int, color: usize) -> Seq<
    Option<usize>,
>
    decreases path.len(),
{
    if path.len() == 0 {
        cv
    } else {
        let prev = painted(cv, path.drop_last(), w, color);
        let i = pix_idx(path.last(), w);
        if prev[i] is None {
            prev.update(i, Some(color))
        } else {
            prev
        }
    }
}

/// Cell by cell, clearing a path sets exactly the cells under the path to
/// `None` and leaves every other cell alone.
pub proof fn lemma_cleared_pointwise(cov: Seq<Option<usize>>, path: Seq<(u32, u32)>, w: int)
    requires
        path_in_grid(path, w, cov.len() as int),
    ensures
        cleared(cov, path, w).len() == cov.len(),
        forall|j: int|
            0 <= j < cov.len() ==> #[trigger] cleared(cov, path, w)[j] == (if (exists|k: int|
                0 <= k < path.len() && pix_idx(path[k], w) == j) {
                None::<usize>
            } else {
                cov[j]
            }),
    decreases path.len(),
{
    if path.len() > 0 {
        let sub = path.drop_last();
        assert(path_in_grid(sub, w, cov.len() as int)) by {
            assert(forall|k: int| 0 <= k < sub.len() ==> sub[k] == path[k]);
        }
        lemma_cleared_pointwise(cov, sub, w);
        let full = cleared(cov, path, w);
        let prev = cleared(cov, sub, w);
        let last_i = pix_idx(path.last(), w);
        assert(0 <= last_i < cov.len()) by {
            assert(pix_idx(path[path.len() - 1], w) == last_i);
        }
        assert forall|j: int| 0 <= j < cov.len() implies #[trigger] full[j] == (if (exists|k: int|
            0 <= k < path.len() && pix_idx(path[k], w) == j) {
            None::<usize>
        } else {
            cov[j]
        }) by {
            if j == last_i {
                assert(pix_idx(path[path.len() - 1], w) == j);
            } else {
                assert(full[j] == prev[j]);
                if exists|k: int| 0 <= k < path.len() && pix_idx(path[k], w) == j {
                    let k = choose|k: int| 0 <= k < path.len() && pix_idx(path[k], w) == j;
                    assert(k < path.len() - 1);
                    assert(sub[k] == path[k]);
                    assert(pix_idx(sub[k], w) == j);
                }
            }
        }
    }
}

/// Cell by cell, painting a path fills exactly the unpainted cells under
/// the path and leaves every other cell alone.
pub proof fn lemma_painted_pointwise(cv: Seq<Option<usize>>, path: Seq<(u32, u32)>, w: int, color: usize)
    requires
        path_in_grid(path, w, cv.len() as int),
    ensures
        painted(cv, path, w, color).len() == cv.len(),
        forall|j: int|
            0 <= j < cv.len() ==> #[trigger] painted(cv, path, w, color)[j] == (if (cv[j] is None
                && exists|k: int| 0 <= k < path.len() && pix_idx(path[k], w) == j) {
                Some(color)
            } else {
                cv[j]
            }),
    decreases path.len(),
{
    if path.len() > 0 {
        let sub = path.drop_last();
        assert(path_in_grid(sub, w, cv.len() as int)) by {
            assert(forall|k: int| 0 <= k < sub.len() ==> sub[k] == path[k]);
        }
        lemma_painted_pointwise(cv, sub, w, color);
        let full = painted(cv, path, w, color);
        let prev = painted(cv, sub, w, color);
        let last_i = pix_idx(path.last(), w);
        assert(0 <= last_i < cv.len()) by {
            assert(pix_idx(path[path.len() - 1], w) == last_i);
        }
        assert forall|j: int| 0 <= j < cv.len() implies #[trigger] full[j] == (if (cv[j] is None
            && exists|k: int| 0 <= k < path.len() && pix_idx(path[k], w) == j) {
            Some(color)
        } else {
            cv[j]
        }) by {
            if j == last_i {
                assert(pix_idx(path[path.len() - 1], w) == j);
            } else {
                assert(full[j] == prev[j]);
                if exists|k: int| 0 <= k < path.len() && pix_idx(path[k], w) == j {
                    let k = choose|k: int| 0 <= k < path.len() && pix_idx(path[k], w) == j;
                    assert(k < path.len() - 1);
                    assert(sub[k] == path[k]);
                    assert(pix_idx(sub[k], w) == j);
                }
            }
        }
    }
}

/// If one grid has needed pixels only where another does, it cannot have
/// more of them.
pub proof fn lemma_count_some_dominated(s1: Seq<Option<usize>>, s2: Seq<Option<usize>>)
    requires
        s1.len() == s2.len(),
        forall|j: int| 0 <= j < s1.len() && s1[j] is None ==> #[trigger] s2[j] is None,
    ensures
        count_some(s2) <= count_some(s1),
    decreases s1.len(),
{
    if s1.len() > 0 {
        let t1 = s1.drop_last();
        let t2 = s2.drop_last();
        assert(forall|j: int| 0 <= j < t1.len() && t1[j] is None ==> #[trigger] t2[j] is None) by {
            assert(forall|j: int| 0 <= j < t1.len() ==> t1[j] == s1[j] && t2[j] == s2[j]);
        }
        lemma_count_some_dominated(t1, t2);
        assert(s1[s1.len() - 1] == s1.last());
        assert(s2[s1.len() - 1] == s2.last());
    }
}

/// As above, and some pixel needed in the first grid is gone from the
/// second: then the second has strictly fewer.
pub proof fn lemma_count_some_strictly_dominated(s1: Seq<Option<usize>>, s2: Seq<Option<usize>>, j: int)
    requires
        s1.len() == s2.len(),
        forall|j: int| 0 <= j < s1.len() && s1[j] is None ==> #[trigger] s2[j] is None,
        0 <= j < s1.len(),
        s1[j] is Some,
        s2[j] is None,
    ensures
        count_some(s2) < count_some(s1),
    decreases s1.len(),
{
    let t1 = s1.drop_last();
    let t2 = s2.drop_last();
    assert(forall|j: int| 0 <= j < t1.len() && t1[j] is None ==> #[trigger] t2[j] is None) by {
        assert(forall|j: int| 0 <= j < t1.len() ==> t1[j] == s1[j] && t2[j] == s2[j]);
    }
    assert(s1[s1.len() - 1] == s1.last());
    assert(s2[s1.len() - 1] == s2.last());
    if j == s1.len() - 1 {
        lemma_count_some_dominated(t1, t2);
    } else {
        lemma_count_some_strictly_dominated(t1, t2, j);
    }
}

/// Clearing a path never increases the number of needed pixels.
pub proof fn lemma_count_cleared_le(cov: Seq<Option<usize>>, path: Seq<(u32, u32)>, w: int)
    requires
        path_in_grid(path, w, cov.len() as int),
    ensures
        cleared(cov, path, w).len() == cov.len(),
        count_some(cleared(cov, path, w)) <= count_some(cov),
{
    lemma_cleared_pointwise(cov, path, w);
    lemma_count_some_dominated(cov, cleared(cov, path, w));
}

/// Clearing a path that still covers at least one needed pixel strictly
/// decreases the number of needed pixels.
pub proof fn lemma_count_cleared_lt(cov: Seq<Option<usize>>, path: Seq<(u32, u32)>, w: int, k: int)
    requires
        path_in_grid(path, w, cov.len() as int),
        0 <= k < path.len(),
        cov[pix_idx(path[k], w)] is Some,
    ensures
        count_some(cleared(cov, path, w)) < count_some(cov),
{
    lemma_cleared_pointwise(cov, path, w);
    let j = pix_idx(path[k], w);
    assert(cleared(cov, path, w)[j] is None);
    lemma_count_some_strictly_dominated(cov, cleared(cov, path, w), j);
}

} // verus!
