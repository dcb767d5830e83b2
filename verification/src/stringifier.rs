//! The greedy strand router.
//!
//! Given the board's path table, a target map of palette indices, and the
//! nail each color's strand currently ends at, a step scores every
//! (color, candidate nail) move against the remaining coverage and commits
//! the single best one: matching pixels minus mismatching pixels, where a
//! move with no matching pixel is never eligible.  Ties break toward the
//! earlier color, then the earlier nail, so a run is a function of its
//! inputs alone.

use crate::board::row_view;
use crate::board::table_in_bounds;
use crate::board::table_square;
use crate::board::table_view;
use crate::board::Board;
use crate::board::Nail;
use crate::coverage::cleared;
use crate::coverage::count_some;
use crate::coverage::lemma_count_cleared_le;
use crate::coverage::lemma_count_cleared_lt;
use crate::coverage::path_in_grid;
use crate::coverage::pix_idx;
use crate::dither::dither_image;
use crate::dither::dither_spec;
use crate::raster::lemma_row_major_in_range;
use crate::raster::Color;
use crate::raster::Raster;
use crate::util::Dimensions;
use vstd::arithmetic::div_mod::lemma_div_pos_is_pos;
use vstd::arithmetic::div_mod::lemma_fundamental_div_mod;
use vstd::arithmetic::div_mod::lemma_fundamental_div_mod_converse;
use vstd::arithmetic::div_mod::lemma_mod_pos_bound;
use vstd::prelude::*;

verus! {

/// How many pixels of `path` still need exactly `color` in `cov`.
pub open spec fn match_count(path: Seq<(u32, u32)>, cov: Seq<Option<usize>>, w: int, color: usize) -> nat
    decreases path.len(),
{
    if path.len() == 0 {
        0
    } else {
        match_count(path.drop_last(), cov, w, color) + (if cov[pix_idx(path.last(), w)] == Some(
            color,
        ) {
            1nat
        } else {
            0nat
        })
    }
}

/// How many pixels of `path` still need some other color in `cov`.
pub open spec fn mismatch_count(path: Seq<(u32, u32)>, cov: Seq<Option<usize>>, w: int, color: usize) -> nat
    decreases path.len(),
{
    if path.len() == 0 {
        0
    } else {
        mismatch_count(path.drop_last(), cov, w, color) + (if cov[pix_idx(path.last(), w)] is Some
            && cov[pix_idx(path.last(), w)] != Some(color) {
            1nat
        } else {
            0nat
        })
    }
}

/// The score of drawing `path` for `color`: matching pixels minus
/// mismatching pixels.
pub open spec fn move_score(path: Seq<(u32, u32)>, cov: Seq<Option<usize>>, w: int, color: usize) -> int {
    match_count(path, cov, w, color) - mismatch_count(path, cov, w, color)
}

/// The path of the candidate move (color `c`, destination nail `t`): the
/// stored path from the nail color `c` currently ends at to nail `t`.
pub open spec fn cand_path(
    tv: Seq<Seq<Seq<(u32, u32)>>>,
    positions: Seq<Option<usize>>,
    c: int,
    t: int,
) -> Seq<(u32, u32)> {
    tv[(positions[c]->0) as int][t]
}

/// Whether the candidate move (color `c`, nail `t`) may be taken: the
/// color has a current nail, and the move covers at least one pixel that
/// still needs this color.  A move with no matching pixel is never
/// eligible, however mild its mismatches.
pub open spec fn eligible(
    tv: Seq<Seq<Seq<(u32, u32)>>>,
    cov: Seq<Option<usize>>,
    w: int,
    positions: Seq<Option<usize>>,
    c: int,
    t: int,
) -> bool {
    &&& 0 <= c < positions.len()
    &&& 0 <= t < tv.len()
    &&& positions[c] is Some
    &&& match_count(cand_path(tv, positions, c, t), cov, w, c as usize) > 0
}

/// The score of the candidate move (color `c`, nail `t`).
pub open spec fn cand_score(
    tv: Seq<Seq<Seq<(u32, u32)>>>,
    cov: Seq<Option<usize>>,
    w: int,
    positions: Seq<Option<usize>>,
    c: int,
    t: int,
) -> int {
    move_score(cand_path(tv, positions, c, t), cov, w, c as usize)
}

/// The best move among the first `k` candidates in the fixed order
/// color-major, nail-minor (candidate `k` is color `k / n`, nail `k % n`
/// for `n` nails): the eligible candidate with the highest score, the
/// earliest such candidate on a tie.
pub open spec fn best_upto(
    tv: Seq<Seq<Seq<(u32, u32)>>>,
    cov: Seq<Option<usize>>,
    w: int,
    positions: Seq<Option<usize>>,
    n: int,
    k: int,
) -> Option<(usize, usize)>
    decreases k,
{
    if k <= 0 {
        None
    } else {
        let prev = best_upto(tv, cov, w, positions, n, k - 1);
        let c = (k - 1) / n;
        let t = (k - 1) % n;
        if eligible(tv, cov, w, positions, c, t) && (prev is None || cand_score(
            tv,
            cov,
            w,
            positions,
            c,
            t,
        ) > cand_score(tv, cov, w, positions, ((prev->0).0) as int, ((prev->0).1) as int)) {
            Some((c as usize, t as usize))
        } else {
            prev
        }
    }
}

/// The best move over all (color, nail) candidates, or `None` when no
/// candidate is eligible.
pub open spec fn best_move(
    tv: Seq<Seq<Seq<(u32, u32)>>>,
    cov: Seq<Option<usize>>,
    w: int,
    positions: Seq<Option<usize>>,
    n: int,
) -> Option<(usize, usize)> {
    best_upto(tv, cov, w, positions, n, positions.len() * n)
}

/// What the fold in `best_upto` guarantees: a `None` means no candidate
/// so far was eligible; a winner is eligible, scores at least as high as
/// every eligible candidate so far, and strictly higher than every
/// eligible candidate before it.
pub proof fn lemma_best_upto_props(
    tv: Seq<Seq<Seq<(u32, u32)>>>,
    cov: Seq<Option<usize>>,
    w: int,
    positions: Seq<Option<usize>>,
    n: int,
    k: int,
)
    requires
        n >= 1,
        n <= usize::MAX,
        positions.len() <= usize::MAX,
        0 <= k <= positions.len() * n,
    ensures
        best_upto(tv, cov, w, positions, n, k) is None ==> forall|c: int, t: int|
            0 <= c && 0 <= t < n && c * n + t < k ==> !#[trigger] eligible(
                tv,
                cov,
                w,
                positions,
                c,
                t,
            ),
        best_upto(tv, cov, w, positions, n, k) matches Some(b) ==> {
            &&& eligible(tv, cov, w, positions, b.0 as int, b.1 as int)
            &&& (b.0 as int) * n + (b.1 as int) < k
            &&& (b.1 as int) < n
            &&& forall|c: int, t: int|
                0 <= c && 0 <= t < n && c * n + t < k && #[trigger] eligible(
                    tv,
                    cov,
                    w,
                    positions,
                    c,
                    t,
                ) ==> cand_score(tv, cov, w, positions, c, t) <= cand_score(
                    tv,
                    cov,
                    w,
                    positions,
                    b.0 as int,
                    b.1 as int,
                )
            &&& forall|c: int, t: int|
                0 <= c && 0 <= t < n && c * n + t < (b.0 as int) * n + (b.1 as int)
                    && #[trigger] eligible(tv, cov, w, positions, c, t) ==> cand_score(
                    tv,
                    cov,
                    w,
                    positions,
                    c,
                    t,
                ) < cand_score(tv, cov, w, positions, b.0 as int, b.1 as int)
        },
    decreases k,
{
    if k > 0 {
        lemma_best_upto_props(tv, cov, w, positions, n, k - 1);
        let c0 = (k - 1) / n;
        let t0 = (k - 1) % n;
        lemma_mod_pos_bound(k - 1, n);
        lemma_div_pos_is_pos(k - 1, n);
        lemma_fundamental_div_mod(k - 1, n);
        assert(c0 * n + t0 == k - 1) by (nonlinear_arith)
            requires
                k - 1 == n * c0 + t0,
        ;
        crate::util::lemma_div_below(k - 1, positions.len() as int, n);
        assert((c0 as usize) as int == c0);
        assert((t0 as usize) as int == t0);
        let prev = best_upto(tv, cov, w, positions, n, k - 1);
        let full = best_upto(tv, cov, w, positions, n, k);
        let new_wins = eligible(tv, cov, w, positions, c0, t0) && (prev is None || cand_score(
            tv,
            cov,
            w,
            positions,
            c0,
            t0,
        ) > cand_score(tv, cov, w, positions, ((prev->0).0) as int, ((prev->0).1) as int));
        assert(full == if new_wins {
            Some((c0 as usize, t0 as usize))
        } else {
            prev
        });
        if full is None {
            assert(prev is None && !new_wins);
            assert forall|c: int, t: int|
                0 <= c && 0 <= t < n && c * n + t < k implies !#[trigger] eligible(
                tv,
                cov,
                w,
                positions,
                c,
                t,
            ) by {
                if c * n + t == k - 1 {
                    lemma_fundamental_div_mod_converse(k - 1, n, c, t);
                    assert(c == c0 && t == t0);
                }
            }
        }
        if full is Some {
            let b = full->0;
            let bc = b.0 as int;
            let bt = b.1 as int;
            assert forall|c: int, t: int|
                0 <= c && 0 <= t < n && c * n + t < k && #[trigger] eligible(
                    tv,
                    cov,
                    w,
                    positions,
                    c,
                    t,
                ) implies cand_score(tv, cov, w, positions, c, t) <= cand_score(
                tv,
                cov,
                w,
                positions,
                bc,
                bt,
            ) by {
                if c * n + t == k - 1 {
                    lemma_fundamental_div_mod_converse(k - 1, n, c, t);
                    assert(c == c0 && t == t0);
                } else {
                    assert(c * n + t < k - 1);
                    if new_wins {
                        if prev is None {
                            assert(!eligible(tv, cov, w, positions, c, t));
                        } else {
                            let p = prev->0;
                            assert(cand_score(tv, cov, w, positions, c, t) <= cand_score(
                                tv,
                                cov,
                                w,
                                positions,
                                p.0 as int,
                                p.1 as int,
                            ));
                        }
                    }
                }
            }
            assert forall|c: int, t: int|
                0 <= c && 0 <= t < n && c * n + t < bc * n + bt && #[trigger] eligible(
                    tv,
                    cov,
                    w,
                    positions,
                    c,
                    t,
                ) implies cand_score(tv, cov, w, positions, c, t) < cand_score(
                tv,
                cov,
                w,
                positions,
                bc,
                bt,
            ) by {
                if new_wins {
                    assert(bc == c0 && bt == t0);
                    assert(c * n + t < k - 1);
                    if prev is None {
                        assert(!eligible(tv, cov, w, positions, c, t));
                    } else {
                        let p = prev->0;
                        assert(cand_score(tv, cov, w, positions, c, t) <= cand_score(
                            tv,
                            cov,
                            w,
                            positions,
                            p.0 as int,
                            p.1 as int,
                        ));
                    }
                } else {
                    assert(prev is Some && b == prev->0);
                    assert(bc * n + bt < k - 1);
                }
            }
        }
    }
}

/// A color with no current nail contributes no candidate: the fold stands
/// still across its whole block of destinations.
proof fn lemma_best_upto_color_skip(
    tv: Seq<Seq<Seq<(u32, u32)>>>,
    cov: Seq<Option<usize>>,
    w: int,
    positions: Seq<Option<usize>>,
    n: int,
    c: int,
    d: int,
)
    requires
        n >= 1,
        0 <= c,
        0 <= d <= n,
        0 <= c < positions.len() ==> positions[c] is None,
    ensures
        best_upto(tv, cov, w, positions, n, c * n + d) == best_upto(tv, cov, w, positions, n, c * n),
    decreases d,
{
    assert(c * n >= 0) by (nonlinear_arith)
        requires
            c >= 0,
            n >= 1,
    ;
    if d > 0 {
        lemma_best_upto_color_skip(tv, cov, w, positions, n, c, d - 1);
        let k = c * n + (d - 1);
        lemma_fundamental_div_mod_converse(k, n, c, d - 1);
        assert(!eligible(tv, cov, w, positions, c, d - 1));
        assert(best_upto(tv, cov, w, positions, n, k + 1) == best_upto(tv, cov, w, positions, n, k));
    }
}

/// A path's matching and mismatching pixels together never outnumber its
/// pixels.
pub proof fn lemma_counts_le_len(path: Seq<(u32, u32)>, cov: Seq<Option<usize>>, w: int, color: usize)
    ensures
        match_count(path, cov, w, color) + mismatch_count(path, cov, w, color) <= path.len(),
    decreases path.len(),
{
    if path.len() > 0 {
        lemma_counts_le_len(path.drop_last(), cov, w, color);
    }
}

/// A positive match count has a witness pixel that still needs the color.
pub proof fn lemma_match_count_witness(
    path: Seq<(u32, u32)>,
    cov: Seq<Option<usize>>,
    w: int,
    color: usize,
)
    requires
        match_count(path, cov, w, color) > 0,
    ensures
        exists|k: int| 0 <= k < path.len() && cov[#[trigger] pix_idx(path[k], w)] == Some(color),
    decreases path.len(),
{
    if cov[pix_idx(path.last(), w)] == Some(color) {
        assert(0 <= path.len() - 1 < path.len() && cov[pix_idx(path[path.len() - 1], w)] == Some(
            color,
        ));
    } else {
        let sub = path.drop_last();
        lemma_match_count_witness(sub, cov, w, color);
        let k = choose|k: int| 0 <= k < sub.len() && cov[#[trigger] pix_idx(sub[k], w)] == Some(
            color,
        );
        assert(sub[k] == path[k]);
        assert(cov[pix_idx(path[k], w)] == Some(color));
    }
}

/// A stored path whose pixels lie inside a `w` by `h` raster has all its
/// cell indices inside the raster's cell vector.
proof fn lemma_path_in_grid_from_bounds(path: Seq<(u32, u32)>, w: int, h: int)
    requires
        forall|k: int| 0 <= k < path.len() ==> (#[trigger] path[k]).0 < w && path[k].1 < h,
    ensures
        path_in_grid(path, w, w * h),
{
    assert forall|k: int| 0 <= k < path.len() implies 0 <= #[trigger] pix_idx(path[k], w) < w
        * h by {
        assert(path[k].0 < w && path[k].1 < h);
        lemma_row_major_in_range(path[k].0 as int, path[k].1 as int, w, h);
    }
}

/// The counts a strand path scores against the current coverage: how many
/// of its pixels still need `color`, and how many still need some other
/// color.
pub fn path_score(
    path: &Vec<(u32, u32)>,
    remaining_pixels: &Vec<Option<usize>>,
    width: u32,
    color: usize,
) -> (r: (usize, usize))
    requires
        path_in_grid(path@, width as int, remaining_pixels@.len() as int),
    ensures
        r.0 == match_count(path@, remaining_pixels@, width as int, color),
        r.1 == mismatch_count(path@, remaining_pixels@, width as int, color),
        r.0 + r.1 <= path@.len(),
{
    let ghost w = width as int;
    let ghost cov = remaining_pixels@;
    let mut match_n: usize = 0;
    let mut mismatch_n: usize = 0;
    let mut k: usize = 0;
    while k < path.len()
        invariant
            0 <= k <= path@.len(),
            path_in_grid(path@, w, cov.len() as int),
            w == width as int,
            cov == remaining_pixels@,
            match_n == match_count(path@.subrange(0, k as int), cov, w, color),
            mismatch_n == mismatch_count(path@.subrange(0, k as int), cov, w, color),
            match_n + mismatch_n <= k,
        decreases path@.len() - k,
    {
        let p = path[k];
        let _len: usize = remaining_pixels.len();
        proof {
            assert(0 <= pix_idx(path@[k as int], w) < cov.len());
        }
        let i: usize = (p.1 as usize) * (width as usize) + (p.0 as usize);
        let cell = remaining_pixels[i];
        match cell {
            Some(cc) => {
                if cc == color {
                    match_n = match_n + 1;
                } else {
                    mismatch_n = mismatch_n + 1;
                }
            },
            None => {},
        }
        proof {
            let sub1 = path@.subrange(0, k as int + 1);
            assert(sub1.drop_last() =~= path@.subrange(0, k as int));
            assert(sub1.last() == path@[k as int]);
        }
        k = k + 1;
    }
    proof {
        assert(path@.subrange(0, path@.len() as int) =~= path@);
    }
    (match_n, mismatch_n)
}

/// The routing state: where each color's strand starts, the shared path
/// table, the shrinking coverage of still-needed pixels, and the board
/// size.
pub struct Stringifier {
    pub initial_nails: Vec<Option<usize>>,
    pub paths: Vec<Vec<Vec<(u32, u32)>>>,
    pub remaining_pixels: Vec<Option<usize>>,
    pub dimensions: Dimensions,
}

impl Stringifier {
    /// Structural soundness: a nonempty square path table whose pixels
    /// all lie inside the board raster, a coverage cell per board pixel,
    /// and starting nails that exist in the table.
    pub open spec fn wf(&self) -> bool {
        let tv = table_view(self.paths);
        let n = self.paths@.len() as int;
        let w = self.dimensions.width as int;
        let h = self.dimensions.height as int;
        &&& n >= 1
        &&& self.remaining_pixels@.len() == w * h
        &&& table_square(tv, n)
        &&& table_in_bounds(tv, n, w, h)
        &&& crate::board::table_short(tv, n, w)
        &&& forall|c: int|
            0 <= c < self.initial_nails@.len() && self.initial_nails@[c] is Some ==> ((
            #[trigger] self.initial_nails@[c])->0 as int) < n
    }

    /// The number of nails in the routing state's path table.
    pub open spec fn spec_nail_count(&self) -> int {
        self.paths@.len() as int
    }

    /// Removes every pixel of the stored path between the two nails from
    /// the remaining coverage; pixels already gone stay gone.
    pub fn clear_path(&mut self, from_nail: usize, to_nail: usize)
        requires
            old(self).wf(),
            from_nail < old(self).paths@.len(),
            to_nail < old(self).paths@.len(),
        ensures
            final(self).wf(),
            final(self).paths == old(self).paths,
            final(self).initial_nails == old(self).initial_nails,
            final(self).dimensions == old(self).dimensions,
            final(self).remaining_pixels@ == cleared(
                old(self).remaining_pixels@,
                table_view(old(self).paths)[from_nail as int][to_nail as int],
                old(self).dimensions.width as int,
            ),
            count_some(final(self).remaining_pixels@) <= count_some(old(self).remaining_pixels@),
    {
        let ghost tv = table_view(self.paths);
        let ghost w = self.dimensions.width as int;
        let ghost h = self.dimensions.height as int;
        let ghost cov0 = self.remaining_pixels@;
        let ghost pathv = tv[from_nail as int][to_nail as int];
        let width = self.dimensions.width;
        proof {
            assert(self.paths@[from_nail as int]@.len() == self.paths@.len());
            assert forall|k: int| 0 <= k < pathv.len() implies (#[trigger] pathv[k]).0 < w
                && pathv[k].1 < h by {
                assert(tv[from_nail as int][to_nail as int][k] == pathv[k]);
            }
            lemma_path_in_grid_from_bounds(pathv, w, h);
        }
        let mut k: usize = 0;
        while k < self.paths[from_nail][to_nail].len()
            invariant
                0 <= k <= pathv.len(),
                self.paths == old(self).paths,
                self.initial_nails == old(self).initial_nails,
                self.dimensions == old(self).dimensions,
                from_nail < self.paths@.len(),
                to_nail < self.paths@.len(),
                old(self).wf(),
                tv == table_view(self.paths),
                w == self.dimensions.width as int,
                h == self.dimensions.height as int,
                width == self.dimensions.width,
                pathv == tv[from_nail as int][to_nail as int],
                path_in_grid(pathv, w, cov0.len() as int),
                self.remaining_pixels@.len() == cov0.len(),
                self.remaining_pixels@ == cleared(cov0, pathv.subrange(0, k as int), w),
            decreases pathv.len() - k,
        {
            let p = self.paths[from_nail][to_nail][k];
            let _len: usize = self.remaining_pixels.len();
            proof {
                assert(tv[from_nail as int][to_nail as int][k as int] == pathv[k as int]);
                assert(0 <= pix_idx(pathv[k as int], w) < cov0.len());
            }
            let i: usize = (p.1 as usize) * (width as usize) + (p.0 as usize);
            self.remaining_pixels.set(i, None);
            proof {
                let sub1 = pathv.subrange(0, k as int + 1);
                assert(sub1.drop_last() =~= pathv.subrange(0, k as int));
                assert(sub1.last() == pathv[k as int]);
            }
            k = k + 1;
        }
        proof {
            assert(pathv.subrange(0, pathv.len() as int) =~= pathv);
            lemma_count_cleared_le(cov0, pathv, w);
        }
    }

    /// The single best move against the current coverage, committed: the
    /// eligible (color, nail) candidate with the highest score, ties
    /// broken toward the earlier color and then the earlier nail; its
    /// path's pixels are removed from coverage.  `None`, leaving the
    /// state untouched, exactly when no move with a matching pixel
    /// exists: the router's terminal state.
    pub fn next_nail(&mut self, nails: &Vec<Option<usize>>) -> (r: Option<(usize, usize)>)
        requires
            old(self).wf(),
            forall|c: int|
                0 <= c < nails@.len() && nails@[c] is Some ==> ((#[trigger] nails@[c])->0 as int)
                    < old(self).paths@.len(),
        ensures
            final(self).wf(),
            final(self).paths == old(self).paths,
            final(self).initial_nails == old(self).initial_nails,
            final(self).dimensions == old(self).dimensions,
            r == best_move(
                table_view(old(self).paths),
                old(self).remaining_pixels@,
                old(self).dimensions.width as int,
                nails@,
                old(self).paths@.len() as int,
            ),
            r matches Some(b) ==> eligible(
                table_view(old(self).paths),
                old(self).remaining_pixels@,
                old(self).dimensions.width as int,
                nails@,
                b.0 as int,
                b.1 as int,
            ),
            r matches Some(b) ==> forall|c: int, t: int|
                #[trigger] eligible(
                    table_view(old(self).paths),
                    old(self).remaining_pixels@,
                    old(self).dimensions.width as int,
                    nails@,
                    c,
                    t,
                ) ==> cand_score(
                    table_view(old(self).paths),
                    old(self).remaining_pixels@,
                    old(self).dimensions.width as int,
                    nails@,
                    c,
                    t,
                ) <= cand_score(
                    table_view(old(self).paths),
                    old(self).remaining_pixels@,
                    old(self).dimensions.width as int,
                    nails@,
                    b.0 as int,
                    b.1 as int,
                ),
            r matches Some(b) ==> final(self).remaining_pixels@ == cleared(
                old(self).remaining_pixels@,
                cand_path(table_view(old(self).paths), nails@, b.0 as int, b.1 as int),
                old(self).dimensions.width as int,
            ),
            r matches Some(b) ==> count_some(final(self).remaining_pixels@) < count_some(
                old(self).remaining_pixels@,
            ),
            r matches Some(b) ==> cand_score(
                table_view(old(self).paths),
                old(self).remaining_pixels@,
                old(self).dimensions.width as int,
                nails@,
                b.0 as int,
                b.1 as int,
            ) > -(old(self).dimensions.width as int),
            r is None ==> *final(self) == *old(self),
            r is None ==> forall|c: int, t: int|
                0 <= c && 0 <= t < old(self).paths@.len() ==> !#[trigger] eligible(
                    table_view(old(self).paths),
                    old(self).remaining_pixels@,
                    old(self).dimensions.width as int,
                    nails@,
                    c,
                    t,
                ),
            count_some(final(self).remaining_pixels@) <= count_some(old(self).remaining_pixels@),
    {
        let ghost tv = table_view(self.paths);
        let ghost cov = self.remaining_pixels@;
        let ghost w = self.dimensions.width as int;
        let ghost h = self.dimensions.height as int;
        let ghost pos = nails@;
        let n = self.paths.len();
        let ghost ni = n as int;
        let mut best: Option<(usize, usize)> = None;
        let mut best_match: usize = 0;
        let mut best_mismatch: usize = 0;
        let mut c: usize = 0;
        while c < nails.len()
            invariant
                0 <= c <= pos.len(),
                self == old(self),
                self.wf(),
                tv == table_view(self.paths),
                cov == self.remaining_pixels@,
                w == self.dimensions.width as int,
                h == self.dimensions.height as int,
                pos == nails@,
                n == self.paths@.len(),
                ni == n as int,
                ni >= 1,
                forall|cc: int|
                    0 <= cc < pos.len() && pos[cc] is Some ==> ((#[trigger] pos[cc])->0 as int)
                        < ni,
                best == best_upto(tv, cov, w, pos, ni, (c as int) * ni),
                best matches Some(b) ==> {
                    &&& eligible(tv, cov, w, pos, b.0 as int, b.1 as int)
                    &&& best_match == match_count(
                        cand_path(tv, pos, b.0 as int, b.1 as int),
                        cov,
                        w,
                        b.0,
                    )
                    &&& best_mismatch == mismatch_count(
                        cand_path(tv, pos, b.0 as int, b.1 as int),
                        cov,
                        w,
                        b.0,
                    )
                },
            decreases pos.len() - c,
        {
            proof {
                assert((c as int) * ni >= 0) by (nonlinear_arith)
                    requires
                        c as int >= 0,
                        ni >= 1,
                ;
                assert(((c as int) + 1) * ni == (c as int) * ni + ni) by (nonlinear_arith);
            }
            match nails[c] {
                None => {
                    proof {
                        lemma_best_upto_color_skip(tv, cov, w, pos, ni, c as int, ni);
                    }
                },
                Some(s) => {
                    let mut t: usize = 0;
                    while t < n
                        invariant
                            0 <= t <= ni,
                            0 <= (c as int) < pos.len(),
                            self == old(self),
                            self.wf(),
                            tv == table_view(self.paths),
                            cov == self.remaining_pixels@,
                            w == self.dimensions.width as int,
                            h == self.dimensions.height as int,
                            pos == nails@,
                            n == self.paths@.len(),
                            ni == n as int,
                            ni >= 1,
                            pos[c as int] == Some(s),
                            (s as int) < ni,
                            best == best_upto(tv, cov, w, pos, ni, (c as int) * ni + (t as int)),
                            best matches Some(b) ==> {
                                &&& eligible(tv, cov, w, pos, b.0 as int, b.1 as int)
                                &&& best_match == match_count(
                                    cand_path(tv, pos, b.0 as int, b.1 as int),
                                    cov,
                                    w,
                                    b.0,
                                )
                                &&& best_mismatch == mismatch_count(
                                    cand_path(tv, pos, b.0 as int, b.1 as int),
                                    cov,
                                    w,
                                    b.0,
                                )
                            },
                        decreases ni - t,
                    {
                        let ghost k = (c as int) * ni + (t as int);
                        let ghost pathv = tv[s as int][t as int];
                        proof {
                            assert(self.paths@[s as int]@.len() == n);
                            assert forall|kk: int| 0 <= kk < pathv.len() implies (
                            #[trigger] pathv[kk]).0 < w && pathv[kk].1 < h by {
                                assert(tv[s as int][t as int][kk] == pathv[kk]);
                            }
                            lemma_path_in_grid_from_bounds(pathv, w, h);
                            assert(pathv == cand_path(tv, pos, c as int, t as int));
                        }
                        let (match_n, mismatch_n) = path_score(
                            &self.paths[s][t],
                            &self.remaining_pixels,
                            self.dimensions.width,
                            c,
                        );
                        let improves: bool = match best {
                            None => match_n > 0,
                            Some(_) => match_n > 0 && (match_n as u128) + (best_mismatch as u128)
                                > (best_match as u128) + (mismatch_n as u128),
                        };
                        proof {
                            lemma_fundamental_div_mod_converse(k, ni, c as int, t as int);
                            assert(eligible(tv, cov, w, pos, c as int, t as int) <==> match_n > 0);
                            if best is Some {
                                let b = best->0;
                                assert((cand_score(tv, cov, w, pos, c as int, t as int)
                                    > cand_score(tv, cov, w, pos, b.0 as int, b.1 as int)) <==> (
                                (match_n as int) + (best_mismatch as int) > (best_match as int) + (
                                mismatch_n as int)));
                            }
                        }
                        if improves {
                            best = Some((c, t));
                            best_match = match_n;
                            best_mismatch = mismatch_n;
                        }
                        proof {
                            assert(best == best_upto(tv, cov, w, pos, ni, k + 1));
                        }
                        t = t + 1;
                    }
                },
            }
            c = c + 1;
        }
        proof {
            assert((pos.len() as int) * ni == (c as int) * ni);
            assert((pos.len() as int) * ni >= 0) by (nonlinear_arith)
                requires
                    pos.len() as int >= 0,
                    ni >= 1,
            ;
            lemma_best_upto_props(tv, cov, w, pos, ni, pos.len() as int * ni);
            assert forall|cc: int, tt: int| #[trigger] eligible(tv, cov, w, pos, cc, tt) implies 0
                <= cc && 0 <= tt < ni && cc * ni + tt < (pos.len() as int) * ni by {
                assert((cc + 1) * ni == cc * ni + ni) by (nonlinear_arith);
                assert((cc + 1) * ni <= (pos.len() as int) * ni) by (nonlinear_arith)
                    requires
                        cc + 1 <= pos.len() as int,
                        ni >= 0,
                ;
            }
        }
        match best {
            None => None,
            Some((bc, bt)) => {
                proof {
                    assert(eligible(tv, cov, w, pos, bc as int, bt as int));
                }
                match nails[bc] {
                    Some(s) => {
                        self.clear_path(s, bt);
                        proof {
                            let pathv = cand_path(tv, pos, bc as int, bt as int);
                            assert(pathv == tv[s as int][bt as int]);
                            assert forall|kk: int| 0 <= kk < pathv.len() implies (
                            #[trigger] pathv[kk]).0 < w && pathv[kk].1 < h by {
                                assert(tv[s as int][bt as int][kk] == pathv[kk]);
                            }
                            lemma_path_in_grid_from_bounds(pathv, w, h);
                            lemma_match_count_witness(pathv, cov, w, bc);
                            let kw = choose|kk: int|
                                0 <= kk < pathv.len() && cov[#[trigger] pix_idx(pathv[kk], w)]
                                    == Some(bc);
                            lemma_count_cleared_lt(cov, pathv, w, kw);
                            assert(cand_score(tv, cov, w, pos, bc as int, bt as int) > -w) by {
                                lemma_counts_le_len(pathv, cov, w, bc);
                                assert(pathv.len() < w);
                                assert(match_count(pathv, cov, w, bc) >= 1);
                            }
                        }
                        Some((bc, bt))
                    },
                    None => {
                        proof {
                            assert(false);
                        }
                        None
                    },
                }
            },
        }
    }
}

/// How many pixels of `path` carry exactly `color` in a target raster.
pub open spec fn tgt_match_count(path: Seq<(u32, u32)>, px: Seq<Color>, w: int, color: Color) -> nat
    decreases path.len(),
{
    if path.len() == 0 {
        0
    } else {
        tgt_match_count(path.drop_last(), px, w, color) + (if px[pix_idx(path.last(), w)] == color {
            1nat
        } else {
            0nat
        })
    }
}

/// The starting pair chosen among the first `k` candidates in the order
/// upward pair `(i, j)`, `i` before `j`, lexicographic (candidate `k` is
/// the pair `(k / n, k % n)`, skipped unless `k / n < k % n`): the first
/// pair whose match count against the target raster strictly exceeds
/// every earlier one, together with that count.
pub open spec fn choose_upto(
    tv: Seq<Seq<Seq<(u32, u32)>>>,
    px: Seq<Color>,
    w: int,
    n: int,
    color: Color,
    k: int,
) -> (Option<(usize, usize)>, nat)
    decreases k,
{
    if k <= 0 {
        (None, 0)
    } else {
        let prev = choose_upto(tv, px, w, n, color, k - 1);
        let i = (k - 1) / n;
        let j = (k - 1) % n;
        if i < j && tgt_match_count(tv[i][j], px, w, color) > prev.1 {
            (Some((i as usize, j as usize)), tgt_match_count(tv[i][j], px, w, color))
        } else {
            prev
        }
    }
}

/// The starting pair for a color: the nail pair whose path covers the
/// most target pixels of that color, or `None` when no pair covers any.
pub open spec fn chosen_pair(
    tv: Seq<Seq<Seq<(u32, u32)>>>,
    px: Seq<Color>,
    w: int,
    n: int,
    color: Color,
) -> Option<(usize, usize)> {
    choose_upto(tv, px, w, n, color, n * n).0
}

/// What the fold in `choose_upto` guarantees: `None` means no candidate
/// pair so far covers any pixel of the color; a winner is an upward pair
/// whose count is positive and no earlier-considered pair beats it.
pub proof fn lemma_choose_upto_props(
    tv: Seq<Seq<Seq<(u32, u32)>>>,
    px: Seq<Color>,
    w: int,
    n: int,
    color: Color,
    k: int,
)
    requires
        n >= 1,
        n <= usize::MAX,
        0 <= k <= n * n,
    ensures
        choose_upto(tv, px, w, n, color, k).0 is None ==> choose_upto(tv, px, w, n, color, k).1
            == 0,
        choose_upto(tv, px, w, n, color, k).0 is None ==> forall|i: int, j: int|
            0 <= i < j < n && i * n + j < k ==> tgt_match_count(#[trigger] tv[i][j], px, w, color)
                == 0,
        choose_upto(tv, px, w, n, color, k).0 matches Some(p) ==> {
            &&& 0 <= (p.0 as int) < (p.1 as int) < n
            &&& (p.0 as int) * n + (p.1 as int) < k
            &&& choose_upto(tv, px, w, n, color, k).1 == tgt_match_count(
                tv[p.0 as int][p.1 as int],
                px,
                w,
                color,
            )
            &&& choose_upto(tv, px, w, n, color, k).1 > 0
            &&& forall|i: int, j: int|
                0 <= i < j < n && i * n + j < k ==> tgt_match_count(
                    #[trigger] tv[i][j],
                    px,
                    w,
                    color,
                ) <= choose_upto(tv, px, w, n, color, k).1
        },
    decreases k,
{
    if k > 0 {
        lemma_choose_upto_props(tv, px, w, n, color, k - 1);
        let i0 = (k - 1) / n;
        let j0 = (k - 1) % n;
        lemma_mod_pos_bound(k - 1, n);
        lemma_div_pos_is_pos(k - 1, n);
        lemma_fundamental_div_mod(k - 1, n);
        assert(i0 * n + j0 == k - 1) by (nonlinear_arith)
            requires
                k - 1 == n * i0 + j0,
        ;
        crate::util::lemma_div_below(k - 1, n, n);
        assert((i0 as usize) as int == i0);
        assert((j0 as usize) as int == j0);
        assert forall|i: int, j: int|
            0 <= i < j < n && #[trigger] (i * n + j) == k - 1 implies i == i0 && j == j0 by {
            lemma_fundamental_div_mod_converse(k - 1, n, i, j);
        }
        let prev = choose_upto(tv, px, w, n, color, k - 1);
        let full = choose_upto(tv, px, w, n, color, k);
        if full.0 is None {
            assert forall|i: int, j: int|
                0 <= i < j < n && i * n + j < k implies tgt_match_count(
                #[trigger] tv[i][j],
                px,
                w,
                color,
            ) == 0 by {
                if i * n + j == k - 1 {
                    lemma_fundamental_div_mod_converse(k - 1, n, i, j);
                }
            }
        } else {
            assert forall|i: int, j: int|
                0 <= i < j < n && i * n + j < k implies tgt_match_count(
                #[trigger] tv[i][j],
                px,
                w,
                color,
            ) <= full.1 by {
                if i * n + j == k - 1 {
                    lemma_fundamental_div_mod_converse(k - 1, n, i, j);
                }
            }
        }
    }
}

/// Candidates whose second index is not above the first are skipped: the
/// fold stands still across them.
proof fn lemma_choose_upto_low_skip(
    tv: Seq<Seq<Seq<(u32, u32)>>>,
    px: Seq<Color>,
    w: int,
    n: int,
    color: Color,
    i: int,
    d: int,
)
    requires
        n >= 1,
        0 <= i,
        0 <= d <= i + 1,
        d <= n,
    ensures
        choose_upto(tv, px, w, n, color, i * n + d) == choose_upto(tv, px, w, n, color, i * n),
    decreases d,
{
    assert(i * n >= 0) by (nonlinear_arith)
        requires
            i >= 0,
            n >= 1,
    ;
    if d > 0 {
        lemma_choose_upto_low_skip(tv, px, w, n, color, i, d - 1);
        let k = i * n + (d - 1);
        lemma_fundamental_div_mod_converse(k, n, i, d - 1);
        assert(!((k / n) < (k % n)));
        assert(choose_upto(tv, px, w, n, color, k + 1) == choose_upto(tv, px, w, n, color, k));
    }
}

/// The counts a path scores against a target raster, rather than against
/// the shrinking coverage: how many of its pixels carry `color`.
fn tgt_path_matches(path: &Vec<(u32, u32)>, img: &Raster, color: Color) -> (m: usize)
    requires
        img.wf(),
        forall|k: int|
            0 <= k < path@.len() ==> (#[trigger] path@[k]).0 < img.width && path@[k].1
                < img.height,
    ensures
        m == tgt_match_count(path@, img.pixels@, img.width as int, color),
        m <= path@.len(),
{
    let ghost w = img.width as int;
    let ghost px = img.pixels@;
    proof {
        lemma_path_in_grid_from_bounds(path@, w, img.height as int);
    }
    let mut m: usize = 0;
    let mut k: usize = 0;
    while k < path.len()
        invariant
            0 <= k <= path@.len(),
            img.wf(),
            w == img.width as int,
            px == img.pixels@,
            path_in_grid(path@, w, px.len() as int),
            m == tgt_match_count(path@.subrange(0, k as int), px, w, color),
            m <= k,
        decreases path@.len() - k,
    {
        let p = path[k];
        let _len: usize = img.pixels.len();
        proof {
            assert(0 <= pix_idx(path@[k as int], w) < px.len());
        }
        let i: usize = (p.1 as usize) * (img.width as usize) + (p.0 as usize);
        let cell = img.pixels[i];
        if cell == color {
            m = m + 1;
        }
        proof {
            let sub1 = path@.subrange(0, k as int + 1);
            assert(sub1.drop_last() =~= path@.subrange(0, k as int));
            assert(sub1.last() == path@[k as int]);
        }
        k = k + 1;
    }
    proof {
        assert(path@.subrange(0, path@.len() as int) =~= path@);
    }
    m
}

/// The first index in the palette that holds exactly this color, looking
/// from position `k` on.
pub open spec fn palette_index_from(palette: Seq<Color>, c: Color, k: int) -> Option<usize>
    decreases palette.len() - k,
{
    if k < 0 || k >= palette.len() {
        None
    } else if palette[k] == c {
        Some(k as usize)
    } else {
        palette_index_from(palette, c, k + 1)
    }
}

/// The palette index of a color, or `None` when the color is not in the
/// palette.
pub open spec fn palette_index_of(palette: Seq<Color>, c: Color) -> Option<usize> {
    palette_index_from(palette, c, 0)
}

impl Stringifier {
    /// The nail-index pair whose stored path covers the most pixels of
    /// `color` in the target raster, or `None` when no pair covers any.
    /// Pairs are tried in lexicographic order and a later pair must
    /// strictly beat the running best.
    pub fn choose_path_idx(
        paths: &Vec<Vec<Vec<(u32, u32)>>>,
        dithered: &Raster,
        color: Color,
    ) -> (r: Option<(usize, usize)>)
        requires
            dithered.wf(),
            paths@.len() >= 1,
            table_square(table_view(*paths), paths@.len() as int),
            table_in_bounds(
                table_view(*paths),
                paths@.len() as int,
                dithered.width as int,
                dithered.height as int,
            ),
        ensures
            r == chosen_pair(
                table_view(*paths),
                dithered.pixels@,
                dithered.width as int,
                paths@.len() as int,
                color,
            ),
            r matches Some(p) ==> {
                &&& (p.0 as int) < (p.1 as int) < paths@.len()
                &&& tgt_match_count(
                    table_view(*paths)[p.0 as int][p.1 as int],
                    dithered.pixels@,
                    dithered.width as int,
                    color,
                ) > 0
                &&& forall|i: int, j: int|
                    0 <= i < j < paths@.len() ==> tgt_match_count(
                        #[trigger] table_view(*paths)[i][j],
                        dithered.pixels@,
                        dithered.width as int,
                        color,
                    ) <= tgt_match_count(
                        table_view(*paths)[p.0 as int][p.1 as int],
                        dithered.pixels@,
                        dithered.width as int,
                        color,
                    )
            },
            r is None ==> forall|i: int, j: int|
                0 <= i < j < paths@.len() ==> tgt_match_count(
                    #[trigger] table_view(*paths)[i][j],
                    dithered.pixels@,
                    dithered.width as int,
                    color,
                ) == 0,
    {
        let ghost tv = table_view(*paths);
        let ghost px = dithered.pixels@;
        let ghost w = dithered.width as int;
        let ghost h = dithered.height as int;
        let n = paths.len();
        let ghost ni = n as int;
        let mut chosen: Option<(usize, usize)> = None;
        let mut max_match: usize = 0;
        let mut i: usize = 0;
        while i < n
            invariant
                0 <= i <= n,
                n == paths@.len(),
                ni == n as int,
                ni >= 1,
                dithered.wf(),
                tv == table_view(*paths),
                px == dithered.pixels@,
                w == dithered.width as int,
                h == dithered.height as int,
                table_square(tv, ni),
                table_in_bounds(tv, ni, w, h),
                (chosen, max_match as nat) == choose_upto(tv, px, w, ni, color, (i as int) * ni),
            decreases n - i,
        {
            proof {
                assert(((i as int) + 1) * ni == (i as int) * ni + ni) by (nonlinear_arith);
                lemma_choose_upto_low_skip(tv, px, w, ni, color, i as int, (i as int) + 1);
            }
            let mut j: usize = i + 1;
            while j < n
                invariant
                    0 <= i < n,
                    i + 1 <= j <= n,
                    n == paths@.len(),
                    ni == n as int,
                    ni >= 1,
                    dithered.wf(),
                    tv == table_view(*paths),
                    px == dithered.pixels@,
                    w == dithered.width as int,
                    h == dithered.height as int,
                    table_square(tv, ni),
                    table_in_bounds(tv, ni, w, h),
                    (chosen, max_match as nat) == choose_upto(
                        tv,
                        px,
                        w,
                        ni,
                        color,
                        (i as int) * ni + (j as int),
                    ),
                decreases n - j,
            {
                let ghost k = (i as int) * ni + (j as int);
                let ghost pathv = tv[i as int][j as int];
                proof {
                    assert(tv[i as int].len() == ni);
                    assert(paths@[i as int]@.len() == ni);
                    assert forall|kk: int| 0 <= kk < pathv.len() implies (#[trigger] pathv[kk]).0
                        < dithered.width && pathv[kk].1 < dithered.height by {
                        assert(tv[i as int][j as int][kk] == pathv[kk]);
                    }
                }
                let m = tgt_path_matches(&paths[i][j], dithered, color);
                if m > max_match {
                    chosen = Some((i, j));
                    max_match = m;
                }
                proof {
                    lemma_fundamental_div_mod_converse(k, ni, i as int, j as int);
                    assert((chosen, max_match as nat) == choose_upto(tv, px, w, ni, color, k + 1));
                }
                j = j + 1;
            }
            proof {
                assert(((i as int) + 1) * ni == (i as int) * ni + ni) by (nonlinear_arith);
            }
            i = i + 1;
        }
        proof {
            assert((i as int) * ni == ni * ni);
            assert(ni * ni >= 0) by (nonlinear_arith)
                requires
                    ni >= 1,
            ;
            lemma_choose_upto_props(tv, px, w, ni, color, ni * ni);
            assert forall|a: int, b: int| 0 <= a < b < ni implies 0 <= #[trigger] (a * ni + b) < ni
                * ni by {
                assert((a + 1) * ni == a * ni + ni) by (nonlinear_arith);
                assert((a + 1) * ni <= ni * ni) by (nonlinear_arith)
                    requires
                        a + 1 <= ni,
                        ni >= 0,
                ;
                assert(a * ni >= 0) by (nonlinear_arith)
                    requires
                        a >= 0,
                        ni >= 0,
                ;
            }
            if chosen is Some {
                let full = choose_upto(tv, px, w, ni, color, ni * ni);
                assert forall|a: int, b: int| 0 <= a < b < ni implies tgt_match_count(
                    #[trigger] tv[a][b],
                    px,
                    w,
                    color,
                ) <= full.1 by {
                    assert(0 <= a * ni + b < ni * ni);
                }
            } else {
                assert forall|a: int, b: int| 0 <= a < b < ni implies tgt_match_count(
                    #[trigger] tv[a][b],
                    px,
                    w,
                    color,
                ) == 0 by {
                    assert(0 <= a * ni + b < ni * ni);
                }
            }
        }
        chosen
    }

    /// The starting nail pair for `color`, as nail positions: the pair
    /// whose path covers the most target pixels of that color.
    pub fn choose_path(
        nails: &Vec<Nail>,
        paths: &Vec<Vec<Vec<(u32, u32)>>>,
        dithered: &Raster,
        color: Color,
    ) -> (r: Option<(Nail, Nail)>)
        requires
            dithered.wf(),
            paths@.len() >= 1,
            nails@.len() == paths@.len(),
            table_square(table_view(*paths), paths@.len() as int),
            table_in_bounds(
                table_view(*paths),
                paths@.len() as int,
                dithered.width as int,
                dithered.height as int,
            ),
        ensures
            ({
                let p = chosen_pair(
                    table_view(*paths),
                    dithered.pixels@,
                    dithered.width as int,
                    paths@.len() as int,
                    color,
                );
                &&& (p is Some ==> r == Some(
                    (nails@[(p->0).0 as int], nails@[(p->0).1 as int]),
                ))
                &&& (p is None ==> r is None)
            }),
    {
        let r = Stringifier::choose_path_idx(paths, dithered, color);
        match r {
            Some((a, b)) => Some((nails[a], nails[b])),
            None => None,
        }
    }
}

/// The starting nail of a color's strand: the first nail of its chosen
/// starting pair, or `None` for a color that no pair covers.
pub open spec fn starting_nail_spec(
    tv: Seq<Seq<Seq<(u32, u32)>>>,
    px: Seq<Color>,
    w: int,
    n: int,
    color: Color,
) -> Option<usize> {
    match chosen_pair(tv, px, w, n, color) {
        Some(p) => Some(p.0),
        None => None,
    }
}

/// A copy of a whole path table.
fn copy_table(src: &Vec<Vec<Vec<(u32, u32)>>>) -> (r: Vec<Vec<Vec<(u32, u32)>>>)
    ensures
        table_view(r) == table_view(*src),
        r@.len() == src@.len(),
{
    let ghost sv = table_view(*src);
    let mut r: Vec<Vec<Vec<(u32, u32)>>> = Vec::new();
    let mut i: usize = 0;
    while i < src.len()
        invariant
            0 <= i <= src@.len(),
            sv == table_view(*src),
            table_view(r).len() == i,
            forall|a: int| 0 <= a < i ==> #[trigger] table_view(r)[a] == sv[a],
        decreases src@.len() - i,
    {
        let mut row: Vec<Vec<(u32, u32)>> = Vec::new();
        let mut j: usize = 0;
        while j < src[i].len()
            invariant
                0 <= i < src@.len(),
                0 <= j <= src@[i as int]@.len(),
                sv == table_view(*src),
                row_view(row).len() == j,
                forall|b: int| 0 <= b < j ==> #[trigger] row_view(row)[b] == sv[i as int][b],
            decreases src@[i as int]@.len() - j,
        {
            let cell = crate::board::copy_pixels(&src[i][j]);
            proof {
                assert(cell@ == sv[i as int][j as int]);
            }
            let ghost rpre = row_view(row);
            row.push(cell);
            proof {
                assert(row_view(row) =~= rpre.push(cell@));
            }
            j = j + 1;
        }
        proof {
            assert(row_view(row) =~= sv[i as int]);
        }
        let ghost vpre = table_view(r);
        r.push(row);
        proof {
            assert(table_view(r) =~= vpre.push(row_view(row)));
        }
        i = i + 1;
    }
    proof {
        assert(table_view(r) =~= sv);
    }
    r
}

/// The first palette index that holds exactly this color, or `None` when
/// the color is not in the palette.
fn palette_lookup(color_palette: &Vec<Color>, c: Color) -> (r: Option<usize>)
    ensures
        r == palette_index_of(color_palette@, c),
        r matches Some(ci) ==> (ci as int) < color_palette@.len(),
{
    let mut idx: Option<usize> = None;
    let mut i: usize = 0;
    while i < color_palette.len()
        invariant
            0 <= i <= color_palette@.len(),
            idx is None ==> palette_index_of(color_palette@, c) == palette_index_from(
                color_palette@,
                c,
                i as int,
            ),
            idx is Some ==> idx == palette_index_of(color_palette@, c) && ((idx->0) as int) < i,
        decreases color_palette@.len() - i,
    {
        if idx.is_none() {
            let pc = color_palette[i];
            if pc == c {
                idx = Some(i);
            }
        }
        i = i + 1;
    }
    idx
}

impl Stringifier {
    /// The target map as coverage cells: for each pixel of the dithered
    /// raster, the palette index of its color, `None` for a color outside
    /// the palette.
    pub fn image_to_pixel_options(image: &Raster, color_palette: &Vec<Color>) -> (r: Vec<
        Option<usize>,
    >)
        requires
            image.wf(),
        ensures
            r@.len() == image.pixels@.len(),
            forall|j: int|
                0 <= j < r@.len() ==> #[trigger] r@[j] == palette_index_of(
                    color_palette@,
                    image.pixels@[j],
                ),
    {
        let mut r: Vec<Option<usize>> = Vec::new();
        let mut j: usize = 0;
        while j < image.pixels.len()
            invariant
                0 <= j <= image.pixels@.len(),
                r@.len() == j,
                forall|a: int|
                    0 <= a < j ==> #[trigger] r@[a] == palette_index_of(
                        color_palette@,
                        image.pixels@[a],
                    ),
            decreases image.pixels@.len() - j,
        {
            let c = image.pixels[j];
            let idx = palette_lookup(color_palette, c);
            r.push(idx);
            j = j + 1;
        }
        r
    }

    /// For each palette color, the nail its strand starts at: the first
    /// nail of the pair that covers the most target pixels of that color,
    /// or `None` for a color with no covered pixel anywhere.
    pub fn starting_nails(
        nails: &Vec<Nail>,
        paths: &Vec<Vec<Vec<(u32, u32)>>>,
        color_palette: &Vec<Color>,
        dithered_img: &Raster,
    ) -> (r: Vec<Option<usize>>)
        requires
            dithered_img.wf(),
            paths@.len() >= 1,
            nails@.len() == paths@.len(),
            table_square(table_view(*paths), paths@.len() as int),
            table_in_bounds(
                table_view(*paths),
                paths@.len() as int,
                dithered_img.width as int,
                dithered_img.height as int,
            ),
        ensures
            r@.len() == color_palette@.len(),
            forall|c: int|
                0 <= c < r@.len() ==> #[trigger] r@[c] == starting_nail_spec(
                    table_view(*paths),
                    dithered_img.pixels@,
                    dithered_img.width as int,
                    paths@.len() as int,
                    color_palette@[c],
                ),
            forall|c: int|
                0 <= c < r@.len() && r@[c] is Some ==> ((#[trigger] r@[c])->0 as int)
                    < paths@.len(),
    {
        let ghost tv = table_view(*paths);
        let mut r: Vec<Option<usize>> = Vec::new();
        let mut c: usize = 0;
        while c < color_palette.len()
            invariant
                0 <= c <= color_palette@.len(),
                dithered_img.wf(),
                paths@.len() >= 1,
                tv == table_view(*paths),
                table_square(tv, paths@.len() as int),
                table_in_bounds(
                    tv,
                    paths@.len() as int,
                    dithered_img.width as int,
                    dithered_img.height as int,
                ),
                r@.len() == c,
                forall|a: int|
                    0 <= a < c ==> #[trigger] r@[a] == starting_nail_spec(
                        tv,
                        dithered_img.pixels@,
                        dithered_img.width as int,
                        paths@.len() as int,
                        color_palette@[a],
                    ),
                forall|a: int|
                    0 <= a < c && r@[a] is Some ==> ((#[trigger] r@[a])->0 as int) < paths@.len(),
            decreases color_palette@.len() - c,
        {
            let color = color_palette[c];
            let chosen = Stringifier::choose_path_idx(paths, dithered_img, color);
            match chosen {
                Some((a, _b)) => {
                    r.push(Some(a));
                },
                None => {
                    r.push(None);
                },
            }
            c = c + 1;
        }
        r
    }

    /// A routing state assembled from its parts.
    pub fn from_parts(
        initial_nails: Vec<Option<usize>>,
        paths: Vec<Vec<Vec<(u32, u32)>>>,
        remaining_pixels: Vec<Option<usize>>,
        dimensions: Dimensions,
    ) -> (s: Stringifier)
        requires
            paths@.len() >= 1,
            remaining_pixels@.len() == (dimensions.width as int) * (dimensions.height as int),
            table_square(table_view(paths), paths@.len() as int),
            table_in_bounds(
                table_view(paths),
                paths@.len() as int,
                dimensions.width as int,
                dimensions.height as int,
            ),
            crate::board::table_short(table_view(paths), paths@.len() as int, dimensions.width as int),
            forall|c: int|
                0 <= c < initial_nails@.len() && initial_nails@[c] is Some ==> ((
                #[trigger] initial_nails@[c])->0 as int) < paths@.len(),
        ensures
            s.wf(),
            s.initial_nails == initial_nails,
            s.paths == paths,
            s.remaining_pixels == remaining_pixels,
            s.dimensions == dimensions,
    {
        Stringifier { initial_nails, paths, remaining_pixels, dimensions }
    }

    /// The routing state for a board and a board-sized source image: the
    /// image is dithered onto the palette, the target map is read off the
    /// dithered raster, and each color's strand is placed on its best
    /// starting pair.
    pub fn new(board: &Board, src_img: &Raster, color_palette: &Vec<Color>) -> (s: Stringifier)
        requires
            board.wf(),
            src_img.wf(),
            src_img.width == board.width,
            src_img.height == board.height,
            color_palette@.len() >= 1,
        ensures
            s.wf(),
            table_view(s.paths) == table_view(board.paths),
            s.dimensions.width == board.width,
            s.dimensions.height == board.height,
            s.initial_nails@.len() == color_palette@.len(),
            forall|c: int|
                0 <= c < s.initial_nails@.len() ==> #[trigger] s.initial_nails@[c]
                    == starting_nail_spec(
                    table_view(board.paths),
                    dither_spec(
                        src_img.pixels@,
                        board.width as int,
                        board.height as int,
                        color_palette@,
                    ),
                    board.width as int,
                    board.nails@.len() as int,
                    color_palette@[c],
                ),
            s.remaining_pixels@.len() == (board.width as int) * (board.height as int),
            forall|j: int|
                0 <= j < s.remaining_pixels@.len() ==> #[trigger] s.remaining_pixels@[j]
                    == palette_index_of(
                    color_palette@,
                    dither_spec(
                        src_img.pixels@,
                        board.width as int,
                        board.height as int,
                        color_palette@,
                    )[j],
                ),
    {
        let dithered_img = dither_image(src_img, color_palette);
        let initial_nails = Stringifier::starting_nails(
            board.nails(),
            board.paths(),
            color_palette,
            &dithered_img,
        );
        let remaining_pixels = Stringifier::image_to_pixel_options(&dithered_img, color_palette);
        let paths = copy_table(board.paths());
        let dimensions = board.dimensions();
        Stringifier { initial_nails, paths, remaining_pixels, dimensions }
    }
}

impl crate::art_algo::ArtAlgo for Stringifier {
    open spec fn inv(&self) -> bool {
        self.wf()
    }

    open spec fn num_colors(&self) -> nat {
        self.initial_nails@.len()
    }

    open spec fn num_nails(&self) -> nat {
        self.paths@.len()
    }

    open spec fn coverage(&self) -> Seq<Option<usize>> {
        self.remaining_pixels@
    }

    open spec fn initial_positions(&self) -> Seq<Option<usize>> {
        self.initial_nails@
    }

    open spec fn next_choice(&self, positions: Seq<Option<usize>>) -> Option<(usize, usize)> {
        best_move(
            table_view(self.paths),
            self.remaining_pixels@,
            self.dimensions.width as int,
            positions,
            self.paths@.len() as int,
        )
    }

    fn initial_nails(&self) -> (r: Vec<Option<usize>>) {
        let mut r: Vec<Option<usize>> = Vec::new();
        let mut c: usize = 0;
        while c < self.initial_nails.len()
            invariant
                0 <= c <= self.initial_nails@.len(),
                self.wf(),
                r@ =~= self.initial_nails@.subrange(0, c as int),
            decreases self.initial_nails@.len() - c,
        {
            let e = self.initial_nails[c];
            r.push(e);
            c = c + 1;
        }
        proof {
            assert(r@ =~= self.initial_nails@);
        }
        r
    }

    fn next_nail(&mut self, nails: &Vec<Option<usize>>) -> (r: Option<(usize, usize)>) {
        Stringifier::next_nail(self, nails)
    }
}

/// The committed move and the coverage that a routing step leaves behind
/// are a function of the path table, the coverage, the board width, and
/// the strand positions alone: two identical states choose identically.
pub proof fn lemma_step_deterministic(
    tv: Seq<Seq<Seq<(u32, u32)>>>,
    cov: Seq<Option<usize>>,
    w: int,
    positions: Seq<Option<usize>>,
    n: int,
    r1: Option<(usize, usize)>,
    r2: Option<(usize, usize)>,
)
    requires
        r1 == best_move(tv, cov, w, positions, n),
        r2 == best_move(tv, cov, w, positions, n),
    ensures
        r1 == r2,
        r1 matches Some(b) ==> cleared(cov, cand_path(tv, positions, b.0 as int, b.1 as int), w)
            == cleared(cov, cand_path(tv, positions, ((r2->0).0) as int, ((r2->0).1) as int), w),
{
}

} // verus!
