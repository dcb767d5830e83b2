//! K-means color quantization: a fixed number of representative colors
//! derived from an image by Lloyd iteration, seeded with randomly drawn
//! pixels.
//!
//! The palette it yields feeds the dithering stage; which colors come out
//! depends on the random seeds, so the contracts state what holds of
//! every outcome: each assignment names the first nearest centroid, each
//! updated centroid is the componentwise mean of its assigned pixels, and
//! the palette keeps its requested size.

use crate::dither::closest_idx;
use crate::dither::closest_upto;
use crate::dither::color_dist;
use crate::dither::lemma_closest_upto_min;
use crate::raster::Color;
use crate::raster::Raster;
use crate::util::lemma_div_below;
use vstd::prelude::*;

verus! {

/// Relies on `rand::Rng::gen_range` over the range `0..upper` with
/// `rand::thread_rng`: for a nonempty integer range, the sampled value
/// lies in the range (`rng.rs` asserts the range is nonempty and the
/// uniform integer sampler rejects values outside it).  The draw depends
/// on the thread's generator, so nothing more is promised.
#[verifier::external_body]
fn random_below(upper: u32) -> (r: u32)
    requires
        upper >= 1,
    ensures
        r < upper,
{
    rand::Rng::gen_range(&mut rand::thread_rng(), 0..upper)
}

/// The squared Euclidean distance between two colors.
pub fn calculate_distance(pixel1: &Color, pixel2: &Color) -> (d: u32)
    ensures
        d == color_dist(*pixel1, *pixel2),
{
    crate::dither::calculate_color_distance(*pixel1, *pixel2)
}

/// The per-channel totals and the count of the pixels assigned to
/// centroid `i` among the first `k` pixels.
pub open spec fn assigned_totals(
    assignments: Seq<usize>,
    px: Seq<Color>,
    i: int,
    k: int,
) -> (int, int, int, int)
    decreases k,
{
    if k <= 0 {
        (0, 0, 0, 0)
    } else {
        let prev = assigned_totals(assignments, px, i, k - 1);
        if assignments[k - 1] == i {
            (
                prev.0 + px[k - 1].r,
                prev.1 + px[k - 1].g,
                prev.2 + px[k - 1].b,
                prev.3 + 1,
            )
        } else {
            prev
        }
    }
}

/// A centroid after one update round: the componentwise mean of its
/// assigned pixels, or unchanged when no pixel is assigned to it.
pub open spec fn centroid_updated(
    c_old: Color,
    assignments: Seq<usize>,
    px: Seq<Color>,
    i: int,
) -> Color {
    let totals = assigned_totals(assignments, px, i, px.len() as int);
    if totals.3 > 0 {
        Color {
            r: (totals.0 / totals.3) as u8,
            g: (totals.1 / totals.3) as u8,
            b: (totals.2 / totals.3) as u8,
        }
    } else {
        c_old
    }
}

/// The assignment one Lloyd round makes: for each pixel, the index of
/// the first centroid at minimal distance.
pub open spec fn assign_spec(centroids: Seq<Color>, px: Seq<Color>) -> Seq<usize> {
    Seq::new(px.len(), |j: int| closest_idx(centroids, px[j]) as usize)
}

/// One Lloyd round: every centroid moves to the componentwise mean of
/// the pixels assigned to it, or stays put with none assigned.
pub open spec fn lloyd_round(centroids: Seq<Color>, px: Seq<Color>) -> Seq<Color> {
    Seq::new(
        centroids.len(),
        |i: int| centroid_updated(centroids[i], assign_spec(centroids, px), px, i),
    )
}

/// The centroids after `rounds` Lloyd rounds from the given seeds.
pub open spec fn lloyd_iter(seeds: Seq<Color>, px: Seq<Color>, rounds: int) -> Seq<Color>
    decreases rounds,
{
    if rounds <= 0 {
        seeds
    } else {
        lloyd_round(lloyd_iter(seeds, px, rounds - 1), px)
    }
}

/// What holds of every palette `kmeans` can return for an image: it is
/// some number of Lloyd rounds, at most one hundred, applied to seeds
/// that are all pixels of the image.
pub open spec fn lloyd_outcome(
    palette: Seq<Color>,
    px: Seq<Color>,
    seeds: Seq<Color>,
    rounds: int,
) -> bool {
    &&& seeds.len() == palette.len()
    &&& 0 <= rounds <= 100
    &&& forall|s: int| 0 <= s < seeds.len() ==> px.contains(#[trigger] seeds[s])
    &&& palette == lloyd_iter(seeds, px, rounds)
}

/// The totals stay within the byte range times the count.
proof fn lemma_assigned_totals_bounds(assignments: Seq<usize>, px: Seq<Color>, i: int, k: int)
    requires
        0 <= k,
    ensures
        ({
            let totals = assigned_totals(assignments, px, i, k);
            &&& 0 <= totals.0 <= 255 * totals.3
            &&& 0 <= totals.1 <= 255 * totals.3
            &&& 0 <= totals.2 <= 255 * totals.3
            &&& 0 <= totals.3 <= k
        }),
    decreases k,
{
    if k > 0 {
        lemma_assigned_totals_bounds(assignments, px, i, k - 1);
    }
}

/// For every pixel, the index of the first centroid at minimal squared
/// distance from it.
pub fn assign_pixels_to_centroids(centroids: &Vec<Color>, image: &Raster) -> (r: Vec<usize>)
    requires
        centroids@.len() >= 1,
    ensures
        r@.len() == image.pixels@.len(),
        forall|j: int|
            0 <= j < r@.len() ==> (#[trigger] r@[j]) as int == closest_idx(
                centroids@,
                image.pixels@[j],
            ),
    {
    let mut r: Vec<usize> = Vec::new();
    let mut j: usize = 0;
    while j < image.pixels.len()
        invariant
            0 <= j <= image.pixels@.len(),
            centroids@.len() >= 1,
            r@.len() == j,
            forall|a: int|
                0 <= a < j ==> (#[trigger] r@[a]) as int == closest_idx(
                    centroids@,
                    image.pixels@[a],
                ),
        decreases image.pixels@.len() - j,
    {
        let pixel = image.pixels[j];
        let mut min_distance: u32 = crate::dither::calculate_color_distance(pixel, centroids[0]);
        let mut closest_centroid: usize = 0;
        let mut i: usize = 1;
        while i < centroids.len()
            invariant
                1 <= i <= centroids@.len(),
                (closest_centroid as int) == closest_upto(centroids@, pixel, i as int),
                0 <= closest_upto(centroids@, pixel, i as int) < i,
                min_distance == color_dist(pixel, centroids@[closest_centroid as int]),
            decreases centroids@.len() - i,
        {
            let distance = crate::dither::calculate_color_distance(pixel, centroids[i]);
            if distance < min_distance {
                min_distance = distance;
                closest_centroid = i;
            }
            i = i + 1;
        }
        r.push(closest_centroid);
        j = j + 1;
    }
    r
}

/// Moves each centroid to the componentwise mean of the pixels assigned
/// to it; a centroid with no assigned pixel stays where it is.
pub fn update_centroids(centroids: &mut Vec<Color>, assignments: &Vec<usize>, image: &Raster)
    requires
        assignments@.len() == image.pixels@.len(),
    ensures
        final(centroids)@.len() == old(centroids)@.len(),
        forall|i: int|
            0 <= i < final(centroids)@.len() ==> #[trigger] final(centroids)@[i]
                == centroid_updated(old(centroids)@[i], assignments@, image.pixels@, i),
{
    let ghost px = image.pixels@;
    let ghost asg = assignments@;
    let mut i: usize = 0;
    while i < centroids.len()
        invariant
            0 <= i <= centroids@.len(),
            asg == assignments@,
            px == image.pixels@,
            asg.len() == px.len(),
            centroids@.len() == old(centroids)@.len(),
            forall|a: int|
                0 <= a < i ==> #[trigger] centroids@[a] == centroid_updated(
                    old(centroids)@[a],
                    asg,
                    px,
                    a,
                ),
            forall|a: int| i <= a < centroids@.len() ==> #[trigger] centroids@[a] == old(
                centroids,
            )@[a],
        decreases centroids@.len() - i,
    {
        let mut sum_red: u128 = 0;
        let mut sum_green: u128 = 0;
        let mut sum_blue: u128 = 0;
        let mut count: u128 = 0;
        let mut j: usize = 0;
        while j < assignments.len()
            invariant
                0 <= j <= asg.len(),
                asg == assignments@,
                px == image.pixels@,
                asg.len() == px.len(),
                (sum_red as int, sum_green as int, sum_blue as int, count as int)
                    == assigned_totals(asg, px, i as int, j as int),
                count <= j,
                sum_red <= 255 * count,
                sum_green <= 255 * count,
                sum_blue <= 255 * count,
            decreases asg.len() - j,
        {
            let a = assignments[j];
            if a == i {
                let pixel = image.pixels[j];
                sum_red = sum_red + pixel.r as u128;
                sum_green = sum_green + pixel.g as u128;
                sum_blue = sum_blue + pixel.b as u128;
                count = count + 1;
            }
            j = j + 1;
        }
        if count > 0 {
            proof {
                lemma_div_below(sum_red as int, 256, count as int);
                lemma_div_below(sum_green as int, 256, count as int);
                lemma_div_below(sum_blue as int, 256, count as int);
                assert(sum_red < 256 * count && sum_green < 256 * count && sum_blue < 256
                    * count) by (nonlinear_arith)
                    requires
                        sum_red <= 255 * (count as int),
                        sum_green <= 255 * (count as int),
                        sum_blue <= 255 * (count as int),
                        count >= 1,
                ;
            }
            let newc = Color {
                r: (sum_red / count) as u8,
                g: (sum_green / count) as u8,
                b: (sum_blue / count) as u8,
            };
            centroids.set(i, newc);
        }
        i = i + 1;
    }
}

/// A palette of `k` representative colors for the image: centroids seeded
/// with randomly drawn pixels and moved by Lloyd iteration until they
/// stand still, at most one hundred rounds.  The palette always holds
/// exactly `k` colors; which ones depends on the random seeds, so the
/// contract fixes the shape of every outcome: some number of Lloyd
/// rounds applied to seeds that are all pixels of the image.
pub fn kmeans(k: usize, image: &Raster) -> (palette: Vec<Color>)
    requires
        image.wf(),
        image.width >= 1,
        image.height >= 1,
        k >= 1,
    ensures
        palette@.len() == k,
        exists|seeds: Seq<Color>, rounds: int|
            #[trigger] lloyd_outcome(palette@, image.pixels@, seeds, rounds),
{
    let ghost px = image.pixels@;
    let mut centroids: Vec<Color> = Vec::new();
    let mut i: usize = 0;
    while i < k
        invariant
            0 <= i <= k,
            image.wf(),
            image.width >= 1,
            image.height >= 1,
            px == image.pixels@,
            centroids@.len() == i,
            forall|s: int| 0 <= s < i ==> px.contains(#[trigger] centroids@[s]),
        decreases k - i,
    {
        let x = random_below(image.width);
        let y = random_below(image.height);
        let random_pixel = image.get(x, y);
        proof {
            crate::raster::lemma_row_major_in_range(
                x as int,
                y as int,
                image.width as int,
                image.height as int,
            );
            assert(px.contains(random_pixel)) by {
                assert(px[image.spec_idx(x as int, y as int)] == random_pixel);
            }
        }
        centroids.push(random_pixel);
        i = i + 1;
    }
    let ghost seeds = centroids@;
    let max_iterations: u32 = 100;
    let mut iteration: u32 = 0;
    let mut converged: bool = false;
    while !converged && iteration < max_iterations
        invariant
            0 <= iteration <= max_iterations,
            image.wf(),
            px == image.pixels@,
            seeds.len() == k,
            forall|s: int| 0 <= s < seeds.len() ==> px.contains(#[trigger] seeds[s]),
            centroids@.len() == k,
            centroids@ == lloyd_iter(seeds, px, iteration as int),
            k >= 1,
        decreases max_iterations - iteration,
    {
        let prev_centroids = copy_colors_local(&centroids);
        let assignments = assign_pixels_to_centroids(&centroids, image);
        update_centroids(&mut centroids, &assignments, image);
        proof {
            let prev = prev_centroids@;
            assert(assignments@ =~= assign_spec(prev, px)) by {
                assert forall|j: int| 0 <= j < px.len() implies assignments@[j] == assign_spec(
                    prev,
                    px,
                )[j] by {
                    lemma_closest_upto_min(prev, px[j], prev.len() as int);
                }
            }
            assert(centroids@ =~= lloyd_round(prev, px)) by {
                assert forall|a: int| 0 <= a < centroids@.len() implies centroids@[a]
                    == lloyd_round(prev, px)[a] by {
                    assert(centroids@[a] == centroid_updated(prev[a], assignments@, px, a));
                }
            }
            assert(centroids@ == lloyd_iter(seeds, px, iteration as int + 1));
        }
        let mut all_equal: bool = true;
        let mut c: usize = 0;
        while c < centroids.len()
            invariant
                0 <= c <= centroids@.len(),
                prev_centroids@.len() == centroids@.len(),
            decreases centroids@.len() - c,
        {
            let a = centroids[c];
            let b = prev_centroids[c];
            if !(a == b) {
                all_equal = false;
            }
            c = c + 1;
        }
        converged = all_equal;
        iteration = iteration + 1;
    }
    proof {
        assert(lloyd_outcome(centroids@, px, seeds, iteration as int));
    }
    centroids
}

/// A copy of a palette.
fn copy_colors_local(v: &Vec<Color>) -> (r: Vec<Color>)
    ensures
        r@ == v@,
{
    let mut r: Vec<Color> = Vec::new();
    let mut k: usize = 0;
    while k < v.len()
        invariant
            0 <= k <= v@.len(),
            r@ =~= v@.subrange(0, k as int),
        decreases v@.len() - k,
    {
        let c = v[k];
        r.push(c);
        k = k + 1;
    }
    proof {
        assert(r@ =~= v@);
    }
    r
}

} // verus!
