use vstd::prelude::*;
use crate::pixel::Pixel;
use crate::hist::{HistEntry, wsum, lemma_wsum_take_step, lemma_wsum_take_le, lemma_wsum_nonneg};
use crate::remap::{dist, nearest_index, nearest, lemma_nearest_is_min, lemma_dist_bound};
use vstd::arithmetic::mul::lemma_mul_inequality;
use vstd::arithmetic::div_mod::{lemma_div_is_ordered, lemma_div_multiples_vanish};

verus! {

/// The least squared distance between `c` and any entry of the palette.
pub open spec fn min_dist(pal: Seq<Pixel>, c: Pixel) -> int {
    dist(pal[nearest_index(pal, c)], c)
}

/// The total weighted squared error of a histogram against a palette:
/// each entry contributes its weight times the distance to its nearest
/// palette entry.
pub open spec fn total_sqerr(hist: Seq<HistEntry>, pal: Seq<Pixel>) -> int
    decreases hist.len(),
{
    if hist.len() == 0 {
        0
    } else {
        total_sqerr(hist.drop_last(), pal) + hist.last().weight * min_dist(pal, hist.last().color)
    }
}

/// The quality score in 0..=100 of a palette for a histogram: the
/// weighted mean squared error, normalized against the worst possible
/// distance of 4 * 255 * 255, inverted so that 100 is perfect
/// reproduction. An empty population is reproduced perfectly.
pub open spec fn score_spec(hist: Seq<HistEntry>, pal: Seq<Pixel>) -> int {
    if wsum(hist) <= 0 {
        100
    } else {
        100 - (100 * (total_sqerr(hist, pal) / wsum(hist))) / 260100
    }
}

/// The least distance to a nonempty palette is bounded like any distance.
pub proof fn lemma_min_dist_bound(pal: Seq<Pixel>, c: Pixel)
    requires
        pal.len() >= 1,
    ensures
        0 <= min_dist(pal, c) <= 260100,
{
    lemma_nearest_is_min(pal, c, pal.len() as int);
    lemma_dist_bound(pal[nearest_index(pal, c)], c);
}

/// A color that appears in the palette is at distance zero from it.
pub proof fn lemma_min_dist_member(pal: Seq<Pixel>, c: Pixel, k: int)
    requires
        0 <= k < pal.len(),
        pal[k] == c,
    ensures
        min_dist(pal, c) == 0,
{
    lemma_nearest_is_min(pal, c, pal.len() as int);
    lemma_dist_bound(pal[nearest_index(pal, c)], c);
    assert(dist(c, c) == 0) by (nonlinear_arith);
    assert(dist(pal[nearest_index(pal, c)], c) <= dist(pal[k], c));
}

/// The total squared error is bounded by the total weight times the
/// worst possible distance.
pub proof fn lemma_total_sqerr_bound(hist: Seq<HistEntry>, pal: Seq<Pixel>)
    requires
        pal.len() >= 1,
    ensures
        0 <= total_sqerr(hist, pal) <= wsum(hist) * 260100,
    decreases hist.len(),
{
    if hist.len() == 0 {
    } else {
        let h = hist.drop_last();
        let e = hist.last();
        lemma_total_sqerr_bound(h, pal);
        lemma_min_dist_bound(pal, e.color);
        lemma_mul_inequality(min_dist(pal, e.color), 260100, e.weight as int);
        assert(e.weight * min_dist(pal, e.color) == min_dist(pal, e.color) * e.weight)
            by (nonlinear_arith);
        assert(e.weight * min_dist(pal, e.color) >= 0) by (nonlinear_arith)
            requires
                e.weight >= 0,
                min_dist(pal, e.color) >= 0,
        ;
        assert((wsum(h) + e.weight) * 260100 == wsum(h) * 260100 + e.weight * 260100)
            by (nonlinear_arith);
        assert(260100 * (e.weight as int) == (e.weight as int) * 260100) by (nonlinear_arith);
    }
}

/// Taking one more histogram entry adds its weighted error to the prefix
/// total.
proof fn lemma_total_sqerr_take_step(hist: Seq<HistEntry>, pal: Seq<Pixel>, k: int)
    requires
        0 <= k < hist.len(),
    ensures
        total_sqerr(hist.take(k + 1), pal) == total_sqerr(hist.take(k), pal) + hist[k].weight
            * min_dist(pal, hist[k].color),
{
    assert(hist.take(k + 1).drop_last() =~= hist.take(k));
    assert(hist.take(k + 1).last() == hist[k]);
}

/// Growing a palette never increases the least distance of any color.
pub proof fn lemma_min_dist_extend(pal: Seq<Pixel>, ext: Seq<Pixel>, c: Pixel)
    requires
        pal.len() >= 1,
    ensures
        min_dist(pal + ext, c) <= min_dist(pal, c),
{
    let pal2 = pal + ext;
    lemma_nearest_is_min(pal, c, pal.len() as int);
    lemma_nearest_is_min(pal2, c, pal2.len() as int);
    let j = nearest_index(pal, c);
    assert(pal2[j] == pal[j]);
    assert(dist(pal2[nearest_index(pal2, c)], c) <= dist(pal2[j], c));
}

/// Growing a palette never increases the total squared error of a
/// histogram.
pub proof fn lemma_total_sqerr_extend(hist: Seq<HistEntry>, pal: Seq<Pixel>, ext: Seq<Pixel>)
    requires
        pal.len() >= 1,
    ensures
        total_sqerr(hist, pal + ext) <= total_sqerr(hist, pal),
    decreases hist.len(),
{
    if hist.len() > 0 {
        let h = hist.drop_last();
        let e = hist.last();
        lemma_total_sqerr_extend(h, pal, ext);
        lemma_min_dist_extend(pal, ext, e.color);
        lemma_mul_inequality(min_dist(pal + ext, e.color), min_dist(pal, e.color), e.weight as int);
        assert(e.weight * min_dist(pal + ext, e.color) == min_dist(pal + ext, e.color) * (
        e.weight as int)) by (nonlinear_arith);
        assert(e.weight * min_dist(pal, e.color) == min_dist(pal, e.color) * (e.weight as int))
            by (nonlinear_arith);
    }
}

/// Enlarging a palette never lowers the quality score: for a fixed
/// histogram, a palette extended by further entries scores at least as
/// well as the palette alone. This is the monotonicity behind raising
/// the palette-size limit.
pub proof fn lemma_score_monotone(hist: Seq<HistEntry>, pal: Seq<Pixel>, ext: Seq<Pixel>)
    requires
        pal.len() >= 1,
    ensures
        score_spec(hist, pal + ext) >= score_spec(hist, pal),
{
    if wsum(hist) > 0 {
        let w = wsum(hist);
        let t1 = total_sqerr(hist, pal);
        let t2 = total_sqerr(hist, pal + ext);
        lemma_total_sqerr_extend(hist, pal, ext);
        lemma_div_is_ordered(t2, t1, w);
        assert(100 * (t2 / w) <= 100 * (t1 / w));
        lemma_div_is_ordered(100 * (t2 / w), 100 * (t1 / w), 260100);
    }
}

/// Computes the quality score in 0..=100 of a palette for a histogram.
pub fn score(hist: &Vec<HistEntry>, pal: &Vec<Pixel>) -> (s: u8)
    requires
        pal.len() >= 1,
        wsum(hist@) <= 0xFFFF_FFFF,
    ensures
        s == score_spec(hist@, pal@),
        s <= 100,
{
    let mut acc_w: u64 = 0;
    let mut acc_e: u64 = 0;
    let mut k: usize = 0;
    proof {
        assert(hist@.take(0) =~= Seq::<HistEntry>::empty());
    }
    while k < hist.len()
        invariant
            k <= hist.len(),
            pal.len() >= 1,
            wsum(hist@) <= 0xFFFF_FFFF,
            acc_w == wsum(hist@.take(k as int)),
            acc_e == total_sqerr(hist@.take(k as int), pal@),
            acc_e <= acc_w * 260100,
            acc_w <= 0xFFFF_FFFF,
        decreases hist.len() - k,
    {
        let e = hist[k];
        let ni = nearest(pal, e.color);
        let md = crate::remap::dist_exec(pal[ni], e.color);
        proof {
            lemma_wsum_take_step(hist@, k as int);
            lemma_total_sqerr_take_step(hist@, pal@, k as int);
            lemma_wsum_take_le(hist@, k as int + 1);
            lemma_wsum_nonneg(hist@.take(k as int));
            lemma_min_dist_bound(pal@, e.color);
            assert((e.weight as int) * (md as int) <= (e.weight as int) * 260100) by {
                lemma_mul_inequality(md as int, 260100, e.weight as int);
                assert((e.weight as int) * (md as int) == (md as int) * (e.weight as int))
                    by (nonlinear_arith);
                assert((e.weight as int) * 260100 == 260100 * (e.weight as int))
                    by (nonlinear_arith);
            };
            assert((acc_w + e.weight) * 260100 == acc_w * 260100 + (e.weight as int) * 260100)
                by (nonlinear_arith);
            assert((e.weight as int) * (md as int) >= 0) by (nonlinear_arith)
                requires
                    e.weight >= 0,
                    md >= 0,
            ;
        }
        acc_e = acc_e + (e.weight as u64) * (md as u64);
        acc_w = acc_w + (e.weight as u64);
        k = k + 1;
    }
    proof {
        assert(hist@.take(hist.len() as int) =~= hist@);
    }
    if acc_w == 0 {
        return 100;
    }
    let mse = acc_e / acc_w;
    proof {
        lemma_div_is_ordered(acc_e as int, acc_w * 260100, acc_w as int);
        assert((acc_w * 260100) as int == (260100 as int) * (acc_w as int)) by (nonlinear_arith);
        lemma_div_multiples_vanish(260100, acc_w as int);
        assert(mse <= 260100);
    }
    let pen = (100 * mse) / 260100;
    proof {
        lemma_div_is_ordered((100 * mse) as int, 26010000, 260100);
        assert(pen <= 100);
    }
    (100 - pen) as u8
}

} // verus!
