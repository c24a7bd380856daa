use vstd::prelude::*;
use crate::pixel::Pixel;
use crate::hist::{
    HistEntry, wsum, lemma_wsum_take_step, lemma_wsum_take_le, lemma_wsum_nonneg, lemma_wsum_split,
    lemma_wsum_insert, lemma_wsum_ge_len,
};
use crate::quality::{score, score_spec, min_dist, total_sqerr};
use crate::remap::{dist, nearest_index};
use crate::errors::QuantizeError;
use vstd::arithmetic::div_mod::{lemma_div_is_ordered, lemma_div_multiples_vanish};

verus! {

/// A working box of the splitting search: a nonempty bundle of histogram
/// entries whose weights are positive and sum within the exact-arithmetic
/// range.
pub open spec fn box_inv(b: Seq<HistEntry>) -> bool {
    &&& b.len() >= 1
    &&& wsum(b) <= 0xFFFF_FFFF
    &&& forall|k: int| 0 <= k < b.len() ==> #[trigger] b[k].weight >= 1
}

fn copy_entries(v: &Vec<HistEntry>) -> (r: Vec<HistEntry>)
    ensures
        r@ == v@,
{
    let mut r: Vec<HistEntry> = Vec::new();
    let mut i: usize = 0;
    while i < v.len()
        invariant
            i <= v.len(),
            r@ == v@.take(i as int),
        decreases v.len() - i,
    {
        r.push(v[i]);
        proof {
            assert(v@.take(i as int).push(v@[i as int]) =~= v@.take(i as int + 1));
        }
        i = i + 1;
    }
    proof {
        assert(v@.take(v.len() as int) =~= v@);
    }
    r
}

fn subrange_entries(v: &Vec<HistEntry>, s: usize, e: usize) -> (r: Vec<HistEntry>)
    requires
        s <= e <= v.len(),
    ensures
        r@ == v@.subrange(s as int, e as int),
{
    let mut r: Vec<HistEntry> = Vec::new();
    let mut i: usize = s;
    while i < e
        invariant
            s <= i <= e <= v.len(),
            r@ == v@.subrange(s as int, i as int),
        decreases e - i,
    {
        r.push(v[i]);
        proof {
            assert(v@.subrange(s as int, i as int).push(v@[i as int]) =~= v@.subrange(
                s as int,
                i as int + 1,
            ));
        }
        i = i + 1;
    }
    r
}

/// Adds up the weights of a box exactly.
fn sum_weights(v: &Vec<HistEntry>) -> (w: u64)
    requires
        wsum(v@) <= 0xFFFF_FFFF,
    ensures
        w == wsum(v@),
{
    let mut acc: u64 = 0;
    let mut i: usize = 0;
    proof {
        assert(v@.take(0) =~= Seq::<HistEntry>::empty());
    }
    while i < v.len()
        invariant
            i <= v.len(),
            wsum(v@) <= 0xFFFF_FFFF,
            acc == wsum(v@.take(i as int)),
            acc <= 0xFFFF_FFFF,
        decreases v.len() - i,
    {
        proof {
            lemma_wsum_take_step(v@, i as int);
            lemma_wsum_take_le(v@, i as int + 1);
            lemma_wsum_nonneg(v@.take(i as int));
        }
        acc = acc + (v[i].weight as u64);
        i = i + 1;
    }
    proof {
        assert(v@.take(v.len() as int) =~= v@);
    }
    acc
}

/// Whether sorted-insertion should keep scanning past entry `o`: `o`
/// sorts no later than channel value `ec` with key `ek`.
fn entry_le(o: &HistEntry, axis: u8, ec: u8, ek: u32) -> (r: bool)
    ensures
        r == {
            let oc = o.color.channel_spec(axis as int);
            oc < ec || (oc == ec && o.color.key_spec() <= ek)
        },
{
    let oc = o.color.channel(axis);
    oc < ec || (oc == ec && o.color.key() <= ek)
}

/// Sorts the entries of a box by the chosen channel, ties broken by the
/// lowest packed color key, keeping the population itself intact: same
/// length, same total weight, all weights still positive.
fn sort_entries(v: Vec<HistEntry>, axis: u8) -> (r: Vec<HistEntry>)
    requires
        forall|k: int| 0 <= k < v.len() ==> #[trigger] v@[k].weight >= 1,
    ensures
        r.len() == v.len(),
        wsum(r@) == wsum(v@),
        forall|k: int| 0 <= k < r.len() ==> #[trigger] r@[k].weight >= 1,
        v.len() == 2 ==> r@ == seq![v@[0], v@[1]] || r@ == seq![v@[1], v@[0]],
{
    let mut out: Vec<HistEntry> = Vec::new();
    let mut i: usize = 0;
    proof {
        assert(v@.take(0) =~= Seq::<HistEntry>::empty());
    }
    while i < v.len()
        invariant
            i <= v.len(),
            out.len() == i,
            wsum(out@) == wsum(v@.take(i as int)),
            forall|k: int| 0 <= k < v.len() ==> #[trigger] v@[k].weight >= 1,
            forall|k: int| 0 <= k < out.len() ==> #[trigger] out@[k].weight >= 1,
            v.len() == 2 && i == 1 ==> out@ == seq![v@[0]],
            v.len() == 2 && i == 2 ==> out@ == seq![v@[0], v@[1]] || out@ == seq![v@[1], v@[0]],
        decreases v.len() - i,
    {
        let e = v[i];
        let ec = e.color.channel(axis);
        let ek = e.color.key();
        let mut j: usize = 0;
        while j < out.len() && entry_le(&out[j], axis, ec, ek)
            invariant
                j <= out.len(),
            decreases out.len() - j,
        {
            j = j + 1;
        }
        proof {
            lemma_wsum_insert(out@, j as int, e);
            lemma_wsum_take_step(v@, i as int);
            if v.len() == 2 {
                if i == 0 {
                    assert(out@.insert(j as int, e) =~= seq![v@[0]]);
                } else {
                    if j == 0 {
                        assert(out@.insert(0, e) =~= seq![v@[1], v@[0]]);
                    } else {
                        assert(out@.insert(1, e) =~= seq![v@[0], v@[1]]);
                    }
                }
            }
        }
        out.insert(j, e);
        i = i + 1;
    }
    proof {
        assert(v@.take(v.len() as int) =~= v@);
    }
    out
}

/// The weighted squared spread of a box along one channel, used only to
/// pick the next box and axis to split: boxes with more weighted spread
/// are split first.
fn box_variance(v: &Vec<HistEntry>, axis: u8) -> (var: u128)
    requires
        wsum(v@) <= 0xFFFF_FFFF,
{
    let mut acc_w: u64 = 0;
    let mut acc_s: u64 = 0;
    let mut acc_q: u64 = 0;
    let mut i: usize = 0;
    proof {
        assert(v@.take(0) =~= Seq::<HistEntry>::empty());
    }
    while i < v.len()
        invariant
            i <= v.len(),
            wsum(v@) <= 0xFFFF_FFFF,
            acc_w == wsum(v@.take(i as int)),
            acc_w <= 0xFFFF_FFFF,
            acc_s <= 255 * acc_w,
            acc_q <= 65025 * acc_w,
        decreases v.len() - i,
    {
        let e = v[i];
        let c = e.color.channel(axis) as u64;
        let w = e.weight as u64;
        proof {
            lemma_wsum_take_step(v@, i as int);
            lemma_wsum_take_le(v@, i as int + 1);
            lemma_wsum_nonneg(v@.take(i as int));
            assert(w * c <= 255 * w && w * (c * c) <= 65025 * w && c * c <= 65025)
                by (nonlinear_arith)
                requires
                    0 <= c <= 255,
                    w >= 0,
            ;
        }
        acc_w = acc_w + w;
        acc_s = acc_s + w * c;
        acc_q = acc_q + w * (c * c);
        i = i + 1;
    }
    proof {
        assert((acc_w as int) * (acc_q as int) < 0x100000000000000000000000000000000)
            by (nonlinear_arith)
            requires
                acc_w <= 0xFFFF_FFFF_FFFF_FFFFu64,
                acc_q <= 0xFFFF_FFFF_FFFF_FFFFu64,
        ;
        assert((acc_s as int) * (acc_s as int) < 0x100000000000000000000000000000000)
            by (nonlinear_arith)
            requires
                acc_s <= 0xFFFF_FFFF_FFFF_FFFFu64,
        ;
    }
    let a = (acc_w as u128) * (acc_q as u128);
    let b = (acc_s as u128) * (acc_s as u128);
    if a >= b {
        a - b
    } else {
        0
    }
}

/// The weighted average color of a box: each channel is the weight-sum of
/// that channel divided by the total weight. A box of one entry collapses
/// to exactly that entry's color.
fn box_color(v: &Vec<HistEntry>) -> (p: Pixel)
    requires
        box_inv(v@),
    ensures
        v.len() == 1 ==> p == v@[0].color,
{
    let mut acc_w: u64 = 0;
    let mut ar: u64 = 0;
    let mut ag: u64 = 0;
    let mut ab: u64 = 0;
    let mut aa: u64 = 0;
    let mut i: usize = 0;
    proof {
        assert(v@.take(0) =~= Seq::<HistEntry>::empty());
    }
    while i < v.len()
        invariant
            i <= v.len(),
            wsum(v@) <= 0xFFFF_FFFF,
            acc_w == wsum(v@.take(i as int)),
            acc_w <= 0xFFFF_FFFF,
            ar <= 255 * acc_w,
            ag <= 255 * acc_w,
            ab <= 255 * acc_w,
            aa <= 255 * acc_w,
            v.len() == 1 && i == 1 ==> acc_w == v@[0].weight && ar == v@[0].weight * (
            v@[0].color.r as int) && ag == v@[0].weight * (v@[0].color.g as int) && ab == v@[0].weight
                * (v@[0].color.b as int) && aa == v@[0].weight * (v@[0].color.a as int),
        decreases v.len() - i,
    {
        let e = v[i];
        let w = e.weight as u64;
        proof {
            lemma_wsum_take_step(v@, i as int);
            lemma_wsum_take_le(v@, i as int + 1);
            lemma_wsum_nonneg(v@.take(i as int));
            assert(w * (e.color.r as u64) <= 255 * w && w * (e.color.g as u64) <= 255 * w && w * (
            e.color.b as u64) <= 255 * w && w * (e.color.a as u64) <= 255 * w) by (nonlinear_arith)
                requires
                    0 <= e.color.r <= 255,
                    0 <= e.color.g <= 255,
                    0 <= e.color.b <= 255,
                    0 <= e.color.a <= 255,
                    w >= 0,
            ;
        }
        acc_w = acc_w + w;
        ar = ar + w * (e.color.r as u64);
        ag = ag + w * (e.color.g as u64);
        ab = ab + w * (e.color.b as u64);
        aa = aa + w * (e.color.a as u64);
        i = i + 1;
    }
    proof {
        assert(v@.take(v.len() as int) =~= v@);
        lemma_wsum_ge_len(v@);
    }
    let avg_r = channel_avg(ar, acc_w);
    let avg_g = channel_avg(ag, acc_w);
    let avg_b = channel_avg(ab, acc_w);
    let avg_a = channel_avg(aa, acc_w);
    proof {
        if v.len() == 1 {
            let w0 = v@[0].weight as int;
            let c = v@[0].color;
            lemma_exact_avg(w0, c.r as int);
            lemma_exact_avg(w0, c.g as int);
            lemma_exact_avg(w0, c.b as int);
            lemma_exact_avg(w0, c.a as int);
        }
    }
    Pixel { r: avg_r, g: avg_g, b: avg_b, a: avg_a }
}

/// Dividing a weighted single value by its weight gives the value back.
proof fn lemma_exact_avg(w: int, c: int)
    requires
        w >= 1,
    ensures
        (w * c) / w == c,
{
    assert(w * c == c * w) by (nonlinear_arith);
    lemma_div_multiples_vanish(c, w);
}

fn channel_avg(sum: u64, w: u64) -> (r: u8)
    requires
        w >= 1,
        sum <= 255 * w,
    ensures
        r == sum as int / w as int,
{
    proof {
        lemma_div_is_ordered(sum as int, 255 * w, w as int);
        assert(255 * (w as int) == (w as int) * 255) by (nonlinear_arith);
        lemma_div_multiples_vanish(255, w as int);
    }
    (sum / w) as u8
}

/// The working set holds exactly the two single-entry boxes of a
/// two-entry population, in either order.
spec fn two_boxes(boxes: Seq<Vec<HistEntry>>, hist: Seq<HistEntry>) -> bool {
    &&& boxes.len() == 2
    &&& ((boxes[0]@ == seq![hist[0]] && boxes[1]@ == seq![hist[1]]) || (boxes[0]@ == seq![
        hist[1],
    ] && boxes[1]@ == seq![hist[0]]))
}

/// Builds a palette of at most `max_colors` entries from a histogram by
/// variance-guided box splitting at weighted medians.
///
/// The box with the greatest weighted spread along its widest channel is
/// split at the weighted median of that channel until the palette-size
/// limit is reached, no box holds two entries, or the quality target is
/// met. Each final box collapses to its weighted average color, and the
/// heaviest box comes first in the palette. Fails on an empty population,
/// and with `QualityUnattainable` when the best palette found still
/// scores below the configured minimum.
pub fn build_palette(
    hist: &Vec<HistEntry>,
    max_colors: u16,
    quality_min: u8,
    quality_target: u8,
) -> (r: Result<Vec<Pixel>, QuantizeError>)
    requires
        1 <= max_colors <= 256,
        quality_min <= quality_target <= 100,
        wsum(hist@) <= 0xFFFF_FFFF,
        forall|k: int| 0 <= k < hist.len() ==> #[trigger] hist@[k].weight >= 1,
    ensures
        (r == Err::<Vec<Pixel>, QuantizeError>(QuantizeError::EmptyInput)) <==> hist@.len() == 0,
        r is Ok ==> {
            let pal = r->Ok_0;
            &&& 1 <= pal.len() <= max_colors
            &&& score_spec(hist@, pal@) >= quality_min
        },
        hist@.len() > 0 && quality_min == 0 ==> r is Ok,
        hist@.len() == 1 ==> r is Ok && r->Ok_0@ == seq![hist@[0].color],
        hist@.len() == 2 && max_colors >= 2 ==> r is Ok && {
            let e0 = hist@[0];
            let e1 = hist@[1];
            let pal = r->Ok_0@;
            &&& (pal == seq![e0.color, e1.color] || pal == seq![e1.color, e0.color])
            &&& (e0.weight > e1.weight ==> pal == seq![e0.color, e1.color])
            &&& (e1.weight > e0.weight ==> pal == seq![e1.color, e0.color])
            &&& (e0.weight == e1.weight && e0.color.key_spec() < e1.color.key_spec() ==> pal
                == seq![e0.color, e1.color])
            &&& (e0.weight == e1.weight && e1.color.key_spec() < e0.color.key_spec() ==> pal
                == seq![e1.color, e0.color])
        },
        r is Err ==> r == Err::<Vec<Pixel>, QuantizeError>(QuantizeError::EmptyInput) || r
            == Err::<Vec<Pixel>, QuantizeError>(QuantizeError::QualityUnattainable),
{
    if hist.len() == 0 {
        return Err(QuantizeError::EmptyInput);
    }
    let mut boxes: Vec<Vec<HistEntry>> = Vec::new();
    let first = copy_entries(hist);
    proof {
        lemma_wsum_nonneg(hist@);
    }
    boxes.push(first);
    while boxes.len() < max_colors as usize
        invariant
            1 <= boxes.len() <= max_colors,
            max_colors <= 256,
            wsum(hist@) <= 0xFFFF_FFFF,
            forall|bi: int| 0 <= bi < boxes.len() ==> box_inv(#[trigger] boxes@[bi]@),
            hist@.len() == 1 ==> boxes.len() == 1 && boxes@[0]@ == hist@,
            hist@.len() == 2 && max_colors >= 2 ==> (boxes.len() == 1 && boxes@[0]@ == hist@)
                || two_boxes(boxes@, hist@),
        ensures
            1 <= boxes.len() <= max_colors,
            forall|bi: int| 0 <= bi < boxes.len() ==> box_inv(#[trigger] boxes@[bi]@),
            hist@.len() == 1 ==> boxes.len() == 1 && boxes@[0]@ == hist@,
            hist@.len() == 2 && max_colors >= 2 ==> two_boxes(boxes@, hist@),
        decreases max_colors - boxes.len(),
    {
        // choose the box and axis with the greatest weighted spread
        let mut chose = false;
        let mut best_bi: usize = 0;
        let mut best_axis: u8 = 0;
        let mut best_var: u128 = 0;
        let mut bi: usize = 0;
        while bi < boxes.len()
            invariant
                bi <= boxes.len(),
                wsum(hist@) <= 0xFFFF_FFFF,
                forall|b2: int| 0 <= b2 < boxes.len() ==> box_inv(#[trigger] boxes@[b2]@),
                chose ==> best_bi < boxes.len() && boxes@[best_bi as int]@.len() >= 2,
                boxes.len() >= 1 && boxes@[0]@.len() >= 2 && bi >= 1 ==> chose,
            decreases boxes.len() - bi,
        {
            if boxes[bi].len() >= 2 {
                let mut axis: u8 = 0;
                while axis < 4
                    invariant
                        axis <= 4,
                        bi < boxes.len(),
                        wsum(hist@) <= 0xFFFF_FFFF,
                        forall|b2: int| 0 <= b2 < boxes.len() ==> box_inv(#[trigger] boxes@[b2]@),
                        boxes@[bi as int]@.len() >= 2,
                        chose ==> best_bi < boxes.len() && boxes@[best_bi as int]@.len() >= 2,
                        axis >= 1 ==> chose,
                    decreases 4 - axis,
                {
                    let var = box_variance(&boxes[bi], axis);
                    if !chose || var > best_var {
                        chose = true;
                        best_bi = bi;
                        best_axis = axis;
                        best_var = var;
                    }
                    axis = axis + 1;
                }
            }
            bi = bi + 1;
        }
        if !chose {
            break;
        }
        // split the chosen box at the weighted median of the chosen axis
        let bx = boxes.remove(best_bi);
        let sorted = sort_entries(bx, best_axis);
        let wtot = sum_weights(&sorted);
        let mut m: usize = 1;
        let mut acc: u64 = sorted[0].weight as u64;
        proof {
            assert(sorted@.take(0) =~= Seq::<HistEntry>::empty());
            lemma_wsum_take_step(sorted@, 0);
            assert(acc == wsum(sorted@.take(1)));
        }
        while m < sorted.len() - 1 && 2 * acc < wtot
            invariant
                1 <= m <= sorted.len() - 1,
                sorted.len() >= 2,
                wsum(sorted@) <= 0xFFFF_FFFF,
                acc == wsum(sorted@.take(m as int)),
                acc <= 0xFFFF_FFFF,
            decreases sorted.len() - m,
        {
            proof {
                lemma_wsum_take_step(sorted@, m as int);
                lemma_wsum_take_le(sorted@, m as int + 1);
                lemma_wsum_nonneg(sorted@.take(m as int));
            }
            acc = acc + (sorted[m].weight as u64);
            m = m + 1;
        }
        let left = subrange_entries(&sorted, 0, m);
        let right = subrange_entries(&sorted, m, sorted.len());
        proof {
            lemma_wsum_split(sorted@, m as int);
            assert(left@ =~= sorted@.take(m as int));
            assert(right@ =~= sorted@.skip(m as int));
            lemma_wsum_nonneg(left@);
            lemma_wsum_nonneg(right@);
            if hist@.len() == 2 && max_colors >= 2 {
                assert(m == 1);
                if sorted@ == seq![hist@[0], hist@[1]] {
                    assert(left@ =~= seq![hist@[0]]);
                    assert(right@ =~= seq![hist@[1]]);
                } else {
                    assert(sorted@ == seq![hist@[1], hist@[0]]);
                    assert(left@ =~= seq![hist@[1]]);
                    assert(right@ =~= seq![hist@[0]]);
                }
            }
        }
        boxes.push(left);
        boxes.push(right);
        // stop early once the quality target is met
        let pal = palette_of(&boxes);
        let s = score(hist, &pal);
        if s >= quality_target {
            break;
        }
    }
    // the heaviest box first, ties broken by the lowest color key
    let mut keyed: Vec<(u64, u32, Pixel)> = Vec::new();
    let mut bi: usize = 0;
    while bi < boxes.len()
        invariant
            bi <= boxes.len(),
            keyed.len() == bi,
            forall|b2: int| 0 <= b2 < boxes.len() ==> box_inv(#[trigger] boxes@[b2]@),
            hist@.len() == 1 ==> boxes.len() == 1 && boxes@[0]@ == hist@ && (bi == 1
                ==> keyed@[0].2 == hist@[0].color),
            hist@.len() == 2 && max_colors >= 2 ==> two_boxes(boxes@, hist@) && (forall|b2: int|
                0 <= b2 < bi ==> (#[trigger] keyed@[b2]).0 == boxes@[b2]@[0].weight
                    && keyed@[b2].1 == boxes@[b2]@[0].color.key_spec() && keyed@[b2].2
                    == boxes@[b2]@[0].color),
        decreases boxes.len() - bi,
    {
        proof {
            if boxes@[bi as int]@.len() == 1 {
                assert(boxes@[bi as int]@.drop_last() =~= Seq::<HistEntry>::empty());
                assert(wsum(Seq::<HistEntry>::empty()) == 0);
                assert(boxes@[bi as int]@.last() == boxes@[bi as int]@[0]);
                assert(wsum(boxes@[bi as int]@) == wsum(boxes@[bi as int]@.drop_last())
                    + boxes@[bi as int]@.last().weight);
                assert(wsum(boxes@[bi as int]@) == boxes@[bi as int]@[0].weight);
            }
        }
        let w = sum_weights(&boxes[bi]);
        let p = box_color(&boxes[bi]);
        keyed.push((w, p.key(), p));
        bi = bi + 1;
    }
    let mut ordered: Vec<(u64, u32, Pixel)> = Vec::new();
    let mut i: usize = 0;
    while i < keyed.len()
        invariant
            i <= keyed.len(),
            ordered.len() == i,
            hist@.len() == 1 ==> keyed.len() == 1 && keyed@[0].2 == hist@[0].color && (i == 1
                ==> ordered@[0] == keyed@[0]),
            hist@.len() == 2 && max_colors >= 2 ==> keyed.len() == 2 && (i == 1 ==> ordered@
                == seq![keyed@[0]]) && (i == 2 ==> {
                let before = keyed@[0].0 > keyed@[1].0 || (keyed@[0].0 == keyed@[1].0
                    && keyed@[0].1 <= keyed@[1].1);
                &&& (before ==> ordered@ == seq![keyed@[0], keyed@[1]])
                &&& (!before ==> ordered@ == seq![keyed@[1], keyed@[0]])
            }),
        decreases keyed.len() - i,
    {
        let e = keyed[i];
        let mut j: usize = 0;
        while j < ordered.len() && keyed_before(&ordered[j], e.0, e.1)
            invariant
                j <= ordered.len(),
                forall|k2: int|
                    0 <= k2 < j ==> (#[trigger] ordered@[k2]).0 > e.0 || (ordered@[k2].0 == e.0
                        && ordered@[k2].1 <= e.1),
            decreases ordered.len() - j,
        {
            j = j + 1;
        }
        let ghost pre_ordered = ordered@;
        ordered.insert(j, e);
        proof {
            if hist@.len() == 2 && max_colors >= 2 {
                if i == 0 {
                    assert(ordered@ =~= seq![e]);
                } else if j == 0 {
                    assert(ordered@ =~= seq![keyed@[1], keyed@[0]]);
                } else {
                    assert(j == 1);
                    assert(ordered@ =~= seq![keyed@[0], keyed@[1]]);
                }
            }
        }
        i = i + 1;
    }
    let mut pal: Vec<Pixel> = Vec::new();
    let mut i2: usize = 0;
    while i2 < ordered.len()
        invariant
            i2 <= ordered.len(),
            pal.len() == i2,
            hist@.len() == 1 ==> ordered.len() == 1 && ordered@[0].2 == hist@[0].color && (i2 == 1
                ==> pal@[0] == hist@[0].color),
            hist@.len() == 2 && max_colors >= 2 ==> ordered.len() == 2 && (i2 == 1 ==> pal@
                == seq![ordered@[0].2]) && (i2 == 2 ==> pal@ == seq![
                ordered@[0].2,
                ordered@[1].2,
            ]),
        decreases ordered.len() - i2,
    {
        pal.push(ordered[i2].2);
        i2 = i2 + 1;
    }
    proof {
        if hist@.len() == 1 {
            let c = hist@[0].color;
            assert(pal@ =~= seq![c]);
            assert(nearest_index(seq![c], c) == 0);
            assert(dist(c, c) == 0) by (nonlinear_arith);
            assert(min_dist(seq![c], c) == 0);
            assert(hist@.drop_last() =~= Seq::<HistEntry>::empty());
            assert(hist@.last() == hist@[0]);
            assert(hist@[0].weight * 0 == 0) by (nonlinear_arith);
            assert(total_sqerr(Seq::<HistEntry>::empty(), pal@) == 0);
            assert(total_sqerr(hist@.drop_last(), pal@) == 0);
            assert(total_sqerr(hist@, pal@) == total_sqerr(hist@.drop_last(), pal@)
                + hist@.last().weight * min_dist(pal@, hist@.last().color));
            assert(min_dist(pal@, hist@.last().color) == 0);
            assert(total_sqerr(hist@, pal@) == 0);
            lemma_wsum_ge_len(hist@);
            assert(0int / (wsum(hist@) as int) == 0) by {
                vstd::arithmetic::div_mod::lemma_div_basics(wsum(hist@) as int);
            };
            assert(score_spec(hist@, pal@) == 100);
        }
    }
    proof {
        if hist@.len() == 2 && max_colors >= 2 {
            let e0 = hist@[0];
            let e1 = hist@[1];
            assert(pal@ == seq![e0.color, e1.color] || pal@ == seq![e1.color, e0.color]);
            crate::quality::lemma_min_dist_member(pal@, e0.color, if pal@[0] == e0.color {
                0int
            } else {
                1int
            });
            crate::quality::lemma_min_dist_member(pal@, e1.color, if pal@[1] == e1.color {
                1int
            } else {
                0int
            });
            assert(hist@.drop_last() =~= seq![e0]);
            assert(seq![e0].drop_last() =~= Seq::<HistEntry>::empty());
            assert(e0.weight * 0 == 0 && e1.weight * 0 == 0) by (nonlinear_arith);
            assert(total_sqerr(Seq::<HistEntry>::empty(), pal@) == 0);
            assert(total_sqerr(seq![e0], pal@) == total_sqerr(
                seq![e0].drop_last(),
                pal@,
            ) + seq![e0].last().weight * min_dist(pal@, seq![e0].last().color));
            assert(total_sqerr(seq![e0], pal@) == 0);
            assert(total_sqerr(hist@, pal@) == total_sqerr(hist@.drop_last(), pal@)
                + hist@.last().weight * min_dist(pal@, hist@.last().color));
            assert(total_sqerr(hist@, pal@) == 0);
            lemma_wsum_ge_len(hist@);
            assert(0int / (wsum(hist@) as int) == 0) by {
                vstd::arithmetic::div_mod::lemma_div_basics(wsum(hist@) as int);
            };
            assert(score_spec(hist@, pal@) == 100);
        }
    }
    let s = score(hist, &pal);
    if s < quality_min {
        return Err(QuantizeError::QualityUnattainable);
    }
    Ok(pal)
}

/// Whether the ordered palette scan should keep going past `o`: heavier
/// boxes come first, the lowest color key breaking ties.
fn keyed_before(o: &(u64, u32, Pixel), w: u64, k: u32) -> (r: bool)
    ensures
        r == (o.0 > w || (o.0 == w && o.1 <= k)),
{
    o.0 > w || (o.0 == w && o.1 <= k)
}

/// Collapses every current box to its weighted average color, in box
/// order.
fn palette_of(boxes: &Vec<Vec<HistEntry>>) -> (pal: Vec<Pixel>)
    requires
        forall|bi: int| 0 <= bi < boxes.len() ==> box_inv(#[trigger] boxes@[bi]@),
    ensures
        pal.len() == boxes.len(),
{
    let mut pal: Vec<Pixel> = Vec::new();
    let mut bi: usize = 0;
    while bi < boxes.len()
        invariant
            bi <= boxes.len(),
            pal.len() == bi,
            forall|b2: int| 0 <= b2 < boxes.len() ==> box_inv(#[trigger] boxes@[b2]@),
        decreases boxes.len() - bi,
    {
        pal.push(box_color(&boxes[bi]));
        bi = bi + 1;
    }
    pal
}

} // verus!
