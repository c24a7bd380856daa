use vstd::prelude::*;
use crate::pixel::{Pixel, pixel_at, read_pixel};

verus! {

/// A representative color and the number of source pixels that coalesced
/// into it.
#[derive(Clone, Copy, PartialEq, Eq, Structural, Debug)]
pub struct HistEntry {
    pub color: Pixel,
    pub weight: u32,
}

/// Discards the low `bits` bits of a channel value.
pub open spec fn posterize_spec(c: u8, bits: u8) -> u8 {
    (c >> bits) << bits
}

/// Posterizes all four channels of a pixel alike.
pub open spec fn post_pixel(p: Pixel, bits: u8) -> Pixel {
    Pixel {
        r: posterize_spec(p.r, bits),
        g: posterize_spec(p.g, bits),
        b: posterize_spec(p.b, bits),
        a: posterize_spec(p.a, bits),
    }
}

/// How many of the first `n` pixels of the buffer posterize to color `c`.
pub open spec fn pcount(data: Seq<u8>, n: int, c: Pixel, bits: u8) -> int
    decreases n,
{
    if n <= 0 {
        0
    } else {
        pcount(data, n - 1, c, bits) + if post_pixel(pixel_at(data, n - 1), bits) == c {
            1int
        } else {
            0int
        }
    }
}

/// The total weight held by a sequence of histogram entries.
pub open spec fn wsum(s: Seq<HistEntry>) -> int
    decreases s.len(),
{
    if s.len() == 0 {
        0
    } else {
        wsum(s.drop_last()) + s.last().weight
    }
}

/// A pixel count never exceeds the number of pixels counted.
pub proof fn lemma_pcount_bound(data: Seq<u8>, n: int, c: Pixel, bits: u8)
    ensures
        0 <= pcount(data, n, c, bits) <= if n <= 0 {
            0int
        } else {
            n
        },
    decreases n,
{
    if n > 0 {
        lemma_pcount_bound(data, n - 1, c, bits);
    }
}

/// A color that no pixel posterizes to has count zero.
pub proof fn lemma_pcount_zero(data: Seq<u8>, n: int, c: Pixel, bits: u8)
    requires
        forall|i: int| 0 <= i < n ==> post_pixel(pixel_at(data, i), bits) != c,
    ensures
        pcount(data, n, c, bits) == 0,
    decreases n,
{
    if n > 0 {
        lemma_pcount_zero(data, n - 1, c, bits);
    }
}

/// Replacing one entry shifts the total weight by the difference.
pub proof fn lemma_wsum_update(s: Seq<HistEntry>, j: int, e: HistEntry)
    requires
        0 <= j < s.len(),
    ensures
        wsum(s.update(j, e)) == wsum(s) - s[j].weight + e.weight,
    decreases s.len(),
{
    let t = s.update(j, e);
    if j == s.len() - 1 {
        assert(t.drop_last() =~= s.drop_last());
    } else {
        assert(t.drop_last() =~= s.drop_last().update(j, e));
        lemma_wsum_update(s.drop_last(), j, e);
    }
}

/// Appending an entry adds its weight to the total.
pub proof fn lemma_wsum_push(s: Seq<HistEntry>, e: HistEntry)
    ensures
        wsum(s.push(e)) == wsum(s) + e.weight,
{
    assert(s.push(e).drop_last() =~= s);
}


/// Total weights are never negative.
pub proof fn lemma_wsum_nonneg(s: Seq<HistEntry>)
    ensures
        wsum(s) >= 0,
    decreases s.len(),
{
    if s.len() > 0 {
        lemma_wsum_nonneg(s.drop_last());
    }
}

/// Taking one more entry adds its weight to the prefix total.
pub proof fn lemma_wsum_take_step(s: Seq<HistEntry>, k: int)
    requires
        0 <= k < s.len(),
    ensures
        wsum(s.take(k + 1)) == wsum(s.take(k)) + s[k].weight,
{
    assert(s.take(k + 1).drop_last() =~= s.take(k));
    assert(s.take(k + 1).last() == s[k]);
}

/// A prefix never weighs more than the whole sequence.
pub proof fn lemma_wsum_take_le(s: Seq<HistEntry>, k: int)
    requires
        0 <= k <= s.len(),
    ensures
        wsum(s.take(k)) <= wsum(s),
    decreases s.len() - k,
{
    if k == s.len() {
        assert(s.take(k) =~= s);
    } else {
        lemma_wsum_take_step(s, k);
        lemma_wsum_take_le(s, k + 1);
    }
}

/// Splitting a sequence splits its total weight.
pub proof fn lemma_wsum_split(s: Seq<HistEntry>, m: int)
    requires
        0 <= m <= s.len(),
    ensures
        wsum(s) == wsum(s.take(m)) + wsum(s.skip(m)),
    decreases s.len(),
{
    if m == s.len() {
        assert(s.take(m) =~= s);
        assert(s.skip(m) =~= Seq::<HistEntry>::empty());
    } else {
        assert(s.drop_last().take(m) =~= s.take(m));
        assert(s.skip(m).drop_last() =~= s.drop_last().skip(m));
        assert(s.skip(m).last() == s.last());
        lemma_wsum_split(s.drop_last(), m);
    }
}

/// Inserting an entry adds its weight to the total.
pub proof fn lemma_wsum_insert(s: Seq<HistEntry>, i: int, e: HistEntry)
    requires
        0 <= i <= s.len(),
    ensures
        wsum(s.insert(i, e)) == wsum(s) + e.weight,
    decreases s.len(),
{
    if i == s.len() {
        assert(s.insert(i, e) =~= s.push(e));
        lemma_wsum_push(s, e);
    } else {
        let t = s.insert(i, e);
        assert(t.drop_last() =~= s.drop_last().insert(i, e));
        assert(t.last() == s.last());
        lemma_wsum_insert(s.drop_last(), i, e);
    }
}

/// A sequence whose entries all weigh at least one weighs at least its
/// length.
pub proof fn lemma_wsum_ge_len(s: Seq<HistEntry>)
    requires
        forall|k: int| 0 <= k < s.len() ==> #[trigger] s[k].weight >= 1,
    ensures
        wsum(s) >= s.len(),
    decreases s.len(),
{
    if s.len() > 0 {
        lemma_wsum_ge_len(s.drop_last());
    }
}

/// Some entry of `s` carries color `c`.
pub open spec fn covers(s: Seq<HistEntry>, c: Pixel) -> bool {
    exists|k: int| 0 <= k < s.len() && s[k].color == c
}

/// Coverage depends only on the colors of the entries.
pub proof fn lemma_covers_same_colors(s1: Seq<HistEntry>, s2: Seq<HistEntry>, c: Pixel)
    requires
        s1.len() == s2.len(),
        forall|k: int| 0 <= k < s1.len() ==> #[trigger] s1[k].color == s2[k].color,
        covers(s1, c),
    ensures
        covers(s2, c),
{
    let k0 = choose|k: int| 0 <= k < s1.len() && s1[k].color == c;
    assert(0 <= k0 < s2.len() && s2[k0].color == c);
}

/// Appending an entry keeps every covered color covered, and covers the
/// appended color.
pub proof fn lemma_covers_push(s: Seq<HistEntry>, e: HistEntry, c: Pixel)
    requires
        covers(s, c) || e.color == c,
    ensures
        covers(s.push(e), c),
{
    if e.color == c {
        assert(s.push(e)[s.len() as int].color == c);
    } else {
        let k0 = choose|k: int| 0 <= k < s.len() && s[k].color == c;
        assert(s.push(e)[k0].color == c);
    }
}


/// The index of the first entry carrying color `c`, or -1 when there is
/// none.
pub open spec fn find_color(s: Seq<HistEntry>, c: Pixel) -> int
    decreases s.len(),
{
    if s.len() == 0 {
        -1
    } else if s[0].color == c {
        0
    } else {
        let r = find_color(s.drop_first(), c);
        if r < 0 {
            -1
        } else {
            1 + r
        }
    }
}

/// The histogram of the first `n` pixels, built pixel by pixel: a new
/// color is appended with weight one, a seen color bumps its entry.
pub open spec fn hist_of(data: Seq<u8>, n: int, bits: u8) -> Seq<HistEntry>
    decreases n,
{
    if n <= 0 {
        Seq::empty()
    } else {
        let prev = hist_of(data, n - 1, bits);
        let c = post_pixel(pixel_at(data, n - 1), bits);
        let j = find_color(prev, c);
        if j < 0 {
            prev.push(HistEntry { color: c, weight: 1 })
        } else {
            prev.update(j, HistEntry { color: c, weight: (prev[j].weight + 1) as u32 })
        }
    }
}

/// What a nonnegative find result means: the entry at that index carries
/// the color and no earlier entry does; a negative result means no entry
/// does.
pub proof fn lemma_find_color_spec(s: Seq<HistEntry>, c: Pixel)
    ensures
        find_color(s, c) < 0 ==> forall|k: int| 0 <= k < s.len() ==> (#[trigger] s[k]).color != c,
        find_color(s, c) >= 0 ==> 0 <= find_color(s, c) < s.len() && s[find_color(s, c)].color
            == c && forall|k: int| 0 <= k < find_color(s, c) ==> (#[trigger] s[k]).color != c,
    decreases s.len(),
{
    if s.len() > 0 && s[0].color != c {
        lemma_find_color_spec(s.drop_first(), c);
        let r = find_color(s.drop_first(), c);
        if r >= 0 {
            assert forall|k: int| 0 <= k < 1 + r implies (#[trigger] s[k]).color != c by {
                if k > 0 {
                    assert(s.drop_first()[k - 1].color != c);
                }
            }
        } else {
            assert forall|k: int| 0 <= k < s.len() implies (#[trigger] s[k]).color != c by {
                if k > 0 {
                    assert(s.drop_first()[k - 1].color != c);
                }
            }
        }
    }
}

/// The first index carrying a color is determined by what it claims.
pub proof fn lemma_find_color_unique(s: Seq<HistEntry>, c: Pixel, j: int)
    requires
        0 <= j < s.len(),
        s[j].color == c,
        forall|k: int| 0 <= k < j ==> (#[trigger] s[k]).color != c,
    ensures
        find_color(s, c) == j,
    decreases s.len(),
{
    if s[0].color != c {
        assert(j >= 1);
        assert forall|k: int| 0 <= k < j - 1 implies (#[trigger] s.drop_first()[k]).color
            != c by {
            assert(s[k + 1].color != c);
        }
        assert(s.drop_first()[j - 1].color == c);
        lemma_find_color_unique(s.drop_first(), c, j - 1);
    }
}


/// A positive count means some pixel posterizes to the color.
pub proof fn lemma_pcount_pos(data: Seq<u8>, n: int, c: Pixel, bits: u8)
    requires
        pcount(data, n, c, bits) > 0,
    ensures
        exists|i: int| 0 <= i < n && #[trigger] post_pixel(pixel_at(data, i), bits) == c,
    decreases n,
{
    if n > 0 {
        if post_pixel(pixel_at(data, n - 1), bits) == c {
            assert(0 <= n - 1 < n && post_pixel(pixel_at(data, n - 1), bits) == c);
        } else {
            lemma_pcount_pos(data, n - 1, c, bits);
        }
    }
}

/// Posterizing with zero discarded bits leaves a pixel unchanged.
pub proof fn lemma_post_identity(p: Pixel)
    ensures
        post_pixel(p, 0) == p,
{
    let r = p.r;
    let g = p.g;
    let b = p.b;
    let a = p.a;
    assert((r >> 0u8) << 0u8 == r) by (bit_vector);
    assert((g >> 0u8) << 0u8 == g) by (bit_vector);
    assert((b >> 0u8) << 0u8 == b) by (bit_vector);
    assert((a >> 0u8) << 0u8 == a) by (bit_vector);
}

fn posterize(c: u8, bits: u8) -> (r: u8)
    requires
        bits <= 4,
    ensures
        r == posterize_spec(c, bits),
{
    (c >> bits) << bits
}

fn posterize_pixel(p: Pixel, bits: u8) -> (r: Pixel)
    requires
        bits <= 4,
    ensures
        r == post_pixel(p, bits),
{
    Pixel {
        r: posterize(p.r, bits),
        g: posterize(p.g, bits),
        b: posterize(p.b, bits),
        a: posterize(p.a, bits),
    }
}

/// Builds the weighted, deduplicated color population of the first `n`
/// pixels of a flat RGBA buffer, after posterizing every channel.
///
/// No color is dropped: the weights sum to exactly `n`, each entry counts
/// exactly the pixels that posterize to its color, the colors are distinct,
/// and every pixel's posterized color has an entry.
pub fn build_histogram(data: &Vec<u8>, n: usize, bits: u8) -> (r: Vec<HistEntry>)
    requires
        data.len() == 4 * n,
        n <= 0xFFFF_FFFF,
        bits <= 4,
    ensures
        forall|k: int|
            0 <= k < r.len() ==> r[k].weight == pcount(data@, n as int, #[trigger] r[k].color, bits)
                && r[k].weight >= 1,
        forall|k1: int, k2: int|
            0 <= k1 < k2 < r.len() ==> #[trigger] r[k1].color != #[trigger] r[k2].color,
        forall|i: int|
            0 <= i < n ==> covers(r@, post_pixel(#[trigger] pixel_at(data@, i), bits)),
        wsum(r@) == n,
        r.len() <= n,
        r@ == hist_of(data@, n as int, bits),
{
    let mut entries: Vec<HistEntry> = Vec::new();
    let mut p: usize = 0;
    while p < n
        invariant
            p <= n,
            n <= 0xFFFF_FFFF,
            bits <= 4,
            data.len() == 4 * n,
            forall|k: int|
                0 <= k < entries.len() ==> entries[k].weight == pcount(
                    data@,
                    p as int,
                    #[trigger] entries[k].color,
                    bits,
                ) && entries[k].weight >= 1,
            forall|k1: int, k2: int|
                0 <= k1 < k2 < entries.len() ==> #[trigger] entries[k1].color
                    != #[trigger] entries[k2].color,
            forall|i: int|
                0 <= i < p ==> covers(entries@, post_pixel(#[trigger] pixel_at(data@, i), bits)),
            wsum(entries@) == p,
            entries.len() <= p,
            entries@ == hist_of(data@, p as int, bits),
        decreases n - p,
    {
        let c = posterize_pixel(read_pixel(data, p), bits);
        let mut j: usize = 0;
        let mut found = false;
        while j < entries.len() && !found
            invariant
                j <= entries.len(),
                found ==> j < entries.len() && entries[j as int].color == c,
                !found ==> forall|k: int| 0 <= k < j ==> #[trigger] entries[k].color != c,
            decreases entries.len() - j + if found {
                0int
            } else {
                1int
            },
        {
            if entries[j].color == c {
                found = true;
            } else {
                j = j + 1;
            }
        }
        if found {
            let ghost pre = entries@;
            let mut e = entries[j];
            proof {
                lemma_pcount_bound(data@, p as int, e.color, bits);
                lemma_wsum_update(entries@, j as int, HistEntry { color: e.color, weight: (e.weight + 1) as u32 });
                lemma_find_color_unique(entries@, c, j as int);
            }
            e.weight = e.weight + 1;
            entries.set(j, e);
            proof {
                assert(forall|k: int|
                    0 <= k < pre.len() ==> #[trigger] pre[k].color == entries@[k].color);
                assert(entries@[j as int].color == c);
                assert(entries@ == hist_of(data@, p as int + 1, bits));
                assert forall|i: int| 0 <= i <= p implies covers(
                    entries@,
                    post_pixel(#[trigger] pixel_at(data@, i), bits),
                ) by {
                    if i < p {
                        lemma_covers_same_colors(
                            pre,
                            entries@,
                            post_pixel(pixel_at(data@, i), bits),
                        );
                    } else {
                        assert(entries@[j as int].color == post_pixel(pixel_at(data@, i), bits));
                    }
                }
            }
        } else {
            let ghost pre = entries@;
            proof {
                assert forall|i: int| 0 <= i < p implies post_pixel(
                    #[trigger] pixel_at(data@, i),
                    bits,
                ) != c by {
                    let pc = post_pixel(pixel_at(data@, i), bits);
                    if pc == c {
                        let k0 = choose|k: int| 0 <= k < pre.len() && pre[k].color == pc;
                        assert(pre[k0].color != c);
                    }
                }
                lemma_pcount_zero(data@, p as int, c, bits);
                lemma_wsum_push(entries@, HistEntry { color: c, weight: 1 });
                lemma_find_color_spec(entries@, c);
                assert(find_color(entries@, c) < 0);
            }
            entries.push(HistEntry { color: c, weight: 1 });
            proof {
                assert forall|i: int| 0 <= i <= p implies covers(
                    entries@,
                    post_pixel(#[trigger] pixel_at(data@, i), bits),
                ) by {
                    lemma_covers_push(
                        pre,
                        HistEntry { color: c, weight: 1 },
                        post_pixel(pixel_at(data@, i), bits),
                    );
                }
            }
        }
        p = p + 1;
    }
    entries
}

} // verus!
