use vstd::prelude::*;
use crate::pixel::{Pixel, pixel_at, read_pixel};
use crate::errors::RemapError;

verus! {

/// Squared Euclidean distance between two colors over all four channels.
pub open spec fn dist(p: Pixel, q: Pixel) -> int {
    (p.r - q.r) * (p.r - q.r) + (p.g - q.g) * (p.g - q.g) + (p.b - q.b) * (p.b - q.b) + (p.a
        - q.a) * (p.a - q.a)
}

/// A squared color distance lies between 0 and 4 * 255 * 255.
pub proof fn lemma_dist_bound(p: Pixel, q: Pixel)
    ensures
        0 <= dist(p, q) <= 260100,
{
    assert(0 <= (p.r - q.r) * (p.r - q.r) <= 65025) by (nonlinear_arith)
        requires
            -255 <= p.r - q.r <= 255,
    ;
    assert(0 <= (p.g - q.g) * (p.g - q.g) <= 65025) by (nonlinear_arith)
        requires
            -255 <= p.g - q.g <= 255,
    ;
    assert(0 <= (p.b - q.b) * (p.b - q.b) <= 65025) by (nonlinear_arith)
        requires
            -255 <= p.b - q.b <= 255,
    ;
    assert(0 <= (p.a - q.a) * (p.a - q.a) <= 65025) by (nonlinear_arith)
        requires
            -255 <= p.a - q.a <= 255,
    ;
}

/// The index of the entry nearest to `c` among the first `n` palette
/// entries, earliest entry winning ties.
pub open spec fn nearest_prefix(pal: Seq<Pixel>, c: Pixel, n: int) -> int
    decreases n,
{
    if n <= 1 {
        0
    } else {
        let b = nearest_prefix(pal, c, n - 1);
        if dist(pal[n - 1], c) < dist(pal[b], c) {
            n - 1
        } else {
            b
        }
    }
}

/// The palette index the remapper assigns to color `c`: the entry at the
/// least distance, the lowest such index on a tie.
pub open spec fn nearest_index(pal: Seq<Pixel>, c: Pixel) -> int {
    nearest_prefix(pal, c, pal.len() as int)
}

/// The nearest index is in range, minimizes the distance, and is the
/// lowest index to do so.
pub proof fn lemma_nearest_is_min(pal: Seq<Pixel>, c: Pixel, n: int)
    requires
        1 <= n <= pal.len(),
    ensures
        0 <= nearest_prefix(pal, c, n) < n,
        forall|j: int|
            0 <= j < n ==> dist(pal[nearest_prefix(pal, c, n)], c) <= dist(#[trigger] pal[j], c),
        forall|j: int|
            0 <= j < nearest_prefix(pal, c, n) ==> dist(#[trigger] pal[j], c) > dist(
                pal[nearest_prefix(pal, c, n)],
                c,
            ),
    decreases n,
{
    if n > 1 {
        lemma_nearest_is_min(pal, c, n - 1);
    }
}

/// The index buffer that dither-free remapping produces: position `i`
/// holds the nearest palette index of pixel `i`.
pub open spec fn nearest_map(pal: Seq<Pixel>, data: Seq<u8>, n: int) -> Seq<u8> {
    Seq::new(n as nat, |i: int| nearest_index(pal, pixel_at(data, i)) as u8)
}

/// Remapping without dithering is deterministic: any two index buffers
/// produced from the same palette and the same pixels are identical.
pub proof fn lemma_remap_deterministic(
    pal: Seq<Pixel>,
    data: Seq<u8>,
    n: int,
    r1: Seq<u8>,
    r2: Seq<u8>,
)
    requires
        r1 == nearest_map(pal, data, n),
        r2 == nearest_map(pal, data, n),
    ensures
        r1 == r2,
{
}

/// Against a one-entry palette every pixel maps to index zero.
pub proof fn lemma_single_entry_all_zero(pal: Seq<Pixel>, data: Seq<u8>, n: int)
    requires
        pal.len() == 1,
        n >= 0,
    ensures
        nearest_map(pal, data, n) == Seq::new(n as nat, |i: int| 0u8),
{
    assert(nearest_map(pal, data, n) =~= Seq::new(n as nat, |i: int| 0u8));
}

pub fn dist_exec(p: Pixel, q: Pixel) -> (d: u32)
    ensures
        d == dist(p, q),
{
    proof {
        lemma_dist_bound(p, q);
    }
    let dr: i32 = p.r as i32 - q.r as i32;
    let dg: i32 = p.g as i32 - q.g as i32;
    let db: i32 = p.b as i32 - q.b as i32;
    let da: i32 = p.a as i32 - q.a as i32;
    proof {
        assert(dr * dr == (p.r - q.r) * (p.r - q.r) && 0 <= dr * dr <= 65025) by (nonlinear_arith)
            requires
                dr == p.r - q.r,
                -255 <= dr <= 255,
        ;
        assert(dg * dg == (p.g - q.g) * (p.g - q.g) && 0 <= dg * dg <= 65025) by (nonlinear_arith)
            requires
                dg == p.g - q.g,
                -255 <= dg <= 255,
        ;
        assert(db * db == (p.b - q.b) * (p.b - q.b) && 0 <= db * db <= 65025) by (nonlinear_arith)
            requires
                db == p.b - q.b,
                -255 <= db <= 255,
        ;
        assert(da * da == (p.a - q.a) * (p.a - q.a) && 0 <= da * da <= 65025) by (nonlinear_arith)
            requires
                da == p.a - q.a,
                -255 <= da <= 255,
        ;
    }
    (dr * dr + dg * dg + db * db + da * da) as u32
}

/// Finds the palette entry nearest to `c`, the lowest index on a tie.
pub fn nearest(pal: &Vec<Pixel>, c: Pixel) -> (i: usize)
    requires
        pal.len() >= 1,
    ensures
        i == nearest_index(pal@, c),
        i < pal.len(),
{
    proof {
        lemma_nearest_is_min(pal@, c, pal.len() as int);
    }
    let mut best: usize = 0;
    let mut bd: u32 = dist_exec(pal[0], c);
    let mut j: usize = 1;
    while j < pal.len()
        invariant
            1 <= j <= pal.len(),
            best == nearest_prefix(pal@, c, j as int),
            0 <= best < j,
            bd == dist(pal@[best as int], c),
        decreases pal.len() - j,
    {
        let d = dist_exec(pal[j], c);
        if d < bd {
            best = j;
            bd = d;
        }
        j = j + 1;
    }
    best
}

fn clamp_channel(v: i32) -> (r: u8)
    ensures
        v < 0 ==> r == 0,
        v > 255 ==> r == 255,
        0 <= v <= 255 ==> r == v,
{
    if v < 0 {
        0
    } else if v > 255 {
        255
    } else {
        v as u8
    }
}

/// Adds a diffusion share to one working-buffer cell, keeping the cell
/// within its bounded range.
fn add_err(buf: &mut Vec<i32>, idx: usize, delta: i32)
    requires
        idx < old(buf).len(),
        -256 <= delta <= 256,
        forall|k: int| 0 <= k < old(buf).len() ==> -100000 <= #[trigger] old(buf)[k] <= 100000,
    ensures
        final(buf).len() == old(buf).len(),
        forall|k: int| 0 <= k < final(buf).len() ==> -100000 <= #[trigger] final(buf)[k] <= 100000,
{
    let v = buf[idx] + delta;
    let w = if v > 100000 {
        100000
    } else if v < -100000 {
        -100000
    } else {
        v
    };
    buf.set(idx, w);
}

/// The share of a channel error that one neighbor receives: the error
/// scaled by the dithering level (percent), times `num` sixteenths.
fn portion(err: i32, level: u8, num: u32) -> (d: i32)
    requires
        -255 <= err <= 255,
        level <= 100,
        num <= 7,
    ensures
        -256 <= d <= 256,
{
    let mag: u32 = if err >= 0 {
        err as u32
    } else {
        (-err) as u32
    };
    assert(mag <= 255);
    proof {
        assert(mag * (level as u32) <= 25500) by (nonlinear_arith)
            requires
                mag <= 255,
                level <= 100,
        ;
    }
    let scaled = mag * (level as u32) / 100;
    proof {
        vstd::arithmetic::div_mod::lemma_div_is_ordered((mag * (level as u32)) as int, 25500, 100);
    }
    assert(scaled <= 255);
    proof {
        assert(scaled * num <= 1785) by (nonlinear_arith)
            requires
                scaled <= 255,
                num <= 7,
        ;
    }
    let p = scaled * num / 16;
    proof {
        vstd::arithmetic::div_mod::lemma_div_is_ordered((scaled * num) as int, 1785, 16);
    }
    assert(p <= 111);
    if err >= 0 {
        p as i32
    } else {
        -(p as i32)
    }
}

/// Maps every pixel of a flat RGBA buffer to the index of its nearest
/// palette entry.
///
/// With dithering level 0 the result is exactly `nearest_map`: a pure,
/// deterministic per-pixel assignment. With a positive level the
/// quantization error of each pixel is diffused to the unvisited
/// neighbors (right 7/16, below-left 3/16, below 5/16, below-right 1/16),
/// scaled by level/100, before those neighbors are assigned. The palette
/// is never mutated. Every produced index is below the palette length and
/// the buffer holds exactly width * height entries.
pub fn remap(
    palette: &Vec<Pixel>,
    data: &Vec<u8>,
    width: u32,
    height: u32,
    dithering: u8,
) -> (r: Result<Vec<u8>, RemapError>)
    requires
        palette.len() <= 256,
        dithering <= 100,
    ensures
        (r == Err::<Vec<u8>, RemapError>(RemapError::DimensionMismatch)) <==> data.len() != 4 * (
        (width as int) * (height as int)),
        (r == Err::<Vec<u8>, RemapError>(RemapError::EmptyPalette)) <==> (data.len() == 4 * ((
        width as int) * (height as int)) && palette.len() == 0),
        r is Err ==> r == Err::<Vec<u8>, RemapError>(RemapError::DimensionMismatch) || r
            == Err::<Vec<u8>, RemapError>(RemapError::EmptyPalette),
        r is Ok ==> {
            let out = r->Ok_0;
            &&& out.len() == (width as int) * (height as int)
            &&& forall|i: int| 0 <= i < out.len() ==> #[trigger] out[i] < palette.len()
            &&& (dithering == 0 ==> out@ == nearest_map(
                palette@,
                data@,
                (width as int) * (height as int),
            ))
        },
{
    proof {
        assert(0 <= (width as int) * (height as int) < 0x10000000000000000) by (nonlinear_arith)
            requires
                0 <= width < 0x100000000,
                0 <= height < 0x100000000,
        ;
    }
    let total: u128 = (width as u128) * (height as u128);
    if (data.len() as u128) != 4 * total {
        return Err(RemapError::DimensionMismatch);
    }
    if palette.len() == 0 {
        return Err(RemapError::EmptyPalette);
    }
    proof {
        assert(total <= usize::MAX as u128);
    }
    let n: usize = (total as usize);
    proof {
        assert(n as int == (width as int) * (height as int));
    }
    if dithering == 0 {
        let mut out: Vec<u8> = Vec::new();
        let mut i: usize = 0;
        while i < n
            invariant
                i <= n,
                data.len() == 4 * n,
                palette.len() >= 1,
                palette.len() <= 256,
                out.len() == i,
                forall|k: int|
                    0 <= k < i ==> #[trigger] out[k] == nearest_index(
                        palette@,
                        pixel_at(data@, k),
                    ) as u8 && out[k] < palette.len(),
            decreases n - i,
        {
            let p = read_pixel(data, i);
            let idx = nearest(palette, p);
            out.push(idx as u8);
            i = i + 1;
        }
        proof {
            assert(out@ =~= nearest_map(palette@, data@, n as int));
        }
        Ok(out)
    } else {
        let w = width as usize;
        let mut buf: Vec<i32> = Vec::new();
        let mut k: usize = 0;
        while k < 4 * n
            invariant
                k <= 4 * n,
                data.len() == 4 * n,
                buf.len() == k,
                forall|t: int| 0 <= t < k ==> -100000 <= #[trigger] buf[t] <= 100000,
            decreases 4 * n - k,
        {
            buf.push(data[k] as i32);
            k = k + 1;
        }
        let mut out: Vec<u8> = Vec::new();
        let mut i: usize = 0;
        while i < n
            invariant
                i <= n,
                n <= usize::MAX,
                w == width as int,
                n == (width as int) * (height as int),
                palette.len() >= 1,
                palette.len() <= 256,
                dithering <= 100,
                buf.len() == 4 * n,
                forall|t: int| 0 <= t < buf.len() ==> -100000 <= #[trigger] buf[t] <= 100000,
                out.len() == i,
                forall|k2: int| 0 <= k2 < i ==> #[trigger] out[k2] < palette.len(),
            decreases n - i,
        {
            let x = if w > 0 {
                i % w
            } else {
                0
            };
            let src = Pixel {
                r: clamp_channel(buf[4 * i]),
                g: clamp_channel(buf[4 * i + 1]),
                b: clamp_channel(buf[4 * i + 2]),
                a: clamp_channel(buf[4 * i + 3]),
            };
            let idx = nearest(palette, src);
            out.push(idx as u8);
            let chosen = palette[idx];
            let er: i32 = src.r as i32 - chosen.r as i32;
            let eg: i32 = src.g as i32 - chosen.g as i32;
            let eb: i32 = src.b as i32 - chosen.b as i32;
            let ea: i32 = src.a as i32 - chosen.a as i32;
            // right neighbor, 7/16
            if w > 0 && x + 1 < w && i + 1 < n {
                let t = i + 1;
                add_err(&mut buf, 4 * t, portion(er, dithering, 7));
                add_err(&mut buf, 4 * t + 1, portion(eg, dithering, 7));
                add_err(&mut buf, 4 * t + 2, portion(eb, dithering, 7));
                add_err(&mut buf, 4 * t + 3, portion(ea, dithering, 7));
            }
            // below-left neighbor, 3/16
            if w > 0 && x >= 1 && n - i > w - 1 {
                let t = i + w - 1;
                add_err(&mut buf, 4 * t, portion(er, dithering, 3));
                add_err(&mut buf, 4 * t + 1, portion(eg, dithering, 3));
                add_err(&mut buf, 4 * t + 2, portion(eb, dithering, 3));
                add_err(&mut buf, 4 * t + 3, portion(ea, dithering, 3));
            }
            // below neighbor, 5/16
            if n - i > w {
                let t = i + w;
                add_err(&mut buf, 4 * t, portion(er, dithering, 5));
                add_err(&mut buf, 4 * t + 1, portion(eg, dithering, 5));
                add_err(&mut buf, 4 * t + 2, portion(eb, dithering, 5));
                add_err(&mut buf, 4 * t + 3, portion(ea, dithering, 5));
            }
            // below-right neighbor, 1/16
            if w > 0 && x + 1 < w && n - i - 1 > w {
                let t = i + w + 1;
                add_err(&mut buf, 4 * t, portion(er, dithering, 1));
                add_err(&mut buf, 4 * t + 1, portion(eg, dithering, 1));
                add_err(&mut buf, 4 * t + 2, portion(eb, dithering, 1));
                add_err(&mut buf, 4 * t + 3, portion(ea, dithering, 1));
            }
            i = i + 1;
        }
        Ok(out)
    }
}

} // verus!
