use vstd::prelude::*;
use crate::pixel::{Pixel, pixel_at};
use crate::errors::{ConfigError, QuantizeError, RemapError};
use crate::hist::build_histogram;
use crate::palette::build_palette;
use crate::quality::score;
use crate::remap::{remap, nearest_index, nearest_map};

verus! {

/// A population of exactly two distinct colors: both occur, and every
/// pixel is one of them.
pub open spec fn two_color_pop(data: Seq<u8>, n: int, c1: Pixel, c2: Pixel) -> bool {
    &&& c1 != c2
    &&& exists|i: int| 0 <= i < n && #[trigger] pixel_at(data, i) == c1
    &&& exists|i: int| 0 <= i < n && #[trigger] pixel_at(data, i) == c2
    &&& forall|i: int|
        0 <= i < n ==> #[trigger] pixel_at(data, i) == c1 || pixel_at(data, i) == c2
}

/// The quantization configuration: speed/quality tradeoff, quality range,
/// palette-size limit and posterization. Setters validate their ranges and
/// never clamp silently.
pub struct ImageQuantizer {
    speed: u8,
    quality_min: u8,
    quality_target: u8,
    max_colors: u16,
    posterization: u8,
}

impl ImageQuantizer {
    pub closed spec fn speed_spec(&self) -> u8 {
        self.speed
    }

    pub closed spec fn quality_min_spec(&self) -> u8 {
        self.quality_min
    }

    pub closed spec fn quality_target_spec(&self) -> u8 {
        self.quality_target
    }

    pub closed spec fn max_colors_spec(&self) -> u16 {
        self.max_colors
    }

    pub closed spec fn posterization_spec(&self) -> u8 {
        self.posterization
    }

    /// The configuration invariant: every knob within its documented
    /// range and the quality bounds ordered.
    pub open spec fn wf(&self) -> bool {
        &&& 1 <= self.speed_spec() <= 10
        &&& self.quality_min_spec() <= self.quality_target_spec() <= 100
        &&& 1 <= self.max_colors_spec() <= 256
        &&& self.posterization_spec() <= 4
    }

    /// A fresh configuration with the default knobs.
    pub fn new() -> (q: Self)
        ensures
            q.wf(),
            q.speed_spec() == 4,
            q.quality_min_spec() == 0,
            q.quality_target_spec() == 100,
            q.max_colors_spec() == 256,
            q.posterization_spec() == 0,
    {
        ImageQuantizer { speed: 4, quality_min: 0, quality_target: 100, max_colors: 256, posterization: 0 }
    }

    /// Sets the speed/quality tradeoff; only 1 through 10 is accepted.
    pub fn set_speed(&mut self, speed: i32) -> (r: Result<(), ConfigError>)
        ensures
            (1 <= speed <= 10) <==> r is Ok,
            r is Ok ==> final(self).speed_spec() == speed,
            r is Err ==> *final(self) == *old(self) && r == Err::<(), ConfigError>(
                ConfigError::ValueOutOfRange,
            ),
            final(self).quality_min_spec() == old(self).quality_min_spec(),
            final(self).quality_target_spec() == old(self).quality_target_spec(),
            final(self).max_colors_spec() == old(self).max_colors_spec(),
            final(self).posterization_spec() == old(self).posterization_spec(),
            old(self).wf() ==> final(self).wf(),
    {
        if speed < 1 || speed > 10 {
            return Err(ConfigError::ValueOutOfRange);
        }
        self.speed = speed as u8;
        Ok(())
    }

    /// Sets the minimum and target quality; both must lie in 0..=100 and
    /// the minimum must not exceed the target.
    pub fn set_quality(&mut self, min: u8, target: u8) -> (r: Result<(), ConfigError>)
        ensures
            (target <= 100 && min <= target) <==> r is Ok,
            r is Ok ==> final(self).quality_min_spec() == min && final(self).quality_target_spec()
                == target,
            target > 100 ==> r == Err::<(), ConfigError>(ConfigError::ValueOutOfRange),
            target <= 100 && min > target ==> r == Err::<(), ConfigError>(
                ConfigError::MinAboveTarget,
            ),
            r is Err ==> *final(self) == *old(self),
            final(self).speed_spec() == old(self).speed_spec(),
            final(self).max_colors_spec() == old(self).max_colors_spec(),
            final(self).posterization_spec() == old(self).posterization_spec(),
            old(self).wf() ==> final(self).wf(),
    {
        if target > 100 {
            return Err(ConfigError::ValueOutOfRange);
        }
        if min > target {
            return Err(ConfigError::MinAboveTarget);
        }
        self.quality_min = min;
        self.quality_target = target;
        Ok(())
    }

    /// Sets the palette-size limit; only 1 through 256 is accepted.
    pub fn set_max_colors(&mut self, colors: u32) -> (r: Result<(), ConfigError>)
        ensures
            (1 <= colors <= 256) <==> r is Ok,
            r is Ok ==> final(self).max_colors_spec() == colors,
            r is Err ==> *final(self) == *old(self) && r == Err::<(), ConfigError>(
                ConfigError::ValueOutOfRange,
            ),
            final(self).speed_spec() == old(self).speed_spec(),
            final(self).quality_min_spec() == old(self).quality_min_spec(),
            final(self).quality_target_spec() == old(self).quality_target_spec(),
            final(self).posterization_spec() == old(self).posterization_spec(),
            old(self).wf() ==> final(self).wf(),
    {
        if colors < 1 || colors > 256 {
            return Err(ConfigError::ValueOutOfRange);
        }
        self.max_colors = colors as u16;
        Ok(())
    }

    /// Sets how many low bits of each channel the histogram discards;
    /// only 0 through 4 is accepted.
    pub fn set_posterization(&mut self, posterization: u8) -> (r: Result<(), ConfigError>)
        ensures
            (posterization <= 4) <==> r is Ok,
            r is Ok ==> final(self).posterization_spec() == posterization,
            r is Err ==> *final(self) == *old(self) && r == Err::<(), ConfigError>(
                ConfigError::ValueOutOfRange,
            ),
            final(self).speed_spec() == old(self).speed_spec(),
            final(self).quality_min_spec() == old(self).quality_min_spec(),
            final(self).quality_target_spec() == old(self).quality_target_spec(),
            final(self).max_colors_spec() == old(self).max_colors_spec(),
            old(self).wf() ==> final(self).wf(),
    {
        if posterization > 4 {
            return Err(ConfigError::ValueOutOfRange);
        }
        self.posterization = posterization;
        Ok(())
    }

    /// Quantizes a flat RGBA buffer of the given dimensions: builds the
    /// posterized histogram and a palette of at most the configured
    /// number of entries, and scores the palette against the population.
    ///
    /// Fails with a dimension mismatch when the buffer length is not
    /// width * height * 4, with an empty input when there are no pixels,
    /// and with an unattainable quality only when a positive minimum
    /// quality cannot be met.
    pub fn quantize_image(&mut self, rgba_data: &Vec<u8>, width: u32, height: u32) -> (r: Result<
        QuantizationResult,
        QuantizeError,
    >)
        requires
            old(self).wf(),
            (width as int) * (height as int) <= 0xFFFF_FFFF,
        ensures
            *final(self) == *old(self),
            (r == Err::<QuantizationResult, QuantizeError>(QuantizeError::DimensionMismatch))
                <==> rgba_data.len() != 4 * ((width as int) * (height as int)),
            (r == Err::<QuantizationResult, QuantizeError>(QuantizeError::EmptyInput)) <==> (
            rgba_data.len() == 4 * ((width as int) * (height as int)) && (width as int) * (
            height as int) == 0),
            r is Ok ==> {
                let res = r->Ok_0;
                &&& res.wf()
                &&& 1 <= res.palette_spec().len() <= old(self).max_colors_spec()
                &&& res.quality_spec() >= old(self).quality_min_spec()
                &&& res.quality_spec() == crate::quality::score_spec(
                    crate::hist::hist_of(
                        rgba_data@,
                        (width as int) * (height as int),
                        old(self).posterization_spec(),
                    ),
                    res.palette_spec(),
                )
                &&& res.dithering_spec() == 0
                &&& res.width_spec() == width
                &&& res.height_spec() == height
            },
            rgba_data.len() == 4 * ((width as int) * (height as int)) && (width as int) * (
            height as int) >= 1 && old(self).quality_min_spec() == 0 ==> r is Ok,
            rgba_data.len() == 4 * ((width as int) * (height as int)) && (width as int) * (
            height as int) >= 1 && old(self).posterization_spec() == 0 && (forall|i: int|
                0 <= i < (width as int) * (height as int) ==> #[trigger] pixel_at(rgba_data@, i)
                    == pixel_at(rgba_data@, 0)) ==> r is Ok && r->Ok_0.palette_spec() == seq![
                pixel_at(rgba_data@, 0),
            ],
            forall|c1: Pixel, c2: Pixel|
                rgba_data.len() == 4 * ((width as int) * (height as int))
                    && old(self).posterization_spec() == 0 && old(self).max_colors_spec() >= 2
                    && #[trigger] two_color_pop(
                    rgba_data@,
                    (width as int) * (height as int),
                    c1,
                    c2,
                ) ==> r is Ok && {
                    let pal = r->Ok_0.palette_spec();
                    let n1 = crate::hist::pcount(
                        rgba_data@,
                        (width as int) * (height as int),
                        c1,
                        0,
                    );
                    let n2 = crate::hist::pcount(
                        rgba_data@,
                        (width as int) * (height as int),
                        c2,
                        0,
                    );
                    &&& (pal == seq![c1, c2] || pal == seq![c2, c1])
                    &&& (n1 > n2 ==> pal == seq![c1, c2])
                    &&& (n2 > n1 ==> pal == seq![c2, c1])
                },
            r is Err ==> r == Err::<QuantizationResult, QuantizeError>(
                QuantizeError::DimensionMismatch,
            ) || r == Err::<QuantizationResult, QuantizeError>(QuantizeError::EmptyInput) || r
                == Err::<QuantizationResult, QuantizeError>(QuantizeError::QualityUnattainable),
    {
        let t: u64 = (width as u64) * (height as u64);
        if (rgba_data.len() as u64) != 4 * t {
            return Err(QuantizeError::DimensionMismatch);
        }
        if t == 0 {
            return Err(QuantizeError::EmptyInput);
        }
        let n: usize = t as usize;
        let hist = build_histogram(rgba_data, n, self.posterization);
        proof {
            crate::hist::lemma_wsum_nonneg(hist@);
            if hist@.len() == 0 {
                assert(crate::hist::wsum(hist@) == 0);
            }
            assert forall|k: int| 0 <= k < hist.len() implies #[trigger] hist@[k].weight >= 1 by {
                assert(hist@[k].weight == crate::hist::pcount(
                    rgba_data@,
                    n as int,
                    hist@[k].color,
                    old(self).posterization_spec(),
                ) && hist@[k].weight >= 1);
            }
            if old(self).posterization_spec() == 0 && (forall|i: int|
                0 <= i < n ==> #[trigger] pixel_at(rgba_data@, i) == pixel_at(rgba_data@, 0)) {
                let c0 = pixel_at(rgba_data@, 0);
                crate::hist::lemma_post_identity(c0);
                assert(crate::hist::covers(
                    hist@,
                    crate::hist::post_pixel(pixel_at(rgba_data@, 0), 0),
                ));
                assert(crate::hist::covers(hist@, c0));
                assert forall|k: int| 0 <= k < hist.len() implies #[trigger] hist@[k].color
                    == c0 by {
                    assert(hist@[k].weight == crate::hist::pcount(
                        rgba_data@,
                        n as int,
                        hist@[k].color,
                        0,
                    ) && hist@[k].weight >= 1);
                    crate::hist::lemma_pcount_pos(rgba_data@, n as int, hist@[k].color, 0);
                    let i0 = choose|i: int|
                        0 <= i < n && #[trigger] crate::hist::post_pixel(
                            pixel_at(rgba_data@, i),
                            0,
                        ) == hist@[k].color;
                    assert(pixel_at(rgba_data@, i0) == c0);
                    crate::hist::lemma_post_identity(pixel_at(rgba_data@, i0));
                }
                if hist.len() >= 2 {
                    assert(hist@[0].color == c0 && hist@[1].color == c0);
                    assert(false);
                }
                let k0 = choose|k: int| 0 <= k < hist@.len() && hist@[k].color == c0;
                assert(hist@.len() == 1 && hist@[0].color == c0);
            }
            if old(self).posterization_spec() == 0 {
                assert forall|c1: Pixel, c2: Pixel| #[trigger] two_color_pop(
                    rgba_data@,
                    n as int,
                    c1,
                    c2,
                ) implies hist@.len() == 2 && ((hist@[0].color == c1 && hist@[1].color == c2) || (
                hist@[0].color == c2 && hist@[1].color == c1)) by {
                    assert forall|k: int| 0 <= k < hist.len() implies #[trigger] hist@[k].color
                        == c1 || hist@[k].color == c2 by {
                        assert(hist@[k].weight == crate::hist::pcount(
                            rgba_data@,
                            n as int,
                            hist@[k].color,
                            0,
                        ) && hist@[k].weight >= 1);
                        crate::hist::lemma_pcount_pos(rgba_data@, n as int, hist@[k].color, 0);
                        let i0 = choose|i: int|
                            0 <= i < n && #[trigger] crate::hist::post_pixel(
                                pixel_at(rgba_data@, i),
                                0,
                            ) == hist@[k].color;
                        crate::hist::lemma_post_identity(pixel_at(rgba_data@, i0));
                    }
                    let i1 = choose|i: int| 0 <= i < n && #[trigger] pixel_at(rgba_data@, i) == c1;
                    let i2 = choose|i: int| 0 <= i < n && #[trigger] pixel_at(rgba_data@, i) == c2;
                    crate::hist::lemma_post_identity(c1);
                    crate::hist::lemma_post_identity(c2);
                    assert(crate::hist::covers(
                        hist@,
                        crate::hist::post_pixel(pixel_at(rgba_data@, i1), 0),
                    ));
                    assert(crate::hist::covers(hist@, c1));
                    assert(crate::hist::covers(
                        hist@,
                        crate::hist::post_pixel(pixel_at(rgba_data@, i2), 0),
                    ));
                    assert(crate::hist::covers(hist@, c2));
                    let k1 = choose|k: int| 0 <= k < hist@.len() && hist@[k].color == c1;
                    let k2 = choose|k: int| 0 <= k < hist@.len() && hist@[k].color == c2;
                    assert(k1 != k2);
                    assert(hist@.len() >= 2);
                    if hist@.len() >= 3 {
                        assert(hist@[0].color != hist@[1].color && hist@[0].color != hist@[2].color
                            && hist@[1].color != hist@[2].color);
                        assert(false);
                    }
                }
            }
        }
        let pal = match build_palette(&hist, self.max_colors, self.quality_min, self.quality_target)
        {
            Ok(p) => p,
            Err(e) => {
                return Err(e);
            },
        };
        let q = score(&hist, &pal);
        Ok(QuantizationResult {
            palette: pal,
            quality: q,
            dithering: 0,
            width,
            height,
        })
    }
}

/// The 4-byte block at pixel position `i` of an RGBA buffer equals
/// palette entry `k`.
pub open spec fn block_is(out: Seq<u8>, pal: Seq<Pixel>, i: int, k: int) -> bool {
    &&& out[4 * i] == pal[k].r
    &&& out[4 * i + 1] == pal[k].g
    &&& out[4 * i + 2] == pal[k].b
    &&& out[4 * i + 3] == pal[k].a
}

/// The 4-byte block at pixel position `i` of an RGBA buffer equals some
/// palette entry.
pub open spec fn block_from_palette(out: Seq<u8>, pal: Seq<Pixel>, i: int) -> bool {
    exists|k: int| 0 <= k < pal.len() && #[trigger] block_is(out, pal, i, k)
}

/// The outcome of one quantization run: the palette, its quality score,
/// and the dithering level used by later remap calls against it.
#[derive(Debug)]
pub struct QuantizationResult {
    palette: Vec<Pixel>,
    quality: u8,
    dithering: u8,
    width: u32,
    height: u32,
}

impl QuantizationResult {
    pub closed spec fn palette_spec(&self) -> Seq<Pixel> {
        self.palette@
    }

    pub closed spec fn quality_spec(&self) -> u8 {
        self.quality
    }

    pub closed spec fn dithering_spec(&self) -> u8 {
        self.dithering
    }

    pub closed spec fn width_spec(&self) -> u32 {
        self.width
    }

    pub closed spec fn height_spec(&self) -> u32 {
        self.height
    }

    /// The result invariant: a nonempty palette of at most 256 entries,
    /// a score within 0..=100 and a dithering level within 0..=100.
    pub open spec fn wf(&self) -> bool {
        &&& 1 <= self.palette_spec().len() <= 256
        &&& self.quality_spec() <= 100
        &&& self.dithering_spec() <= 100
    }

    /// A copy of the palette, entry by entry, in index order.
    pub fn get_palette(&self) -> (p: Vec<Pixel>)
        ensures
            p@ == self.palette_spec(),
    {
        let mut p: Vec<Pixel> = Vec::new();
        let mut i: usize = 0;
        while i < self.palette.len()
            invariant
                i <= self.palette.len(),
                p@ == self.palette@.take(i as int),
            decreases self.palette.len() - i,
        {
            p.push(self.palette[i]);
            proof {
                assert(self.palette@.take(i as int).push(self.palette@[i as int])
                    =~= self.palette@.take(i as int + 1));
            }
            i = i + 1;
        }
        proof {
            assert(self.palette@.take(self.palette.len() as int) =~= self.palette@);
        }
        p
    }

    /// How many entries the palette holds.
    pub fn get_palette_length(&self) -> (n: usize)
        ensures
            n == self.palette_spec().len(),
    {
        self.palette.len()
    }

    /// The quality score of this run, 0 through 100, 100 being perfect
    /// reproduction.
    pub fn get_quantization_quality(&self) -> (q: u8)
        ensures
            q == self.quality_spec(),
    {
        self.quality
    }

    /// Sets the dithering level for later remap calls, as a percentage:
    /// 0 disables dithering, 100 is full strength.
    pub fn set_dithering(&mut self, dithering_level: u8) -> (r: Result<(), ConfigError>)
        ensures
            (dithering_level <= 100) <==> r is Ok,
            r is Ok ==> final(self).dithering_spec() == dithering_level,
            r is Err ==> *final(self) == *old(self) && r == Err::<(), ConfigError>(
                ConfigError::ValueOutOfRange,
            ),
            final(self).palette_spec() == old(self).palette_spec(),
            final(self).quality_spec() == old(self).quality_spec(),
            final(self).width_spec() == old(self).width_spec(),
            final(self).height_spec() == old(self).height_spec(),
            old(self).wf() ==> final(self).wf(),
    {
        if dithering_level > 100 {
            return Err(ConfigError::ValueOutOfRange);
        }
        self.dithering = dithering_level;
        Ok(())
    }

    /// Remaps a flat RGBA buffer against this result's palette and
    /// returns the palette index of every pixel, in row-major order.
    ///
    /// Every index is below the palette length, and with dithering level
    /// 0 the buffer is exactly the deterministic nearest-entry map.
    pub fn get_palette_indices(&self, rgba_data: &Vec<u8>, width: u32, height: u32) -> (r: Result<
        Vec<u8>,
        RemapError,
    >)
        requires
            self.wf(),
        ensures
            (r is Err) <==> rgba_data.len() != 4 * ((width as int) * (height as int)),
            r is Err ==> r == Err::<Vec<u8>, RemapError>(RemapError::DimensionMismatch),
            r is Ok ==> {
                let out = r->Ok_0;
                &&& out.len() == (width as int) * (height as int)
                &&& forall|i: int| 0 <= i < out.len() ==> #[trigger] out[i] < self.palette_spec().len()
                &&& (self.dithering_spec() == 0 ==> out@ == nearest_map(
                    self.palette_spec(),
                    rgba_data@,
                    (width as int) * (height as int),
                ))
            },
    {
        remap(&self.palette, rgba_data, width, height, self.dithering)
    }

    /// Remaps a flat RGBA buffer against this result's palette and
    /// returns the remapped image as RGBA bytes: every pixel replaced by
    /// the palette entry it was assigned to.
    pub fn remap_image(&self, rgba_data: &Vec<u8>, width: u32, height: u32) -> (r: Result<
        Vec<u8>,
        RemapError,
    >)
        requires
            self.wf(),
        ensures
            (r is Err) <==> rgba_data.len() != 4 * ((width as int) * (height as int)),
            r is Err ==> r == Err::<Vec<u8>, RemapError>(RemapError::DimensionMismatch),
            r is Ok ==> {
                let out = r->Ok_0;
                let pal = self.palette_spec();
                &&& out.len() == 4 * ((width as int) * (height as int))
                &&& forall|i: int|
                    0 <= i < (width as int) * (height as int) ==> #[trigger] block_from_palette(
                        out@,
                        pal,
                        i,
                    )
                &&& (self.dithering_spec() == 0 ==> forall|i: int|
                    0 <= i < (width as int) * (height as int) ==> #[trigger] block_is(
                        out@,
                        pal,
                        i,
                        nearest_index(pal, pixel_at(rgba_data@, i)),
                    ))
            },
    {
        let indices = match remap(&self.palette, rgba_data, width, height, self.dithering) {
            Ok(v) => v,
            Err(e) => {
                return Err(e);
            },
        };
        let mut out: Vec<u8> = Vec::new();
        let mut i: usize = 0;
        while i < indices.len()
            invariant
                i <= indices.len(),
                out.len() == 4 * i,
                self.palette.len() >= 1,
                forall|k2: int|
                    0 <= k2 < indices.len() ==> #[trigger] indices[k2] < self.palette.len(),
                forall|j: int|
                    0 <= j < i ==> #[trigger] block_is(
                        out@,
                        self.palette@,
                        j,
                        indices[j] as int,
                    ),
            decreases indices.len() - i,
        {
            let ghost pre_out = out@;
            let k = indices[i] as usize;
            let c = self.palette[k];
            out.push(c.r);
            out.push(c.g);
            out.push(c.b);
            out.push(c.a);
            proof {
                assert(block_is(out@, self.palette@, i as int, indices[i as int] as int));
                assert forall|j: int| 0 <= j < i implies #[trigger] block_is(
                    out@,
                    self.palette@,
                    j,
                    indices[j] as int,
                ) by {
                    assert(block_is(pre_out, self.palette@, j, indices[j] as int));
                    assert(out@[4 * j] == pre_out[4 * j]);
                    assert(out@[4 * j + 1] == pre_out[4 * j + 1]);
                    assert(out@[4 * j + 2] == pre_out[4 * j + 2]);
                    assert(out@[4 * j + 3] == pre_out[4 * j + 3]);
                }
            }
            i = i + 1;
        }
        proof {
            let pal = self.palette_spec();
            let wh = (width as int) * (height as int);
            assert forall|i2: int| 0 <= i2 < wh implies #[trigger] block_from_palette(
                out@,
                pal,
                i2,
            ) by {
                assert(block_is(out@, pal, i2, indices[i2] as int));
            }
            if self.dithering_spec() == 0 {
                assert forall|i2: int| 0 <= i2 < wh implies #[trigger] block_is(
                    out@,
                    pal,
                    i2,
                    nearest_index(pal, pixel_at(rgba_data@, i2)),
                ) by {
                    assert(indices@ == nearest_map(pal, rgba_data@, wh));
                    assert(nearest_map(pal, rgba_data@, wh)[i2] == nearest_index(
                        pal,
                        pixel_at(rgba_data@, i2),
                    ) as u8);
                    assert(indices[i2] == nearest_index(pal, pixel_at(rgba_data@, i2)) as u8);
                    assert(block_is(out@, pal, i2, indices[i2] as int));
                    assert(0 <= nearest_index(pal, pixel_at(rgba_data@, i2)) < pal.len()) by {
                        crate::remap::lemma_nearest_is_min(
                            pal,
                            pixel_at(rgba_data@, i2),
                            pal.len() as int,
                        );
                    };
                }
            }
        }
        Ok(out)
    }
}

} // verus!
