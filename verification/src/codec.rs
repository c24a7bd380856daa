use vstd::prelude::*;
use crate::pixel::Pixel;
use crate::errors::{DecodeError, EncodeError};
use crate::crc::{crc32, crc32_spec};
use crate::zlib::{zlib_compress, zlib_decompress, deflate_of};

verus! {

/// A 32-bit value as four big-endian bytes.
pub open spec fn be32_spec(v: u32) -> Seq<u8> {
    seq![
        ((v >> 24) & 0xFF) as u8,
        ((v >> 16) & 0xFF) as u8,
        ((v >> 8) & 0xFF) as u8,
        (v & 0xFF) as u8,
    ]
}

/// One PNG chunk: big-endian length, type, payload, and the CRC-32 of
/// type and payload.
pub open spec fn chunk_spec(ctype: Seq<u8>, data: Seq<u8>) -> Seq<u8> {
    be32_spec(data.len() as u32) + ctype + data + be32_spec(crc32_spec(ctype + data))
}

/// The eight-byte PNG signature.
pub open spec fn sig_spec() -> Seq<u8> {
    seq![137u8, 80u8, 78u8, 71u8, 13u8, 10u8, 26u8, 10u8]
}

pub open spec fn ihdr_type() -> Seq<u8> {
    seq![73u8, 72u8, 68u8, 82u8]
}

pub open spec fn plte_type() -> Seq<u8> {
    seq![80u8, 76u8, 84u8, 69u8]
}

pub open spec fn trns_type() -> Seq<u8> {
    seq![116u8, 82u8, 78u8, 83u8]
}

pub open spec fn idat_type() -> Seq<u8> {
    seq![73u8, 68u8, 65u8, 84u8]
}

pub open spec fn iend_type() -> Seq<u8> {
    seq![73u8, 69u8, 78u8, 68u8]
}

/// The 13-byte IHDR payload: dimensions, bit depth 8, the given color
/// type, deflate compression, standard filtering, no interlace.
pub open spec fn ihdr_data_spec(w: u32, h: u32, color: u8) -> Seq<u8> {
    be32_spec(w) + be32_spec(h) + seq![8u8, color, 0u8, 0u8, 0u8]
}

/// The PLTE payload: three bytes per palette entry, in order.
pub open spec fn plte_spec(pal: Seq<Pixel>) -> Seq<u8>
    decreases pal.len(),
{
    if pal.len() == 0 {
        Seq::empty()
    } else {
        plte_spec(pal.drop_last()) + seq![pal.last().r, pal.last().g, pal.last().b]
    }
}

/// The first non-opaque entry among the first `n`, or `n` when every one
/// is fully opaque.
pub open spec fn fno_upto(pal: Seq<Pixel>, n: int) -> int
    decreases n,
{
    if n <= 0 {
        0
    } else {
        let f = fno_upto(pal, n - 1);
        if f < n - 1 {
            f
        } else if pal[n - 1].a != 255 {
            n - 1
        } else {
            n
        }
    }
}

/// The first fully opaque entry at or after `f` among the first `n`, or
/// `n` when there is none.
pub open spec fn fop_from(pal: Seq<Pixel>, f: int, n: int) -> int
    decreases n - f,
{
    if n <= f {
        f
    } else {
        let e = fop_from(pal, f, n - 1);
        if e < n - 1 {
            e
        } else if pal[n - 1].a == 255 {
            n - 1
        } else {
            n
        }
    }
}

/// The length of the transparency table for a palette: every leading
/// entry up to and excluding the first fully opaque entry at or after
/// the first non-opaque one; zero when every entry is opaque.
pub open spec fn trns_end(pal: Seq<Pixel>) -> int {
    let f = fno_upto(pal, pal.len() as int);
    if f == pal.len() {
        0
    } else {
        fop_from(pal, f, pal.len() as int)
    }
}

/// The transparency table: the alpha of each leading entry, in order.
pub open spec fn trns_table(pal: Seq<Pixel>) -> Seq<u8> {
    Seq::new(trns_end(pal) as nat, |i: int| pal[i].a)
}

/// Whether the palette's transparency is representable: every entry at or
/// beyond the table is fully opaque, since the format treats those as
/// opaque.
pub open spec fn trns_ok(pal: Seq<Pixel>) -> bool {
    forall|j: int| trns_end(pal) <= j < pal.len() ==> (#[trigger] pal[j]).a == 255
}

pub proof fn lemma_fno_range(pal: Seq<Pixel>, n: int)
    requires
        n >= 0,
    ensures
        0 <= fno_upto(pal, n) <= n,
    decreases n,
{
    if n > 0 {
        lemma_fno_range(pal, n - 1);
    }
}

pub proof fn lemma_fop_range(pal: Seq<Pixel>, f: int, n: int)
    requires
        0 <= f <= n,
    ensures
        f <= fop_from(pal, f, n) <= n,
    decreases n,
{
    if n > f {
        lemma_fop_range(pal, f, n - 1);
    }
}

/// A found first-non-opaque index stays the answer for longer prefixes.
proof fn lemma_fno_stable(pal: Seq<Pixel>, m: int, n: int)
    requires
        0 <= m <= n,
        fno_upto(pal, m) < m,
    ensures
        fno_upto(pal, n) == fno_upto(pal, m),
    decreases n - m,
{
    if n > m {
        lemma_fno_stable(pal, m, n - 1);
        lemma_fno_range(pal, n - 1);
    }
}

/// A found first-opaque index stays the answer for longer prefixes.
proof fn lemma_fop_stable(pal: Seq<Pixel>, f: int, m: int, n: int)
    requires
        0 <= f <= m <= n,
        fop_from(pal, f, m) < m,
    ensures
        fop_from(pal, f, n) == fop_from(pal, f, m),
    decreases n - m,
{
    if n > m {
        lemma_fop_stable(pal, f, m, n - 1);
        lemma_fop_range(pal, f, n - 1);
    }
}

/// In a palette whose entries are all fully opaque there is no
/// non-opaque entry to find.
proof fn lemma_fno_all_opaque(pal: Seq<Pixel>, n: int)
    requires
        0 <= n <= pal.len(),
        forall|i: int| 0 <= i < pal.len() ==> (#[trigger] pal[i]).a == 255,
    ensures
        fno_upto(pal, n) == n,
    decreases n,
{
    if n > 0 {
        lemma_fno_all_opaque(pal, n - 1);
    }
}

/// An all-opaque palette has an empty transparency table, so the
/// transparency chunk is omitted from the encoded stream entirely.
pub proof fn lemma_all_opaque_omits_trns(idx: Seq<u8>, pal: Seq<Pixel>, w: u32, h: u32)
    requires
        forall|i: int| 0 <= i < pal.len() ==> (#[trigger] pal[i]).a == 255,
    ensures
        trns_table(pal) == Seq::<u8>::empty(),
        png_bytes_spec(idx, pal, w, h) == sig_spec() + chunk_spec(
            ihdr_type(),
            ihdr_data_spec(w, h, 3),
        ) + chunk_spec(plte_type(), plte_spec(pal)) + chunk_spec(
            idat_type(),
            deflate_of(rows_spec(idx, w as int, h as int)),
        ) + chunk_spec(iend_type(), Seq::empty()),
{
    lemma_fno_all_opaque(pal, pal.len() as int);
    assert(trns_end(pal) == 0);
    assert(trns_table(pal) =~= Seq::<u8>::empty());
}

/// A palette whose first entry alone is not fully opaque has a
/// transparency table of exactly one byte: that entry's alpha.
pub proof fn lemma_leading_translucent_trns(pal: Seq<Pixel>)
    requires
        pal.len() >= 1,
        pal[0].a != 255,
        forall|i: int| 1 <= i < pal.len() ==> (#[trigger] pal[i]).a == 255,
    ensures
        trns_table(pal) == seq![pal[0].a],
        trns_ok(pal),
{
    assert(fno_upto(pal, 1) == 0) by {
        reveal_with_fuel(fno_upto, 2);
    };
    lemma_fno_stable(pal, 1, pal.len() as int);
    assert(fop_from(pal, 0, 1) == 1) by {
        reveal_with_fuel(fop_from, 2);
    };
    if pal.len() > 1 {
        assert(fop_from(pal, 0, 2) == 1) by {
            reveal_with_fuel(fop_from, 3);
        };
        lemma_fop_stable(pal, 0, 2, pal.len() as int);
    }
    assert(trns_end(pal) == 1);
    assert(trns_table(pal) =~= seq![pal[0].a]);
}

/// The raw byte stream that is compressed into IDAT: each row prefixed
/// with filter byte 0, followed by its indices.
pub open spec fn rows_spec(idx: Seq<u8>, w: int, h: int) -> Seq<u8>
    decreases h,
{
    if h <= 0 {
        Seq::empty()
    } else {
        rows_spec(idx, w, h - 1) + seq![0u8] + idx.subrange((h - 1) * w, h * w)
    }
}

/// The complete byte stream of an indexed PNG: signature, IHDR, PLTE,
/// the transparency chunk when the table is nonempty, one IDAT holding
/// the compressed filter-prefixed rows, and IEND.
pub open spec fn png_bytes_spec(idx: Seq<u8>, pal: Seq<Pixel>, w: u32, h: u32) -> Seq<u8> {
    sig_spec() + chunk_spec(ihdr_type(), ihdr_data_spec(w, h, 3)) + chunk_spec(
        plte_type(),
        plte_spec(pal),
    ) + (if trns_table(pal).len() > 0 {
        chunk_spec(trns_type(), trns_table(pal))
    } else {
        Seq::empty()
    }) + chunk_spec(idat_type(), deflate_of(rows_spec(idx, w as int, h as int))) + chunk_spec(
        iend_type(),
        Seq::empty(),
    )
}

fn push_be32(out: &mut Vec<u8>, v: u32)
    ensures
        final(out)@ == old(out)@ + be32_spec(v),
{
    out.push(((v >> 24) & 0xFF) as u8);
    out.push(((v >> 16) & 0xFF) as u8);
    out.push(((v >> 8) & 0xFF) as u8);
    out.push((v & 0xFF) as u8);
    proof {
        assert(out@ =~= old(out)@ + be32_spec(v));
    }
}

fn append_bytes(out: &mut Vec<u8>, data: &Vec<u8>)
    ensures
        final(out)@ == old(out)@ + data@,
{
    let mut i: usize = 0;
    while i < data.len()
        invariant
            i <= data.len(),
            out@ == old(out)@ + data@.take(i as int),
        decreases data.len() - i,
    {
        out.push(data[i]);
        proof {
            assert((old(out)@ + data@.take(i as int)).push(data@[i as int]) =~= old(out)@
                + data@.take(i as int + 1));
        }
        i = i + 1;
    }
    proof {
        assert(old(out)@ + data@.take(data.len() as int) =~= old(out)@ + data@);
    }
}

/// Appends one chunk: length, type, payload, and the CRC of type and
/// payload.
fn push_chunk(out: &mut Vec<u8>, ctype: [u8; 4], data: &Vec<u8>)
    requires
        data.len() <= 0xFFFF_FFFF,
    ensures
        final(out)@ == old(out)@ + chunk_spec(ctype@, data@),
{
    let mut td: Vec<u8> = Vec::new();
    td.push(ctype[0]);
    td.push(ctype[1]);
    td.push(ctype[2]);
    td.push(ctype[3]);
    proof {
        assert(td@ =~= ctype@);
    }
    append_bytes(&mut td, data);
    proof {
        assert(td@ == ctype@ + data@);
    }
    let c = crc32(&td);
    push_be32(out, data.len() as u32);
    push_type_bytes(out, ctype);
    append_bytes(out, data);
    push_be32(out, c);
    proof {
        assert(out@ =~= old(out)@ + chunk_spec(ctype@, data@));
    }
}

fn push_type_bytes(out: &mut Vec<u8>, ctype: [u8; 4])
    ensures
        final(out)@ == old(out)@ + ctype@,
{
    out.push(ctype[0]);
    out.push(ctype[1]);
    out.push(ctype[2]);
    out.push(ctype[3]);
    proof {
        assert(out@ =~= old(out)@ + ctype@);
    }
}

/// Builds the transparency table of a palette, or reports that the
/// palette's transparency cannot be represented.
fn build_trns(pal: &Vec<Pixel>) -> (r: Option<Vec<u8>>)
    ensures
        match r {
            Some(t) => t@ == trns_table(pal@) && trns_ok(pal@) && t.len() <= pal.len(),
            None => !trns_ok(pal@),
        },
{
    let n = pal.len();
    let mut f: usize = 0;
    while f < n && pal[f].a == 255
        invariant
            f <= n,
            n == pal.len(),
            fno_upto(pal@, f as int) == f,
            forall|j: int| 0 <= j < f ==> (#[trigger] pal@[j]).a == 255,
        decreases n - f,
    {
        f = f + 1;
    }
    if f == n {
        // every entry is opaque: empty table, chunk omitted
        proof {
            assert(trns_end(pal@) == 0);
            assert(trns_table(pal@) =~= Seq::<u8>::empty());
        }
        return Some(Vec::new());
    }
    proof {
        assert(fno_upto(pal@, f as int + 1) == f);
        lemma_fno_stable(pal@, f as int + 1, pal@.len() as int);
    }
    let mut e: usize = f;
    while e < n && pal[e].a != 255
        invariant
            f <= e <= n,
            n == pal.len(),
            f < n,
            fno_upto(pal@, pal@.len() as int) == f,
            fop_from(pal@, f as int, e as int) == e,
        decreases n - e,
    {
        e = e + 1;
    }
    proof {
        if e < n {
            assert(fop_from(pal@, f as int, e as int + 1) == e);
            lemma_fop_stable(pal@, f as int, e as int + 1, pal@.len() as int);
        }
        assert(trns_end(pal@) == e);
        lemma_fno_range(pal@, pal@.len() as int);
        lemma_fop_range(pal@, f as int, pal@.len() as int);
    }
    let mut k: usize = e;
    while k < n
        invariant
            e <= k <= n,
            n == pal.len(),
            trns_end(pal@) == e,
            forall|t: int| e <= t < k ==> (#[trigger] pal@[t]).a == 255,
        decreases n - k,
    {
        if pal[k].a != 255 {
            proof {
                assert(!trns_ok(pal@));
            }
            return None;
        }
        k = k + 1;
    }
    proof {
        assert(trns_ok(pal@));
    }
    let mut table: Vec<u8> = Vec::new();
    let mut t: usize = 0;
    while t < e
        invariant
            t <= e <= n,
            n == pal.len(),
            trns_end(pal@) == e,
            trns_ok(pal@),
            table.len() == t,
            forall|j: int| 0 <= j < t ==> #[trigger] table@[j] == pal@[j].a,
        decreases e - t,
    {
        table.push(pal[t].a);
        t = t + 1;
    }
    proof {
        assert(table@ =~= trns_table(pal@));
    }
    Some(table)
}

/// Encodes a palette and an index buffer as a complete indexed PNG with
/// 8-bit depth: IHDR, PLTE, the transparency table when any entry is not
/// fully opaque, the compressed filter-0 rows as IDAT, and IEND.
///
/// The produced bytes are exactly `png_bytes_spec` of the inputs.
#[verifier::rlimit(60)]
pub fn encode_palette_to_png(
    palette_indices: &Vec<u8>,
    palette: &Vec<Pixel>,
    width: u32,
    height: u32,
) -> (r: Result<Vec<u8>, EncodeError>)
    ensures
        (palette_indices.len() != (width as int) * (height as int) || width == 0 || height == 0)
            ==> r == Err::<Vec<u8>, EncodeError>(EncodeError::DimensionMismatch),
        (palette_indices.len() == (width as int) * (height as int) && width >= 1 && height >= 1
            && palette.len() > 256) ==> r == Err::<Vec<u8>, EncodeError>(
            EncodeError::PaletteTooLarge,
        ),
        (palette_indices.len() == (width as int) * (height as int) && width >= 1 && height >= 1
            && palette.len() <= 256 && (exists|i: int|
            0 <= i < palette_indices.len() && #[trigger] palette_indices[i]
                >= palette.len())) ==> r == Err::<Vec<u8>, EncodeError>(
            EncodeError::IndexOutOfRange,
        ),
        (palette_indices.len() == (width as int) * (height as int) && width >= 1 && height >= 1
            && palette.len() <= 256 && (forall|i: int|
            0 <= i < palette_indices.len() ==> #[trigger] palette_indices[i] < palette.len())
            && !trns_ok(palette@)) ==> r == Err::<Vec<u8>, EncodeError>(
            EncodeError::UnrepresentableTransparency,
        ),
        (palette_indices.len() == (width as int) * (height as int) && width >= 1 && height >= 1
            && palette.len() <= 256 && (forall|i: int|
            0 <= i < palette_indices.len() ==> #[trigger] palette_indices[i] < palette.len())
            && trns_ok(palette@) && deflate_of(
            rows_spec(palette_indices@, width as int, height as int),
        ).len() > 0xFFFF_FFFF) ==> r == Err::<Vec<u8>, EncodeError>(EncodeError::TooLarge),
        r is Ok <==> (palette_indices.len() == (width as int) * (height as int) && width >= 1
            && height >= 1 && palette.len() <= 256 && (forall|i: int|
            0 <= i < palette_indices.len() ==> #[trigger] palette_indices[i] < palette.len())
            && trns_ok(palette@) && deflate_of(
            rows_spec(palette_indices@, width as int, height as int),
        ).len() <= 0xFFFF_FFFF),
        r is Ok ==> r->Ok_0@ == png_bytes_spec(palette_indices@, palette@, width, height),
{
    if width == 0 || height == 0 {
        return Err(EncodeError::DimensionMismatch);
    }
    proof {
        assert(0 <= (width as int) * (height as int) < 0x10000000000000000) by (nonlinear_arith)
            requires
                0 <= width < 0x100000000,
                0 <= height < 0x100000000,
        ;
    }
    let t: u64 = (width as u64) * (height as u64);
    if (palette_indices.len() as u64) != t {
        return Err(EncodeError::DimensionMismatch);
    }
    if palette.len() > 256 {
        return Err(EncodeError::PaletteTooLarge);
    }
    let mut i: usize = 0;
    while i < palette_indices.len()
        invariant
            i <= palette_indices.len(),
            forall|k: int|
                0 <= k < i ==> #[trigger] palette_indices[k] < palette.len(),
            palette.len() <= 256,
            palette_indices.len() == (width as int) * (height as int),
            width >= 1,
            height >= 1,
        decreases palette_indices.len() - i,
    {
        if (palette_indices[i] as usize) >= palette.len() {
            return Err(EncodeError::IndexOutOfRange);
        }
        i = i + 1;
    }
    let trns = match build_trns(palette) {
        Some(t2) => t2,
        None => {
            return Err(EncodeError::UnrepresentableTransparency);
        },
    };
    // PLTE payload
    let mut plte: Vec<u8> = Vec::new();
    let mut pi: usize = 0;
    proof {
        assert(plte_spec(palette@.take(0)) =~= Seq::<u8>::empty());
    }
    while pi < palette.len()
        invariant
            pi <= palette.len(),
            palette.len() <= 256,
            plte.len() == 3 * pi,
            plte@ == plte_spec(palette@.take(pi as int)),
        decreases palette.len() - pi,
    {
        let c = palette[pi];
        plte.push(c.r);
        plte.push(c.g);
        plte.push(c.b);
        proof {
            assert(palette@.take(pi as int + 1).drop_last() =~= palette@.take(pi as int));
            assert(palette@.take(pi as int + 1).last() == palette@[pi as int]);
            assert(plte@ =~= plte_spec(palette@.take(pi as int)) + seq![c.r, c.g, c.b]);
        }
        pi = pi + 1;
    }
    proof {
        assert(palette@.take(palette.len() as int) =~= palette@);
    }
    // filter-0 rows
    let w = width as usize;
    let h = height as usize;
    let n: usize = palette_indices.len();
    let mut raw: Vec<u8> = Vec::new();
    let mut pos: usize = 0;
    let mut y: usize = 0;
    while y < h
        invariant
            y <= h,
            w == width as int,
            h == height as int,
            n == palette_indices.len(),
            n == w * h,
            pos == y * w,
            raw@ == rows_spec(palette_indices@, w as int, y as int),
        decreases h - y,
    {
        let ghost row_start = raw@;
        raw.push(0u8);
        let mut x: usize = 0;
        proof {
            assert(y * w + 0 == pos);
            assert(y * w <= h * w) by (nonlinear_arith)
                requires
                    0 <= y <= h,
                    w >= 0,
            ;
            assert(w * h == h * w) by (nonlinear_arith);
            assert(palette_indices@.subrange(pos as int, pos as int) =~= Seq::<u8>::empty());
            assert(raw@ =~= row_start + seq![0u8] + palette_indices@.subrange(
                pos as int,
                pos as int,
            ));
        }
        let ghost yw = pos as int;
        while x < w
            invariant
                x <= w,
                y < h,
                n == palette_indices.len(),
                n == w * h,
                yw == y * w,
                pos == yw + x,
                raw@ == row_start + seq![0u8] + palette_indices@.subrange(yw, pos as int),
            decreases w - x,
        {
            proof {
                assert(y * w + x < h * w) by (nonlinear_arith)
                    requires
                        0 <= y < h,
                        0 <= x < w,
                ;
                assert(w * h == h * w) by (nonlinear_arith);
            }
            raw.push(palette_indices[pos]);
            proof {
                assert(palette_indices@.subrange(yw, pos as int).push(
                    palette_indices@[pos as int],
                ) =~= palette_indices@.subrange(yw, pos as int + 1));
            }
            pos = pos + 1;
            x = x + 1;
        }
        proof {
            assert((y + 1) * w == y * w + w) by (nonlinear_arith);
            assert(raw@ =~= rows_spec(palette_indices@, w as int, y as int + 1));
        }
        y = y + 1;
    }
    let compressed = zlib_compress(&raw);
    if (compressed.len() as u64) > 0xFFFF_FFFFu64 {
        return Err(EncodeError::TooLarge);
    }
    // IHDR payload
    let mut ihdr: Vec<u8> = Vec::new();
    push_be32(&mut ihdr, width);
    push_be32(&mut ihdr, height);
    ihdr.push(8u8);
    ihdr.push(3u8);
    ihdr.push(0u8);
    ihdr.push(0u8);
    ihdr.push(0u8);
    proof {
        assert(ihdr@ =~= ihdr_data_spec(width, height, 3));
    }
    // assemble
    let mut out: Vec<u8> = Vec::new();
    out.push(137u8);
    out.push(80u8);
    out.push(78u8);
    out.push(71u8);
    out.push(13u8);
    out.push(10u8);
    out.push(26u8);
    out.push(10u8);
    proof {
        assert(out@ =~= sig_spec());
    }
    push_chunk(&mut out, [73u8, 72u8, 68u8, 82u8], &ihdr);
    push_chunk(&mut out, [80u8, 76u8, 84u8, 69u8], &plte);
    if trns.len() > 0 {
        push_chunk(&mut out, [116u8, 82u8, 78u8, 83u8], &trns);
    }
    push_chunk(&mut out, [73u8, 68u8, 65u8, 84u8], &compressed);
    let empty: Vec<u8> = Vec::new();
    push_chunk(&mut out, [73u8, 69u8, 78u8, 68u8], &empty);
    proof {
        assert(out@ =~= png_bytes_spec(palette_indices@, palette@, width, height));
    }
    Ok(out)
}

fn read_be32(b: &Vec<u8>, pos: usize) -> (v: u32)
    requires
        pos + 4 <= b.len(),
    ensures
        v == (b[pos as int] as int) * 0x1000000 + (b[pos as int + 1] as int) * 0x10000 + (b[pos
            as int + 2] as int) * 0x100 + (b[pos as int + 3] as int),
{
    (b[pos] as u32) * 0x1000000 + (b[pos + 1] as u32) * 0x10000 + (b[pos + 2] as u32) * 0x100 + (
    b[pos + 3] as u32)
}

fn subvec(b: &Vec<u8>, start: usize, end: usize) -> (r: Vec<u8>)
    requires
        start <= end <= b.len(),
    ensures
        r@ == b@.subrange(start as int, end as int),
{
    let mut r: Vec<u8> = Vec::new();
    let mut i: usize = start;
    while i < end
        invariant
            start <= i <= end <= b.len(),
            r@ == b@.subrange(start as int, i as int),
        decreases end - i,
    {
        r.push(b[i]);
        proof {
            assert(b@.subrange(start as int, i as int).push(b@[i as int]) =~= b@.subrange(
                start as int,
                i as int + 1,
            ));
        }
        i = i + 1;
    }
    r
}

/// The header fields, palette, and concatenated compressed pixel data of
/// a parsed PNG stream.
pub struct ParsedPng {
    pub width: u32,
    pub height: u32,
    pub depth: u8,
    pub color: u8,
    pub plte: Vec<Pixel>,
    pub idat: Vec<u8>,
}


/// The big-endian bytes of a value read back as that value.
proof fn lemma_be32_val(v: u32)
    ensures
        (be32_spec(v)[0] as int) * 0x1000000 + (be32_spec(v)[1] as int) * 0x10000 + (
        be32_spec(v)[2] as int) * 0x100 + (be32_spec(v)[3] as int) == v,
{
    let x0 = (v >> 24) & 0xFF;
    let x1 = (v >> 16) & 0xFF;
    let x2 = (v >> 8) & 0xFF;
    let x3 = v & 0xFF;
    assert(x0 * 0x1000000 + x1 * 0x10000 + x2 * 0x100 + x3 == v && x0 < 256 && x1 < 256 && x2
        < 256 && x3 < 256) by (bit_vector)
        requires
            x0 == (v >> 24) & 0xFF,
            x1 == (v >> 16) & 0xFF,
            x2 == (v >> 8) & 0xFF,
            x3 == v & 0xFF,
    ;
}

/// Every row of a filter-0 packed stream carries filter byte zero.
pub proof fn lemma_rows_filters_zero(d: Seq<u8>, rb: int, h: int)
    requires
        rb >= 0,
        h >= 0,
        h * rb <= d.len(),
    ensures
        forall|y: int| 0 <= y < h ==> #[trigger] filter_byte(rows_spec(d, rb, h), rb, y) == 0,
    decreases h,
{
    if h > 0 {
        assert((h - 1) * rb >= 0 && (h - 1) * rb <= h * rb) by (nonlinear_arith)
            requires
                h >= 1,
                rb >= 0,
        ;
        lemma_rows_filters_zero(d, rb, h - 1);
        lemma_rows_spec_len(d, rb, h - 1);
        let rows = rows_spec(d, rb, h);
        let prev = rows_spec(d, rb, h - 1);
        assert forall|y: int| 0 <= y < h implies #[trigger] filter_byte(rows, rb, y) == 0 by {
            if y < h - 1 {
                assert(y * (rb + 1) + 1 <= (h - 1) * (rb + 1)) by (nonlinear_arith)
                    requires
                        0 <= y <= h - 2,
                        rb >= 0,
                ;
                assert(rows[y * (rb + 1)] == prev[y * (rb + 1)]);
                assert(filter_byte(prev, rb, y) == 0);
            } else {
                assert(rows[(h - 1) * (rb + 1)] == 0u8);
            }
        }
    }
}

/// The number of bytes a pixel of the given color type occupies at bit
/// depth 8: 1 for grayscale, 3 for truecolor, 2 for grayscale+alpha,
/// 4 for truecolor+alpha.
pub open spec fn bpp_of(ct: u8) -> int {
    if ct == 0 {
        1
    } else if ct == 2 {
        3
    } else if ct == 4 {
        2
    } else {
        4
    }
}

/// A PNG stream of exactly three chunks and no palette: signature, an
/// IHDR with the given color type at depth 8, one IDAT holding the
/// stream `s`, and IEND.
pub open spec fn simple_png_spec(ct: u8, w: u32, h: u32, s: Seq<u8>) -> Seq<u8> {
    sig_spec() + chunk_spec(ihdr_type(), ihdr_data_spec(w, h, ct)) + chunk_spec(idat_type(), s)
        + chunk_spec(iend_type(), Seq::empty())
}

/// Whether the bytes begin with the eight-byte PNG signature.
pub open spec fn has_png_sig(bytes: Seq<u8>) -> bool {
    &&& bytes.len() >= 8
    &&& bytes[0] == 137
    &&& bytes[1] == 80
    &&& bytes[2] == 78
    &&& bytes[3] == 71
    &&& bytes[4] == 13
    &&& bytes[5] == 10
    &&& bytes[6] == 26
    &&& bytes[7] == 10
}

/// Four bytes are recovered exactly from the big-endian value they encode.
proof fn lemma_be32_inv(s: Seq<u8>, v: u32)
    requires
        s.len() == 4,
        v == (s[0] as int) * 0x1000000 + (s[1] as int) * 0x10000 + (s[2] as int) * 0x100 + (
        s[3] as int),
    ensures
        be32_spec(v) == s,
{
    let b0 = s[0];
    let b1 = s[1];
    let b2 = s[2];
    let b3 = s[3];
    assert(((v >> 24) & 0xFF) as u8 == b0 && ((v >> 16) & 0xFF) as u8 == b1 && ((v >> 8) & 0xFF)
        as u8 == b2 && (v & 0xFF) as u8 == b3) by (bit_vector)
        requires
            v == (b0 as u32) * 0x1000000 + (b1 as u32) * 0x10000 + (b2 as u32) * 0x100 + (
            b3 as u32),
    ;
    assert(be32_spec(v) =~= s);
}

/// The bytes form a `simple_png_spec` stream with in-range dimensions
/// and a nonempty chunk-sized compressed payload.
pub open spec fn simple_stream(bytes: Seq<u8>, ct: u8, w: u32, h: u32, s: Seq<u8>) -> bool {
    &&& bytes == simple_png_spec(ct, w, h, s)
    &&& w >= 1
    &&& h >= 1
    &&& 1 <= s.len() <= 0xFFFF_FFFF
}

/// Parses the three-chunk layout of `simple_png_spec` directly: on any
/// stream of that exact shape it succeeds with the header fields and the
/// IDAT payload; any deviation yields nothing and the caller falls back
/// to the general chunk walk.
#[verifier::rlimit(100)]
fn parse_simple_layout(bytes: &Vec<u8>) -> (r: Option<ParsedPng>)
    ensures
        r is Some ==> {
            let p = r->0;
            &&& has_png_sig(bytes@)
            &&& p.width >= 1
            &&& p.height >= 1
            &&& p.plte.len() == 0
            &&& bytes.len() >= 33
            &&& bytes@.subrange(8, 16) == be32_spec(13) + ihdr_type()
            &&& bytes@.subrange(16, 29) == be32_spec(p.width) + be32_spec(p.height) + seq![
                p.depth,
                p.color,
                0u8,
                0u8,
                0u8,
            ]
        },
        forall|ct: u8, w2: u32, h2: u32, s: Seq<u8>|
            #[trigger] simple_stream(bytes@, ct, w2, h2, s) ==> r is Some && {
                let p = r->0;
                &&& p.width == w2
                &&& p.height == h2
                &&& p.depth == 8
                &&& p.color == ct
                &&& p.plte.len() == 0
                &&& p.idat@ == s
            },
        r is None ==> forall|ct: u8, w2: u32, h2: u32, s: Seq<u8>|
            !(#[trigger] simple_stream(bytes@, ct, w2, h2, s)),
{
    proof {
        assert forall|ct: u8, w2: u32, h2: u32, s: Seq<u8>|
            #[trigger] simple_stream(bytes@, ct, w2, h2, s) implies {
            let ihdr = ihdr_data_spec(w2, h2, ct);
            let l = s.len() as int;
            &&& bytes.len() == 57 + l
            &&& has_png_sig(bytes@)
            &&& bytes@.subrange(8, 12) == be32_spec(13)
            &&& (bytes@[8] as int) * 0x1000000 + (bytes@[9] as int) * 0x10000 + (bytes@[10] as int)
                * 0x100 + (bytes@[11] as int) == 13
            &&& bytes@[12] == 73 && bytes@[13] == 72 && bytes@[14] == 68 && bytes@[15] == 82
            &&& bytes@.subrange(16, 29) == ihdr
            &&& (bytes@[16] as int) * 0x1000000 + (bytes@[17] as int) * 0x10000 + (
            bytes@[18] as int) * 0x100 + (bytes@[19] as int) == w2
            &&& (bytes@[20] as int) * 0x1000000 + (bytes@[21] as int) * 0x10000 + (
            bytes@[22] as int) * 0x100 + (bytes@[23] as int) == h2
            &&& bytes@[24] == 8 && bytes@[25] == ct && bytes@[26] == 0 && bytes@[27] == 0
                && bytes@[28] == 0
            &&& (bytes@[29] as int) * 0x1000000 + (bytes@[30] as int) * 0x10000 + (
            bytes@[31] as int) * 0x100 + (bytes@[32] as int) == crc32_spec(ihdr_type() + ihdr)
            &&& (bytes@[33] as int) * 0x1000000 + (bytes@[34] as int) * 0x10000 + (
            bytes@[35] as int) * 0x100 + (bytes@[36] as int) == l
            &&& bytes@[37] == 73 && bytes@[38] == 68 && bytes@[39] == 65 && bytes@[40] == 84
            &&& bytes@.subrange(41, 41 + l) == s
            &&& (bytes@[41 + l] as int) * 0x1000000 + (bytes@[42 + l] as int) * 0x10000 + (
            bytes@[43 + l] as int) * 0x100 + (bytes@[44 + l] as int) == crc32_spec(
                idat_type() + s,
            )
            &&& (bytes@[45 + l] as int) * 0x1000000 + (bytes@[46 + l] as int) * 0x10000 + (
            bytes@[47 + l] as int) * 0x100 + (bytes@[48 + l] as int) == 0
            &&& bytes@[49 + l] == 73 && bytes@[50 + l] == 69 && bytes@[51 + l] == 78 && bytes@[52
                + l] == 68
            &&& (bytes@[53 + l] as int) * 0x1000000 + (bytes@[54 + l] as int) * 0x10000 + (
            bytes@[55 + l] as int) * 0x100 + (bytes@[56 + l] as int) == crc32_spec(iend_type())
        } by {
            let ihdr = ihdr_data_spec(w2, h2, ct);
            let l = s.len() as int;
            let c1 = chunk_spec(ihdr_type(), ihdr);
            let c2 = chunk_spec(idat_type(), s);
            let c3 = chunk_spec(iend_type(), Seq::<u8>::empty());
            assert(ihdr.len() == 13);
            assert(c1.len() == 25);
            assert(c2.len() == 12 + l);
            assert(c3.len() == 12);
            assert(bytes@.subrange(0, 8) =~= sig_spec());
            assert(bytes@.subrange(8, 33) =~= c1);
            assert(bytes@.subrange(33, 45 + l) =~= c2);
            assert(bytes@.subrange(45 + l, 57 + l) =~= c3);
            assert(bytes@.subrange(8, 12) =~= be32_spec(13));
            assert(bytes@.subrange(12, 16) =~= ihdr_type());
            assert(bytes@.subrange(16, 29) =~= ihdr);
            assert(bytes@.subrange(29, 33) =~= be32_spec(crc32_spec(ihdr_type() + ihdr)));
            assert(bytes@.subrange(33, 37) =~= be32_spec(l as u32));
            assert(bytes@.subrange(37, 41) =~= idat_type());
            assert(bytes@.subrange(41, 41 + l) =~= s);
            assert(bytes@.subrange(41 + l, 45 + l) =~= be32_spec(crc32_spec(idat_type() + s)));
            assert(bytes@.subrange(45 + l, 49 + l) =~= be32_spec(0));
            assert(bytes@.subrange(49 + l, 53 + l) =~= iend_type());
            assert(iend_type() + Seq::<u8>::empty() =~= iend_type());
            assert(bytes@.subrange(53 + l, 57 + l) =~= be32_spec(crc32_spec(iend_type())));
            assert(bytes@.subrange(16, 20) =~= be32_spec(w2));
            assert(bytes@.subrange(20, 24) =~= be32_spec(h2));
            lemma_be32_val(13);
            lemma_be32_val(w2);
            lemma_be32_val(h2);
            lemma_be32_val(l as u32);
            lemma_be32_val(crc32_spec(ihdr_type() + ihdr));
            lemma_be32_val(crc32_spec(idat_type() + s));
            lemma_be32_val(0);
            lemma_be32_val(crc32_spec(iend_type()));
        }
    }
    if bytes.len() < 58 {
        return None;
    }
    if bytes[0] != 137 || bytes[1] != 80 || bytes[2] != 78 || bytes[3] != 71 || bytes[4] != 13
        || bytes[5] != 10 || bytes[6] != 26 || bytes[7] != 10 {
        return None;
    }
    if read_be32(bytes, 8) != 13 {
        return None;
    }
    if bytes[12] != 73 || bytes[13] != 72 || bytes[14] != 68 || bytes[15] != 82 {
        return None;
    }
    let data = subvec(bytes, 16, 29);
    let mut td: Vec<u8> = Vec::new();
    td.push(73);
    td.push(72);
    td.push(68);
    td.push(82);
    append_bytes(&mut td, &data);
    proof {
        assert(td@ =~= ihdr_type() + data@);
    }
    if crc32(&td) != read_be32(bytes, 29) {
        return None;
    }
    let width = read_be32(&data, 0);
    let height = read_be32(&data, 4);
    let depth = data[8];
    let color = data[9];
    if data[10] != 0 || data[11] != 0 || data[12] != 0 {
        return None;
    }
    if width == 0 || height == 0 {
        return None;
    }
    let l32 = read_be32(bytes, 33);
    let l = l32 as usize;
    if l == 0 {
        return None;
    }
    if (bytes.len() as u64) - 57 != (l as u64) {
        return None;
    }
    if bytes[37] != 73 || bytes[38] != 68 || bytes[39] != 65 || bytes[40] != 84 {
        return None;
    }
    let idat = subvec(bytes, 41, 41 + l);
    let mut td2: Vec<u8> = Vec::new();
    td2.push(73);
    td2.push(68);
    td2.push(65);
    td2.push(84);
    append_bytes(&mut td2, &idat);
    proof {
        assert(td2@ =~= idat_type() + idat@);
    }
    if crc32(&td2) != read_be32(bytes, 41 + l) {
        return None;
    }
    if read_be32(bytes, 45 + l) != 0 {
        return None;
    }
    if bytes[49 + l] != 73 || bytes[50 + l] != 69 || bytes[51 + l] != 78 || bytes[52 + l] != 68 {
        return None;
    }
    let mut td3: Vec<u8> = Vec::new();
    td3.push(73);
    td3.push(69);
    td3.push(78);
    td3.push(68);
    proof {
        assert(td3@ =~= iend_type());
    }
    if crc32(&td3) != read_be32(bytes, 53 + l) {
        return None;
    }
    proof {
        lemma_be32_inv(bytes@.subrange(8, 12), 13);
        assert(bytes@.subrange(12, 16) =~= ihdr_type());
        assert(bytes@.subrange(8, 16) =~= be32_spec(13) + ihdr_type());
        assert(data@ == bytes@.subrange(16, 29));
        lemma_be32_inv(data@.subrange(0, 4), width);
        lemma_be32_inv(data@.subrange(4, 8), height);
        assert(data@ =~= be32_spec(width) + be32_spec(height) + seq![depth, color, 0u8, 0u8, 0u8]);
    }
    Some(ParsedPng { width, height, depth, color, plte: Vec::new(), idat })
}

/// Walks the chunk structure of a PNG stream: checks the signature, reads
/// IHDR, collects PLTE and the transparency table (applied to the palette
/// entries), concatenates IDAT payloads, verifies every chunk CRC, and
/// stops at IEND. Interlaced streams are not supported.
fn parse_png(bytes: &Vec<u8>) -> (r: Result<ParsedPng, DecodeError>)
    ensures
        !has_png_sig(bytes@) ==> r == Err::<ParsedPng, DecodeError>(DecodeError::Malformed),
        r is Ok ==> {
            let p = r->Ok_0;
            &&& has_png_sig(bytes@)
            &&& p.width >= 1
            &&& p.height >= 1
            &&& p.plte.len() <= 256
            &&& bytes.len() >= 33
            &&& bytes@.subrange(8, 16) == be32_spec(13) + ihdr_type()
            &&& bytes@.subrange(16, 29) == be32_spec(p.width) + be32_spec(p.height) + seq![
                p.depth,
                p.color,
                0u8,
                0u8,
                0u8,
            ]
        },
{
    if bytes.len() < 8 {
        return Err(DecodeError::Malformed);
    }
    if bytes[0] != 137 || bytes[1] != 80 || bytes[2] != 78 || bytes[3] != 71 || bytes[4] != 13
        || bytes[5] != 10 || bytes[6] != 26 || bytes[7] != 10 {
        return Err(DecodeError::Malformed);
    }
    let mut pos: usize = 8;
    let mut seen_ihdr = false;
    let mut seen_iend = false;
    let mut width: u32 = 0;
    let mut height: u32 = 0;
    let mut depth: u8 = 0;
    let mut color: u8 = 0;
    let mut plte: Vec<Pixel> = Vec::new();
    let mut trns: Vec<u8> = Vec::new();
    let mut idat: Vec<u8> = Vec::new();
    while pos < bytes.len() && !seen_iend
        invariant
            8 <= pos <= bytes.len(),
            plte.len() <= 256,
            has_png_sig(bytes@),
            !seen_ihdr ==> pos == 8,
            seen_ihdr ==> width >= 1 && height >= 1 && bytes.len() >= 33 && bytes@.subrange(8, 16)
                == be32_spec(13) + ihdr_type() && bytes@.subrange(16, 29) == be32_spec(width)
                + be32_spec(height) + seq![depth, color, 0u8, 0u8, 0u8],
        decreases bytes.len() - pos + if seen_iend {
            0int
        } else {
            1int
        },
    {
        if bytes.len() - pos < 12 {
            return Err(DecodeError::Malformed);
        }
        let clen32 = read_be32(bytes, pos);
        let clen = clen32 as usize;
        if (clen as u64) > (bytes.len() - pos - 12) as u64 {
            return Err(DecodeError::Malformed);
        }
        let t0 = bytes[pos + 4];
        let t1 = bytes[pos + 5];
        let t2 = bytes[pos + 6];
        let t3 = bytes[pos + 7];
        let data = subvec(bytes, pos + 8, pos + 8 + clen);
        let mut td: Vec<u8> = Vec::new();
        td.push(t0);
        td.push(t1);
        td.push(t2);
        td.push(t3);
        append_bytes(&mut td, &data);
        let stored = read_be32(bytes, pos + 8 + clen);
        if crc32(&td) != stored {
            return Err(DecodeError::Corrupt);
        }
        if t0 == 73 && t1 == 72 && t2 == 68 && t3 == 82 {
            // IHDR
            if seen_ihdr || clen != 13 {
                return Err(DecodeError::Malformed);
            }
            width = read_be32(&data, 0);
            height = read_be32(&data, 4);
            depth = data[8];
            color = data[9];
            if data[10] != 0 || data[11] != 0 {
                return Err(DecodeError::Malformed);
            }
            if data[12] != 0 {
                // interlaced streams are out of scope
                return Err(DecodeError::UnsupportedFormat);
            }
            if width == 0 || height == 0 {
                return Err(DecodeError::Malformed);
            }
            proof {
                assert(pos == 8);
                assert(clen32 == 13);
                lemma_be32_inv(bytes@.subrange(8, 12), 13);
                assert(bytes@.subrange(12, 16) =~= ihdr_type());
                assert(bytes@.subrange(8, 16) =~= be32_spec(13) + ihdr_type());
                assert(data@ == bytes@.subrange(16, 29));
                lemma_be32_inv(data@.subrange(0, 4), width);
                lemma_be32_inv(data@.subrange(4, 8), height);
                assert(data@ =~= be32_spec(width) + be32_spec(height) + seq![
                    depth,
                    color,
                    0u8,
                    0u8,
                    0u8,
                ]);
            }
            seen_ihdr = true;
        } else if !seen_ihdr {
            return Err(DecodeError::Malformed);
        } else if t0 == 80 && t1 == 76 && t2 == 84 && t3 == 69 {
            // PLTE
            if clen % 3 != 0 || clen > 768 || plte.len() > 0 {
                return Err(DecodeError::Malformed);
            }
            let mut k: usize = 0;
            while k + 3 <= data.len()
                invariant
                    k <= data.len(),
                    data.len() <= 768,
                    k % 3 == 0,
                    plte.len() == k / 3,
                decreases data.len() - k,
            {
                plte.push(Pixel { r: data[k], g: data[k + 1], b: data[k + 2], a: 255 });
                k = k + 3;
            }
        } else if t0 == 116 && t1 == 82 && t2 == 78 && t3 == 83 {
            // tRNS
            trns = data;
        } else if t0 == 73 && t1 == 68 && t2 == 65 && t3 == 84 {
            // IDAT
            append_bytes(&mut idat, &data);
        } else if t0 == 73 && t1 == 69 && t2 == 78 && t3 == 68 {
            // IEND
            seen_iend = true;
        }
        pos = pos + 12 + clen;
    }
    if !seen_ihdr || !seen_iend {
        return Err(DecodeError::Malformed);
    }
    if trns.len() > plte.len() && color == 3 {
        return Err(DecodeError::Malformed);
    }
    let mut k: usize = 0;
    while k < trns.len() && k < plte.len()
        invariant
            plte.len() <= 256,
            width >= 1,
            height >= 1,
            has_png_sig(bytes@),
            bytes.len() >= 33,
            bytes@.subrange(8, 16) == be32_spec(13) + ihdr_type(),
            bytes@.subrange(16, 29) == be32_spec(width) + be32_spec(height) + seq![
                depth,
                color,
                0u8,
                0u8,
                0u8,
            ],
        decreases plte.len() - k,
    {
        let mut e = plte[k];
        e.a = trns[k];
        plte.set(k, e);
        k = k + 1;
    }
    Ok(ParsedPng { width, height, depth, color, plte, idat })
}

fn wrap_add(a: u8, b: u8) -> (r: u8) {
    (((a as u16) + (b as u16)) % 256) as u8
}

fn wrap_add_avg(cur: u8, a: u8, b: u8) -> (r: u8) {
    (((cur as u16) + ((a as u16) + (b as u16)) / 2) % 256) as u8
}

/// The Paeth predictor: whichever of left, up and up-left is closest to
/// left + up - up-left.
fn paeth(a: u8, b: u8, c: u8) -> (r: u8) {
    let p: i32 = a as i32 + b as i32 - c as i32;
    let pa: i32 = if p >= a as i32 {
        p - a as i32
    } else {
        a as i32 - p
    };
    let pb: i32 = if p >= b as i32 {
        p - b as i32
    } else {
        b as i32 - p
    };
    let pc: i32 = if p >= c as i32 {
        p - c as i32
    } else {
        c as i32 - p
    };
    if pa <= pb && pa <= pc {
        a
    } else if pb <= pc {
        b
    } else {
        c
    }
}

/// The filter byte in front of packed row `y`.
pub open spec fn filter_byte(raw: Seq<u8>, rb: int, y: int) -> u8 {
    raw[y * (rb + 1)]
}

/// Reverses the per-row byte filters of the pixel data: every row carries
/// a filter byte (none, sub, up, average, Paeth) followed by `rowbytes`
/// filtered bytes. Fails exactly on an unknown filter byte. A stream
/// whose rows all carry filter byte zero is reconstructed as exactly its
/// concatenated row payloads.
fn unfilter(raw: &Vec<u8>, rowbytes: usize, h: usize, bpp: usize) -> (r: Option<Vec<u8>>)
    requires
        raw.len() == h * (rowbytes + 1),
        1 <= bpp <= rowbytes,
    ensures
        r is Some ==> r->0.len() == h * rowbytes,
        (forall|y2: int|
            0 <= y2 < h ==> #[trigger] filter_byte(raw@, rowbytes as int, y2) == 0) ==> r is Some
            && r->0@ == unpack_rows(raw@, rowbytes as int, h as int),
        r is None ==> exists|y2: int|
            0 <= y2 < h && #[trigger] filter_byte(raw@, rowbytes as int, y2) > 4,
{
    let mut out: Vec<u8> = Vec::new();
    let mut rpos: usize = 0;
    let mut y: usize = 0;
    while y < h
        invariant
            y <= h,
            raw.len() == h * (rowbytes + 1),
            1 <= bpp <= rowbytes,
            rpos == y * (rowbytes + 1),
            out.len() == y * rowbytes,
            (forall|y2: int|
                0 <= y2 < h ==> #[trigger] filter_byte(raw@, rowbytes as int, y2) == 0)
                ==> out@ == unpack_rows(raw@, rowbytes as int, y as int),
        decreases h - y,
    {
        proof {
            assert(y * (rowbytes + 1) + (rowbytes + 1) <= h * (rowbytes + 1)) by (nonlinear_arith)
                requires
                    0 <= y < h,
                    rowbytes >= 0,
            ;
        }
        let f = raw[rpos];
        proof {
            assert(filter_byte(raw@, rowbytes as int, y as int) == f);
        }
        if f > 4 {
            return None;
        }
        rpos = rpos + 1;
        let ghost row_payload_start = rpos as int;
        proof {
            assert(raw@.subrange(row_payload_start, row_payload_start) =~= Seq::<u8>::empty());
        }
        let mut x: usize = 0;
        while x < rowbytes
            invariant
                x <= rowbytes,
                y < h,
                raw.len() == h * (rowbytes + 1),
                1 <= bpp <= rowbytes,
                rpos == y * (rowbytes + 1) + 1 + x,
                rpos <= raw.len(),
                out.len() == y * rowbytes + x,
                f <= 4,
                f == filter_byte(raw@, rowbytes as int, y as int),
                row_payload_start == y * (rowbytes + 1) + 1,
                (forall|y2: int|
                    0 <= y2 < h ==> #[trigger] filter_byte(raw@, rowbytes as int, y2) == 0)
                    ==> out@ == unpack_rows(raw@, rowbytes as int, y as int) + raw@.subrange(
                    row_payload_start,
                    rpos as int,
                ),
            decreases rowbytes - x,
        {
            proof {
                assert(y * (rowbytes + 1) + 1 + x < h * (rowbytes + 1)) by (nonlinear_arith)
                    requires
                        0 <= y < h,
                        0 <= x < rowbytes,
                ;
                assert(y * rowbytes >= rowbytes || y == 0) by (nonlinear_arith)
                    requires
                        y >= 0,
                        rowbytes >= 0,
                ;
            }
            let cur = raw[rpos];
            let opos = out.len();
            let a: u8 = if x >= bpp {
                out[opos - bpp]
            } else {
                0
            };
            let b: u8 = if y >= 1 {
                out[opos - rowbytes]
            } else {
                0
            };
            let c: u8 = if x >= bpp && y >= 1 {
                out[opos - rowbytes - bpp]
            } else {
                0
            };
            let v: u8 = if f == 0 {
                cur
            } else if f == 1 {
                wrap_add(cur, a)
            } else if f == 2 {
                wrap_add(cur, b)
            } else if f == 3 {
                wrap_add_avg(cur, a, b)
            } else {
                wrap_add(cur, paeth(a, b, c))
            };
            out.push(v);
            proof {
                if forall|y2: int|
                    0 <= y2 < h ==> #[trigger] filter_byte(raw@, rowbytes as int, y2) == 0 {
                    assert(f == 0);
                    assert(v == raw@[rpos as int]);
                    assert(raw@.subrange(row_payload_start, rpos as int).push(raw@[rpos as int])
                        =~= raw@.subrange(row_payload_start, rpos as int + 1));
                }
            }
            rpos = rpos + 1;
            x = x + 1;
        }
        proof {
            assert((y + 1) * (rowbytes + 1) == y * (rowbytes + 1) + (rowbytes + 1))
                by (nonlinear_arith);
            assert((y + 1) * rowbytes == y * rowbytes + rowbytes) by (nonlinear_arith);
            if forall|y2: int|
                0 <= y2 < h ==> #[trigger] filter_byte(raw@, rowbytes as int, y2) == 0 {
                assert(unpack_rows(raw@, rowbytes as int, y as int + 1) == unpack_rows(
                    raw@,
                    rowbytes as int,
                    y as int,
                ) + raw@.subrange(
                    y * (rowbytes as int + 1) + 1,
                    (y + 1) * (rowbytes as int + 1),
                ));
                assert(out@ == unpack_rows(raw@, rowbytes as int, y as int + 1));
            }
        }
        y = y + 1;
    }
    Some(out)
}

/// Each grayscale byte of `v` replicated to red, green and blue, fully
/// opaque.
pub open spec fn gray_expand(v: Seq<u8>, n: int) -> Seq<u8>
    decreases n,
{
    if n <= 0 {
        Seq::empty()
    } else {
        gray_expand(v, n - 1) + seq![v[n - 1], v[n - 1], v[n - 1], 255u8]
    }
}

/// Replicates a grayscale byte to red, green and blue, fully opaque.
fn gray_to_rgba(v: &Vec<u8>) -> (r: Vec<u8>)
    ensures
        r.len() == 4 * v.len(),
        r@ == gray_expand(v@, v.len() as int),
{
    let mut r: Vec<u8> = Vec::new();
    let mut i: usize = 0;
    proof {
        assert(r@ =~= gray_expand(v@, 0));
    }
    while i < v.len()
        invariant
            i <= v.len(),
            r.len() == 4 * i,
            r@ == gray_expand(v@, i as int),
        decreases v.len() - i,
    {
        let ghost pre = r@;
        let g = v[i];
        r.push(g);
        r.push(g);
        r.push(g);
        r.push(255);
        proof {
            assert(r@ =~= pre + seq![v@[i as int], v@[i as int], v@[i as int], 255u8]);
        }
        i = i + 1;
    }
    r
}

/// Each gray/alpha pair of `v` as red, green, blue and the alpha.
pub open spec fn graya_expand(v: Seq<u8>, n: int) -> Seq<u8>
    decreases n,
{
    if n <= 0 {
        Seq::empty()
    } else {
        graya_expand(v, n - 1) + seq![v[2 * (n - 1)], v[2 * (n - 1)], v[2 * (n - 1)], v[2 * (n - 1)
            + 1]]
    }
}

/// Replicates each gray/alpha pair to red, green, blue and the alpha.
fn graya_to_rgba(v: &Vec<u8>) -> (r: Vec<u8>)
    requires
        v.len() % 2 == 0,
    ensures
        r.len() == 2 * v.len(),
        r@ == graya_expand(v@, v.len() as int / 2),
{
    let mut r: Vec<u8> = Vec::new();
    let mut i: usize = 0;
    proof {
        assert(r@ =~= graya_expand(v@, 0));
    }
    while 2 * i + 2 <= v.len()
        invariant
            2 * i <= v.len(),
            r.len() == 4 * i,
            r@ == graya_expand(v@, i as int),
        decreases v.len() - 2 * i,
    {
        let ghost pre = r@;
        let g = v[2 * i];
        let al = v[2 * i + 1];
        r.push(g);
        r.push(g);
        r.push(g);
        r.push(al);
        proof {
            assert(r@ =~= pre + seq![
                v@[2 * (i as int)],
                v@[2 * (i as int)],
                v@[2 * (i as int)],
                v@[2 * (i as int) + 1],
            ]);
            assert(r@ == graya_expand(v@, i as int + 1));
        }
        i = i + 1;
    }
    proof {
        assert(2 * (v.len() as int / 2) == v.len()) by {
            vstd::arithmetic::div_mod::lemma_fundamental_div_mod(v.len() as int, 2);
        };
        assert(i == v.len() as int / 2);
    }
    r
}

/// Each RGB triple of `v`, in order, followed by a fully opaque alpha.
pub open spec fn rgb_expand(v: Seq<u8>, n: int) -> Seq<u8>
    decreases n,
{
    if n <= 0 {
        Seq::empty()
    } else {
        rgb_expand(v, n - 1) + seq![v[3 * (n - 1)], v[3 * (n - 1) + 1], v[3 * (n - 1) + 2], 255u8]
    }
}

/// Copies each RGB triple and appends a fully opaque alpha.
fn rgb_to_rgba(v: &Vec<u8>) -> (r: Vec<u8>)
    requires
        v.len() % 3 == 0,
    ensures
        3 * r.len() == 4 * v.len(),
        r@ == rgb_expand(v@, v.len() as int / 3),
{
    let mut r: Vec<u8> = Vec::new();
    let mut i: usize = 0;
    proof {
        assert(r@ =~= rgb_expand(v@, 0));
    }
    while 3 * i + 3 <= v.len()
        invariant
            3 * i <= v.len(),
            r.len() == 4 * i,
            r@ == rgb_expand(v@, i as int),
        decreases v.len() - 3 * i,
    {
        let ghost pre = r@;
        r.push(v[3 * i]);
        r.push(v[3 * i + 1]);
        r.push(v[3 * i + 2]);
        r.push(255);
        proof {
            assert(r@ =~= pre + seq![
                v@[3 * (i as int)],
                v@[3 * (i as int) + 1],
                v@[3 * (i as int) + 2],
                255u8,
            ]);
            assert(r@ == rgb_expand(v@, i as int + 1));
        }
        i = i + 1;
    }
    proof {
        assert(3 * (v.len() as int / 3) == v.len()) by {
            vstd::arithmetic::div_mod::lemma_fundamental_div_mod(v.len() as int, 3);
        };
        assert(i == v.len() as int / 3);
    }
    r
}

/// The RGBA expansion decode owes for unfiltered data of one color type:
/// grayscale replicated opaque, RGB with alpha 255, gray+alpha
/// replicated, and truecolor+alpha copied through.
pub open spec fn expand_of(ct: u8, d: Seq<u8>) -> Seq<u8> {
    if ct == 0 {
        gray_expand(d, d.len() as int)
    } else if ct == 2 {
        rgb_expand(d, d.len() as int / 3)
    } else if ct == 4 {
        graya_expand(d, d.len() as int / 2)
    } else {
        d
    }
}

/// A well-formed single-IDAT stream of a supported color type whose
/// compressed payload holds the filter-0 packing of image data `d`.
pub open spec fn simple_image(
    bytes: Seq<u8>,
    ct: u8,
    w: u32,
    h: u32,
    s: Seq<u8>,
    d: Seq<u8>,
) -> bool {
    &&& simple_stream(bytes, ct, w, h, s)
    &&& (ct == 0 || ct == 2 || ct == 4 || ct == 6)
    &&& crate::zlib::inflate_of(s) == Some(rows_spec(d, (w as int) * bpp_of(ct), h as int))
    &&& d.len() == (h as int) * ((w as int) * bpp_of(ct))
}

/// Decodes PNG bytes into a flat RGBA buffer and the image dimensions.
///
/// Supports the truecolor, truecolor+alpha, grayscale and grayscale+alpha
/// variants at bit depth 8: grayscale is replicated to red, green and
/// blue, and a missing alpha channel is made fully opaque. Any other
/// pixel format, an already-indexed stream among them, is rejected as
/// unsupported; corrupt or truncated compressed data halts the call.
#[verifier::rlimit(100)]
pub fn decode_png_to_rgba(png_bytes: &Vec<u8>) -> (r: Result<(Vec<u8>, u32, u32), DecodeError>)
    ensures
        !has_png_sig(png_bytes@) ==> r == Err::<(Vec<u8>, u32, u32), DecodeError>(
            DecodeError::Malformed,
        ),
        r is Err ==> r == Err::<(Vec<u8>, u32, u32), DecodeError>(DecodeError::Malformed) || r
            == Err::<(Vec<u8>, u32, u32), DecodeError>(DecodeError::UnsupportedFormat) || r
            == Err::<(Vec<u8>, u32, u32), DecodeError>(DecodeError::Corrupt),
        r is Ok ==> {
            let (rgba, w, h) = r->Ok_0;
            &&& w >= 1
            &&& h >= 1
            &&& rgba.len() == 4 * ((w as int) * (h as int))
            &&& png_bytes.len() >= 33
            &&& png_bytes@.subrange(16, 24) == be32_spec(w) + be32_spec(h)
            &&& png_bytes@[24] == 8
            &&& (png_bytes@[25] == 0 || png_bytes@[25] == 2 || png_bytes@[25] == 4
                || png_bytes@[25] == 6)
        },
        forall|ct: u8, w2: u32, h2: u32, s: Seq<u8>, d: Seq<u8>|
            #[trigger] simple_image(png_bytes@, ct, w2, h2, s, d) ==> r is Ok && r->Ok_0.1 == w2
                && r->Ok_0.2 == h2 && r->Ok_0.0@ == expand_of(ct, d),
{
    let p = match parse_simple_layout(png_bytes) {
        Some(p0) => p0,
        None => {
            proof {
                assert(forall|ct: u8, w2: u32, h2: u32, s: Seq<u8>|
                    !(#[trigger] simple_stream(png_bytes@, ct, w2, h2, s)));
            }
            match parse_png(png_bytes) {
                Ok(p1) => p1,
                Err(e) => {
                    return Err(e);
                },
            }
        },
    };
    proof {
        assert forall|ct: u8, w2: u32, h2: u32, s: Seq<u8>| #[trigger] simple_stream(
            png_bytes@,
            ct,
            w2,
            h2,
            s,
        ) implies p.width == w2 && p.height == h2 && p.depth == 8 && p.color == ct && p.idat@
            == s by {}
    }
    if p.depth != 8 {
        return Err(DecodeError::UnsupportedFormat);
    }
    let bpp: usize = if p.color == 0 {
        1
    } else if p.color == 2 {
        3
    } else if p.color == 4 {
        2
    } else if p.color == 6 {
        4
    } else {
        return Err(DecodeError::UnsupportedFormat);
    };
    let w = p.width as usize;
    let h = p.height as usize;
    proof {
        assert((p.width as int) * (bpp as int) < 0x10000000000000000 && (p.width as int) * (
        bpp as int) >= bpp) by (nonlinear_arith)
            requires
                1 <= p.width < 0x100000000,
                1 <= bpp <= 4,
        ;
    }
    let rowbytes_w: u64 = (p.width as u64) * (bpp as u64);
    proof {
        assert((p.width as int) * (bpp as int) <= 0x400000000) by (nonlinear_arith)
            requires
                0 <= p.width < 0x100000000,
                0 <= bpp <= 4,
        ;
        assert((p.height as int) * ((p.width as int) * (bpp as int) + 1)
            < 0x100000000000000000000000000000000) by (nonlinear_arith)
            requires
                1 <= p.height < 0x100000000,
                0 <= (p.width as int) * (bpp as int) <= 0x400000000,
        ;
    }
    let expected: u128 = (p.height as u128) * ((rowbytes_w as u128) + 1);
    if (p.idat.len() as u64) == 0 || (p.idat.len() as u64) > 0xFFFF_FFFF_FFFFu64 {
        return Err(DecodeError::Corrupt);
    }
    let raw = match zlib_decompress(&p.idat) {
        Some(v) => v,
        None => {
            return Err(DecodeError::Corrupt);
        },
    };
    proof {
        assert forall|ct: u8, w2: u32, h2: u32, s2: Seq<u8>, d: Seq<u8>| #[trigger] simple_image(
            png_bytes@,
            ct,
            w2,
            h2,
            s2,
            d,
        ) implies {
            let rb = (w2 as int) * bpp_of(ct);
            &&& raw@ == rows_spec(d, rb, h2 as int)
            &&& raw.len() == (h2 as int) * (rb + 1)
            &&& (expected as int) == (h2 as int) * (rb + 1)
            &&& rowbytes_w == rb
            &&& bpp == bpp_of(ct)
            &&& h == h2
        } by {
            let rb = (w2 as int) * bpp_of(ct);
            assert(1 <= bpp_of(ct) <= 4);
            assert(rb >= 1) by (nonlinear_arith)
                requires
                    rb == (w2 as int) * bpp_of(ct),
                    w2 >= 1,
                    1 <= bpp_of(ct) <= 4,
            ;
            assert(p.idat@ == s2);
            assert(raw@ == rows_spec(d, rb, h2 as int));
            lemma_rows_spec_len(d, rb, h2 as int);
        }
    }
    if (raw.len() as u128) != expected {
        return Err(DecodeError::Corrupt);
    }
    proof {
        assert(rowbytes_w + 1 <= expected) by (nonlinear_arith)
            requires
                p.height >= 1,
                expected == (p.height as int) * (rowbytes_w + 1),
                rowbytes_w >= 0,
        ;
    }
    let rowbytes: usize = rowbytes_w as usize;
    proof {
        assert(raw.len() == h * (rowbytes + 1));
        assert(bpp <= rowbytes);
    }
    proof {
        assert forall|ct: u8, w2: u32, h2: u32, s2: Seq<u8>, d: Seq<u8>| #[trigger] simple_image(
            png_bytes@,
            ct,
            w2,
            h2,
            s2,
            d,
        ) implies (forall|y: int|
            0 <= y < h ==> #[trigger] filter_byte(raw@, rowbytes as int, y) == 0) by {
            let rb = (w2 as int) * bpp_of(ct);
            assert(1 <= bpp_of(ct) <= 4);
            assert(rb >= 1) by (nonlinear_arith)
                requires
                    rb == (w2 as int) * bpp_of(ct),
                    w2 >= 1,
                    1 <= bpp_of(ct) <= 4,
            ;
            lemma_rows_filters_zero(d, rb, h2 as int);
            assert forall|y: int| 0 <= y < h implies #[trigger] filter_byte(
                raw@,
                rowbytes as int,
                y,
            ) == 0 by {
                assert(filter_byte(rows_spec(d, rb, h2 as int), rb, y) == 0);
            }
        }
    }
    let unf = match unfilter(&raw, rowbytes, h, bpp) {
        Some(v) => v,
        None => {
            return Err(DecodeError::Corrupt);
        },
    };
    proof {
        assert forall|ct: u8, w2: u32, h2: u32, s2: Seq<u8>, d: Seq<u8>| #[trigger] simple_image(
            png_bytes@,
            ct,
            w2,
            h2,
            s2,
            d,
        ) implies unf@ == d by {
            let rb = (w2 as int) * bpp_of(ct);
            assert(1 <= bpp_of(ct) <= 4);
            assert(rb >= 1) by (nonlinear_arith)
                requires
                    rb == (w2 as int) * bpp_of(ct),
                    w2 >= 1,
                    1 <= bpp_of(ct) <= 4,
            ;
            assert(unf@ == unpack_rows(raw@, rowbytes as int, h as int));
            lemma_rows_roundtrip(d, rb, h2 as int);
        }
    }
    let ghost wi = p.width as int;
    let ghost hi = p.height as int;
    proof {
        assert(png_bytes@.subrange(16, 24) =~= be32_spec(p.width) + be32_spec(p.height));
        assert(png_bytes@.subrange(16, 29)[8] == p.depth);
        assert(png_bytes@[24] == png_bytes@.subrange(16, 29)[8]);
        assert(png_bytes@.subrange(16, 29)[9] == p.color);
        assert(png_bytes@[25] == png_bytes@.subrange(16, 29)[9]);
    }
    proof {
        assert(unf.len() == hi * (wi * (bpp as int))) by (nonlinear_arith)
            requires
                unf.len() == (h as int) * ((rowbytes as int)),
                h == hi,
                rowbytes == wi * (bpp as int),
        ;
    }
    if p.color == 0 {
        let rgba = gray_to_rgba(&unf);
        proof {
            assert(hi * (wi * 1) == wi * hi) by (nonlinear_arith);
        }
        Ok((rgba, p.width, p.height))
    } else if p.color == 2 {
        proof {
            assert(hi * (wi * 3) == 3 * (wi * hi)) by (nonlinear_arith);
            vstd::arithmetic::div_mod::lemma_mod_multiples_basic(wi * hi, 3);
        }
        let rgba = rgb_to_rgba(&unf);
        Ok((rgba, p.width, p.height))
    } else if p.color == 4 {
        proof {
            assert(hi * (wi * 2) == 2 * (wi * hi)) by (nonlinear_arith);
            vstd::arithmetic::div_mod::lemma_mod_multiples_basic(wi * hi, 2);
        }
        let rgba = graya_to_rgba(&unf);
        Ok((rgba, p.width, p.height))
    } else {
        proof {
            assert(hi * (wi * 4) == 4 * (wi * hi)) by (nonlinear_arith);
        }
        Ok((unf, p.width, p.height))
    }
}

/// Decodes an indexed PNG produced by the encoder back into its index
/// buffer, palette (transparency table applied) and dimensions. Every
/// recovered index is checked against the palette; an out-of-range index
/// halts the call rather than being clamped.
pub fn decode_indexed_png(png_bytes: &Vec<u8>) -> (r: Result<
    (Vec<u8>, Vec<Pixel>, u32, u32),
    DecodeError,
>)
    ensures
        !has_png_sig(png_bytes@) ==> r == Err::<(Vec<u8>, Vec<Pixel>, u32, u32), DecodeError>(
            DecodeError::Malformed,
        ),
        r is Err ==> r == Err::<(Vec<u8>, Vec<Pixel>, u32, u32), DecodeError>(
            DecodeError::Malformed,
        ) || r == Err::<(Vec<u8>, Vec<Pixel>, u32, u32), DecodeError>(
            DecodeError::UnsupportedFormat,
        ) || r == Err::<(Vec<u8>, Vec<Pixel>, u32, u32), DecodeError>(DecodeError::Corrupt),
        r is Ok ==> {
            let (idx, pal, w, h) = r->Ok_0;
            &&& w >= 1
            &&& h >= 1
            &&& idx.len() == (w as int) * (h as int)
            &&& 1 <= pal.len() <= 256
            &&& forall|i: int| 0 <= i < idx.len() ==> #[trigger] idx[i] < pal.len()
            &&& png_bytes.len() >= 33
            &&& png_bytes@.subrange(16, 24) == be32_spec(w) + be32_spec(h)
            &&& png_bytes@[24] == 8
            &&& png_bytes@[25] == 3
        },
{
    let p = match parse_png(png_bytes) {
        Ok(p) => p,
        Err(e) => {
            return Err(e);
        },
    };
    if p.depth != 8 || p.color != 3 {
        return Err(DecodeError::UnsupportedFormat);
    }
    if p.plte.len() == 0 {
        return Err(DecodeError::Malformed);
    }
    let w = p.width as usize;
    let h = p.height as usize;
    proof {
        assert(png_bytes@.subrange(16, 24) =~= be32_spec(p.width) + be32_spec(p.height));
        assert(png_bytes@.subrange(16, 29)[8] == p.depth);
        assert(png_bytes@[24] == png_bytes@.subrange(16, 29)[8]);
        assert(png_bytes@.subrange(16, 29)[9] == p.color);
        assert(png_bytes@[25] == png_bytes@.subrange(16, 29)[9]);
        assert((p.height as int) * ((p.width as int) + 1) < 0x100000000000000000000000000000000)
            by (nonlinear_arith)
            requires
                1 <= p.height < 0x100000000,
                1 <= p.width < 0x100000000,
        ;
    }
    let expected: u128 = (p.height as u128) * ((p.width as u128) + 1);
    let raw = match zlib_decompress(&p.idat) {
        Some(v) => v,
        None => {
            return Err(DecodeError::Corrupt);
        },
    };
    if (raw.len() as u128) != expected {
        return Err(DecodeError::Corrupt);
    }
    proof {
        assert((p.width as int) + 1 <= expected) by (nonlinear_arith)
            requires
                p.height >= 1,
                expected == (p.height as int) * ((p.width as int) + 1),
                p.width >= 0,
        ;
    }
    let idx = match unfilter(&raw, w, h, 1) {
        Some(v) => v,
        None => {
            return Err(DecodeError::Corrupt);
        },
    };
    proof {
        assert((h as int) * (w as int) == (w as int) * (h as int)) by (nonlinear_arith);
    }
    let mut i: usize = 0;
    while i < idx.len()
        invariant
            i <= idx.len(),
            forall|k: int| 0 <= k < i ==> #[trigger] idx[k] < p.plte.len(),
            p.plte.len() <= 256,
            has_png_sig(png_bytes@),
        decreases idx.len() - i,
    {
        if (idx[i] as usize) >= p.plte.len() {
            return Err(DecodeError::Corrupt);
        }
        i = i + 1;
    }
    Ok((idx, p.plte, p.width, p.height))
}

/// What remains of the raw IDAT stream once each row's filter byte is
/// dropped: the rows' payload bytes, in order.
pub open spec fn unpack_rows(raw: Seq<u8>, w: int, h: int) -> Seq<u8>
    decreases h,
{
    if h <= 0 {
        Seq::empty()
    } else {
        unpack_rows(raw, w, h - 1) + raw.subrange((h - 1) * (w + 1) + 1, h * (w + 1))
    }
}

/// A packed row stream has one filter byte plus `w` payload bytes per row.
pub proof fn lemma_rows_spec_len(idx: Seq<u8>, w: int, h: int)
    requires
        w >= 0,
        h >= 0,
        h * w <= idx.len(),
    ensures
        rows_spec(idx, w, h).len() == h * (w + 1),
    decreases h,
{
    if h > 0 {
        assert((h - 1) * w >= 0 && (h - 1) * w <= h * w && h * w - (h - 1) * w == w)
            by (nonlinear_arith)
            requires
                h >= 1,
                w >= 0,
        ;
        lemma_rows_spec_len(idx, w, h - 1);
        assert(rows_spec(idx, w, h - 1).len() == (h - 1) * (w + 1));
        assert(idx.subrange((h - 1) * w, h * w).len() == w);
        assert(rows_spec(idx, w, h).len() == rows_spec(idx, w, h - 1).len() + 1 + w);
        assert(rows_spec(idx, w, h).len() == (h - 1) * (w + 1) + 1 + w);
        assert((h - 1) * (w + 1) + 1 + w == h * (w + 1)) by (nonlinear_arith);
        assert(rows_spec(idx, w, h).len() == h * (w + 1));
    } else {
        assert(h == 0);
        assert(h * (w + 1) == 0) by (nonlinear_arith)
            requires
                h == 0,
        ;
        assert(rows_spec(idx, w, h).len() == 0);
    }
}

/// Unpacking looks only at the first `h` packed rows.
proof fn lemma_unpack_prefix(raw1: Seq<u8>, raw2: Seq<u8>, w: int, h: int)
    requires
        w >= 0,
        h >= 0,
        h * (w + 1) <= raw1.len(),
        h * (w + 1) <= raw2.len(),
        forall|i: int| 0 <= i < h * (w + 1) ==> raw1[i] == raw2[i],
    ensures
        unpack_rows(raw1, w, h) == unpack_rows(raw2, w, h),
    decreases h,
{
    if h > 0 {
        assert((h - 1) * (w + 1) + (w + 1) == h * (w + 1) && (h - 1) * (w + 1) >= 0)
            by (nonlinear_arith)
            requires
                h >= 1,
                w >= 0,
        ;
        lemma_unpack_prefix(raw1, raw2, w, h - 1);
        assert(raw1.subrange((h - 1) * (w + 1) + 1, h * (w + 1)) =~= raw2.subrange(
            (h - 1) * (w + 1) + 1,
            h * (w + 1),
        ));
    }
}

/// The filter-0 row packing is lossless: dropping the filter bytes of
/// the packed stream recovers the index buffer exactly. Together with
/// the losslessness of the compression layer, a decode of an encode
/// yields the indices byte-identical.
pub proof fn lemma_rows_roundtrip(idx: Seq<u8>, w: int, h: int)
    requires
        w >= 0,
        h >= 0,
        idx.len() == h * w,
    ensures
        unpack_rows(rows_spec(idx, w, h), w, h) == idx,
{
    lemma_rows_roundtrip_aux(idx, w, h);
    assert(idx.take(h * w) =~= idx);
}

proof fn lemma_rows_roundtrip_aux(idx: Seq<u8>, w: int, h: int)
    requires
        w >= 0,
        h >= 0,
        h * w <= idx.len(),
    ensures
        unpack_rows(rows_spec(idx, w, h), w, h) == idx.take(h * w),
    decreases h,
{
    if h <= 0 {
        assert(h == 0);
        assert(h * w == 0) by (nonlinear_arith)
            requires
                h == 0,
        ;
        assert(unpack_rows(rows_spec(idx, w, h), w, h) =~= idx.take(0));
    } else {
        let rows = rows_spec(idx, w, h);
        let prev = rows_spec(idx, w, h - 1);
        assert((h - 1) * w >= 0 && (h - 1) * w <= h * w && h * w == (h - 1) * w + w)
            by (nonlinear_arith)
            requires
                h >= 1,
                w >= 0,
        ;
        lemma_rows_spec_len(idx, w, h - 1);
        lemma_rows_spec_len(idx, w, h);
        assert((h - 1) * (w + 1) + (w + 1) == h * (w + 1)) by (nonlinear_arith);
        // the packed stream extends the previous rows, so unpacking the
        // first h - 1 rows of either gives the same bytes
        assert(rows =~= prev + seq![0u8] + idx.subrange((h - 1) * w, h * w));
        assert(forall|i: int| 0 <= i < (h - 1) * (w + 1) ==> rows[i] == prev[i]);
        lemma_unpack_prefix(rows, prev, w, h - 1);
        lemma_rows_roundtrip_aux(idx, w, h - 1);
        // the last unpacked row is exactly the last w indices
        assert(rows.subrange((h - 1) * (w + 1) + 1, h * (w + 1)) =~= idx.subrange(
            (h - 1) * w,
            h * w,
        ));
        assert(idx.take((h - 1) * w) + idx.subrange((h - 1) * w, h * w) =~= idx.take(h * w));
        assert(unpack_rows(rows, w, h) == unpack_rows(rows, w, h - 1) + rows.subrange(
            (h - 1) * (w + 1) + 1,
            h * (w + 1),
        ));
        assert(unpack_rows(rows, w, h) == idx.take((h - 1) * w) + idx.subrange(
            (h - 1) * w,
            h * w,
        ));
    }
}

} // verus!
