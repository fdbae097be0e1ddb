use vstd::prelude::*;

use crate::geometry::{clamp_region, clamp_region_to_image};

verus! {

/// An 8-bit RGBA image: `width * height` pixels of four bytes each, row by row.
/// The buffer may hold more bytes than that; only the first
/// `width * height * 4` of them are pixels.
#[derive(Debug, Clone)]
pub struct RgbaPixels {
    pub width: u32,
    pub height: u32,
    pub data: Vec<u8>,
}

/// A buffer of `len` bytes holds `width * height` pixels of `channels` bytes each.
pub open spec fn buffer_fits(width: u32, height: u32, channels: int, len: int) -> bool {
    channels * width * height <= len
}

impl RgbaPixels {
    /// The buffer holds all the pixels.
    pub open spec fn wf(&self) -> bool {
        buffer_fits(self.width, self.height, 4, self.data@.len() as int)
    }
}

/// Whether a buffer of `len` bytes holds `width * height` pixels of `channels`
/// bytes each, checked as the image crate's `ImageBuffer::from_raw` checks it.
pub fn buffer_holds_image(width: u32, height: u32, channels: u32, len: usize) -> (b: bool)
    ensures
        b == buffer_fits(width, height, channels as int, len as int),
{
    let c = channels as u64;
    let w = width as u64;
    let h = height as u64;
    proof {
        assert(c * w <= 0xffff_ffff * 0xffff_ffff) by (nonlinear_arith)
            requires c <= 0xffff_ffff && w <= 0xffff_ffff;
    }
    let cw = c * w;
    match cw.checked_mul(h) {
        Some(total) => {
            assert(total == channels * width * height) by (nonlinear_arith)
                requires total == cw * h, cw == c * w, c == channels, w == width, h == height;
            total <= len as u64
        },
        None => {
            assert(channels * width * height > u64::MAX) by (nonlinear_arith)
                requires cw * h > u64::MAX, cw == c * w, c == channels, w == width, h == height;
            false
        },
    }
}

/// The bytes of rows `y` to `y + rows - 1` of the region that starts at column `x`
/// and is `cw` pixels wide, in an RGBA image `iw` pixels wide.
pub open spec fn crop_rows(data: Seq<u8>, iw: int, x: int, y: int, cw: int, rows: int) -> Seq<u8>
    decreases rows,
{
    if rows <= 0 {
        Seq::empty()
    } else {
        let r = y + rows - 1;
        crop_rows(data, iw, x, y, cw, rows - 1) + data.subrange((r * iw + x) * 4, (r * iw + x + cw) * 4)
    }
}

proof fn lemma_row_in_image(r: int, iw: int, ih: int, x: int, cw: int)
    requires
        0 <= r < ih,
        0 <= x,
        0 <= cw,
        x + cw <= iw,
    ensures
        0 <= r * iw,
        r * iw + x + cw <= ih * iw,
        (r * iw + x + cw) * 4 <= 4 * iw * ih,
{
    assert(0 <= r * iw) by (nonlinear_arith)
        requires 0 <= r, 0 <= iw;
    assert(r * iw + iw <= ih * iw) by (nonlinear_arith)
        requires r + 1 <= ih, 0 <= iw;
    assert(4 * iw * ih == ih * iw * 4) by (nonlinear_arith);
}

proof fn lemma_crop_rows_len(data: Seq<u8>, iw: int, ih: int, x: int, y: int, cw: int, rows: int)
    requires
        0 <= rows,
        0 <= cw,
        0 <= x,
        0 <= y,
        x + cw <= iw,
        y + rows <= ih,
        4 * iw * ih <= data.len(),
    ensures
        crop_rows(data, iw, x, y, cw, rows).len() == rows * cw * 4,
    decreases rows,
{
    if rows > 0 {
        let r = y + rows - 1;
        lemma_row_in_image(r, iw, ih, x, cw);
        lemma_crop_rows_len(data, iw, ih, x, y, cw, rows - 1);
        let a = (r * iw + x) * 4;
        let b = (r * iw + x + cw) * 4;
        assert(0 <= a <= b <= data.len());
        assert(data.subrange(a, b).len() == cw * 4);
        assert((rows - 1) * cw * 4 + cw * 4 == rows * cw * 4) by (nonlinear_arith);
    } else {
        assert(rows * cw * 4 == 0) by (nonlinear_arith)
            requires rows == 0;
    }
}

/// Copies the region `(x, y, cw, ch)`, which lies inside the image, out of an
/// RGBA image.
pub fn copy_region(px: &RgbaPixels, x: u32, y: u32, cw: u32, ch: u32) -> (r: RgbaPixels)
    requires
        px.wf(),
        x + cw <= px.width,
        y + ch <= px.height,
    ensures
        r.width == cw,
        r.height == ch,
        r.data@ == crop_rows(px.data@, px.width as int, x as int, y as int, cw as int, ch as int),
        r.wf(),
{
    let iw = px.width as usize;
    let total_len = px.data.len();
    let mut out: Vec<u8> = Vec::new();
    let mut row: u32 = 0;
    proof {
        assert(4 * px.width * px.height <= px.data@.len());
    }
    while row < ch
        invariant
            row <= ch,
            px.wf(),
            x + cw <= px.width,
            y + ch <= px.height,
            iw == px.width,
            total_len == px.data@.len(),
            out@ == crop_rows(px.data@, px.width as int, x as int, y as int, cw as int, row as int),
        decreases ch - row,
    {
        let r = y + row;
        proof {
            lemma_row_in_image(r as int, px.width as int, px.height as int, x as int, cw as int);
        }
        let ghost ri = r as int * px.width as int;
        assert(0 <= ri && (ri + x + cw) * 4 <= px.data@.len());
        let start: usize = ((r as usize) * iw + x as usize) * 4;
        let end: usize = ((r as usize) * iw + x as usize + cw as usize) * 4;
        let ghost before = out@;
        let mut j = start;
        assert(px.data@.subrange(start as int, start as int) =~= Seq::<u8>::empty());
        assert(before + Seq::<u8>::empty() =~= before);
        while j < end
            invariant
                start <= j <= end,
                end <= px.data@.len(),
                out@ == before + px.data@.subrange(start as int, j as int),
            decreases end - j,
        {
            assert(px.data@.subrange(start as int, j + 1) =~= px.data@.subrange(start as int, j as int).push(
                px.data@[j as int],
            ));
            assert(before + px.data@.subrange(start as int, j + 1) =~= (before + px.data@.subrange(
                start as int,
                j as int,
            )).push(px.data@[j as int]));
            out.push(px.data[j]);
            j += 1;
        }
        row += 1;
    }
    proof {
        lemma_crop_rows_len(px.data@, px.width as int, px.height as int, x as int, y as int, cw as int, ch as int);
        assert(ch * cw * 4 == 4 * cw * ch) by (nonlinear_arith);
    }
    RgbaPixels { width: cw, height: ch, data: out }
}

/// Crops an RGBA image as the image crate's `crop_imm` does: the requested
/// region is first clamped into the image, then copied out.
pub fn crop_imm(px: &RgbaPixels, x: u32, y: u32, w: u32, h: u32) -> (r: RgbaPixels)
    requires
        px.wf(),
    ensures
        ({
            let c = clamp_region(x, y, w, h, px.width, px.height);
            &&& r.width == c.2 && r.height == c.3
            &&& r.data@ == crop_rows(px.data@, px.width as int, c.0 as int, c.1 as int, c.2 as int, c.3 as int)
        }),
        r.wf(),
{
    let (cx, cy, cw, ch) = clamp_region_to_image(x, y, w, h, px.width, px.height);
    copy_region(px, cx, cy, cw, ch)
}

/// Cropping the whole image gives back its pixels.
pub proof fn lemma_crop_whole_image(data: Seq<u8>, iw: int, rows: int)
    requires
        0 <= iw,
        0 <= rows,
        4 * iw * rows <= data.len(),
    ensures
        crop_rows(data, iw, 0, 0, iw, rows) == data.take(4 * iw * rows),
    decreases rows,
{
    if rows > 0 {
        assert(4 * iw * (rows - 1) <= 4 * iw * rows) by (nonlinear_arith)
            requires 0 <= iw, 1 <= rows;
        lemma_crop_whole_image(data, iw, rows - 1);
        let r = rows - 1;
        let a = 4 * iw * (rows - 1);
        let b = 4 * iw * rows;
        assert((r * iw + 0) * 4 == a) by (nonlinear_arith)
            requires r == rows - 1, a == 4 * iw * (rows - 1);
        assert((r * iw + 0 + iw) * 4 == b) by (nonlinear_arith)
            requires r == rows - 1, b == 4 * iw * rows;
        assert(0 <= a <= b) by (nonlinear_arith)
            requires a == 4 * iw * (rows - 1), b == 4 * iw * rows, 0 <= iw, 1 <= rows;
        assert(crop_rows(data, iw, 0, 0, iw, rows) == crop_rows(data, iw, 0, 0, iw, rows - 1) + data.subrange(a, b));
        assert(data.take(a) + data.subrange(a, b) =~= data.take(b));
    } else {
        assert(4 * iw * rows == 0) by (nonlinear_arith)
            requires rows == 0;
        assert(data.take(0) =~= Seq::<u8>::empty());
    }
}

} // verus!

verus! {

/// The layout of the raw frames that a screen-cast stream delivers.
#[derive(Debug, Clone)]
pub enum PixelFormat {
    Rgba,
    Rgbx,
    Bgra,
    Bgrx,
    Rgb,
    /// Any other layout, by the name the stream gives it.
    Unsupported(String),
}

/// The RGBA pixel that a four-byte pixel `q` of layout `fmt` stands for: the
/// channels are put in red, green, blue, alpha order, and layouts with an
/// unused fourth byte become opaque.
pub open spec fn rgba_quad(fmt: PixelFormat, q: (u8, u8, u8, u8)) -> (u8, u8, u8, u8) {
    match fmt {
        PixelFormat::Rgbx => (q.0, q.1, q.2, 255u8),
        PixelFormat::Bgra => (q.2, q.1, q.0, q.3),
        PixelFormat::Bgrx => (q.2, q.1, q.0, 255u8),
        _ => q,
    }
}

pub open spec fn quad_at(d: Seq<u8>, k: int) -> (u8, u8, u8, u8) {
    (d[4 * k], d[4 * k + 1], d[4 * k + 2], d[4 * k + 3])
}

/// `out` holds, for every whole four-byte pixel of `d`, that pixel in RGBA order;
/// trailing bytes that make no whole pixel are dropped.
pub open spec fn converted_to_rgba(d: Seq<u8>, out: Seq<u8>, fmt: PixelFormat) -> bool {
    &&& out.len() == 4 * (d.len() / 4)
    &&& forall|k: int| 0 <= k < d.len() / 4 ==> #[trigger] quad_at(out, k) == rgba_quad(fmt, quad_at(d, k))
}

/// Reorders a frame of four-byte pixels of layout `fmt` into RGBA, one whole
/// pixel at a time.
pub fn quads_to_rgba(d: &[u8], fmt: &PixelFormat) -> (out: Vec<u8>)
    ensures
        converted_to_rgba(d@, out@, *fmt),
{
    let len = d.len();
    let n = len / 4;
    let mut out: Vec<u8> = Vec::new();
    let mut k: usize = 0;
    while k < n
        invariant
            n == d@.len() / 4,
            len == d@.len(),
            k <= n,
            out@.len() == 4 * k,
            forall|j: int| 0 <= j < k ==> #[trigger] quad_at(out@, j) == rgba_quad(*fmt, quad_at(d@, j)),
        decreases n - k,
    {
        let i = 4 * k;
        let q = (d[i], d[i + 1], d[i + 2], d[i + 3]);
        let p: (u8, u8, u8, u8) = match fmt {
            PixelFormat::Rgbx => (q.0, q.1, q.2, 255u8),
            PixelFormat::Bgra => (q.2, q.1, q.0, q.3),
            PixelFormat::Bgrx => (q.2, q.1, q.0, 255u8),
            _ => q,
        };
        assert(q == quad_at(d@, k as int));
        let ghost prev = out@;
        out.push(p.0);
        out.push(p.1);
        out.push(p.2);
        out.push(p.3);
        assert forall|j: int| 0 <= j < k + 1 implies #[trigger] quad_at(out@, j) == rgba_quad(
            *fmt,
            quad_at(d@, j),
        ) by {
            if j < k {
                assert(quad_at(out@, j) == quad_at(prev, j));
            }
        }
        k += 1;
    }
    out
}

/// Reading a BGRA frame as RGBA swaps red and blue; doing it twice gives the
/// frame back.
pub proof fn lemma_bgra_swap_is_involution(d: Seq<u8>, once: Seq<u8>, twice: Seq<u8>)
    requires
        d.len() % 4 == 0,
        converted_to_rgba(d, once, PixelFormat::Bgra),
        converted_to_rgba(once, twice, PixelFormat::Bgra),
    ensures
        twice == d,
{
    assert(once.len() == d.len());
    assert(once.len() / 4 == d.len() / 4);
    assert forall|i: int| 0 <= i < d.len() implies twice[i] == d[i] by {
        let k = i / 4;
        assert(0 <= k < d.len() / 4);
        assert(quad_at(twice, k) == rgba_quad(PixelFormat::Bgra, quad_at(once, k)));
        assert(quad_at(once, k) == rgba_quad(PixelFormat::Bgra, quad_at(d, k)));
        assert(i == 4 * k + i % 4);
    }
    assert(twice =~= d);
}

} // verus!
