use crate::blocks::{block_avg_pixel, block_sum, chan, row_sum};
use crate::codec::{
    decoded_height, decoded_pix_num, decoded_pixel, decoded_width, decodes, encode_bytes,
    header_to_short, length_mismatched, lemma_pixels_bytes_snoc, magic, magic_missing,
};
use crate::error::Error;
use crate::pixel::Pixel;
use vstd::arithmetic::div_mod::lemma_fundamental_div_mod;
use vstd::prelude::*;

verus! {

/// A raster image: two declared dimensions and a row-major pixel sequence.
/// The pixel at column `x` of row `y` sits at index `x + y * width`.
#[derive(Debug)]
pub struct Image {
    pub width: u32,
    pub height: u32,
    pub pixels: Vec<Pixel>,
}

impl Image {
    /// The structural invariant: the pixel sequence holds exactly one pixel
    /// per declared coordinate.
    pub open spec fn wf(&self) -> bool {
        self.pixels@.len() == self.width as int * self.height as int
    }

    /// Builds a `width` by `height` image whose every pixel is opaque black.
    pub fn new(width: u32, height: u32) -> (r: Image)
        ensures
            r.width == width,
            r.height == height,
            r.wf(),
            forall|j: int|
                0 <= j < r.pixels@.len() ==> r.pixels@[j] == (Pixel {
                    r: 0u16,
                    g: 0u16,
                    b: 0u16,
                    a: 0xFFFFu16,
                }),
    {
        proof {
            assert((width as int) * (height as int) <= 0xFFFF_FFFF * 0xFFFF_FFFF)
                by (nonlinear_arith)
                requires
                    width <= 0xFFFF_FFFFu32,
                    height <= 0xFFFF_FFFFu32,
            ;
        }
        let pix_num: u64 = width as u64 * height as u64;
        let mut pixels: Vec<Pixel> = Vec::new();
        let mut i: u64 = 0;
        while i < pix_num
            invariant
                i <= pix_num,
                pix_num == width as int * height as int,
                pixels@.len() == i,
                forall|j: int|
                    0 <= j < i ==> pixels@[j] == (Pixel { r: 0u16, g: 0u16, b: 0u16, a: 0xFFFFu16 }),
            decreases pix_num - i,
        {
            pixels.push(Pixel { r: 0, g: 0, b: 0, a: 0xFFFF });
            i = i + 1;
        }
        Image { width, height, pixels }
    }

    /// Parses one whole encoded stream. Succeeds exactly on the streams that
    /// `crate::codec::decodes` admits, and then returns the declared
    /// dimensions with the first `width * height` pixels the stream carries;
    /// trailing bytes are ignored. Each failure kind names its own cause.
    pub fn decode(data: &[u8]) -> (r: Result<Image, Error>)
        ensures
            r is Ok <==> decodes(data@),
            match r {
                Ok(im) => im.wf() && im.width as int == decoded_width(data@) && im.height as int
                    == decoded_height(data@) && im.pixels@.len() == decoded_pix_num(data@)
                    && forall|j: int|
                    0 <= j < im.pixels@.len() ==> im.pixels@[j] == decoded_pixel(data@, j),
                Err(e) => (e == Error::HeaderToShort <==> header_to_short(data@)) && (e
                    == Error::FarbfeldPatternNotFound <==> magic_missing(data@)) && (e
                    == Error::MismatchedLength <==> length_mismatched(data@)),
            },
    {
        if data.len() < 16 {
            return Err(Error::HeaderToShort);
        }
        if !(data[0] == 102 && data[1] == 97 && data[2] == 114 && data[3] == 98 && data[4] == 102
            && data[5] == 101 && data[6] == 108 && data[7] == 100) {
            proof {
                assert(data@.subrange(0, 8) != magic());
            }
            return Err(Error::FarbfeldPatternNotFound);
        }
        proof {
            assert(data@.subrange(0, 8) =~= magic());
        }
        let width: u32 = (data[8] as u32) * 0x1000000 + (data[9] as u32) * 0x10000 + (data[10]
            as u32) * 0x100 + (data[11] as u32);
        let height: u32 = (data[12] as u32) * 0x1000000 + (data[13] as u32) * 0x10000 + (data[14]
            as u32) * 0x100 + (data[15] as u32);
        proof {
            assert((width as int) * (height as int) <= 0xFFFF_FFFF * 0xFFFF_FFFF)
                by (nonlinear_arith)
                requires
                    width <= 0xFFFF_FFFFu32,
                    height <= 0xFFFF_FFFFu32,
            ;
        }
        let pix_num: u64 = width as u64 * height as u64;
        let avail: usize = (data.len() - 16) / 8;
        if pix_num > avail as u64 {
            return Err(Error::MismatchedLength);
        }
        proof {
            lemma_fundamental_div_mod(data@.len() - 16, 8);
        }
        let k: usize = pix_num as usize;
        let mut pixels: Vec<Pixel> = Vec::new();
        let mut j: usize = 0;
        while j < k
            invariant
                j <= k,
                k as int == decoded_pix_num(data@),
                data@.len() >= 16 + 8 * (k as int),
                data@.len() <= usize::MAX,
                pixels@.len() == j,
                forall|t: int| 0 <= t < j ==> pixels@[t] == decoded_pixel(data@, t),
            decreases k - j,
        {
            let off: usize = 16 + 8 * j;
            let r: u16 = (data[off] as u16) * 0x100 + (data[off + 1] as u16);
            let g: u16 = (data[off + 2] as u16) * 0x100 + (data[off + 3] as u16);
            let b: u16 = (data[off + 4] as u16) * 0x100 + (data[off + 5] as u16);
            let a: u16 = (data[off + 6] as u16) * 0x100 + (data[off + 7] as u16);
            pixels.push(Pixel { r, g, b, a });
            j = j + 1;
        }
        Ok(Image { width, height, pixels })
    }

    /// Serializes the image: the magic bytes, the two declared dimensions in
    /// big-endian order, then every stored pixel, channel by channel. The
    /// declared dimensions are written as they stand, whether or not they
    /// match the pixel count.
    pub fn encode(&self) -> (r: Vec<u8>)
        ensures
            r@ == encode_bytes(self.width, self.height, self.pixels@),
    {
        let mut out: Vec<u8> = Vec::new();
        out.push(102);
        out.push(97);
        out.push(114);
        out.push(98);
        out.push(102);
        out.push(101);
        out.push(108);
        out.push(100);
        proof {
            assert(out@ =~= magic());
        }
        crate::bytes::push_u32_be(&mut out, self.width);
        crate::bytes::push_u32_be(&mut out, self.height);
        let mut i: usize = 0;
        while i < self.pixels.len()
            invariant
                i <= self.pixels@.len(),
                out@ == encode_bytes(self.width, self.height, self.pixels@.take(i as int)),
            decreases self.pixels@.len() - i,
        {
            let p: Pixel = self.pixels[i];
            crate::bytes::push_u16_be(&mut out, p.r);
            crate::bytes::push_u16_be(&mut out, p.g);
            crate::bytes::push_u16_be(&mut out, p.b);
            crate::bytes::push_u16_be(&mut out, p.a);
            proof {
                lemma_pixels_bytes_snoc(self.pixels@, i as int);
                assert(out@ =~= encode_bytes(
                    self.width,
                    self.height,
                    self.pixels@.take(i as int + 1),
                ));
            }
            i = i + 1;
        }
        proof {
            assert(self.pixels@.take(self.pixels@.len() as int) =~= self.pixels@);
        }
        out
    }

    /// Downsamples by merging each `merge_value` by `merge_value` block of
    /// source pixels into one output pixel whose channels are the floor
    /// averages over the block, accumulated in 64 bits. Fails exactly when
    /// the factor is zero or does not evenly divide both dimensions. The
    /// second precondition keeps a block's channel sum within the 64-bit
    /// accumulators.
    #[verifier::loop_isolation(false)]
    pub fn pixelize(&self, merge_value: u32) -> (r: Result<Image, Error>)
        requires
            self.wf(),
            (merge_value as int) * (merge_value as int) * 0xFFFF <= u64::MAX,
        ensures
            r is Ok <==> (merge_value != 0 && self.width % merge_value == 0 && self.height
                % merge_value == 0),
            match r {
                Ok(out) => out.wf() && out.width == self.width / merge_value && out.height
                    == self.height / merge_value && forall|x: int, y: int|
                    0 <= x < out.width as int && 0 <= y < out.height as int
                        ==> out.pixels@[x + y * out.width as int] == block_avg_pixel(
                        self.pixels@,
                        self.width as int,
                        x,
                        y,
                        merge_value as int,
                    ),
                Err(e) => e == Error::NonExactMultiple,
            },
    {
        if merge_value == 0 {
            return Err(Error::NonExactMultiple);
        }
        if self.width % merge_value != 0 || self.height % merge_value != 0 {
            return Err(Error::NonExactMultiple);
        }
        let f: u32 = merge_value;
        let w: u32 = self.width;
        let h: u32 = self.height;
        let ow: u32 = w / f;
        let oh: u32 = h / f;
        proof {
            lemma_fundamental_div_mod(w as int, f as int);
            lemma_fundamental_div_mod(h as int, f as int);
            assert(1 <= (f as int) * (f as int) && (f as int) * (f as int) <= (f as int) * (
            f as int) * 0xFFFF) by (nonlinear_arith)
                requires
                    1 <= f as int,
            ;
        }
        let ff: u64 = (f as u64) * (f as u64);
        let n: usize = self.pixels.len();
        let mut pixels: Vec<Pixel> = Vec::new();
        let mut y: u32 = 0;
        while y < oh
            invariant
                y <= oh,
                pixels@.len() == y as int * ow as int,
                forall|xx: int, yy: int|
                    0 <= xx < ow as int && 0 <= yy < y as int ==> pixels@[xx + yy * ow as int]
                        == block_avg_pixel(self.pixels@, w as int, xx, yy, f as int),
            decreases oh - y,
        {
            let mut x: u32 = 0;
            while x < ow
                invariant
                    x <= ow,
                    y < oh,
                    pixels@.len() == y as int * ow as int + x as int,
                    forall|xx: int, yy: int|
                        (0 <= xx < ow as int && 0 <= yy < y as int) || (0 <= xx < x as int && yy
                            == y as int) ==> pixels@[xx + yy * ow as int] == block_avg_pixel(
                            self.pixels@,
                            w as int,
                            xx,
                            yy,
                            f as int,
                        ),
                decreases ow - x,
            {
                proof {
                    assert(x as int * f as int + f as int <= w as int && 0 <= x as int * f as int)
                        by (nonlinear_arith)
                        requires
                            0 <= x as int,
                            (x as int) < ow as int,
                            1 <= f as int,
                            w as int == f as int * ow as int,
                    ;
                    assert(y as int * f as int + f as int <= h as int && 0 <= y as int * f as int)
                        by (nonlinear_arith)
                        requires
                            0 <= y as int,
                            (y as int) < oh as int,
                            1 <= f as int,
                            h as int == f as int * oh as int,
                    ;
                }
                let x0: u32 = x * f;
                let y0: u32 = y * f;
                let mut sr: u64 = 0;
                let mut sg: u64 = 0;
                let mut sb: u64 = 0;
                let mut sa: u64 = 0;
                let mut dy: u32 = 0;
                while dy < f
                    invariant
                        dy <= f,
                        sr == block_sum(self.pixels@, w as int, x0 as int, y0 as int, f as int, dy as int, 0),
                        sg == block_sum(self.pixels@, w as int, x0 as int, y0 as int, f as int, dy as int, 1),
                        sb == block_sum(self.pixels@, w as int, x0 as int, y0 as int, f as int, dy as int, 2),
                        sa == block_sum(self.pixels@, w as int, x0 as int, y0 as int, f as int, dy as int, 3),
                        sr <= dy as int * f as int * 0xFFFF,
                        sg <= dy as int * f as int * 0xFFFF,
                        sb <= dy as int * f as int * 0xFFFF,
                        sa <= dy as int * f as int * 0xFFFF,
                    decreases f - dy,
                {
                    let row: u32 = y0 + dy;
                    let mut dx: u32 = 0;
                    while dx < f
                        invariant
                            dx <= f,
                            dy < f,
                            sr == block_sum(self.pixels@, w as int, x0 as int, y0 as int, f as int, dy as int, 0)
                                + row_sum(self.pixels@, w as int, row as int, x0 as int, dx as int, 0),
                            sg == block_sum(self.pixels@, w as int, x0 as int, y0 as int, f as int, dy as int, 1)
                                + row_sum(self.pixels@, w as int, row as int, x0 as int, dx as int, 1),
                            sb == block_sum(self.pixels@, w as int, x0 as int, y0 as int, f as int, dy as int, 2)
                                + row_sum(self.pixels@, w as int, row as int, x0 as int, dx as int, 2),
                            sa == block_sum(self.pixels@, w as int, x0 as int, y0 as int, f as int, dy as int, 3)
                                + row_sum(self.pixels@, w as int, row as int, x0 as int, dx as int, 3),
                            sr <= (dy as int * f as int + dx as int) * 0xFFFF,
                            sg <= (dy as int * f as int + dx as int) * 0xFFFF,
                            sb <= (dy as int * f as int + dx as int) * 0xFFFF,
                            sa <= (dy as int * f as int + dx as int) * 0xFFFF,
                        decreases f - dx,
                    {
                        let col: u32 = x0 + dx;
                        proof {
                            assert((col as int) + (row as int) * (w as int)
                                < (w as int) * (h as int) && 0 <= (row as int) * (w as int)
                                && (col as int) + (row as int) * (w as int)
                                <= 0xFFFF_FFFF + 0xFFFF_FFFF * 0xFFFF_FFFF)
                                by (nonlinear_arith)
                                requires
                                    0 <= col as int && (col as int) < w as int,
                                    0 <= row as int && (row as int) < h as int,
                                    w <= 0xFFFF_FFFFu32,
                                    h <= 0xFFFF_FFFFu32,
                            ;
                        }
                        let idx64: u64 = col as u64 + (row as u64) * (w as u64);
                        let idx: usize = idx64 as usize;
                        let p: Pixel = self.pixels[idx];
                        proof {
                            let s = self.pixels@;
                            let pos: int = (x0 as int) + (dx as int) + (row as int) * (w as int);
                            assert(idx as int == pos);
                            assert(p == s[pos]);
                            assert(row_sum(s, w as int, row as int, x0 as int, dx as int + 1, 0)
                                == row_sum(s, w as int, row as int, x0 as int, dx as int, 0)
                                + chan(s[pos], 0));
                            assert(row_sum(s, w as int, row as int, x0 as int, dx as int + 1, 1)
                                == row_sum(s, w as int, row as int, x0 as int, dx as int, 1)
                                + chan(s[pos], 1));
                            assert(row_sum(s, w as int, row as int, x0 as int, dx as int + 1, 2)
                                == row_sum(s, w as int, row as int, x0 as int, dx as int, 2)
                                + chan(s[pos], 2));
                            assert(row_sum(s, w as int, row as int, x0 as int, dx as int + 1, 3)
                                == row_sum(s, w as int, row as int, x0 as int, dx as int, 3)
                                + chan(s[pos], 3));
                        }
                        proof {
                            assert((dy as int * f as int + dx as int + 1) * 0xFFFF <= (f as int) * (
                            f as int) * 0xFFFF && (dy as int * f as int + dx as int) * 0xFFFF
                                + 0xFFFF == (dy as int * f as int + dx as int + 1) * 0xFFFF)
                                by (nonlinear_arith)
                                requires
                                    0 <= dx as int && (dx as int) < f as int,
                                    0 <= dy as int && (dy as int) < f as int,
                            ;
                        }
                        sr = sr + p.r as u64;
                        sg = sg + p.g as u64;
                        sb = sb + p.b as u64;
                        sa = sa + p.a as u64;
                        dx = dx + 1;
                    }
                    proof {
                        assert(dy as int * f as int + f as int == (dy as int + 1) * f as int)
                            by (nonlinear_arith);
                    }
                    dy = dy + 1;
                }
                let pr: u64 = sr / ff;
                let pg: u64 = sg / ff;
                let pb: u64 = sb / ff;
                let pa: u64 = sa / ff;
                let px = Pixel { r: pr as u16, g: pg as u16, b: pb as u16, a: pa as u16 };
                proof {
                    assert(px == block_avg_pixel(self.pixels@, w as int, x as int, y as int, f as int));
                }
                let ghost prev = pixels@;
                pixels.push(px);
                proof {
                    assert forall|xx: int, yy: int|
                        (0 <= xx < ow as int && 0 <= yy < y as int) || (0 <= xx < x as int + 1 && yy
                            == y as int) implies pixels@[xx + yy * ow as int] == block_avg_pixel(
                        self.pixels@,
                        w as int,
                        xx,
                        yy,
                        f as int,
                    ) by {
                        if yy < y as int {
                            assert(xx + yy * (ow as int) < (y as int) * (ow as int)) by (nonlinear_arith)
                                requires
                                    0 <= xx < ow as int,
                                    0 <= yy,
                                    yy + 1 <= y as int,
                            ;
                            assert(pixels@[xx + yy * ow as int] == prev[xx + yy * ow as int]);
                        } else if xx < x as int {
                            assert(pixels@[xx + yy * ow as int] == prev[xx + yy * ow as int]);
                        } else {
                            assert(xx + yy * ow as int == prev.len());
                        }
                    }
                }
                x = x + 1;
            }
            proof {
                assert(y as int * ow as int + ow as int == (y as int + 1) * ow as int)
                    by (nonlinear_arith);
            }
            y = y + 1;
        }
        proof {
            assert(oh as int * ow as int == ow as int * oh as int) by (nonlinear_arith);
        }
        Ok(Image { width: ow, height: oh, pixels })
    }
}

} // verus!
