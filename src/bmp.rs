//! A minimal 24-bit uncompressed BMP image: construction, encoding and decoding.
use vstd::prelude::*;
use crate::le::{le_u16, le_u32, lemma_le_u32_value, push_le_u16, push_le_u32};
use vstd::arithmetic::div_mod::{
    lemma_fundamental_div_mod,
    lemma_fundamental_div_mod_converse,
    lemma_multiply_divide_lt,
};

verus! {

/// One pixel of an image, eight bits per channel.
#[derive(Clone, Copy, Debug, PartialEq, Eq, Structural)]
pub struct MinirtBmpPixel {
    pub r: u8,
    pub g: u8,
    pub b: u8,
}

/// Why an image could not be encoded or decoded.
#[derive(Clone, Copy, Debug, PartialEq, Eq, Structural)]
pub enum BmpError {
    /// The buffer is no longer than a header, or does not start with `BM`.
    InvalidFormat,
    /// The buffer is shorter than the pixel rows that its header announces.
    InvalidSize,
    /// The image is too large for the fields of a BMP header.
    TooLarge,
}

/// An image as width, height and pixels in row-major order, top row first.
pub struct BmpView {
    pub width: nat,
    pub height: nat,
    pub pixels: Seq<MinirtBmpPixel>,
}

impl BmpView {
    pub open spec fn wf(self) -> bool {
        self.pixels.len() == self.width * self.height
    }

    /// The image fits the header: dimensions and file size in `u32`.
    pub open spec fn fits(self) -> bool {
        &&& self.width <= u32::MAX
        &&& self.height <= u32::MAX
        &&& 54 + row_size(self.width) * self.height <= u32::MAX
    }
}

/// An image of `width` by `height` pixels.
#[derive(Debug, PartialEq)]
pub struct MinirtBmp {
    width: usize,
    height: usize,
    extra: Vec<MinirtBmpPixel>,
}

impl View for MinirtBmp {
    type V = BmpView;

    closed spec fn view(&self) -> BmpView {
        BmpView { width: self.width as nat, height: self.height as nat, pixels: self.extra@ }
    }
}

impl MinirtBmp {
    #[verifier::type_invariant]
    spec fn inv(self) -> bool {
        self@.wf()
    }

    /// Builds a `width` by `height` image whose pixel at column `x`, row `y` is `fill(x, y)`.
    #[verifier::rlimit(30)]
    #[verifier::spinoff_prover]
    pub fn new<F: Fn(usize, usize) -> MinirtBmpPixel>(width: usize, height: usize, fill: F) -> (r:
        MinirtBmp)
        requires
            width * height <= usize::MAX,
            forall|x: usize, y: usize| x < width && y < height ==> fill.requires((x, y)),
        ensures
            r@.width == width,
            r@.height == height,
            r@.pixels.len() == width * height,
            forall|x: int, y: int|
                0 <= x < width && 0 <= y < height ==> fill.ensures(
                    (x as usize, y as usize),
                    #[trigger] r@.pixels[y * width + x],
                ),
    {
        let mut extra: Vec<MinirtBmpPixel> = Vec::with_capacity(width * height);
        let mut y: usize = 0;
        while y < height
            invariant
                y <= height,
                width * height <= usize::MAX,
                extra@.len() == y * width,
                forall|x: usize, y: usize| x < width && y < height ==> fill.requires((x, y)),
                forall|i: int, j: int|
                    0 <= i < width && 0 <= j < y ==> fill.ensures(
                        (i as usize, j as usize),
                        #[trigger] extra@[j * width + i],
                    ),
            decreases height - y,
        {
            let mut x: usize = 0;
            assert(y * width + width <= width * height) by (nonlinear_arith)
                requires
                    y < height,
            ;
            while x < width
                invariant
                    x <= width,
                    y < height,
                    y * width + width <= width * height,
                    width * height <= usize::MAX,
                    extra@.len() == y * width + x,
                    forall|x: usize, y: usize| x < width && y < height ==> fill.requires((x, y)),
                    forall|i: int, j: int|
                        0 <= i < width && 0 <= j < y ==> fill.ensures(
                            (i as usize, j as usize),
                            #[trigger] extra@[j * width + i],
                        ),
                    forall|i: int|
                        0 <= i < x ==> fill.ensures(
                            (i as usize, y),
                            #[trigger] extra@[y * width + i],
                        ),
                decreases width - x,
            {
                let p = fill(x, y);
                let ghost before = extra@;
                extra.push(p);
                assert forall|i: int, j: int|
                    0 <= i < width && 0 <= j < y implies fill.ensures(
                        (i as usize, j as usize),
                        #[trigger] extra@[j * width + i],
                    ) by {
                    assert(j * width + i < y * width) by (nonlinear_arith)
                        requires
                            0 <= i < width,
                            0 <= j < y,
                    ;
                    assert(extra@[j * width + i] == before[j * width + i]);
                }
                x += 1;
            }
            proof {
                assert forall|i: int, j: int|
                    0 <= i < width && 0 <= j < y + 1 implies fill.ensures(
                        (i as usize, j as usize),
                        #[trigger] extra@[j * width + i],
                    ) by {
                    if j == y {
                        assert(fill.ensures((i as usize, y), extra@[y * width + i]));
                    }
                }
                assert((y + 1) * width == y * width + width) by (nonlinear_arith);
            }
            y += 1;
        }
        assert(extra@.len() == width * height) by (nonlinear_arith)
            requires
                y == height,
                extra@.len() == y * width,
        ;
        MinirtBmp { width, height, extra }
    }

    /// The number of columns.
    pub fn width(&self) -> (r: usize)
        ensures
            r == self@.width,
    {
        self.width
    }

    /// The number of rows.
    pub fn height(&self) -> (r: usize)
        ensures
            r == self@.height,
    {
        self.height
    }

    /// The pixel at column `x`, row `y`.
    pub fn get(&self, x: usize, y: usize) -> (r: MinirtBmpPixel)
        requires
            x < self@.width,
            y < self@.height,
        ensures
            r == self@.pixels[y * self@.width + x],
    {
        proof {
            use_type_invariant(self);
        }
        let n = self.extra.len();
        assert(y * self.width + x < self.width * self.height) by (nonlinear_arith)
            requires
                x < self.width,
                y < self.height,
        ;
        self.extra[y * self.width + x]
    }

    /// Writes stored row `j`: image row `height - 1 - j`, then its padding.
    #[verifier::rlimit(30)]
    #[verifier::spinoff_prover]
    fn write_row(&self, out: &mut Vec<u8>, j: usize, pad64: u64)
        requires
            j < self@.height,
            pad64 == row_padding(self@.width),
        ensures
            final(out)@ == old(out)@ + Seq::new(
                row_size(self@.width),
                |k: int| body_byte(self@, j * row_size(self@.width) + k),
            ),
    {
        proof {
            use_type_invariant(self);
        }
        let ghost v = self@;
        let ghost rs = row_size(v.width) as int;
        let n = self.extra.len();
        let y = self.height - 1 - j;
        assert(y * self.width + self.width <= self.width * self.height) by (nonlinear_arith)
            requires
                y < self.height,
        ;
        let mut x: usize = 0;
        while x < self.width
            invariant
                x <= self.width,
                j < self.height,
                y == self.height - 1 - j,
                y * self.width + self.width <= self.width * self.height,
                n == self.width * self.height,
                v == self@,
                v.wf(),
                rs == row_size(v.width),
                out@ =~= old(out)@ + Seq::new((3 * x) as nat, |k: int| body_byte(v, j * rs + k)),
            decreases self.width - x,
        {
            let p = self.extra[y * self.width + x];
            proof {
                lemma_body_byte_pixel(v, j as int, x as int, 0);
                lemma_body_byte_pixel(v, j as int, x as int, 1);
                lemma_body_byte_pixel(v, j as int, x as int, 2);
            }
            out.push(p.b);
            out.push(p.g);
            out.push(p.r);
            x += 1;
        }
        let mut q: u64 = 0;
        while q < pad64
            invariant
                q <= pad64,
                j < self.height,
                pad64 == row_padding(v.width),
                v == self@,
                rs == row_size(v.width),
                out@ =~= old(out)@ + Seq::new(
                    (3 * v.width + q) as nat,
                    |k: int| body_byte(v, j * rs + k),
                ),
            decreases pad64 - q,
        {
            proof {
                lemma_body_byte_padding(v, j as int, q as int);
            }
            out.push(0u8);
            q += 1;
        }
    }

    /// Writes the pixel rows after a header, bottom row first.
    #[verifier::rlimit(30)]
    #[verifier::spinoff_prover]
    fn write_rows(&self, out: &mut Vec<u8>, pad64: u64)
        requires
            self@.fits(),
            old(out)@ == header(self@.width, self@.height),
            pad64 == row_padding(self@.width),
        ensures
            final(out)@ == encode(self@),
    {
        proof {
            use_type_invariant(self);
        }
        let ghost v = self@;
        let ghost rs = row_size(v.width) as int;
        let ghost hd = header(v.width, v.height);
        assert(out@ =~= hd + Seq::new(0, |k: int| body_byte(v, k)));
        let mut j: usize = 0;
        while j < self.height
            invariant
                j <= self.height,
                v == self@,
                v.wf(),
                rs == row_size(v.width),
                hd == header(v.width, v.height),
                pad64 == row_padding(v.width),
                out@ == hd + Seq::new((j * rs) as nat, |k: int| body_byte(v, k)),
            decreases self.height - j,
        {
            self.write_row(out, j, pad64);
            proof {
                lemma_rows_extend(v, j as int, hd);
            }
            j += 1;
        }
        assert(j * rs == row_size(v.width) * v.height) by (nonlinear_arith)
            requires
                j == v.height,
                rs == row_size(v.width),
        ;
        assert(out@ =~= encode(v));
    }

    /// Encodes the image as a BMP file; fails only when the image does not fit
    /// the header's fields.
    #[verifier::rlimit(30)]
    #[verifier::spinoff_prover]
    pub fn serialize(&self) -> (r: Result<Vec<u8>, BmpError>)
        ensures
            match r {
                Ok(bytes) => self@.fits() && bytes@ == encode(self@),
                Err(e) => !self@.fits() && e == BmpError::TooLarge,
            },
    {
        proof {
            use_type_invariant(self);
        }
        let body = match body_size(self.width, self.height) {
            Some(body) => body,
            None => {
                return Err(BmpError::TooLarge);
            },
        };
        let pad64 = (4 - (self.width as u64 * 3) % 4) % 4;
        let mut result: Vec<u8> = Vec::with_capacity(54 + body as usize);
        write_header(&mut result, self.width as u32, self.height as u32, body);
        self.write_rows(&mut result, pad64);
        Ok(result)
    }

    /// Decodes a BMP file: its header gives width and height (the magnitudes of
    /// the stored `i32` fields), its rows hold the pixels bottom row first.
    #[verifier::rlimit(30)]
    #[verifier::spinoff_prover]
    pub fn deserialize(buffer: &[u8]) -> (r: Result<MinirtBmp, BmpError>)
        ensures
            match r {
                Ok(bmp) => decode(buffer@) == Ok::<BmpView, BmpError>(bmp@),
                Err(e) => decode(buffer@) == Err::<BmpView, BmpError>(e),
            },
    {
        if buffer.len() <= 54 || buffer[0] != 66u8 || buffer[1] != 77u8 {
            return Err(BmpError::InvalidFormat);
        }
        let ghost b = buffer@;
        let len = buffer.len();
        let w64 = abs_i32_le(buffer, 18);
        let h64 = abs_i32_le(buffer, 22);
        let ghost w = w64 as nat;
        let ghost h = h64 as nat;
        let pad64: u64 = (4 - (w64 * 3) % 4) % 4;
        let rs64: u64 = w64 * 3 + pad64;
        assert(rs64 * h64 <= 0xC000_0002_0000_0000) by (nonlinear_arith)
            requires
                rs64 <= 0x1_8000_0003,
                h64 <= 0x8000_0000,
        ;
        let need: u128 = 54 + (rs64 * h64) as u128;
        if (buffer.len() as u128) + (pad64 as u128) < need {
            return Err(BmpError::InvalidSize);
        }
        let ghost rs = rs64 as int;
        let width = w64 as usize;
        let height = h64 as usize;
        let mut extra: Vec<MinirtBmpPixel> = Vec::new();
        if height > 0 {
            assert(rs * (h - 1) + 3 * w + 54 <= b.len() && 3 * w * h <= rs * (h - 1) + 3 * w)
                by (nonlinear_arith)
                requires
                    rs * h + 54 <= b.len() + rs - 3 * w,
                    h >= 1,
                    rs >= 3 * w,
            ;
            let rs_u = rs64 as usize;
            let mut j: usize = 0;
            while j < height
                invariant
                    0 < height,
                    j <= height,
                    width == w,
                    height == h,
                    rs_u == rs,
                    rs == row_size(w),
                    b == buffer@,
                    len == b.len(),
                    rs * (h - 1) + 3 * w + 54 <= b.len(),
                    3 * w * h <= rs * (h - 1) + 3 * w,
                    extra@.len() == j * w,
                    forall|k: int|
                        0 <= k < j * w ==> #[trigger] extra@[k] == pixel_at(
                            b,
                            54 + (h - 1 - k / (w as int)) * rs + 3 * (k % (w as int)),
                        ),
                decreases height - j,
            {
                let y = height - 1 - j;
                assert(y * rs + 3 * w + 54 <= b.len()) by (nonlinear_arith)
                    requires
                        rs * (h - 1) + 3 * w + 54 <= b.len(),
                        0 <= y <= h - 1,
                        rs >= 0,
                ;
                assert(j * w + w <= w * h) by (nonlinear_arith)
                    requires
                        j < h,
                ;
                let row = 54 + y * rs_u;
                let mut x: usize = 0;
                while x < width
                    invariant
                        x <= width,
                        j < height,
                        y == height - 1 - j,
                        width == w,
                        height == h,
                        row == 54 + y * rs,
                        row + 3 * w <= b.len(),
                        b == buffer@,
                        len == b.len(),
                        extra@.len() == j * w + x,
                        j * w + w <= w * h,
                        3 * w * h <= rs * (h - 1) + 3 * w,
                        forall|k: int|
                            0 <= k < j * w + x ==> #[trigger] extra@[k] == pixel_at(
                                b,
                                54 + (h - 1 - k / (w as int)) * rs + 3 * (k % (w as int)),
                            ),
                    decreases width - x,
                {
                    let at = row + 3 * x;
                    let p = MinirtBmpPixel { r: buffer[at + 2], g: buffer[at + 1], b: buffer[at] };
                    proof {
                        lemma_fundamental_div_mod_converse(
                            (j * w + x) as int,
                            w as int,
                            j as int,
                            x as int,
                        );
                    }
                    extra.push(p);
                    x += 1;
                }
                assert((j + 1) * w == j * w + w) by (nonlinear_arith);
                j += 1;
            }
            assert(j * w == w * h) by (nonlinear_arith)
                requires
                    j == h,
            ;
        } else {
            assert(w * h == 0) by (nonlinear_arith)
                requires
                    h == 0,
            ;
        }
        let bmp = MinirtBmp { width, height, extra };
        assert(bmp@.pixels =~= decode(b)->Ok_0.pixels);
        Ok(bmp)
    }
}

/// Bytes of padding that close a stored row of `width` pixels on a four-byte boundary.
pub open spec fn row_padding(width: nat) -> nat {
    ((4 - (width * 3) % 4) % 4) as nat
}

/// Bytes of one stored row, padding included.
pub open spec fn row_size(width: nat) -> nat {
    width * 3 + row_padding(width)
}

/// The 54 bytes of file and info header for an image of `width` by `height`.
pub open spec fn header(width: nat, height: nat) -> Seq<u8> {
    let body = row_size(width) * height;
    seq![66u8, 77u8] + le_u32(54 + body) + le_u32(0) + le_u32(54) + le_u32(40) + le_u32(width)
        + le_u32(height) + le_u16(1) + le_u16(24) + le_u32(0) + le_u32(body) + le_u32(0)
        + le_u32(0) + le_u32(24) + le_u32(0)
}

/// Channel `c` of a pixel in file order: blue, green, red.
pub open spec fn channel(p: MinirtBmpPixel, c: int) -> u8 {
    if c == 0 {
        p.b
    } else if c == 1 {
        p.g
    } else {
        p.r
    }
}

/// Byte `k` of the pixel rows: rows are stored bottom row first, each pixel as
/// blue, green, red, each row padded with zeros.
pub open spec fn body_byte(v: BmpView, k: int) -> u8 {
    let rs = row_size(v.width) as int;
    let row = k / rs;
    let col = k % rs;
    if col < 3 * v.width {
        channel(v.pixels[(v.height - 1 - row) * v.width + col / 3], col % 3)
    } else {
        0u8
    }
}

/// The file that encodes `v`.
pub open spec fn encode(v: BmpView) -> Seq<u8> {
    header(v.width, v.height) + Seq::new(row_size(v.width) * v.height, |k: int| body_byte(v, k))
}

/// The magnitude of the little-endian `i32` at `at`.
pub open spec fn abs_i32_at(b: Seq<u8>, at: int) -> nat {
    let u = b[at] + 256 * b[at + 1] + 65536 * b[at + 2] + 16777216 * b[at + 3];
    if u < 0x8000_0000 {
        u as nat
    } else {
        (0x1_0000_0000 - u) as nat
    }
}

/// The pixel stored blue, green, red from `at`.
pub open spec fn pixel_at(b: Seq<u8>, at: int) -> MinirtBmpPixel {
    MinirtBmpPixel { r: b[at + 2], g: b[at + 1], b: b[at] }
}

/// What decoding the file `b` gives.
pub open spec fn decode(b: Seq<u8>) -> Result<BmpView, BmpError> {
    if b.len() <= 54 || b[0] != 66u8 || b[1] != 77u8 {
        Err(BmpError::InvalidFormat)
    } else {
        let w = abs_i32_at(b, 18);
        let h = abs_i32_at(b, 22);
        let wi = w as int;
        let rs = row_size(w) as int;
        if b.len() < 54 + rs * h - row_padding(w) {
            Err(BmpError::InvalidSize)
        } else {
            Ok(
                BmpView {
                    width: w,
                    height: h,
                    pixels: Seq::new(
                        w * h,
                        |k: int| pixel_at(b, 54 + (h - 1 - k / wi) * rs + 3 * (k % wi)),
                    ),
                },
            )
        }
    }
}

/// Decoding the encoding of a non-empty image that fits the header gives the
/// image back, where its dimensions also fit the decoder's `i32` fields.
pub proof fn lemma_decode_encode(v: BmpView)
    requires
        v.wf(),
        v.fits(),
        v.width <= i32::MAX,
        v.height <= i32::MAX,
        v.width > 0,
        v.height > 0,
    ensures
        decode(encode(v)) == Ok::<BmpView, BmpError>(v),
{
    let e = encode(v);
    lemma_encode_header(v);
    let d = decode(e)->Ok_0;
    assert forall|k: int| 0 <= k < v.width * v.height implies #[trigger] d.pixels[k]
        == v.pixels[k] by {
        lemma_encode_pixel(v, k);
    }
    assert(d.pixels =~= v.pixels);
}

proof fn lemma_encode_header(v: BmpView)
    requires
        v.fits(),
        v.width <= i32::MAX,
        v.height <= i32::MAX,
        v.width > 0,
        v.height > 0,
    ensures
        encode(v).len() == 54 + row_size(v.width) * v.height,
        row_size(v.width) * v.height >= 3,
        encode(v)[0] == 66u8,
        encode(v)[1] == 77u8,
        abs_i32_at(encode(v), 18) == v.width,
        abs_i32_at(encode(v), 22) == v.height,
{
    let e = encode(v);
    let w = v.width;
    let h = v.height;
    let rs = row_size(w) as int;
    let hd = header(w, h);
    assert(rs * h >= 3) by (nonlinear_arith)
        requires
            rs >= 3,
            h >= 1,
    ;
    assert(hd.len() == 54);
    assert(hd.subrange(18, 22) =~= le_u32(w));
    assert(hd.subrange(22, 26) =~= le_u32(h));
    assert(e.subrange(0, 54) =~= hd);
    lemma_le_u32_value(w);
    lemma_le_u32_value(h);
    assert(e[18] == hd[18] && e[19] == hd[19] && e[20] == hd[20] && e[21] == hd[21]);
    assert(e[22] == hd[22] && e[23] == hd[23] && e[24] == hd[24] && e[25] == hd[25]);
    assert(hd[18] == le_u32(w)[0] && hd[19] == le_u32(w)[1] && hd[20] == le_u32(w)[2] && hd[21]
        == le_u32(w)[3]);
    assert(hd[22] == le_u32(h)[0] && hd[23] == le_u32(h)[1] && hd[24] == le_u32(h)[2] && hd[25]
        == le_u32(h)[3]);
}

proof fn lemma_encode_pixel(v: BmpView, k: int)
    requires
        v.wf(),
        v.width > 0,
        v.height > 0,
        0 <= k < v.width * v.height,
    ensures
        pixel_at(
            encode(v),
            54 + (v.height - 1 - k / (v.width as int)) * row_size(v.width) + 3 * (k % (
            v.width as int)),
        ) == v.pixels[k],
{
    let e = encode(v);
    let h = v.height;
    let wi = v.width as int;
    let rs = row_size(v.width) as int;
    let j = h - 1 - k / wi;
    let x = k % wi;
    lemma_pixel_position(k, wi, h as int, rs);
    let at = j * rs + 3 * x;
    lemma_body_byte_pixel(v, j, x, 0);
    lemma_body_byte_pixel(v, j, x, 1);
    lemma_body_byte_pixel(v, j, x, 2);
    assert((h - 1 - j) * wi + x == k);
    lemma_encode_body(v, at);
    lemma_encode_body(v, at + 1);
    lemma_encode_body(v, at + 2);
}

proof fn lemma_pixel_position(k: int, wi: int, h: int, rs: int)
    requires
        0 <= k < wi * h,
        wi > 0,
        rs >= 3 * wi,
    ensures
        0 <= h - 1 - k / wi < h,
        0 <= k % wi < wi,
        (k / wi) * wi + k % wi == k,
        0 <= (h - 1 - k / wi) * rs,
        (h - 1 - k / wi) * rs + 3 * (k % wi) + 2 < rs * h,
{
    let j = h - 1 - k / wi;
    let x = k % wi;
    lemma_fundamental_div_mod(k, wi);
    lemma_multiply_divide_lt(k, wi, h);
    assert(k / wi >= 0) by (nonlinear_arith)
        requires
            k >= 0,
            wi > 0,
    ;
    assert(0 <= j * rs && j * rs + 3 * x + 2 < rs * h) by (nonlinear_arith)
        requires
            0 <= j < h,
            0 <= x < wi,
            rs >= 3 * wi,
    ;
}

proof fn lemma_encode_body(v: BmpView, i: int)
    requires
        0 <= i < row_size(v.width) * v.height,
    ensures
        encode(v)[54 + i] == body_byte(v, i),
{
    assert(header(v.width, v.height).len() == 54);
}

proof fn lemma_body_byte_pixel(v: BmpView, j: int, x: int, c: int)
    requires
        v.wf(),
        0 <= j < v.height,
        0 <= x < v.width,
        0 <= c < 3,
    ensures
        body_byte(v, j * row_size(v.width) + 3 * x + c) == channel(
            v.pixels[(v.height - 1 - j) * v.width + x],
            c,
        ),
{
    let rs = row_size(v.width) as int;
    lemma_fundamental_div_mod_converse(j * rs + 3 * x + c, rs, j, 3 * x + c);
    lemma_fundamental_div_mod_converse(3 * x + c, 3, x, c);
}

proof fn lemma_body_byte_padding(v: BmpView, j: int, q: int)
    requires
        0 <= j,
        0 <= q < row_padding(v.width),
    ensures
        body_byte(v, j * row_size(v.width) + 3 * v.width + q) == 0u8,
{
    let rs = row_size(v.width) as int;
    lemma_fundamental_div_mod_converse(j * rs + 3 * v.width + q, rs, j, 3 * v.width + q);
}

/// The byte count of the pixel rows, where the image fits the header.
fn body_size(width: usize, height: usize) -> (r: Option<u32>)
    ensures
        match r {
            Some(body) => BmpView { width: width as nat, height: height as nat, pixels: Seq::empty() }.fits()
                && body == row_size(width as nat) * height,
            None => !BmpView { width: width as nat, height: height as nat, pixels: Seq::empty() }.fits(),
        },
{
    if width > 0xffff_ffff || height > 0xffff_ffff {
        return None;
    }
    let w = width as u128;
    let h = height as u128;
    let pad: u128 = (4 - (w * 3) % 4) % 4;
    let rs: u128 = w * 3 + pad;
    assert(rs * h <= 0x4_0000_0000 * 0x1_0000_0000) by (nonlinear_arith)
        requires
            rs <= 0x4_0000_0000,
            h <= 0x1_0000_0000,
    ;
    let body: u128 = rs * h;
    if body > 0xffff_ffff - 54 {
        return None;
    }
    Some(body as u32)
}

proof fn lemma_rows_extend(v: BmpView, j: int, hd: Seq<u8>)
    requires
        0 <= j,
    ensures
        hd + Seq::new((j * row_size(v.width)) as nat, |k: int| body_byte(v, k)) + Seq::new(
            row_size(v.width),
            |k: int| body_byte(v, j * row_size(v.width) + k),
        ) == hd + Seq::new(((j + 1) * row_size(v.width)) as nat, |k: int| body_byte(v, k)),
{
    let rs = row_size(v.width) as int;
    assert((j + 1) * rs == j * rs + rs) by (nonlinear_arith);
    assert(0 <= j * rs) by (nonlinear_arith)
        requires
            0 <= j,
            0 <= rs,
    ;
    assert(hd + Seq::new((j * rs) as nat, |k: int| body_byte(v, k)) + Seq::new(
        rs as nat,
        |k: int| body_byte(v, j * rs + k),
    ) =~= hd + Seq::new(((j + 1) * rs) as nat, |k: int| body_byte(v, k)));
}

fn write_header(out: &mut Vec<u8>, width: u32, height: u32, body: u32)
    requires
        body == row_size(width as nat) * height,
        54 + body <= u32::MAX,
    ensures
        final(out)@ == old(out)@ + header(width as nat, height as nat),
{
    out.push(66u8);
    out.push(77u8);
    push_le_u32(out, 54 + body);
    push_le_u32(out, 0);
    push_le_u32(out, 54);
    push_le_u32(out, 40);
    push_le_u32(out, width);
    push_le_u32(out, height);
    push_le_u16(out, 1);
    push_le_u16(out, 24);
    push_le_u32(out, 0);
    push_le_u32(out, body);
    push_le_u32(out, 0);
    push_le_u32(out, 0);
    push_le_u32(out, 24);
    push_le_u32(out, 0);
    assert(final(out)@ =~= old(out)@ + header(width as nat, height as nat));
}

fn abs_i32_le(b: &[u8], at: usize) -> (r: u64)
    requires
        at + 4 <= b@.len(),
    ensures
        r == abs_i32_at(b@, at as int),
        r <= 0x8000_0000,
{
    let u: u64 = b[at] as u64 + 256 * (b[at + 1] as u64) + 65536 * (b[at + 2] as u64) + 16777216 * (
    b[at + 3] as u64);
    if u < 0x8000_0000 {
        u
    } else {
        0x1_0000_0000 - u
    }
}

fn padding_of(width: usize) -> (r: usize)
    requires
        width <= usize::MAX / 3,
    ensures
        r == row_padding(width as nat),
        r < 4,
{
    (4 - (width * 3) % 4) % 4
}

} // verus!
