//! QR code frames: rendering payloads as grayscale images and reading them back.
//!
//! Payloads are base64-encoded before they are put in a QR code, so that binary
//! data survives the text-mode roundtrip of the scanner.  The scanner itself
//! (`rqrr`) runs outside this library, where a panic inside it can be caught;
//! what it reads from a frame is handed to [`decode_qr_image`].

use vstd::prelude::*;
use base64::Engine as _;
use crate::cli::EcLevel;

verus! {

/// The ASCII byte of the standard base64 alphabet for the 6-bit value `v`:
/// `A`-`Z`, `a`-`z`, `0`-`9`, `+`, `/`.
pub open spec fn base64_char(v: int) -> u8 {
    if v < 26 {
        (0x41 + v) as u8
    } else if v < 52 {
        (0x61 + (v - 26)) as u8
    } else if v < 62 {
        (0x30 + (v - 52)) as u8
    } else if v == 62 {
        0x2b
    } else {
        0x2f
    }
}

/// The standard base64 encoding of `data` (RFC 4648, with `=` padding), as
/// ASCII bytes: every 3 bytes become 4 characters of 6 bits each, and a final
/// group of 1 or 2 bytes is padded to 4 characters.
#[verifier::opaque]
pub open spec fn base64_encode(data: Seq<u8>) -> Seq<u8>
    decreases data.len(),
{
    let a = if data.len() > 0 {
        data[0] as int
    } else {
        0
    };
    let b = if data.len() > 1 {
        data[1] as int
    } else {
        0
    };
    let c = if data.len() > 2 {
        data[2] as int
    } else {
        0
    };
    if data.len() == 0 {
        Seq::empty()
    } else if data.len() == 1 {
        seq![base64_char(a / 4), base64_char(a % 4 * 16), 0x3d, 0x3d]
    } else if data.len() == 2 {
        seq![base64_char(a / 4), base64_char(a % 4 * 16 + b / 16), base64_char(b % 16 * 4), 0x3d]
    } else {
        seq![
            base64_char(a / 4),
            base64_char(a % 4 * 16 + b / 16),
            base64_char(b % 16 * 4 + c / 64),
            base64_char(c % 64),
        ] + base64_encode(data.subrange(3, data.len() as int))
    }
}

/// The bytes whose standard base64 encoding is `text`, or `None` where the
/// `base64` crate rejects `text`.
pub uninterp spec fn base64_decode(text: Seq<u8>) -> Option<Seq<u8>>;

/// The QR symbol that the `qrcode` crate builds for `text` at level `ec`: its
/// width in modules and its modules in row-major order (`true` = dark), or
/// `None` where it refuses (the data is too long).
pub uninterp spec fn qr_symbol(text: Seq<u8>, ec: EcLevel) -> Option<(usize, Seq<bool>)>;

/// Why the QR scanner gave no content for a frame.
#[derive(Debug, Clone, Copy, PartialEq, Eq, Structural)]
pub enum QrScanFailure {
    /// No QR code was detected in the image.
    NotFound,
    /// A QR code was found but could not be decoded.
    Unreadable,
}

/// Why a QR frame could not be produced or read.
#[derive(Debug, Clone, Copy, PartialEq, Eq, Structural)]
pub enum QrFrameError {
    /// The QR code cannot be created (the data is too large for a single frame).
    Encode,
    /// The QR symbol has more modules than the frame has pixels on a side.
    FrameTooSmall,
    /// No QR code was detected in the frame.
    NotFound,
    /// A QR code was detected but could not be decoded.
    Unreadable,
    /// The QR content is not valid base64.
    InvalidBase64,
}

/// A QR symbol: `width` modules on a side, row-major, `true` for dark.
pub struct QrSymbol {
    pub width: usize,
    pub modules: Vec<bool>,
}

/// A grayscale image: `width * height` luma values, row-major.
pub struct GrayFrame {
    pub width: u32,
    pub height: u32,
    pub pixels: Vec<u8>,
}

impl GrayFrame {
    /// The pixel buffer holds exactly one value per pixel.
    pub open spec fn wf(&self) -> bool {
        self.pixels@.len() == self.width * self.height
    }

    /// The luma value at column `x`, row `y`.
    pub fn pixel(&self, x: usize, y: usize) -> (r: u8)
        requires
            self.wf(),
            x < self.width,
            y < self.height,
        ensures
            r == self.pixels@[y * self.width + x],
    {
        let w = self.width as usize;
        let n = self.pixels.len();
        proof {
            lemma_row_major_index(x as int, y as int, self.width as int, self.height as int);
        }
        assert(y * w + x < n);
        self.pixels[y * w + x]
    }
}

/// Position `y * w + x` of a row-major `w`-by-`h` grid lies inside it, and its
/// column and row are recovered by `%` and `/`.
pub proof fn lemma_row_major_index(x: int, y: int, w: int, h: int)
    requires
        0 <= x < w,
        0 <= y < h,
    ensures
        0 <= y * w + x < w * h,
        (y * w + x) % w == x,
        (y * w + x) / w == y,
{
    assert(0 <= y * w + x < w * h) by (nonlinear_arith)
        requires
            0 <= x < w,
            0 <= y < h,
    ;
    vstd::arithmetic::div_mod::lemma_fundamental_div_mod_converse(y * w + x, w, y, x);
}

/// `base64::engine::general_purpose::STANDARD.encode`, as bytes: the padded
/// standard encoding, which the same engine decodes back to the input.  The
/// crate panics when the encoded length, `4 * ceil(n / 3)`, overflows
/// `usize`, hence the bound.
#[verifier::external_body]
fn base64_encode_bytes(data: &[u8]) -> (r: Vec<u8>)
    requires
        (data@.len() + 2) / 3 * 4 <= usize::MAX,
    ensures
        r@ == base64_encode(data@),
        base64_decode(r@) == Some(data@),
{
    base64::engine::general_purpose::STANDARD.encode(data).into_bytes()
}

/// The error of `base64` decoding, carried through opaque.
#[verifier::external_type_specification]
#[verifier::external_body]
pub struct ExDecodeError(base64::DecodeError);

/// `base64::engine::general_purpose::STANDARD.decode`: it gives the named
/// decoding and fails exactly where there is none.
#[verifier::external_body]
fn base64_decode_bytes(text: &[u8]) -> (r: Result<Vec<u8>, base64::DecodeError>)
    ensures
        match base64_decode(text@) {
            Some(d) => r matches Ok(v) && v@ == d,
            None => r is Err,
        },
{
    base64::engine::general_purpose::STANDARD.decode(text)
}

/// The error of `qrcode`, carried through opaque.
#[verifier::external_type_specification]
#[verifier::external_body]
pub struct ExQrCodeError(qrcode::types::QrError);

/// `qrcode::QrCode::with_error_correction_level`, read out as its width and
/// its colours: it gives the named symbol and fails exactly where there is
/// none.  The crate only builds normal QR versions 1 to 40, so the width is
/// between 21 and 177 and there is one module per cell of the square.
#[verifier::external_body]
fn qr_encode(text: &[u8], ec: EcLevel) -> (r: Result<QrSymbol, qrcode::types::QrError>)
    ensures
        match qr_symbol(text@, ec) {
            Some((w, m)) => r matches Ok(s) && s.width == w && s.modules@ == m,
            None => r is Err,
        },
        r matches Ok(s) ==> 21 <= s.width <= 177 && s.modules@.len() == s.width * s.width,
{
    let level = match ec {
        EcLevel::Low => qrcode::EcLevel::L,
        EcLevel::Medium => qrcode::EcLevel::M,
        EcLevel::Quartile => qrcode::EcLevel::Q,
        EcLevel::High => qrcode::EcLevel::H,
    };
    let code = qrcode::QrCode::with_error_correction_level(text, level)?;
    let modules = code.to_colors().into_iter().map(|c| c == qrcode::Color::Dark).collect();
    Ok(QrSymbol { width: code.width(), modules })
}

/// Side of one QR module in pixels: the shorter frame side divided by the
/// symbol width plus a quiet zone of 4 modules on each side, at least 1.
pub open spec fn module_size(qw: int, w: int, h: int) -> int {
    let available = if w < h {
        w
    } else {
        h
    };
    let m = available / (qw + 8);
    if m < 1 {
        1
    } else {
        m
    }
}

/// The luma at column `x`, row `y` of a `w`-by-`h` frame showing the symbol
/// (`qw` modules wide) centred: dark modules are 0, everything else 255.
pub open spec fn qr_pixel(qw: int, modules: Seq<bool>, w: int, h: int, x: int, y: int) -> u8 {
    let ms = module_size(qw, w, h);
    let total = qw * ms;
    let ox = (w - total) / 2;
    let oy = (h - total) / 2;
    if ox <= x < ox + total && oy <= y < oy + total {
        if modules[((y - oy) / ms) * qw + (x - ox) / ms] {
            0
        } else {
            255
        }
    } else {
        255
    }
}

/// All pixels, row-major, of a `w`-by-`h` frame showing the symbol.
pub open spec fn qr_frame_pixels(qw: int, modules: Seq<bool>, w: int, h: int) -> Seq<u8> {
    Seq::new((w * h) as nat, |i: int| qr_pixel(qw, modules, w, h, i % w, i / w))
}

/// Rendering fits: the symbol, scaled by the module size, fits in the shorter side.
proof fn lemma_module_fits(qw: int, w: int, h: int)
    requires
        0 <= qw,
        qw <= w,
        qw <= h,
    ensures
        module_size(qw, w, h) >= 1,
        qw * module_size(qw, w, h) <= w,
        qw * module_size(qw, w, h) <= h,
{
    let available = if w < h {
        w
    } else {
        h
    };
    let m = available / (qw + 8);
    if m >= 1 {
        assert(qw * m <= available) by (nonlinear_arith)
            requires
                m == available / (qw + 8),
                qw >= 0,
                available >= 0,
        ;
    }
}

/// Where the shorter side of the frame has room for the symbol plus 8
/// modules, the symbol is surrounded by a quiet zone of at least 4 modules on
/// every side, and every pixel in that zone is white.
pub proof fn lemma_quiet_zone(qw: int, modules: Seq<bool>, w: int, h: int, x: int, y: int)
    requires
        0 <= qw,
        qw + 8 <= w,
        qw + 8 <= h,
    ensures
        (w - qw * module_size(qw, w, h)) / 2 >= 4 * module_size(qw, w, h),
        (h - qw * module_size(qw, w, h)) / 2 >= 4 * module_size(qw, w, h),
        ({
            let ms = module_size(qw, w, h);
            let ox = (w - qw * ms) / 2;
            let oy = (h - qw * ms) / 2;
            (x < ox || x >= ox + qw * ms || y < oy || y >= oy + qw * ms) ==> qr_pixel(
                qw,
                modules,
                w,
                h,
                x,
                y,
            ) == 255
        }),
{
    let available = if w < h {
        w
    } else {
        h
    };
    let ms = available / (qw + 8);
    assert(ms >= 1 && (qw + 8) * ms <= available) by (nonlinear_arith)
        requires
            ms == available / (qw + 8),
            qw + 8 <= available,
            qw >= 0,
    ;
    assert(qw * ms + 8 * ms == (qw + 8) * ms) by (nonlinear_arith);
}

/// Renders a QR symbol centred in a `width`-by-`height` frame, with a quiet
/// zone of at least 4 modules where the frame is large enough.
pub fn render_qr(symbol: &QrSymbol, width: u32, height: u32) -> (r: GrayFrame)
    requires
        symbol.modules@.len() == symbol.width * symbol.width,
        symbol.width <= width,
        symbol.width <= height,
        width * height <= usize::MAX,
    ensures
        r.width == width,
        r.height == height,
        r.wf(),
        r.pixels@ == qr_frame_pixels(symbol.width as int, symbol.modules@, width as int, height as int),
{
    let qw = symbol.width as u32;
    let available = if width < height {
        width
    } else {
        height
    };
    let mut ms: u32 = (available as u64 / (qw as u64 + 8)) as u32;
    if ms < 1 {
        ms = 1;
    }
    proof {
        lemma_module_fits(qw as int, width as int, height as int);
    }
    assert(ms == module_size(qw as int, width as int, height as int));
    let total: u32 = qw * ms;
    let ox = (width - total) / 2;
    let oy = (height - total) / 2;
    let ghost spec_pixels = qr_frame_pixels(qw as int, symbol.modules@, width as int, height as int);
    let mlen = symbol.modules.len();
    let mut pixels: Vec<u8> = Vec::new();
    let mut y: u32 = 0;
    while y < height
        invariant
            y <= height,
            width * height <= usize::MAX,
            symbol.modules@.len() == qw * qw,
            mlen == symbol.modules@.len(),
            qw == symbol.width,
            ms == module_size(qw as int, width as int, height as int),
            ms >= 1,
            total == qw * ms,
            total <= width,
            total <= height,
            ox == (width - total) / 2,
            oy == (height - total) / 2,
            spec_pixels == qr_frame_pixels(qw as int, symbol.modules@, width as int, height as int),
            pixels@.len() == y * width,
            forall|i: int| 0 <= i < pixels@.len() ==> pixels@[i] == spec_pixels[i],
        decreases height - y,
    {
        let mut x: u32 = 0;
        while x < width
            invariant
                x <= width,
                y < height,
                width * height <= usize::MAX,
                symbol.modules@.len() == qw * qw,
                mlen == symbol.modules@.len(),
                qw == symbol.width,
                ms == module_size(qw as int, width as int, height as int),
                ms >= 1,
                total == qw * ms,
                total <= width,
                total <= height,
                ox == (width - total) / 2,
                oy == (height - total) / 2,
                spec_pixels == qr_frame_pixels(qw as int, symbol.modules@, width as int, height as int),
                pixels@.len() == y * width + x,
                forall|i: int| 0 <= i < pixels@.len() ==> pixels@[i] == spec_pixels[i],
            decreases width - x,
        {
            let v: u8 = if ox <= x && x - ox < total && oy <= y && y - oy < total {
                let mx = ((x - ox) / ms) as usize;
                let my = ((y - oy) / ms) as usize;
                proof {
                    let (a, b, q, m) = ((x - ox) as int, (y - oy) as int, qw as int, ms as int);
                    assert(a / m < q && b / m < q) by (nonlinear_arith)
                        requires
                            0 <= a < q * m,
                            0 <= b < q * m,
                            m >= 1,
                    ;
                    assert((b / m) * q + a / m < q * q) by (nonlinear_arith)
                        requires
                            0 <= a / m < q,
                            0 <= b / m < q,
                    ;
                    assert(my * symbol.width + mx < mlen);
                }
                if symbol.modules[my * symbol.width + mx] {
                    0
                } else {
                    255
                }
            } else {
                255
            };
            proof {
                lemma_row_major_index(x as int, y as int, width as int, height as int);
                let i = y * width + x;
                assert(v == qr_pixel(qw as int, symbol.modules@, width as int, height as int, i % (width as int), i / (width as int)));
            }
            pixels.push(v);
            x = x + 1;
        }
        assert((y + 1) * width == y * width + width) by (nonlinear_arith);
        y = y + 1;
    }
    assert(height * width == width * height) by (nonlinear_arith);
    assert(pixels@ =~= spec_pixels);
    GrayFrame { width, height, pixels }
}

/// What [`generate_qr_image`] produces: the pixels of the frame, or why not.
pub open spec fn spec_generate_qr(data: Seq<u8>, ec: EcLevel, w: u32, h: u32) -> Result<
    Seq<u8>,
    QrFrameError,
> {
    match qr_symbol(base64_encode(data), ec) {
        None => Err(QrFrameError::Encode),
        Some((qw, m)) => if qw <= w && qw <= h {
            Ok(qr_frame_pixels(qw as int, m, w as int, h as int))
        } else {
            Err(QrFrameError::FrameTooSmall)
        },
    }
}

/// Generates a QR code image of binary data at the given error correction
/// level.  The data is base64-encoded first so it survives QR text-mode
/// roundtrips; the symbol is centred and scaled to fit the frame.  Every
/// symbol is 21 to 177 modules wide, so a frame of at least 177 pixels on
/// each side takes any symbol that exists.  Reading back the text drawn in
/// the symbol gives the data again.
pub fn generate_qr_image(data: &[u8], ec_level: EcLevel, width: u32, height: u32) -> (r: Result<
    GrayFrame,
    QrFrameError,
>)
    requires
        (data@.len() + 2) / 3 * 4 <= usize::MAX,
        width * height <= usize::MAX,
    ensures
        match spec_generate_qr(data@, ec_level, width, height) {
            Ok(p) => r matches Ok(f) && f.width == width && f.height == height && f.pixels@ == p,
            Err(e) => r == Err::<GrayFrame, QrFrameError>(e),
        },
        r matches Ok(f) ==> f.wf(),
        qr_symbol(base64_encode(data@), ec_level) matches Some((qw, m)) ==> 21 <= qw <= 177 && m.len()
            == qw * qw,
        177 <= width && 177 <= height ==> (r is Ok <==> qr_symbol(base64_encode(data@), ec_level) is Some),
        spec_read_qr(Ok(base64_encode(data@))) == Ok::<Seq<u8>, QrFrameError>(data@),
{
    let encoded = base64_encode_bytes(data);
    let symbol = match qr_encode(encoded.as_slice(), ec_level) {
        Ok(s) => s,
        Err(_) => {
            return Err(QrFrameError::Encode);
        },
    };
    if symbol.width > width as usize || symbol.width > height as usize {
        return Err(QrFrameError::FrameTooSmall);
    }
    Ok(render_qr(&symbol, width, height))
}

/// Renders every payload as a QR frame of `width` by `height` pixels, in
/// order.  It stops at the first payload that cannot be drawn and gives its
/// position and why.
pub fn render_frames(payloads: &Vec<Vec<u8>>, ec_level: EcLevel, width: u32, height: u32) -> (r:
    Result<Vec<GrayFrame>, (usize, QrFrameError)>)
    requires
        width * height <= usize::MAX,
        forall|i: int|
            0 <= i < payloads@.len() ==> ((#[trigger] payloads@[i])@.len() + 2) / 3 * 4
                <= usize::MAX,
    ensures
        match r {
            Ok(v) => {
                &&& v@.len() == payloads@.len()
                &&& forall|i: int|
                    0 <= i < v@.len() ==> {
                        &&& (#[trigger] v@[i]).width == width
                        &&& v@[i].height == height
                        &&& v@[i].wf()
                        &&& spec_generate_qr(payloads@[i]@, ec_level, width, height) == Ok::<
                            Seq<u8>,
                            QrFrameError,
                        >(v@[i].pixels@)
                        &&& spec_read_qr(Ok(base64_encode(payloads@[i]@))) == Ok::<
                            Seq<u8>,
                            QrFrameError,
                        >(payloads@[i]@)
                    }
            },
            Err((k, e)) => {
                &&& k < payloads@.len()
                &&& spec_generate_qr(payloads@[k as int]@, ec_level, width, height) == Err::<
                    Seq<u8>,
                    QrFrameError,
                >(e)
                &&& forall|i: int|
                    0 <= i < k ==> (#[trigger] spec_generate_qr(
                        payloads@[i]@,
                        ec_level,
                        width,
                        height,
                    )) is Ok
            },
        },
{
    let mut frames: Vec<GrayFrame> = Vec::new();
    let mut i: usize = 0;
    while i < payloads.len()
        invariant
            i <= payloads@.len(),
            width * height <= usize::MAX,
            forall|j: int|
                0 <= j < payloads@.len() ==> ((#[trigger] payloads@[j])@.len() + 2) / 3 * 4
                    <= usize::MAX,
            frames@.len() == i,
            forall|j: int|
                0 <= j < i ==> {
                    &&& (#[trigger] frames@[j]).width == width
                    &&& frames@[j].height == height
                    &&& frames@[j].wf()
                    &&& spec_generate_qr(payloads@[j]@, ec_level, width, height) == Ok::<
                        Seq<u8>,
                        QrFrameError,
                    >(frames@[j].pixels@)
                    &&& spec_read_qr(Ok(base64_encode(payloads@[j]@))) == Ok::<
                        Seq<u8>,
                        QrFrameError,
                    >(payloads@[j]@)
                },
        decreases payloads@.len() - i,
    {
        assert((payloads@[i as int]@.len() + 2) / 3 * 4 <= usize::MAX);
        match generate_qr_image(payloads[i].as_slice(), ec_level, width, height) {
            Ok(f) => {
                frames.push(f);
            },
            Err(e) => {
                assert forall|j: int| 0 <= j < i implies (#[trigger] spec_generate_qr(
                    payloads@[j]@,
                    ec_level,
                    width,
                    height,
                )) is Ok by {
                    assert(frames@[j].wf());
                }
                return Err((i, e));
            },
        }
        i = i + 1;
    }
    Ok(frames)
}

/// How a symbol is laid out in a frame: with module size `ms` and the symbol
/// centred at column `ox` and row `oy`, module `col` of row `row` (row-major,
/// as the symbol lists its modules) is the square of pixels whose columns are
/// `ox + col * ms ..` and rows `oy + row * ms ..`, each `ms` long, black for a
/// dark module and white for a light one.
pub proof fn lemma_frame_module_block(
    qw: int,
    modules: Seq<bool>,
    w: int,
    h: int,
    row: int,
    col: int,
    dy: int,
    dx: int,
)
    requires
        0 <= qw <= w,
        qw <= h,
        0 <= row < qw,
        0 <= col < qw,
        0 <= dy < module_size(qw, w, h),
        0 <= dx < module_size(qw, w, h),
    ensures
        ({
            let ms = module_size(qw, w, h);
            let ox = (w - qw * ms) / 2;
            let oy = (h - qw * ms) / 2;
            let x = ox + col * ms + dx;
            let y = oy + row * ms + dy;
            &&& 0 <= x < w
            &&& 0 <= y < h
            &&& qr_frame_pixels(qw, modules, w, h).len() == w * h
            &&& qr_frame_pixels(qw, modules, w, h)[y * w + x] == if modules[row * qw + col] {
                0u8
            } else {
                255u8
            }
        }),
{
    lemma_module_fits(qw, w, h);
    let ms = module_size(qw, w, h);
    let total = qw * ms;
    let ox = (w - total) / 2;
    let oy = (h - total) / 2;
    let x = ox + col * ms + dx;
    let y = oy + row * ms + dy;
    assert(col * ms + dx < total && row * ms + dy < total) by (nonlinear_arith)
        requires
            0 <= col < qw,
            0 <= row < qw,
            0 <= dx < ms,
            0 <= dy < ms,
            total == qw * ms,
    ;
    assert(0 <= col * ms && 0 <= row * ms) by (nonlinear_arith)
        requires
            0 <= col,
            0 <= row,
            ms >= 1,
    ;
    assert(0 <= x < w && 0 <= y < h);
    lemma_row_major_index(x, y, w, h);
    let i = y * w + x;
    assert(0 <= w * h);
    vstd::arithmetic::div_mod::lemma_fundamental_div_mod_converse(x - ox, ms, col, dx);
    vstd::arithmetic::div_mod::lemma_fundamental_div_mod_converse(y - oy, ms, row, dy);
    assert(qr_frame_pixels(qw, modules, w, h)[i] == qr_pixel(qw, modules, w, h, x, y));
}

/// A frame that [`generate_qr_image`] draws shows the symbol that the `qrcode`
/// crate builds at the requested level for the base64 text of the data:
/// module `col` of row `row` of that symbol fills the `ms`-by-`ms` square at
/// column `ox + col * ms`, row `oy + row * ms` of the frame, black when dark
/// and white when light.
pub proof fn lemma_generated_frame_shows_symbol(
    data: Seq<u8>,
    ec: EcLevel,
    w: u32,
    h: u32,
    row: int,
    col: int,
    dy: int,
    dx: int,
)
    requires
        spec_generate_qr(data, ec, w, h) is Ok,
    ensures
        qr_symbol(base64_encode(data), ec) matches Some((qw, m)) && ({
            let ms = module_size(qw as int, w as int, h as int);
            let ox = (w - qw * ms) / 2;
            let oy = (h - qw * ms) / 2;
            let pixels = spec_generate_qr(data, ec, w, h)->Ok_0;
            &&& pixels.len() == w * h
            &&& (0 <= row < qw && 0 <= col < qw && 0 <= dy < ms && 0 <= dx < ms) ==> pixels[(oy
                + row * ms + dy) * w + (ox + col * ms + dx)] == if m[row * qw + col] {
                0u8
            } else {
                255u8
            }
        }),
{
    let (qw, m) = qr_symbol(base64_encode(data), ec).unwrap();
    let ms = module_size(qw as int, w as int, h as int);
    if 0 <= row < qw && 0 <= col < qw && 0 <= dy < ms && 0 <= dx < ms {
        lemma_frame_module_block(qw as int, m, w as int, h as int, row, col, dy, dx);
    } else {
        lemma_module_fits(qw as int, w as int, h as int);
    }
}

/// Whether `n` probe bytes fit at a level is whether the `qrcode` crate builds
/// a symbol at that very level for their base64 text.
pub proof fn lemma_capacity_fits_at_level(n: int, ec: EcLevel)
    ensures
        capacity_fits(n, ec) <==> qr_symbol(base64_encode(probe_data(n)), ec) is Some,
{
}

/// The content view of what the scanner read from a frame.
pub open spec fn scan_view(scan: Result<Vec<u8>, QrScanFailure>) -> Result<Seq<u8>, QrScanFailure> {
    match scan {
        Ok(c) => Ok(c@),
        Err(e) => Err(e),
    }
}

/// What [`decode_qr_image`] gives for what the scanner read from a frame.
pub open spec fn spec_read_qr(scan: Result<Seq<u8>, QrScanFailure>) -> Result<Seq<u8>, QrFrameError> {
    match scan {
        Err(QrScanFailure::NotFound) => Err(QrFrameError::NotFound),
        Err(QrScanFailure::Unreadable) => Err(QrFrameError::Unreadable),
        Ok(c) => match base64_decode(c) {
            Some(d) => Ok(d),
            None => Err(QrFrameError::InvalidBase64),
        },
    }
}

/// Turns what the QR scanner read from a frame (the text of the first code it
/// found, or why there is none) into the frame's binary payload: the content
/// is base64-decoded back to binary.
pub fn decode_qr_image(scan: &Result<Vec<u8>, QrScanFailure>) -> (r: Result<Vec<u8>, QrFrameError>)
    ensures
        match spec_read_qr(scan_view(*scan)) {
            Ok(d) => r matches Ok(v) && v@ == d,
            Err(e) => r == Err::<Vec<u8>, QrFrameError>(e),
        },
{
    let content = match scan {
        Ok(c) => c,
        Err(QrScanFailure::NotFound) => {
            return Err(QrFrameError::NotFound);
        },
        Err(QrScanFailure::Unreadable) => {
            return Err(QrFrameError::Unreadable);
        },
    };
    match base64_decode_bytes(content.as_slice()) {
        Ok(d) => Ok(d),
        Err(_) => Err(QrFrameError::InvalidBase64),
    }
}

/// The probe payload of `n` bytes: byte `i` is `i % 256`.
pub open spec fn probe_data(n: int) -> Seq<u8> {
    Seq::new(n as nat, |i: int| (i % 256) as u8)
}

/// Whether a QR code at level `ec` holds the base64 encoding of `n` probe bytes.
pub open spec fn capacity_fits(n: int, ec: EcLevel) -> bool {
    qr_symbol(base64_encode(probe_data(n)), ec) is Some
}

/// The largest probe size tried.
pub const MAX_PROBE: usize = 3000;

/// Finds, by bisection over `1..=3000`, a binary payload size that fits in a
/// QR code at level `ec_level` (after base64) while one byte more does not.
/// The result is 1 when even that does not fit, and 3000 when 3000 fits.
pub fn find_max_capacity(ec_level: EcLevel) -> (r: usize)
    ensures
        1 <= r <= MAX_PROBE,
        r == 1 || capacity_fits(r as int, ec_level),
        r == MAX_PROBE || !capacity_fits(r + 1, ec_level),
        r == 1 || qr_symbol(base64_encode(probe_data(r as int)), ec_level) is Some,
        r == MAX_PROBE || qr_symbol(base64_encode(probe_data(r + 1)), ec_level) is None,
{
    let mut low: usize = 1;
    let mut high: usize = MAX_PROBE;
    while low < high
        invariant
            1 <= low <= high <= MAX_PROBE,
            low == 1 || capacity_fits(low as int, ec_level),
            high == MAX_PROBE || !capacity_fits(high + 1, ec_level),
        decreases high - low,
    {
        let mid = (low + high + 1) / 2;
        let mut probe: Vec<u8> = Vec::new();
        let mut i: usize = 0;
        while i < mid
            invariant
                i <= mid <= MAX_PROBE,
                probe@ == probe_data(i as int),
            decreases mid - i,
        {
            probe.push((i % 256) as u8);
            i = i + 1;
            assert(probe@ =~= probe_data(i as int));
        }
        let encoded = base64_encode_bytes(probe.as_slice());
        if qr_encode(encoded.as_slice(), ec_level).is_ok() {
            low = mid;
        } else {
            high = mid - 1;
        }
    }
    low
}

} // verus!
