//! The computing parts of talking to ffmpeg: reading the stream description
//! that ffprobe prints, and cutting raw grayscale output into frames.

use vstd::prelude::*;
use crate::qr::GrayFrame;

verus! {

/// Whether `c` has the Unicode property White_Space, which is what
/// `char::is_whitespace` tests.
pub open spec fn is_unicode_whitespace(c: char) -> bool {
    ||| '\u{9}' <= c <= '\u{d}'
    ||| c == ' '
    ||| c == '\u{85}'
    ||| c == '\u{a0}'
    ||| c == '\u{1680}'
    ||| '\u{2000}' <= c <= '\u{200a}'
    ||| c == '\u{2028}'
    ||| c == '\u{2029}'
    ||| c == '\u{202f}'
    ||| c == '\u{205f}'
    ||| c == '\u{3000}'
}

/// `s` without its leading whitespace.
pub open spec fn trim_start(s: Seq<char>) -> Seq<char>
    decreases s.len(),
{
    if s.len() > 0 && is_unicode_whitespace(s[0]) {
        trim_start(s.drop_first())
    } else {
        s
    }
}

/// `s` without its trailing whitespace.
pub open spec fn trim_end(s: Seq<char>) -> Seq<char>
    decreases s.len(),
{
    if s.len() > 0 && is_unicode_whitespace(s.last()) {
        trim_end(s.drop_last())
    } else {
        s
    }
}

/// `s` without leading and trailing Unicode whitespace, as `str::trim`
/// documents it.
pub open spec fn unicode_trim(s: Seq<char>) -> Seq<char> {
    trim_end(trim_start(s))
}

/// The comma-separated fields of `s` (one field when there is no comma).
pub open spec fn split_commas(s: Seq<char>) -> Seq<Seq<char>>
    decreases s.len(),
{
    if s.len() == 0 {
        seq![Seq::empty()]
    } else {
        let fields = split_commas(s.drop_last());
        if s.last() == ',' {
            fields.push(Seq::empty())
        } else {
            fields.update(fields.len() - 1, fields.last().push(s.last()))
        }
    }
}

/// Whether every character is an ASCII digit.
pub open spec fn all_digits(s: Seq<char>) -> bool {
    forall|i: int| 0 <= i < s.len() ==> '0' <= #[trigger] s[i] <= '9'
}

/// The number written in decimal by the digits `s`.
pub open spec fn digits_value(s: Seq<char>) -> int
    decreases s.len(),
{
    if s.len() == 0 {
        0
    } else {
        digits_value(s.drop_last()) * 10 + (s.last() as int - '0' as int)
    }
}

/// How `str::parse` reads an unsigned integer no greater than `max`: an
/// optional `+`, then one or more ASCII digits, and nothing else.
pub open spec fn spec_parse_unsigned(s: Seq<char>, max: int) -> Option<int> {
    let digits = if s.len() > 0 && s[0] == '+' {
        s.drop_first()
    } else {
        s
    };
    if digits.len() > 0 && all_digits(digits) && digits_value(digits) <= max {
        Some(digits_value(digits))
    } else {
        None
    }
}

/// A longer run of digits never has a smaller value.
proof fn lemma_digits_value_grows(s: Seq<char>, i: int)
    requires
        all_digits(s),
        0 <= i <= s.len(),
    ensures
        digits_value(s.take(i)) <= digits_value(s),
        digits_value(s) >= 0,
    decreases s.len(),
{
    if s.len() > 0 {
        let t = s.drop_last();
        assert(all_digits(t));
        if i < s.len() {
            lemma_digits_value_grows(t, i);
            assert(t.take(i) =~= s.take(i));
        } else {
            assert(s.take(i) =~= s);
            lemma_digits_value_grows(t, 0);
        }
    } else {
        assert(s.take(i) =~= s);
    }
}

/// Parses an unsigned decimal number no greater than `max`.
fn parse_unsigned(s: &Vec<char>, max: u64) -> (r: Option<u64>)
    requires
        max >= 9,
    ensures
        match spec_parse_unsigned(s@, max as int) {
            Some(v) => r matches Some(x) && x == v,
            None => r is None,
        },
{
    let len = s.len();
    let start: usize = if len > 0 && s[0] == '+' {
        1
    } else {
        0
    };
    let ghost digits = s@.subrange(start as int, len as int);
    assert(digits =~= if s@.len() > 0 && s@[0] == '+' {
        s@.drop_first()
    } else {
        s@
    });
    if start == len {
        return None;
    }
    let mut value: u64 = 0;
    let mut i: usize = start;
    while i < len
        invariant
            start <= i <= len == s@.len(),
            max >= 9,
            digits == s@.subrange(start as int, len as int),
            digits == (if s@.len() > 0 && s@[0] == '+' {
                s@.drop_first()
            } else {
                s@
            }),
            all_digits(digits.take(i - start)),
            value == digits_value(digits.take(i - start)),
            value <= max,
        decreases len - i,
    {
        let c = s[i];
        assert(digits.take(i + 1 - start).drop_last() =~= digits.take(i - start));
        if !('0' <= c && c <= '9') {
            assert(digits[i - start] == c);
            assert(!('0' <= digits[i - start] <= '9'));
            assert(!all_digits(digits));
            assert(spec_parse_unsigned(s@, max as int) is None);
            return None;
        }
        let d = (c as u32 - '0' as u32) as u64;
        assert(all_digits(digits.take(i + 1 - start)));
        if value > (max - d) / 10 {
            proof {
                assert(digits_value(digits.take(i + 1 - start)) == value * 10 + d);
                assert(value * 10 + d > max) by (nonlinear_arith)
                    requires
                        value > (max - d) / 10,
                        d <= max || d > max,
                        0 <= d <= 9,
                ;
                if all_digits(digits) {
                    lemma_digits_value_grows(digits, i + 1 - start);
                    assert(digits_value(digits) > max);
                }
                assert(spec_parse_unsigned(s@, max as int) is None);
            }
            return None;
        }
        assert(value * 10 + d <= max) by (nonlinear_arith)
            requires
                value <= (max - d) / 10,
                d <= max,
        ;
        value = value * 10 + d;
        i = i + 1;
    }
    assert(digits.take(len - start) =~= digits);
    proof {
        lemma_digits_value_grows(digits, 0);
    }
    Some(value)
}

/// Collects the characters of a string.
fn chars_of(s: &str) -> (r: Vec<char>)
    ensures
        r@ == s@,
{
    let n = s.unicode_len();
    let mut out: Vec<char> = Vec::new();
    let mut i: usize = 0;
    while i < n
        invariant
            i <= n == s@.len(),
            out@ == s@.take(i as int),
        decreases n - i,
    {
        out.push(s.get_char(i));
        i = i + 1;
        assert(out@ =~= s@.take(i as int));
    }
    assert(s@.take(n as int) =~= s@);
    out
}

/// Whether `c` is Unicode whitespace (see [`is_unicode_whitespace`]).
fn is_whitespace_char(c: char) -> (r: bool)
    ensures
        r == is_unicode_whitespace(c),
{
    ('\u{9}' <= c && c <= '\u{d}') || c == ' ' || c == '\u{85}' || c == '\u{a0}' || c
        == '\u{1680}' || ('\u{2000}' <= c && c <= '\u{200a}') || c == '\u{2028}' || c
        == '\u{2029}' || c == '\u{202f}' || c == '\u{205f}' || c == '\u{3000}'
}

/// Dropping leading whitespace stops at the first character that is not
/// whitespace.
proof fn lemma_trim_start_at(s: Seq<char>, i: int)
    requires
        0 <= i <= s.len(),
        forall|k: int| 0 <= k < i ==> is_unicode_whitespace(#[trigger] s[k]),
        i == s.len() || !is_unicode_whitespace(s[i]),
    ensures
        trim_start(s) == s.subrange(i, s.len() as int),
    decreases i,
{
    if i == 0 {
        assert(s.subrange(0, s.len() as int) =~= s);
    } else {
        let t = s.drop_first();
        assert forall|k: int| 0 <= k < i - 1 implies is_unicode_whitespace(#[trigger] t[k]) by {
            assert(t[k] == s[k + 1]);
        }
        if i - 1 < t.len() {
            assert(t[i - 1] == s[i]);
        }
        lemma_trim_start_at(t, i - 1);
        assert(t.subrange(i - 1, t.len() as int) =~= s.subrange(i, s.len() as int));
    }
}

/// Dropping trailing whitespace stops after the last character that is not
/// whitespace.
proof fn lemma_trim_end_at(s: Seq<char>, j: int)
    requires
        0 <= j <= s.len(),
        forall|k: int| j <= k < s.len() ==> is_unicode_whitespace(#[trigger] s[k]),
        j == 0 || !is_unicode_whitespace(s[j - 1]),
    ensures
        trim_end(s) == s.subrange(0, j),
    decreases s.len() - j,
{
    if j == s.len() {
        assert(s.subrange(0, j) =~= s);
    } else {
        let t = s.drop_last();
        assert forall|k: int| j <= k < t.len() implies is_unicode_whitespace(#[trigger] t[k]) by {
            assert(t[k] == s[k]);
        }
        if j > 0 {
            assert(t[j - 1] == s[j - 1]);
        }
        lemma_trim_end_at(t, j);
        assert(t.subrange(0, j) =~= s.subrange(0, j));
    }
}

/// The characters of `s` without leading and trailing Unicode whitespace, as
/// `str::trim` leaves them.
fn trim_chars(s: &Vec<char>) -> (r: Vec<char>)
    ensures
        r@ == unicode_trim(s@),
{
    let n = s.len();
    let mut i: usize = 0;
    while i < n && is_whitespace_char(s[i])
        invariant
            i <= n == s@.len(),
            forall|k: int| 0 <= k < i ==> is_unicode_whitespace(#[trigger] s@[k]),
        decreases n - i,
    {
        i = i + 1;
    }
    proof {
        lemma_trim_start_at(s@, i as int);
    }
    let mut j: usize = n;
    while j > i && is_whitespace_char(s[j - 1])
        invariant
            i <= j <= n == s@.len(),
            forall|k: int| j <= k < n ==> is_unicode_whitespace(#[trigger] s@[k]),
        decreases j - i,
    {
        j = j - 1;
    }
    let ghost t = s@.subrange(i as int, n as int);
    proof {
        assert forall|k: int| j - i <= k < t.len() implies is_unicode_whitespace(#[trigger] t[k]) by {
            assert(t[k] == s@[k + i]);
        }
        if j > i {
            assert(t[j - i - 1] == s@[j - 1]);
        }
        lemma_trim_end_at(t, j - i);
        assert(t.subrange(0, j - i) =~= s@.subrange(i as int, j as int));
    }
    let mut out: Vec<char> = Vec::new();
    let mut k: usize = i;
    while k < j
        invariant
            i <= k <= j <= n == s@.len(),
            out@ == s@.subrange(i as int, k as int),
        decreases j - k,
    {
        out.push(s[k]);
        k = k + 1;
        assert(out@ =~= s@.subrange(i as int, k as int));
    }
    out
}

/// Splits characters at commas.
fn split_fields(s: &Vec<char>) -> (r: Vec<Vec<char>>)
    ensures
        r@.len() == split_commas(s@).len(),
        forall|i: int| 0 <= i < r@.len() ==> (#[trigger] r@[i])@ == split_commas(s@)[i],
{
    let mut fields: Vec<Vec<char>> = Vec::new();
    fields.push(Vec::new());
    let mut i: usize = 0;
    proof {
        assert(s@.take(0) =~= Seq::<char>::empty());
    }
    while i < s.len()
        invariant
            i <= s@.len(),
            fields@.len() == split_commas(s@.take(i as int)).len(),
            fields@.len() >= 1,
            forall|k: int|
                0 <= k < fields@.len() ==> (#[trigger] fields@[k])@ == split_commas(
                    s@.take(i as int),
                )[k],
        decreases s@.len() - i,
    {
        let c = s[i];
        let ghost prev = split_commas(s@.take(i as int));
        assert(s@.take(i + 1).drop_last() =~= s@.take(i as int));
        if c == ',' {
            fields.push(Vec::new());
        } else {
            let ghost last = fields@.len() - 1;
            let mut f = fields.pop().unwrap();
            f.push(c);
            fields.push(f);
            proof {
                let next = split_commas(s@.take(i + 1));
                assert(next == prev.update(prev.len() - 1, prev.last().push(c)));
                assert forall|k: int| 0 <= k < fields@.len() implies (#[trigger] fields@[k])@
                    == next[k] by {
                    if k < last {
                        assert(next[k] == prev[k]);
                    }
                }
            }
        }
        i = i + 1;
    }
    assert(s@.take(s@.len() as int) =~= s@);
    fields
}

/// Width, height and frame count of a video stream.
#[derive(Debug, Clone, Copy, PartialEq, Eq, Structural)]
pub struct ProbeInfo {
    pub width: u32,
    pub height: u32,
    /// 0 when ffprobe does not report a count.
    pub frame_count: usize,
}

/// Why the stream description could not be read.
#[derive(Debug, Clone, Copy, PartialEq, Eq, Structural)]
pub enum ProbeError {
    /// Fewer than three comma-separated fields.
    MissingFields,
    /// The first field is not a `u32`.
    InvalidWidth,
    /// The second field is not a `u32`.
    InvalidHeight,
}

/// What [`parse_probe_output`] gives.
pub open spec fn spec_parse_probe(text: Seq<char>) -> Result<ProbeInfo, ProbeError> {
    let fields = split_commas(unicode_trim(text));
    if fields.len() < 3 {
        Err(ProbeError::MissingFields)
    } else {
        match spec_parse_unsigned(fields[0], u32::MAX as int) {
            None => Err(ProbeError::InvalidWidth),
            Some(w) => match spec_parse_unsigned(fields[1], u32::MAX as int) {
                None => Err(ProbeError::InvalidHeight),
                Some(h) => Ok(
                    ProbeInfo {
                        width: w as u32,
                        height: h as u32,
                        frame_count: match spec_parse_unsigned(fields[2], usize::MAX as int) {
                            Some(c) => c as usize,
                            None => 0,
                        },
                    },
                ),
            },
        }
    }
}

/// The frame count field decides neither success nor the frame size: two
/// probe outputs with at least three fields whose first two fields agree give
/// the same width and height, or fail alike.
pub proof fn lemma_probe_size_ignores_count(t1: Seq<char>, t2: Seq<char>)
    requires
        split_commas(unicode_trim(t1)).len() >= 3,
        split_commas(unicode_trim(t2)).len() >= 3,
        split_commas(unicode_trim(t1))[0] == split_commas(unicode_trim(t2))[0],
        split_commas(unicode_trim(t1))[1] == split_commas(unicode_trim(t2))[1],
    ensures
        spec_parse_probe(t1) is Ok <==> spec_parse_probe(t2) is Ok,
        spec_parse_probe(t1) is Err ==> spec_parse_probe(t1) == spec_parse_probe(t2),
        spec_parse_probe(t1) matches Ok(a) ==> (spec_parse_probe(t2) matches Ok(b) && a.width
            == b.width && a.height == b.height),
{
}

/// Reads `width,height,frames` as printed by
/// `ffprobe -show_entries stream=width,height,nb_frames -of csv=p=0`.  An
/// unreadable frame count counts as 0.
pub fn parse_probe_output(text: &str) -> (r: Result<ProbeInfo, ProbeError>)
    ensures
        r == spec_parse_probe(text@),
{
    let chars = trim_chars(&chars_of(text));
    let fields = split_fields(&chars);
    if fields.len() < 3 {
        return Err(ProbeError::MissingFields);
    }
    let width = match parse_unsigned(&fields[0], 0xFFFF_FFFF) {
        Some(w) => w as u32,
        None => {
            return Err(ProbeError::InvalidWidth);
        },
    };
    let height = match parse_unsigned(&fields[1], 0xFFFF_FFFF) {
        Some(h) => h as u32,
        None => {
            return Err(ProbeError::InvalidHeight);
        },
    };
    let frame_count = match parse_unsigned(&fields[2], usize::MAX as u64) {
        Some(c) => c as usize,
        None => 0,
    };
    Ok(ProbeInfo { width, height, frame_count })
}

/// Whether `frames` are the whole `width`-by-`height` frames of the raw
/// row-major grayscale output `raw`, in order, a trailing partial frame
/// dropped.
pub open spec fn cut_into_frames(raw: Seq<u8>, width: u32, height: u32, frames: Seq<GrayFrame>) -> bool {
    &&& frames.len() == raw.len() as int / (width * height)
    &&& forall|k: int|
        0 <= k < frames.len() ==> {
            &&& (#[trigger] frames[k]).width == width
            &&& frames[k].height == height
            &&& frames[k].wf()
            &&& frames[k].pixels@ == raw.subrange(k * (width * height), (k + 1) * (width * height))
        }
}

/// Cuts raw row-major grayscale video output into whole frames of
/// `width * height` bytes; a trailing partial frame is dropped.
pub fn split_frames(raw: &[u8], width: u32, height: u32) -> (r: Vec<GrayFrame>)
    requires
        0 < width * height <= u32::MAX,
    ensures
        cut_into_frames(raw@, width, height, r@),
{
    let frame_size = (width * height) as usize;
    let n = raw.len();
    let count = n / frame_size;
    let mut frames: Vec<GrayFrame> = Vec::new();
    let mut k: usize = 0;
    while k < count
        invariant
            k <= count == raw@.len() as int / frame_size as int,
            n == raw@.len(),
            frame_size == width * height,
            frame_size > 0,
            frames@.len() == k,
            forall|j: int|
                0 <= j < k ==> {
                    &&& (#[trigger] frames@[j]).width == width
                    &&& frames@[j].height == height
                    &&& frames@[j].wf()
                    &&& frames@[j].pixels@ == raw@.subrange(
                        j * frame_size,
                        (j + 1) * frame_size,
                    )
                },
        decreases count - k,
    {
        assert((k + 1) * frame_size <= raw@.len()) by (nonlinear_arith)
            requires
                k < count,
                count == raw@.len() as int / frame_size as int,
                frame_size > 0,
        ;
        assert((k + 1) * frame_size == k * frame_size + frame_size) by (nonlinear_arith);
        assert(k * frame_size + frame_size <= n);
        let start = k * frame_size;
        let pixels = crate::bytes::copy_range(raw, start, start + frame_size);
        frames.push(GrayFrame { width, height, pixels });
        k = k + 1;
    }
    frames
}

/// Why raw video output cannot be cut into frames of the probed size.
#[derive(Debug, Clone, Copy, PartialEq, Eq, Structural)]
pub enum FrameSizeError {
    /// The frame has no pixels.
    Empty,
    /// The frame has more than `u32::MAX` pixels.
    TooLarge,
}

/// Cuts raw video output into frames after checking the frame size: an
/// empty frame or one of more than `u32::MAX` pixels is refused.
pub fn split_frames_checked(raw: &[u8], width: u32, height: u32) -> (r: Result<
    Vec<GrayFrame>,
    FrameSizeError,
>)
    ensures
        width * height == 0 ==> r == Err::<Vec<GrayFrame>, FrameSizeError>(FrameSizeError::Empty),
        width * height > u32::MAX ==> r == Err::<Vec<GrayFrame>, FrameSizeError>(
            FrameSizeError::TooLarge,
        ),
        0 < width * height <= u32::MAX ==> (r matches Ok(v) && cut_into_frames(raw@, width, height, v@)),
{
    assert(width * height <= u32::MAX * u32::MAX) by (nonlinear_arith)
        requires
            width <= u32::MAX,
            height <= u32::MAX,
    ;
    let pixels = width as u64 * height as u64;
    if pixels == 0 {
        return Err(FrameSizeError::Empty);
    }
    if pixels > 0xFFFF_FFFF {
        return Err(FrameSizeError::TooLarge);
    }
    Ok(split_frames(raw, width, height))
}

} // verus!
