//! The arithmetic of converting a video into a WebP frame sequence: target
//! dimensions, byte counts for people, the fields of an `ffprobe` line, and
//! counting the frames written.

use crate::text::{ends_with, has_suffix};
use crate::rounding::{
    div_round_half_even, f32_scale, f64_limit, lemma_f32_scale_close, lemma_f32_scale_shrinks,
    round_half_even, round_sig,
    round_to_significand, scale_f32, sig_shift, two_to,
};
use vstd::prelude::*;
use vstd::string::{StrSliceExecFns, StringExecFns};

verus! {

/// The dimensions after fitting the width: a width over `max_width` becomes
/// `max_width`, and the height is scaled by the same ratio in `f32`.
pub open spec fn fit_width(width: u32, height: u32, max_width: Option<u32>) -> (u32, u32) {
    match max_width {
        Some(m) => if width > m {
            (m, f32_scale(height, m, width))
        } else {
            (width, height)
        },
        None => (width, height),
    }
}

/// The dimensions after fitting the height in the same way.
pub open spec fn fit_height(width: u32, height: u32, max_height: Option<u32>) -> (u32, u32) {
    match max_height {
        Some(m) => if height > m {
            (f32_scale(width, m, height), m)
        } else {
            (width, height)
        },
        None => (width, height),
    }
}

/// The target dimensions: the width fitted first, then the height, both
/// keeping the aspect ratio as `f32` arithmetic keeps it, then each rounded
/// down to an even number.
pub open spec fn dimensions(
    orig_width: u32,
    orig_height: u32,
    max_width: Option<u32>,
    max_height: Option<u32>,
) -> (u32, u32) {
    let (w1, h1) = fit_width(orig_width, orig_height, max_width);
    let (w2, h2) = fit_height(w1, h1, max_height);
    ((w2 / 2 * 2) as u32, (h2 / 2 * 2) as u32)
}

/// Target dimensions for a video: at most `max_width` wide and `max_height`
/// high where those are given, the aspect ratio kept (scaled in `f32`, the
/// result truncated), both sides even.
pub fn calculate_dimensions(
    orig_width: u32,
    orig_height: u32,
    max_width: Option<u32>,
    max_height: Option<u32>,
) -> (r: (u32, u32))
    ensures
        r == dimensions(orig_width, orig_height, max_width, max_height),
        r.0 % 2 == 0 && r.1 % 2 == 0,
        max_height matches Some(m) ==> r.1 <= m,
{
    let mut width: u32 = orig_width;
    let mut height: u32 = orig_height;
    if let Some(max_w) = max_width {
        if width > max_w {
            height = scale_f32(height, max_w, width);
            width = max_w;
        }
    }
    if let Some(max_h) = max_height {
        if height > max_h {
            width = scale_f32(width, max_h, height);
            height = max_h;
        }
    }
    width = width / 2 * 2;
    height = height / 2 * 2;
    (width, height)
}

/// Up to 2^24 pixels a side, where `f32` holds every side exactly, the target
/// dimensions are no larger than the sides they start from and within the maxima.
pub proof fn lemma_dimensions_within_bounds(
    orig_width: u32,
    orig_height: u32,
    max_width: Option<u32>,
    max_height: Option<u32>,
)
    requires
        orig_width <= 0x100_0000,
        orig_height <= 0x100_0000,
    ensures
        ({
            let (w, h) = dimensions(orig_width, orig_height, max_width, max_height);
            &&& w <= orig_width
            &&& h <= orig_height
            &&& max_width matches Some(m) ==> w <= m
            &&& max_height matches Some(m) ==> h <= m
        }),
{
    let (w1, h1) = fit_width(orig_width, orig_height, max_width);
    if let Some(m) = max_width {
        if orig_width > m {
            lemma_f32_scale_shrinks(orig_height, m, orig_width);
        }
    }
    if let Some(m) = max_height {
        if h1 > m {
            lemma_f32_scale_shrinks(w1, m, h1);
        }
    }
}

/// Up to 2^24 pixels a side, fitting dimensions that already fit changes
/// nothing: the target dimensions of a target are the target itself.
pub proof fn lemma_dimensions_idempotent(
    orig_width: u32,
    orig_height: u32,
    max_width: Option<u32>,
    max_height: Option<u32>,
)
    requires
        orig_width <= 0x100_0000,
        orig_height <= 0x100_0000,
    ensures
        ({
            let (w, h) = dimensions(orig_width, orig_height, max_width, max_height);
            dimensions(w, h, max_width, max_height) == (w, h)
        }),
{
    lemma_dimensions_within_bounds(orig_width, orig_height, max_width, max_height);
}

/// Fitting the width keeps the aspect ratio up to the `f32` arithmetic: for
/// sides up to 2^24, a width over `max_width` becomes `max_width` and the
/// height lands within five of `height * max_width / width`.
pub proof fn lemma_fit_width_keeps_aspect(width: u32, height: u32, max_width: u32)
    requires
        width <= 0x100_0000,
        height <= 0x100_0000,
        max_width < width,
    ensures
        ({
            let (w, h) = fit_width(width, height, Some(max_width));
            &&& w == max_width
            &&& h * width <= height * max_width + 4 * width
            &&& height * max_width < h * width + 5 * width
        }),
{
    lemma_f32_scale_close(height, max_width, width);
}

/// Fitting the height in the same way: a height over `max_height` becomes
/// `max_height` and the width lands within five of
/// `width * max_height / height`.
pub proof fn lemma_fit_height_keeps_aspect(width: u32, height: u32, max_height: u32)
    requires
        width <= 0x100_0000,
        height <= 0x100_0000,
        max_height < height,
    ensures
        ({
            let (w, h) = fit_height(width, height, Some(max_height));
            &&& h == max_height
            &&& w * height <= width * max_height + 4 * height
            &&& width * max_height < w * height + 5 * height
        }),
{
    lemma_f32_scale_close(width, max_height, height);
}

/// The value of the `f64` nearest to `n` (ties to even), as `as f64` gives it.
pub open spec fn f64_of(n: nat) -> nat {
    round_sig(n, f64_limit())
}

/// 1024 to the power `k`.
pub open spec fn kibi_power(k: nat) -> nat
    decreases k,
{
    if k == 0 {
        1
    } else {
        1024 * kibi_power((k - 1) as nat)
    }
}

/// The unit a size is shown in: the largest of B, KB, MB, GB that it reaches.
pub open spec fn unit_index(v: nat) -> nat {
    if v >= kibi_power(3) {
        3
    } else if v >= kibi_power(2) {
        2
    } else if v >= kibi_power(1) {
        1
    } else {
        0
    }
}

/// The names of the units.
pub open spec fn unit_name(k: nat) -> Seq<char> {
    if k == 0 {
        "B"@
    } else if k == 1 {
        "KB"@
    } else if k == 2 {
        "MB"@
    } else {
        "GB"@
    }
}

/// The ASCII digit of `d`.
pub open spec fn digit_char(d: nat) -> char {
    (d + 48) as char
}

/// The decimal digits of `n`, without leading zeros.
pub open spec fn decimal(n: nat) -> Seq<char>
    decreases n,
{
    if n < 10 {
        seq![digit_char(n)]
    } else {
        decimal(n / 10) + seq![digit_char(n % 10)]
    }
}

/// A byte count for people: the count as an `f64`, in the largest unit it
/// reaches, with one decimal place (rounded half to even, as Rust's `{:.1}`
/// rounds) and the unit's name.
pub open spec fn format_bytes_spec(bytes: u64) -> Seq<char> {
    let v = f64_of(bytes as nat);
    let k = unit_index(v);
    let tenths = round_half_even(v * 10, kibi_power(k));
    decimal(tenths / 10) + seq!['.'] + decimal(tenths % 10) + seq![' '] + unit_name(k)
}

/// The one-character string of the digit `d`.
fn digit_str(d: u128) -> (s: &'static str)
    requires
        d < 10,
    ensures
        s@ == seq![digit_char(d as nat)],
{
    if d == 0 {
        proof {
            reveal_strlit("0");
        }
        "0"
    } else if d == 1 {
        proof {
            reveal_strlit("1");
        }
        "1"
    } else if d == 2 {
        proof {
            reveal_strlit("2");
        }
        "2"
    } else if d == 3 {
        proof {
            reveal_strlit("3");
        }
        "3"
    } else if d == 4 {
        proof {
            reveal_strlit("4");
        }
        "4"
    } else if d == 5 {
        proof {
            reveal_strlit("5");
        }
        "5"
    } else if d == 6 {
        proof {
            reveal_strlit("6");
        }
        "6"
    } else if d == 7 {
        proof {
            reveal_strlit("7");
        }
        "7"
    } else if d == 8 {
        proof {
            reveal_strlit("8");
        }
        "8"
    } else {
        proof {
            reveal_strlit("9");
        }
        "9"
    }
}

/// Appends the decimal digits of `n` to `out`.
fn push_decimal(out: &mut String, n: u128)
    ensures
        final(out)@ == old(out)@ + decimal(n as nat),
    decreases n,
{
    if n >= 10 {
        push_decimal(out, n / 10);
    }
    out.append(digit_str(n % 10));
}

/// `bytes` for people, such as `1.5 KB`: see `format_bytes_spec`.
pub fn format_bytes(bytes: u64) -> (s: String)
    ensures
        s@ == format_bytes_spec(bytes),
{
    let v: u128 = round_to_significand(bytes as u128, 0x20_0000_0000_0000);
    let (k, unit): (u128, &str) = if v >= 1024 * 1024 * 1024 {
        (3, "GB")
    } else if v >= 1024 * 1024 {
        (2, "MB")
    } else if v >= 1024 {
        (1, "KB")
    } else {
        (0, "B")
    };
    let divisor: u128 = if k == 3 {
        1024 * 1024 * 1024
    } else if k == 2 {
        1024 * 1024
    } else if k == 1 {
        1024
    } else {
        1
    };
    proof {
        reveal_with_fuel(kibi_power, 4);
        assert(kibi_power(1) == 1024);
        assert(kibi_power(2) == 1024 * 1024);
        assert(kibi_power(3) == 1024 * 1024 * 1024);
        assert(divisor == kibi_power(unit_index(v as nat)));
        assert(unit@ == unit_name(unit_index(v as nat)));
    }
    let tenths: u128 = div_round_half_even(v * 10, divisor);
    let mut out = String::new();
    push_decimal(&mut out, tenths / 10);
    out.append(".");
    push_decimal(&mut out, tenths % 10);
    out.append(" ");
    out.append(unit);
    proof {
        reveal_strlit(".");
        reveal_strlit(" ");
        assert(out@ =~= format_bytes_spec(bytes));
    }
    out
}

/// Why a decimal integer could not be read, as `u32::from_str` reports it.
#[derive(Debug, Clone, Copy, PartialEq, Eq, Structural)]
pub enum IntError {
    /// The text is empty.
    Empty,
    /// A character is not a decimal digit (a lone `+` counts as one).
    InvalidDigit,
    /// The number is larger than `u32::MAX`.
    PosOverflow,
}

/// Whether `c` is an ASCII decimal digit.
pub open spec fn is_digit(c: char) -> bool {
    '0' <= c && c <= '9'
}

/// The digits of `s` from `i` on, read onto `value`: the first character
/// that is no digit, or the first digit that takes the number past
/// `u32::MAX`, is the error.
pub open spec fn read_digits(s: Seq<char>, i: int, value: nat) -> Result<u32, IntError>
    decreases s.len() - i,
{
    if i < 0 || i >= s.len() {
        Ok(value as u32)
    } else if !is_digit(s[i]) {
        Err(IntError::InvalidDigit)
    } else {
        let next = value * 10 + (s[i] as nat - 48);
        if next > u32::MAX {
            Err(IntError::PosOverflow)
        } else {
            read_digits(s, i + 1, next as nat)
        }
    }
}

/// `u32::from_str`: an optional `+`, then one or more decimal digits.
pub open spec fn parse_u32_spec(s: Seq<char>) -> Result<u32, IntError> {
    if s.len() == 0 {
        Err(IntError::Empty)
    } else if s[0] == '+' {
        if s.len() == 1 {
            Err(IntError::InvalidDigit)
        } else {
            read_digits(s, 1, 0)
        }
    } else {
        read_digits(s, 0, 0)
    }
}

/// Reads a decimal `u32` as `u32::from_str` does.
pub fn parse_u32(s: &str) -> (r: Result<u32, IntError>)
    ensures
        r == parse_u32_spec(s@),
{
    let n: usize = s.unicode_len();
    if n == 0 {
        return Err(IntError::Empty);
    }
    let mut i: usize = 0;
    if s.get_char(0) == '+' {
        if n == 1 {
            return Err(IntError::InvalidDigit);
        }
        i = 1;
    }
    let mut value: u32 = 0;
    while i < n
        invariant
            n == s@.len(),
            1 <= n,
            0 <= i <= n,
            read_digits(s@, i as int, value as nat) == parse_u32_spec(s@),
        decreases n - i,
    {
        let c: char = s.get_char(i);
        if !('0' <= c && c <= '9') {
            return Err(IntError::InvalidDigit);
        }
        let d: u32 = (c as u32) - 48;
        assert(d as nat == c as nat - 48);
        if value > 429496729 || (value == 429496729 && d > 5) {
            return Err(IntError::PosOverflow);
        }
        value = value * 10 + d;
        i = i + 1;
    }
    Ok(value)
}

/// Whether `c` is white space as `char::is_whitespace` has it (Unicode's
/// `White_Space` property).
pub open spec fn is_white_space(c: char) -> bool {
    let u = c as u32;
    (0x09 <= u && u <= 0x0d) || u == 0x20 || u == 0x85 || u == 0xa0 || u == 0x1680 || (0x2000 <= u
        && u <= 0x200a) || u == 0x2028 || u == 0x2029 || u == 0x202f || u == 0x205f || u == 0x3000
}

fn white_space(c: char) -> (b: bool)
    ensures
        b == is_white_space(c),
{
    let u: u32 = c as u32;
    (0x09 <= u && u <= 0x0d) || u == 0x20 || u == 0x85 || u == 0xa0 || u == 0x1680 || (0x2000 <= u
        && u <= 0x200a) || u == 0x2028 || u == 0x2029 || u == 0x202f || u == 0x205f || u == 0x3000
}

/// Where the text of `s` starts once leading white space from `i` on is trimmed.
pub open spec fn trim_start(s: Seq<char>, i: int) -> int
    decreases s.len() - i,
{
    if i < 0 || i >= s.len() || !is_white_space(s[i]) {
        i
    } else {
        trim_start(s, i + 1)
    }
}

/// Where the text of `s` ends once trailing white space before `j` (and not
/// before `lo`) is trimmed.
pub open spec fn trim_end(s: Seq<char>, lo: int, j: int) -> int
    decreases j - lo,
{
    if j <= lo || j > s.len() || !is_white_space(s[j - 1]) {
        j
    } else {
        trim_end(s, lo, j - 1)
    }
}

/// The first comma of `s` in `[i, end)`, or `end`.
pub open spec fn comma_from(s: Seq<char>, i: int, end: int) -> int
    decreases end - i,
{
    if i < 0 || i >= end || end > s.len() {
        end
    } else if s[i] == ',' {
        i
    } else {
        comma_from(s, i + 1, end)
    }
}

/// Why an `ffprobe` line could not be read.
#[derive(Debug, Clone, Copy, PartialEq, Eq, Structural)]
pub enum ProbeError {
    /// Fewer than four comma-separated fields.
    TooFewFields,
    /// The first field is no `u32`.
    BadWidth(IntError),
    /// The second field is no `u32`.
    BadHeight(IntError),
}

/// The fields of an `ffprobe` line `width,height,frame_rate,duration`.
pub struct ProbeLine {
    pub width: u32,
    pub height: u32,
    /// The frame rate as `ffprobe` writes it, such as `30000/1001`.
    pub frame_rate: String,
    /// The duration in seconds as `ffprobe` writes it.
    pub duration: String,
}

/// What an `ffprobe` line gives: the text is trimmed of white space and cut
/// at its commas; there must be four fields or more, the first two `u32`s.
pub open spec fn probe_spec(s: Seq<char>) -> Result<(u32, u32, Seq<char>, Seq<char>), ProbeError> {
    let lo = trim_start(s, 0);
    let hi = trim_end(s, lo, s.len() as int);
    let c1 = comma_from(s, lo, hi);
    let c2 = comma_from(s, c1 + 1, hi);
    let c3 = comma_from(s, c2 + 1, hi);
    let c4 = comma_from(s, c3 + 1, hi);
    if c3 >= hi {
        Err(ProbeError::TooFewFields)
    } else {
        match parse_u32_spec(s.subrange(lo, c1)) {
            Err(e) => Err(ProbeError::BadWidth(e)),
            Ok(width) => match parse_u32_spec(s.subrange(c1 + 1, c2)) {
                Err(e) => Err(ProbeError::BadHeight(e)),
                Ok(height) => Ok((width, height, s.subrange(c2 + 1, c3), s.subrange(c3 + 1, c4))),
            },
        }
    }
}

proof fn lemma_trim_start_push(s: Seq<char>, c: char, i: int)
    requires
        0 <= i <= s.len(),
    ensures
        i <= trim_start(s, i) <= s.len(),
        trim_start(s, i) < s.len() ==> trim_start(s.push(c), i) == trim_start(s, i),
        trim_start(s, i) == s.len() && is_white_space(c) ==> trim_start(s.push(c), i) == s.len()
            + 1,
    decreases s.len() - i,
{
    let t = s.push(c);
    if i < s.len() {
        assert(t[i] == s[i]);
        if is_white_space(s[i]) {
            lemma_trim_start_push(s, c, i + 1);
        }
    } else {
        assert(t[i] == c);
        if is_white_space(c) {
            assert(trim_start(t, i + 1) == i + 1);
        }
    }
}

proof fn lemma_trim_end_push(s: Seq<char>, c: char, lo: int, j: int)
    requires
        0 <= lo,
        j <= s.len(),
    ensures
        trim_end(s.push(c), lo, j) == trim_end(s, lo, j),
        lo <= j ==> lo <= trim_end(s, lo, j) <= j,
    decreases j - lo,
{
    if lo < j {
        assert(s.push(c)[j - 1] == s[j - 1]);
        lemma_trim_end_push(s, c, lo, j - 1);
    }
}

proof fn lemma_comma_from_push(s: Seq<char>, c: char, i: int, end: int)
    requires
        end <= s.len(),
    ensures
        comma_from(s.push(c), i, end) == comma_from(s, i, end),
        0 <= i <= end ==> i <= comma_from(s, i, end) <= end,
    decreases end - i,
{
    if 0 <= i < end {
        assert(s.push(c)[i] == s[i]);
        lemma_comma_from_push(s, c, i + 1, end);
    }
}

/// White space that ends an `ffprobe` line is trimmed before the line is
/// cut into fields: with a Unicode White_Space character appended (the ASCII
/// ones tab, LF, VT, FF, CR and space among them), a line gives the same
/// fields, or the same error.
pub proof fn lemma_line_end_space_is_trimmed(s: Seq<char>, c: char)
    requires
        c == '\t' || c == '\n' || c == '\u{0B}' || c == '\u{0C}' || c == '\r' || c == ' ' || c
            == '\u{85}' || c == '\u{A0}' || c == '\u{1680}' || c == '\u{2000}' || c == '\u{2001}'
            || c == '\u{2002}' || c == '\u{2003}' || c == '\u{2004}' || c == '\u{2005}' || c
            == '\u{2006}' || c == '\u{2007}' || c == '\u{2008}' || c == '\u{2009}' || c
            == '\u{200A}' || c == '\u{2028}' || c == '\u{2029}' || c == '\u{202F}' || c
            == '\u{205F}' || c == '\u{3000}',
    ensures
        probe_spec(s.push(c)) == probe_spec(s),
{
    assert(is_white_space(c));
    let t = s.push(c);
    let n = s.len() as int;
    lemma_trim_start_push(s, c, 0);
    let lo = trim_start(s, 0);
    if lo < n {
        assert(trim_start(t, 0) == lo);
        assert(t[n] == c);
        assert(trim_end(t, lo, n + 1) == trim_end(t, lo, n));
        lemma_trim_end_push(s, c, lo, n);
        let hi = trim_end(s, lo, n);
        lemma_comma_from_push(s, c, lo, hi);
        let c1 = comma_from(s, lo, hi);
        lemma_comma_from_push(s, c, c1 + 1, hi);
        let c2 = comma_from(s, c1 + 1, hi);
        lemma_comma_from_push(s, c, c2 + 1, hi);
        let c3 = comma_from(s, c2 + 1, hi);
        lemma_comma_from_push(s, c, c3 + 1, hi);
        let c4 = comma_from(s, c3 + 1, hi);
        if c3 < hi {
            assert(c1 <= c2 && c2 <= c3 && c3 <= c4 && c4 <= hi) by {
                assert(c1 < hi) by {
                    if c1 >= hi {
                        assert(comma_from(s, c1 + 1, hi) == hi);
                    }
                }
                assert(c2 < hi) by {
                    if c2 >= hi {
                        assert(comma_from(s, c2 + 1, hi) == hi);
                    }
                }
            }
            assert(t.subrange(lo, c1) =~= s.subrange(lo, c1));
            assert(t.subrange(c1 + 1, c2) =~= s.subrange(c1 + 1, c2));
            assert(t.subrange(c2 + 1, c3) =~= s.subrange(c2 + 1, c3));
            assert(t.subrange(c3 + 1, c4) =~= s.subrange(c3 + 1, c4));
        }
    } else {
        assert(trim_start(t, 0) == n + 1);
        assert(trim_end(t, n + 1, n + 1) == n + 1);
        assert(comma_from(t, n + 1, n + 1) == n + 1);
        assert(comma_from(t, n + 2, n + 1) == n + 1);
        assert(trim_end(s, n, n) == n);
        assert(comma_from(s, n, n) == n);
        assert(comma_from(s, n + 1, n) == n);
    }
}

proof fn lemma_trim_start_shift(s: Seq<char>, c: char, i: int)
    requires
        0 <= i <= s.len(),
    ensures
        trim_start(seq![c] + s, i + 1) == trim_start(s, i) + 1,
    decreases s.len() - i,
{
    let cs = seq![c] + s;
    if i < s.len() {
        assert(cs[i + 1] == s[i]);
        if is_white_space(s[i]) {
            lemma_trim_start_shift(s, c, i + 1);
        }
    }
}

proof fn lemma_trim_end_shift(s: Seq<char>, c: char, lo: int, j: int)
    requires
        0 <= lo,
        j <= s.len(),
    ensures
        trim_end(seq![c] + s, lo + 1, j + 1) == trim_end(s, lo, j) + 1,
    decreases j - lo,
{
    let cs = seq![c] + s;
    if lo < j {
        assert(cs[j] == s[j - 1]);
        lemma_trim_end_shift(s, c, lo, j - 1);
    }
}

proof fn lemma_comma_from_shift(s: Seq<char>, c: char, i: int, end: int)
    requires
        0 <= i,
        end <= s.len(),
    ensures
        comma_from(seq![c] + s, i + 1, end + 1) == comma_from(s, i, end) + 1,
    decreases end - i,
{
    let cs = seq![c] + s;
    if i < end {
        assert(cs[i + 1] == s[i]);
        lemma_comma_from_shift(s, c, i + 1, end);
    }
}

/// White space that begins an `ffprobe` line is trimmed too: with a Unicode
/// White_Space character put in front, a line gives the same fields, or the
/// same error.
pub proof fn lemma_line_start_space_is_trimmed(s: Seq<char>, c: char)
    requires
        c == '\t' || c == '\n' || c == '\u{0B}' || c == '\u{0C}' || c == '\r' || c == ' ' || c
            == '\u{85}' || c == '\u{A0}' || c == '\u{1680}' || c == '\u{2000}' || c == '\u{2001}'
            || c == '\u{2002}' || c == '\u{2003}' || c == '\u{2004}' || c == '\u{2005}' || c
            == '\u{2006}' || c == '\u{2007}' || c == '\u{2008}' || c == '\u{2009}' || c
            == '\u{200A}' || c == '\u{2028}' || c == '\u{2029}' || c == '\u{202F}' || c
            == '\u{205F}' || c == '\u{3000}',
    ensures
        probe_spec(seq![c] + s) == probe_spec(s),
{
    assert(is_white_space(c));
    let cs = seq![c] + s;
    let n = s.len() as int;
    assert(cs[0] == c);
    lemma_trim_start_shift(s, c, 0);
    lemma_trim_start_push(s, c, 0);
    let lo = trim_start(s, 0);
    assert(trim_start(cs, 0) == lo + 1);
    assert(cs.len() == n + 1);
    lemma_trim_end_shift(s, c, lo, n);
    lemma_trim_end_push(s, c, lo, n);
    let hi = trim_end(s, lo, n);
    lemma_comma_from_shift(s, c, lo, hi);
    lemma_comma_from_push(s, c, lo, hi);
    let c1 = comma_from(s, lo, hi);
    lemma_comma_from_shift(s, c, c1 + 1, hi);
    lemma_comma_from_push(s, c, c1 + 1, hi);
    let c2 = comma_from(s, c1 + 1, hi);
    lemma_comma_from_shift(s, c, c2 + 1, hi);
    lemma_comma_from_push(s, c, c2 + 1, hi);
    let c3 = comma_from(s, c2 + 1, hi);
    lemma_comma_from_shift(s, c, c3 + 1, hi);
    lemma_comma_from_push(s, c, c3 + 1, hi);
    let c4 = comma_from(s, c3 + 1, hi);
    if c3 < hi {
        assert(c1 < hi) by {
            if c1 >= hi {
                assert(comma_from(s, c1 + 1, hi) == hi);
            }
        }
        assert(c2 < hi) by {
            if c2 >= hi {
                assert(comma_from(s, c2 + 1, hi) == hi);
            }
        }
        assert(cs.subrange(lo + 1, c1 + 1) =~= s.subrange(lo, c1));
        assert(cs.subrange(c1 + 2, c2 + 1) =~= s.subrange(c1 + 1, c2));
        assert(cs.subrange(c2 + 2, c3 + 1) =~= s.subrange(c2 + 1, c3));
        assert(cs.subrange(c3 + 2, c4 + 1) =~= s.subrange(c3 + 1, c4));
    }
}

/// A line that ends in CR LF, as Windows writes it, gives the same fields
/// as the same line ending in LF.
pub proof fn lemma_crlf_line_reads_as_lf_line(s: Seq<char>)
    ensures
        probe_spec(s + seq!['\r', '\n']) == probe_spec(s + seq!['\n']),
{
    assert(s + seq!['\r', '\n'] =~= s.push('\r').push('\n'));
    assert(s + seq!['\n'] =~= s.push('\n'));
    lemma_line_end_space_is_trimmed(s.push('\r'), '\n');
    lemma_line_end_space_is_trimmed(s, '\r');
    lemma_line_end_space_is_trimmed(s, '\n');
}

/// `comma_from` in executable form.
fn find_comma(s: &str, i: usize, end: usize) -> (k: usize)
    requires
        end <= s@.len(),
    ensures
        k as int == comma_from(s@, i as int, end as int),
        (i <= end ==> i <= k) && k <= end,
{
    let mut k: usize = i;
    while k < end
        invariant
            end <= s@.len(),
            i <= k,
            i <= end ==> k <= end,
            comma_from(s@, k as int, end as int) == comma_from(s@, i as int, end as int),
        decreases end - k,
    {
        if s.get_char(k) == ',' {
            return k;
        }
        k = k + 1;
    }
    if i > end {
        return end;
    }
    k
}

/// Reads the first line of `ffprobe -show_entries stream=width,height,r_frame_rate,duration -of csv=p=0`.
pub fn parse_probe_line(line: &str) -> (r: Result<ProbeLine, ProbeError>)
    ensures
        match probe_spec(line@) {
            Ok((width, height, rate, duration)) => r matches Ok(p) && p.width == width && p.height
                == height && p.frame_rate@ == rate && p.duration@ == duration,
            Err(e) => r matches Err(f) && f == e,
        },
{
    let n: usize = line.unicode_len();
    let mut lo: usize = 0;
    while lo < n && white_space(line.get_char(lo))
        invariant
            n == line@.len(),
            lo <= n,
            trim_start(line@, lo as int) == trim_start(line@, 0),
        decreases n - lo,
    {
        lo = lo + 1;
    }
    let mut hi: usize = n;
    while hi > lo && white_space(line.get_char(hi - 1))
        invariant
            n == line@.len(),
            lo <= hi <= n,
            trim_end(line@, lo as int, hi as int) == trim_end(line@, lo as int, n as int),
        decreases hi,
    {
        hi = hi - 1;
    }
    let c1: usize = find_comma(line, lo, hi);
    if c1 >= hi {
        return Err(ProbeError::TooFewFields);
    }
    let c2: usize = find_comma(line, c1 + 1, hi);
    if c2 >= hi {
        return Err(ProbeError::TooFewFields);
    }
    let c3: usize = find_comma(line, c2 + 1, hi);
    if c3 >= hi {
        return Err(ProbeError::TooFewFields);
    }
    let c4: usize = find_comma(line, c3 + 1, hi);
    let width: u32 = match parse_u32(line.substring_char(lo, c1)) {
        Ok(v) => v,
        Err(e) => {
            return Err(ProbeError::BadWidth(e));
        },
    };
    let height: u32 = match parse_u32(line.substring_char(c1 + 1, c2)) {
        Ok(v) => v,
        Err(e) => {
            return Err(ProbeError::BadHeight(e));
        },
    };
    let frame_rate = String::from_str(line.substring_char(c2 + 1, c3));
    let duration = String::from_str(line.substring_char(c3 + 1, c4));
    Ok(ProbeLine { width, height, frame_rate, duration })
}

/// Whether a file name is that of a frame image: it ends in `.webp`, `.png`
/// or `.jpg`.
pub open spec fn is_frame_file(name: Seq<char>) -> bool {
    has_suffix(name, ".webp"@) || has_suffix(name, ".png"@) || has_suffix(name, ".jpg"@)
}

/// How many of `names` are frame images.
pub open spec fn frame_files(names: Seq<String>) -> nat
    decreases names.len(),
{
    if names.len() == 0 {
        0
    } else {
        frame_files(names.drop_last()) + if is_frame_file(names.last()@) {
            1nat
        } else {
            0nat
        }
    }
}

/// Counts the frame images among the names of a directory's entries.
pub fn count_frames(names: &[String]) -> (n: u64)
    ensures
        n == frame_files(names@),
{
    let len: usize = names.len();
    let mut count: u64 = 0;
    let mut i: usize = 0;
    while i < len
        invariant
            len == names@.len(),
            i <= len,
            count <= i,
            count == frame_files(names@.subrange(0, i as int)),
        decreases len - i,
    {
        let name: &str = names[i].as_str();
        assert(names@.subrange(0, i + 1).drop_last() =~= names@.subrange(0, i as int));
        if ends_with(name, ".webp") || ends_with(name, ".png") || ends_with(name, ".jpg") {
            count = count + 1;
        }
        i = i + 1;
    }
    assert(names@.subrange(0, len as int) =~= names@);
    count
}

/// The sum of some byte counts.
pub open spec fn total_of(sizes: Seq<u64>) -> nat
    decreases sizes.len(),
{
    if sizes.len() == 0 {
        0
    } else {
        total_of(sizes.drop_last()) + sizes.last() as nat
    }
}

proof fn lemma_total_of_prefix(sizes: Seq<u64>, i: int, j: int)
    requires
        0 <= i <= j <= sizes.len(),
    ensures
        total_of(sizes.subrange(0, i)) <= total_of(sizes.subrange(0, j)),
    decreases j - i,
{
    if i < j {
        lemma_total_of_prefix(sizes, i, j - 1);
        assert(sizes.subrange(0, j).drop_last() =~= sizes.subrange(0, j - 1));
    }
}

/// The sum of some byte counts, or none where it exceeds `u64::MAX`.
fn checked_total(sizes: &[u64]) -> (t: Option<u64>)
    ensures
        t matches Some(v) ==> v == total_of(sizes@),
        t is None ==> total_of(sizes@) > u64::MAX,
{
    let len: usize = sizes.len();
    let mut total: u64 = 0;
    let mut i: usize = 0;
    while i < len
        invariant
            len == sizes@.len(),
            i <= len,
            total == total_of(sizes@.subrange(0, i as int)),
        decreases len - i,
    {
        assert(sizes@.subrange(0, i + 1).drop_last() =~= sizes@.subrange(0, i as int));
        match total.checked_add(sizes[i]) {
            Some(v) => {
                total = v;
            },
            None => {
                proof {
                    lemma_total_of_prefix(sizes@, i + 1, len as int);
                    assert(sizes@.subrange(0, len as int) =~= sizes@);
                }
                return None;
            },
        }
        i = i + 1;
    }
    assert(sizes@.subrange(0, len as int) =~= sizes@);
    Some(total)
}

/// Whether the sizes of a directory's entries add up within `u64`, as
/// `calculate_dir_size` asks.
pub fn dir_size_fits(sizes: &[u64]) -> (b: bool)
    ensures
        b == (total_of(sizes@) <= u64::MAX),
{
    checked_total(sizes).is_some()
}

/// The total size of a directory's entries, from their sizes.
pub fn calculate_dir_size(sizes: &[u64]) -> (t: u64)
    requires
        total_of(sizes@) <= u64::MAX,
    ensures
        t == total_of(sizes@),
{
    match checked_total(sizes) {
        Some(v) => v,
        None => vstd::pervasive::unreached(),
    }
}

/// A byte count under 1 KB is shown exactly, in bytes, with a zero decimal.
pub proof fn lemma_small_counts_exact(bytes: u64)
    requires
        bytes < 1024,
    ensures
        format_bytes_spec(bytes) == decimal(bytes as nat) + ".0 B"@,
{
    reveal_with_fuel(kibi_power, 4);
    reveal_strlit("B");
    reveal_strlit(".0 B");
    assert(two_to(0) == 1);
    assert(sig_shift(bytes as nat, f64_limit()) == 0);
    assert(round_half_even(bytes as nat, 1) == bytes);
    assert(f64_of(bytes as nat) == bytes);
    assert(unit_index(bytes as nat) == 0);
    assert(round_half_even(bytes as nat * 10, 1) == bytes * 10);
    assert(decimal(0) == seq!['0']);
    assert(format_bytes_spec(bytes) =~= decimal(bytes as nat) + ".0 B"@);
}

/// Reading one more character onto digits already read.
pub open spec fn read_one_more(r: Result<u32, IntError>, c: char) -> Result<u32, IntError> {
    match r {
        Err(e) => Err(e),
        Ok(v) => if !is_digit(c) {
            Err(IntError::InvalidDigit)
        } else if v * 10 + (c as nat - 48) > u32::MAX {
            Err(IntError::PosOverflow)
        } else {
            Ok((v * 10 + (c as nat - 48)) as u32)
        },
    }
}

proof fn lemma_read_digits_push(s: Seq<char>, c: char, i: int, value: nat)
    requires
        0 <= i <= s.len(),
        value <= u32::MAX,
    ensures
        read_digits(s.push(c), i, value) == read_one_more(read_digits(s, i, value), c),
    decreases s.len() - i,
{
    if i < s.len() {
        assert(s.push(c)[i] == s[i]);
        if is_digit(s[i]) && value * 10 + (s[i] as nat - 48) <= u32::MAX {
            lemma_read_digits_push(s, c, i + 1, (value * 10 + (s[i] as nat - 48)) as nat);
        }
    } else {
        assert(s.push(c)[i] == c);
        let next = value * 10 + (c as nat - 48);
        if is_digit(c) && next <= u32::MAX {
            assert(read_digits(s.push(c), i + 1, next as nat) == Ok::<u32, IntError>(next as u32));
        }
    }
}

proof fn lemma_decimal_digits(n: nat)
    ensures
        decimal(n).len() >= 1,
        forall|i: int| 0 <= i < decimal(n).len() ==> #[trigger] is_digit(decimal(n)[i]),
    decreases n,
{
    if n >= 10 {
        lemma_decimal_digits(n / 10);
    }
}

proof fn lemma_read_decimal(n: nat)
    requires
        n <= u32::MAX,
    ensures
        read_digits(decimal(n), 0, 0) == Ok::<u32, IntError>(n as u32),
    decreases n,
{
    if n < 10 {
        assert(read_digits(decimal(n), 1, n) == Ok::<u32, IntError>(n as u32));
    } else {
        lemma_read_decimal(n / 10);
        lemma_decimal_digits(n / 10);
        assert(decimal(n) =~= decimal(n / 10).push(digit_char(n % 10)));
        lemma_read_digits_push(decimal(n / 10), digit_char(n % 10), 0, 0);
    }
}

/// Reading back the decimal digits that are written for a `u32` gives the
/// number itself.
pub proof fn lemma_parse_decimal_roundtrip(n: u32)
    ensures
        parse_u32_spec(decimal(n as nat)) == Ok::<u32, IntError>(n),
{
    lemma_decimal_digits(n as nat);
    assert(is_digit(decimal(n as nat)[0]));
    lemma_read_decimal(n as nat);
}

} // verus!
