use vstd::prelude::*;
use crate::codec::{digit_char, digit_val, digits_val, is_digit, dec_nat, spec_parse_digits};
use crate::text::{chars_to_string, string_to_chars};

verus! {

/// What went wrong running or reading the metadata probe: a message, and
/// the description of an underlying cause when there is one. Probe
/// failures are best-effort territory: callers log them and go on without
/// metadata.
pub struct FfprobeError {
    message: String,
    source: Option<String>,
}

impl FfprobeError {
    /// The message's characters.
    pub closed spec fn spec_message(self) -> Seq<char> {
        self.message@
    }

    /// The cause's characters, when a cause was recorded.
    pub closed spec fn spec_source(self) -> Option<Seq<char>> {
        match self.source {
            Some(s) => Some(s@),
            None => None,
        }
    }

    /// An error with just a message.
    pub fn new(message: String) -> (e: Self)
        ensures
            e.spec_message() == message@,
            e.spec_source() is None,
    {
        FfprobeError { message, source: None }
    }

    /// An error with a message and the description of its underlying
    /// cause.
    pub fn with_source(message: String, source: String) -> (e: Self)
        ensures
            e.spec_message() == message@,
            e.spec_source() == Some(source@),
    {
        FfprobeError { message, source: Some(source) }
    }

    /// The message.
    pub fn message(&self) -> (m: &str)
        ensures
            m@ == self.spec_message(),
    {
        self.message.as_str()
    }

    /// The description of the underlying cause, when there is one.
    pub fn source_description(&self) -> (s: Option<&str>)
        ensures
            match s {
                Some(d) => self.spec_source() == Some(d@),
                None => self.spec_source() is None,
            },
    {
        match &self.source {
            Some(d) => Some(d.as_str()),
            None => None,
        }
    }
}

/// Extracted metadata for a video file; both parts are best-effort.
#[derive(Debug)]
pub struct VideoMetadata {
    /// Video resolution, such as `1920x1080`.
    pub resolution: Option<String>,
    /// Video duration, such as `01:23:45` or `01:41`.
    pub duration: Option<String>,
}

impl Clone for VideoMetadata {
    fn clone(&self) -> (res: Self)
        ensures
            res == *self,
    {
        VideoMetadata {
            resolution: match &self.resolution {
                Some(r) => Some(r.clone()),
                None => None,
            },
            duration: match &self.duration {
                Some(d) => Some(d.clone()),
                None => None,
            },
        }
    }
}

impl Default for VideoMetadata {
    /// No resolution and no duration.
    fn default() -> (d: Self)
        ensures
            d.resolution is None,
            d.duration is None,
    {
        VideoMetadata { resolution: None, duration: None }
    }
}

/// One stream of a probe report, reduced to the plain values the logic
/// reads: the probe itself and its report format are outside collaborators,
/// and whatever ran them hands the streams over in this shape.
pub struct ProbeStream {
    /// The codec type, such as `video` or `audio`.
    pub codec_type: Option<String>,
    /// Frame width in pixels.
    pub width: Option<i64>,
    /// Frame height in pixels.
    pub height: Option<i64>,
    /// Stream duration in seconds, as the probe printed it.
    pub duration: Option<String>,
}

/// An ASCII whitespace character, as trimmed from a duration text.
pub open spec fn is_ws(c: char) -> bool {
    c == ' ' || c == '\t' || c == '\n' || c == '\r'
}

/// How many whitespace characters lead `s`.
pub open spec fn lead_ws(s: Seq<char>) -> int
    decreases s.len(),
{
    if s.len() == 0 || !is_ws(s[0]) {
        0
    } else {
        1 + lead_ws(s.drop_first())
    }
}

/// How many whitespace characters trail `s`.
pub open spec fn trail_ws(s: Seq<char>) -> int
    decreases s.len(),
{
    if s.len() == 0 || !is_ws(s[s.len() - 1]) {
        0
    } else {
        1 + trail_ws(s.drop_last())
    }
}

/// `s` without leading and trailing whitespace.
pub open spec fn trim_ws(s: Seq<char>) -> Seq<char> {
    let a = lead_ws(s);
    let t = s.subrange(a, s.len() as int);
    t.subrange(0, t.len() - trail_ws(t))
}

/// The rounded number of whole seconds a duration text names, if it names
/// one. A duration text is an optional sign, then digits with an optional
/// decimal point and fraction, surrounded by any whitespace; at least one
/// digit, at most fifteen before the point (a cap far beyond any real
/// duration; longer texts are rejected rather than misread). The value is
/// rounded half away from zero. A text naming a negative duration is
/// rejected; a negative zero is just zero.
pub open spec fn spec_duration_secs(s: Seq<char>) -> Option<int> {
    let t = trim_ws(s);
    if t.len() == 0 {
        None
    } else {
        let neg = t[0] == '-';
        let u = if t[0] == '-' || t[0] == '+' {
            t.drop_first()
        } else {
            t
        };
        let ip = spec_parse_digits(u);
        let frac_part = if ip.1.len() >= 1 && ip.1[0] == '.' {
            spec_parse_digits(ip.1.drop_first())
        } else {
            (Seq::<char>::empty(), ip.1)
        };
        let rest = if ip.1.len() >= 1 && ip.1[0] == '.' {
            frac_part.1
        } else {
            ip.1
        };
        if rest.len() != 0 || ip.0.len() + frac_part.0.len() == 0 || ip.0.len() > 15 {
            None
        } else {
            let base = digits_val(ip.0);
            let up = frac_part.0.len() > 0 && digit_val(frac_part.0[0]) >= 5;
            let nonzero = base > 0 || frac_has_nonzero(frac_part.0);
            if neg && nonzero {
                None
            } else {
                Some(base + if up {
                    1int
                } else {
                    0int
                })
            }
        }
    }
}

/// Some digit of the fraction is not zero.
pub open spec fn frac_has_nonzero(d: Seq<char>) -> bool {
    exists|k: int| 0 <= k < d.len() && digit_val(d[k]) > 0
}

/// A value in decimal, padded with a zero to at least two digits.
pub open spec fn pad2(n: int) -> Seq<char> {
    if 0 <= n <= 9 {
        seq!['0', digit_char(n)]
    } else {
        dec_nat(n)
    }
}

/// The clock-style text for a duration text: hours, minutes and seconds
/// when there is at least an hour, minutes and seconds otherwise, each at
/// least two digits.
pub open spec fn spec_format_duration(s: Seq<char>) -> Option<Seq<char>> {
    match spec_duration_secs(s) {
        None => None,
        Some(v) => {
            let h = v / 3600;
            let m = (v % 3600) / 60;
            let sec = v % 60;
            if h > 0 {
                Some(pad2(h) + seq![':'] + pad2(m) + seq![':'] + pad2(sec))
            } else {
                Some(pad2(m) + seq![':'] + pad2(sec))
            }
        },
    }
}

/// A prefix of whitespace followed by no whitespace fixes the leading
/// count.
proof fn lemma_lead_ws_eq(s: Seq<char>, a: int)
    requires
        0 <= a <= s.len(),
        forall|k: int| 0 <= k < a ==> is_ws(s[k]),
        a == s.len() || !is_ws(s[a]),
    ensures
        lead_ws(s) == a,
    decreases a,
{
    if a == 0 {
    } else {
        assert(is_ws(s[0]));
        lemma_lead_ws_eq(s.drop_first(), a - 1);
    }
}

/// A suffix of whitespace preceded by no whitespace fixes the trailing
/// count.
proof fn lemma_trail_ws_eq(s: Seq<char>, b: int)
    requires
        0 <= b <= s.len(),
        forall|k: int| s.len() - b <= k < s.len() ==> is_ws(s[k]),
        b == s.len() || !is_ws(s[s.len() - b - 1]),
    ensures
        trail_ws(s) == b,
    decreases b,
{
    if b == 0 {
    } else {
        assert(is_ws(s[s.len() - 1]));
        assert(s.drop_last() =~= s.subrange(0, s.len() - 1));
        lemma_trail_ws_eq(s.drop_last(), b - 1);
    }
}

/// Whether `c` is ASCII whitespace.
fn is_ws_exec(c: char) -> (r: bool)
    ensures
        r == is_ws(c),
{
    c == ' ' || c == '\t' || c == '\n' || c == '\r'
}

/// Writes a value zero-padded to at least two digits.
fn push_pad2(out: &mut Vec<char>, n: u64)
    ensures
        final(out)@ == old(out)@ + pad2(n as int),
{
    if n <= 9 {
        out.push('0');
        out.push(crate::codec::digit_char_exec(n));
        proof {
            assert(old(out)@.push('0').push(digit_char(n as int)) =~= old(out)@ + pad2(n as int));
        }
    } else {
        crate::codec::push_dec_u64(out, n);
    }
}

/// The clock-style rendering of a duration text printed by the probe:
/// `HH:MM:SS` when there is at least an hour, `MM:SS` otherwise, the value
/// rounded half away from zero. Yields nothing exactly when the text does
/// not name a non-negative duration the formatter can hold.
#[verifier::rlimit(60)]
pub fn format_duration_string(duration_str: &str) -> (r: Option<String>)
    ensures
        match r {
            Some(out) => spec_format_duration(duration_str@) == Some(out@),
            None => spec_format_duration(duration_str@) is None,
        },
{
    let s = string_to_chars(duration_str);
    let n = s.len();
    // trim whitespace
    let mut a: usize = 0;
    while a < n && is_ws_exec(s[a])
        invariant
            n == s@.len(),
            a <= n,
            forall|k: int| 0 <= k < a ==> is_ws(s@[k]),
        decreases n - a,
    {
        a += 1;
    }
    let mut b: usize = n;
    while b > a && is_ws_exec(s[b - 1])
        invariant
            n == s@.len(),
            a <= b <= n,
            forall|k: int| b <= k < n ==> is_ws(s@[k]),
        decreases b,
    {
        b -= 1;
    }
    let ghost whole = s@;
    let ghost t = trim_ws(whole);
    proof {
        lemma_lead_ws_eq(whole, a as int);
        let t1 = whole.subrange(a as int, n as int);
        if b == a {
            lemma_trail_ws_eq(t1, t1.len() as int);
        } else {
            assert(!is_ws(t1[b - 1 - a]));
            lemma_trail_ws_eq(t1, n - b);
        }
        assert(t =~= whole.subrange(a as int, b as int));
    }
    if b == a {
        proof {
            assert(t.len() == 0);
        }
        return None;
    }
    // sign
    let c0 = s[a];
    proof {
        assert(t[0] == c0);
    }
    let neg = c0 == '-';
    let p: usize = if c0 == '-' || c0 == '+' {
        a + 1
    } else {
        a
    };
    let ghost u = if c0 == '-' || c0 == '+' {
        t.drop_first()
    } else {
        t
    };
    proof {
        assert(u =~= whole.subrange(p as int, b as int));
    }
    // integer digits
    let mut k: usize = p;
    while k < b && crate::codec::is_digit_exec(s[k])
        invariant
            n == s@.len(),
            p <= k <= b <= n,
            forall|x: int| p <= x < k ==> is_digit(s@[x]),
        decreases b - k,
    {
        k += 1;
    }
    let ghost dint = whole.subrange(p as int, k as int);
    let ghost rest1 = whole.subrange(k as int, b as int);
    proof {
        if k == p {
            assert(spec_parse_digits(u) == (Seq::<char>::empty(), u));
            assert(dint =~= Seq::<char>::empty());
            assert(rest1 =~= u);
        } else {
            assert(forall|x: int| 0 <= x < dint.len() ==> is_digit(#[trigger] dint[x]));
            assert(u =~= dint + rest1);
            assert(rest1.len() == 0 || !is_digit(rest1[0]));
            crate::codec::lemma_parse_digits_inv(dint, rest1);
        }
        assert(spec_parse_digits(u) == (dint, rest1));
    }
    // optional fraction
    let mut k2: usize = k;
    let mut has_dot = false;
    if k < b && s[k] == '.' {
        has_dot = true;
        k2 = k + 1;
        while k2 < b && crate::codec::is_digit_exec(s[k2])
            invariant
                n == s@.len(),
                k + 1 <= k2 <= b <= n,
                forall|x: int| k + 1 <= x < k2 ==> is_digit(s@[x]),
            decreases b - k2,
        {
            k2 += 1;
        }
    }
    let ghost dfrac = if has_dot {
        whole.subrange(k + 1 as int, k2 as int)
    } else {
        Seq::<char>::empty()
    };
    let ghost rest2 = whole.subrange(k2 as int, b as int);
    proof {
        if has_dot {
            assert(rest1[0] == '.');
            assert(rest1.drop_first() =~= whole.subrange(k + 1 as int, b as int));
            if k2 == k + 1 {
                assert(spec_parse_digits(rest1.drop_first()) == (
                    Seq::<char>::empty(),
                    rest1.drop_first(),
                ));
                assert(dfrac =~= Seq::<char>::empty());
                assert(rest2 =~= rest1.drop_first());
            } else {
                assert(forall|x: int| 0 <= x < dfrac.len() ==> is_digit(#[trigger] dfrac[x]));
                assert(rest1.drop_first() =~= dfrac + rest2);
                assert(rest2.len() == 0 || !is_digit(rest2[0]));
                crate::codec::lemma_parse_digits_inv(dfrac, rest2);
            }
            assert(spec_parse_digits(rest1.drop_first()) == (dfrac, rest2));
        } else {
            if k < b {
                assert(rest1[0] == whole[k as int]);
                assert(rest1[0] != '.');
            }
            assert(rest2 =~= rest1);
        }
    }
    // validity
    if k2 < b {
        proof {
            assert(rest2.len() != 0);
        }
        return None;
    }
    let dl_int = k - p;
    let dl_frac = if has_dot {
        k2 - (k + 1)
    } else {
        0
    };
    if dl_int + dl_frac == 0 {
        return None;
    }
    if dl_int > 15 {
        return None;
    }
    proof {
        assert(rest2.len() == 0);
        assert(dint.len() == dl_int);
        assert(dfrac.len() == dl_frac);
        assert(crate::codec::pow10(15) == 1_000_000_000_000_000) by {
            reveal_with_fuel(crate::codec::pow10, 17);
        }
        assert(whole.subrange(p as int, p as int) =~= Seq::<char>::empty());
    }
    // value of the integer digits
    let mut base: u64 = 0;
    let mut j: usize = p;
    while j < k
        invariant
            n == s@.len(),
            p <= j <= k <= b <= n,
            k - p <= 15,
            dint == whole.subrange(p as int, k as int),
            whole == s@,
            base == digits_val(whole.subrange(p as int, j as int)),
            0 <= base < crate::codec::pow10(j - p),
            crate::codec::pow10(15) == 1_000_000_000_000_000,
            forall|x: int| p <= x < k ==> is_digit(s@[x]),
        decreases k - j,
    {
        let d = crate::codec::digit_val_exec(s[j]);
        proof {
            let pre = whole.subrange(p as int, j as int);
            let cur = whole.subrange(p as int, j + 1 as int);
            assert(cur =~= pre.push(whole[j as int]));
            assert(cur.subrange(0, cur.len() - 1) =~= pre);
            assert(cur[cur.len() - 1] == whole[j as int]);
            assert(crate::codec::pow10(j + 1 - p) == 10 * crate::codec::pow10(j - p));
            crate::codec::lemma_pow10_le(j - p, 14);
            assert(crate::codec::pow10(14) * 10 == crate::codec::pow10(15));
        }
        base = base * 10 + d;
        j += 1;
    }
    proof {
        assert(whole.subrange(p as int, j as int) == dint);
        assert(base == digits_val(dint));
    }
    // rounding and the sign of the fraction
    let up = dl_frac > 0 && {
        let fd = crate::codec::digit_val_exec(s[k + 1]);
        proof {
            assert(dfrac[0] == whole[k + 1 as int]);
        }
        fd >= 5
    };
    let mut any_frac_nonzero = false;
    if has_dot {
        let mut q: usize = k + 1;
        while q < k2
            invariant
                n == s@.len(),
                k + 1 <= q <= k2 <= n,
                whole == s@,
                dfrac == whole.subrange(k + 1 as int, k2 as int),
                any_frac_nonzero == frac_has_nonzero(whole.subrange(k + 1 as int, q as int)),
            decreases k2 - q,
        {
            let d = crate::codec::digit_val_exec(s[q]);
            proof {
                let pre = whole.subrange(k + 1 as int, q as int);
                let cur = whole.subrange(k + 1 as int, q + 1 as int);
                assert(cur =~= pre.push(whole[q as int]));
                if digit_val(whole[q as int]) > 0 {
                    assert(frac_has_nonzero(cur)) by {
                        assert(cur[cur.len() - 1] == whole[q as int]);
                    }
                } else {
                    assert(frac_has_nonzero(cur) == frac_has_nonzero(pre)) by {
                        if frac_has_nonzero(cur) {
                            let w = choose|w: int|
                                0 <= w < cur.len() && digit_val(cur[w]) > 0;
                            assert(w < pre.len());
                            assert(pre[w] == cur[w]);
                        }
                        if frac_has_nonzero(pre) {
                            let w = choose|w: int|
                                0 <= w < pre.len() && digit_val(pre[w]) > 0;
                            assert(cur[w] == pre[w]);
                        }
                    }
                }
            }
            if d > 0 {
                any_frac_nonzero = true;
            }
            q += 1;
        }
        proof {
            assert(whole.subrange(k + 1 as int, q as int) == dfrac);
        }
    } else {
        proof {
            assert(!frac_has_nonzero(dfrac));
        }
    }
    let nonzero = base > 0 || any_frac_nonzero;
    if neg && nonzero {
        return None;
    }
    proof {
        crate::codec::lemma_pow10_le(j - p, 15);
        assert(base < 1_000_000_000_000_000);
    }
    let v: u64 = if up {
        base + 1
    } else {
        base
    };
    proof {
        assert(spec_duration_secs(whole) == Some(v as int));
    }
    // render the clock text
    let h = v / 3600;
    let m = (v % 3600) / 60;
    let sec = v % 60;
    let mut out: Vec<char> = Vec::new();
    if h > 0 {
        push_pad2(&mut out, h);
        out.push(':');
        push_pad2(&mut out, m);
        out.push(':');
        push_pad2(&mut out, sec);
        proof {
            assert(out@ =~= pad2(h as int) + seq![':'] + pad2(m as int) + seq![':'] + pad2(
                sec as int,
            ));
        }
    } else {
        push_pad2(&mut out, m);
        out.push(':');
        push_pad2(&mut out, sec);
        proof {
            assert(out@ =~= pad2(m as int) + seq![':'] + pad2(sec as int));
        }
    }
    Some(chars_to_string(&out))
}

/// Whether the stream reports itself as the video stream.
pub open spec fn is_video_stream(st: ProbeStream) -> bool {
    match st.codec_type {
        Some(t) => t@ == "video"@,
        None => false,
    }
}

/// The first stream that reports itself as video, if any.
pub open spec fn spec_first_video(ss: Seq<ProbeStream>) -> Option<ProbeStream>
    decreases ss.len(),
{
    if ss.len() == 0 {
        None
    } else if is_video_stream(ss[0]) {
        Some(ss[0])
    } else {
        spec_first_video(ss.drop_first())
    }
}

/// The resolution text a probe report earns: width and height of the
/// first video stream, joined by an `x`, when both are present and
/// positive.
pub open spec fn spec_resolution(ss: Seq<ProbeStream>) -> Option<Seq<char>> {
    match spec_first_video(ss) {
        Some(st) => match (st.width, st.height) {
            (Some(w), Some(h)) => if w > 0 && h > 0 {
                Some(dec_nat(w as int) + seq!['x'] + dec_nat(h as int))
            } else {
                None
            },
            _ => None,
        },
        None => None,
    }
}

/// The duration text the report offers: the container's own duration when
/// present, else the first video stream's.
pub open spec fn spec_duration_source(ss: Seq<ProbeStream>, fd: Option<Seq<char>>) -> Option<
    Seq<char>,
> {
    match fd {
        Some(d) => Some(d),
        None => match spec_first_video(ss) {
            Some(st) => match st.duration {
                Some(d) => Some(d@),
                None => None,
            },
            None => None,
        },
    }
}

/// Streams before the first video stream do not change which one it is.
proof fn lemma_first_video_split(ss: Seq<ProbeStream>, i: int)
    requires
        0 <= i <= ss.len(),
        forall|k: int| 0 <= k < i ==> !is_video_stream(ss[k]),
    ensures
        spec_first_video(ss) == spec_first_video(ss.subrange(i, ss.len() as int)),
    decreases i,
{
    if i == 0 {
        assert(ss.subrange(0, ss.len() as int) =~= ss);
    } else {
        assert(!is_video_stream(ss[0]));
        assert(ss.drop_first().subrange(i - 1, ss.drop_first().len() as int) =~= ss.subrange(
            i,
            ss.len() as int,
        ));
        lemma_first_video_split(ss.drop_first(), i - 1);
    }
}

/// Whether the stream reports itself as the video stream.
fn is_video_stream_exec(st: &ProbeStream) -> (r: bool)
    ensures
        r == is_video_stream(*st),
{
    match &st.codec_type {
        Some(t) => crate::text::str_eq(t.as_str(), "video"),
        None => false,
    }
}

/// The metadata a probe report earns, computed from the plain shape of the
/// report: the resolution of the first video stream when it carries
/// positive dimensions, and the clock-style duration, preferring the
/// container's duration text over the video stream's. Both parts are
/// independent and each is absent exactly when the report gives it no
/// usable value.
pub fn parse_ffprobe_output(streams: &Vec<ProbeStream>, format_duration: Option<&str>) -> (m:
    VideoMetadata)
    ensures
        match spec_resolution(streams@) {
            Some(rtext) => m.resolution is Some && m.resolution->0@ == rtext,
            None => m.resolution is None,
        },
        match spec_duration_source(
            streams@,
            match format_duration {
                Some(d) => Some(d@),
                None => None,
            },
        ) {
            None => m.duration is None,
            Some(dtext) => match spec_format_duration(dtext) {
                Some(out) => m.duration is Some && m.duration->0@ == out,
                None => m.duration is None,
            },
        },
{
    let n = streams.len();
    let mut i: usize = 0;
    while i < n && !is_video_stream_exec(&streams[i])
        invariant
            n == streams@.len(),
            i <= n,
            forall|k: int| 0 <= k < i ==> !is_video_stream(streams@[k]),
        decreases n - i,
    {
        i += 1;
    }
    proof {
        lemma_first_video_split(streams@, i as int);
        if i < n {
            assert(streams@.subrange(i as int, n as int)[0] == streams@[i as int]);
            assert(spec_first_video(streams@) == Some(streams@[i as int]));
        } else {
            assert(streams@.subrange(i as int, n as int).len() == 0);
            assert(spec_first_video(streams@) is None);
        }
    }
    // resolution from the first video stream
    let mut resolution: Option<String> = None;
    if i < n {
        let wo = match &streams[i].width {
            Some(w) => Some(*w),
            None => None,
        };
        let ho = match &streams[i].height {
            Some(h) => Some(*h),
            None => None,
        };
        if let (Some(w), Some(h)) = (wo, ho) {
            if w > 0 && h > 0 {
                let mut out: Vec<char> = Vec::new();
                crate::codec::push_dec_u64(&mut out, w as u64);
                out.push('x');
                crate::codec::push_dec_u64(&mut out, h as u64);
                proof {
                    assert(out@ =~= dec_nat(w as int) + seq!['x'] + dec_nat(h as int));
                }
                resolution = Some(chars_to_string(&out));
            }
        }
    }
    // duration text: container first, then the video stream
    let duration: Option<String> = match format_duration {
        Some(d) => format_duration_string(d),
        None => {
            if i < n {
                match &streams[i].duration {
                    Some(d) => format_duration_string(d.as_str()),
                    None => None,
                }
            } else {
                None
            }
        },
    };
    VideoMetadata { resolution, duration }
}

} // verus!
