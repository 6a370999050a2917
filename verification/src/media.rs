//! Media input/output through outside ffmpeg processes: the decisions taken
//! on what the processes print, and the checks on frames sent to them.

use vstd::prelude::*;
use crate::model::{first_index, lemma_first_index, lemma_first_index_at, lemma_first_index_none};
use crate::text::{chars_of, decimal_spec, decimal_text, digit_spec, joined, same_text, text_of, views};

verus! {

/// Why an ffmpeg operation failed.
#[derive(Debug, Clone, PartialEq)]
pub enum FfmpegError {
    NotFound(&'static str),
    Probe(String),
    Spawn(String),
    Write(String),
    Finish(String),
    Io(String),
}

impl FfmpegError {
    /// How the error reads for a person.
    pub fn message(&self) -> (m: String)
        ensures
            m@ == match *self {
                FfmpegError::NotFound(b) => b@ + " not found (set FFMPEG_PATH/FFPROBE_PATH or PATH)"@,
                FfmpegError::Probe(e) => "probe failed: "@ + e@,
                FfmpegError::Spawn(e) => "spawn failed: "@ + e@,
                FfmpegError::Write(e) => "frame write failed: "@ + e@,
                FfmpegError::Finish(e) => "ffmpeg exited badly: "@ + e@,
                FfmpegError::Io(e) => "io error: "@ + e@,
            },
    {
        match self {
            FfmpegError::NotFound(b) => joined(b, " not found (set FFMPEG_PATH/FFPROBE_PATH or PATH)"),
            FfmpegError::Probe(e) => joined("probe failed: ", e.as_str()),
            FfmpegError::Spawn(e) => joined("spawn failed: ", e.as_str()),
            FfmpegError::Write(e) => joined("frame write failed: ", e.as_str()),
            FfmpegError::Finish(e) => joined("ffmpeg exited badly: ", e.as_str()),
            FfmpegError::Io(e) => joined("io error: ", e.as_str()),
        }
    }
}

// ---------------------------------------------------------------------------
// Locating the tools
// ---------------------------------------------------------------------------

/// A candidate path that names an existing file.
pub open spec fn existing(c: (String, bool)) -> bool {
    c.1
}

/// The tool a lookup keyed by `env_key` is for.
pub open spec fn tool_name(env_key: Seq<char>) -> Seq<char> {
    if env_key == "FFMPEG_PATH"@ {
        "ffmpeg"@
    } else {
        "ffprobe"@
    }
}

/// The first of `candidates` (paths, each with whether a file exists there)
/// that names an existing file.
pub fn first_existing(candidates: &Vec<(String, bool)>) -> (r: Option<String>)
    ensures
        match first_index(candidates@, |c: (String, bool)| existing(c)) {
            Some(i) => r matches Some(p) && p@ == candidates@[i].0@,
            None => r is None,
        },
{
    let n = candidates.len();
    let mut i: usize = 0;
    while i < n
        invariant
            n == candidates@.len(),
            i <= n,
            forall|j: int| 0 <= j < i ==> !existing(#[trigger] candidates@[j]),
        decreases n - i,
    {
        if candidates[i].1 {
            proof {
                lemma_first_index_at(candidates@, |c: (String, bool)| existing(c), i as int);
            }
            return Some(candidates[i].0.clone());
        }
        i = i + 1;
    }
    proof {
        lemma_first_index_none(candidates@, |c: (String, bool)| existing(c));
    }
    None
}

/// The executable a lookup settles on. `candidates` are the paths tried, in
/// order (the one named by the environment variable `env_key`, then each
/// directory of `PATH` joined with the executable's name), each with whether
/// a file exists there: the first existing one wins; when there is none, the
/// tool is not found.
pub fn choose_binary(env_key: &str, candidates: &Vec<(String, bool)>) -> (r: Result<String, FfmpegError>)
    ensures
        match first_index(candidates@, |c: (String, bool)| existing(c)) {
            Some(i) => r matches Ok(p) && p@ == candidates@[i].0@,
            None => r matches Err(FfmpegError::NotFound(b)) && b@ == tool_name(env_key@),
        },
{
    broadcast use vstd::string::group_string_axioms;
    match first_existing(candidates) {
        Some(p) => Ok(p),
        None => if same_text(env_key, "FFMPEG_PATH") {
            Err(FfmpegError::NotFound("ffmpeg"))
        } else {
            Err(FfmpegError::NotFound("ffprobe"))
        },
    }
}

// ---------------------------------------------------------------------------
// Unsigned decimal numbers
// ---------------------------------------------------------------------------

pub open spec fn is_digit(c: char) -> bool {
    '0' <= c && c <= '9'
}

/// The value of a string of decimal digits.
pub open spec fn digits_value(s: Seq<char>) -> int
    decreases s.len(),
{
    if s.len() == 0 {
        0
    } else {
        digits_value(s.drop_last()) * 10 + (s.last() as int - '0' as int)
    }
}

proof fn lemma_digit_value(d: nat)
    requires
        d < 10,
    ensures
        digit_spec(d) as int - '0' as int == d,
{
}

/// Reading `n` back from its decimal digits gives `n`.
pub proof fn lemma_decimal_value(n: nat)
    ensures
        digits_value(decimal_spec(n)) == n,
    decreases n,
{
    let s = decimal_spec(n);
    if n < 10 {
        lemma_digit_value(n);
        assert(s.drop_last() =~= Seq::<char>::empty());
        assert(digits_value(Seq::<char>::empty()) == 0);
        assert(s.last() == digit_spec(n));
    } else {
        lemma_decimal_value(n / 10);
        lemma_digit_value(n % 10);
        assert(s.drop_last() =~= decimal_spec(n / 10));
        assert(s.last() == digit_spec(n % 10));
        assert((n / 10) * 10 + n % 10 == n) by (nonlinear_arith);
    }
    assert(digits_value(s) == digits_value(s.drop_last()) * 10 + (s.last() as int - '0' as int));
}

/// What `str::parse::<u32>` gives: an optional `+` followed by one or more
/// ASCII digits whose value fits in `u32`; anything else is refused.
pub open spec fn u32_of_text(s: Seq<char>) -> Option<u32> {
    let body = unsigned_body(s);
    if body.len() > 0 && all_digits(body) && digits_value(body) <= u32::MAX {
        Some(digits_value(body) as u32)
    } else {
        None
    }
}

/// `s` without a leading `+`.
pub open spec fn unsigned_body(s: Seq<char>) -> Seq<char> {
    if s.len() > 0 && s[0] == '+' {
        s.drop_first()
    } else {
        s
    }
}

pub open spec fn all_digits(s: Seq<char>) -> bool {
    forall|i: int| 0 <= i < s.len() ==> is_digit(#[trigger] s[i])
}

proof fn lemma_digits_value_nonneg(s: Seq<char>)
    requires
        forall|i: int| 0 <= i < s.len() ==> is_digit(#[trigger] s[i]),
    ensures
        digits_value(s) >= 0,
    decreases s.len(),
{
    if s.len() > 0 {
        lemma_digits_value_nonneg(s.drop_last());
    }
}

/// Parses `v[lo..hi]` as a `u32` the way `str::parse::<u32>` does.
pub fn parse_u32(v: &Vec<char>, lo: usize, hi: usize) -> (r: Option<u32>)
    requires
        lo <= hi <= v@.len(),
    ensures
        r == u32_of_text(v@.subrange(lo as int, hi as int)),
{
    let ghost s = v@.subrange(lo as int, hi as int);
    let start = if lo < hi && v[lo] == '+' { lo + 1 } else { lo };
    let ghost body = v@.subrange(start as int, hi as int);
    assert(body =~= unsigned_body(s));
    if start == hi {
        return None;
    }
    let mut acc: u64 = 0;
    let mut i = start;
    while i < hi
        invariant
            lo <= start <= i <= hi <= v@.len(),
            start < hi,
            s == v@.subrange(lo as int, hi as int),
            body == v@.subrange(start as int, hi as int),
            body == unsigned_body(s),
            forall|k: int| start <= k < i ==> is_digit(#[trigger] v@[k]),
            acc == digits_value(v@.subrange(start as int, i as int)),
            acc <= u32::MAX,
        decreases hi - i,
    {
        let c = v[i];
        if !('0' <= c && c <= '9') {
            proof {
                assert(!is_digit(body[i - start]));
                assert(!all_digits(body));
            }
            return None;
        }
        let d = (c as u32 - '0' as u32) as u64;
        let next = acc * 10 + d;
        proof {
            assert(v@.subrange(start as int, i + 1).drop_last() =~= v@.subrange(start as int, i as int));
        }
        if next > 0xffff_ffff {
            proof {
                // further digits only make the value larger
                assert(v@.subrange(start as int, i + 1) =~= body.subrange(0, i + 1 - start));
                assert(digits_value(v@.subrange(start as int, i + 1)) == next);
                assert forall|k: int| 0 <= k < i + 1 - start implies is_digit(#[trigger] body[k]) by {
                    assert(body[k] == v@[start + k]);
                }
                lemma_digits_prefix_grows(body, i + 1 - start);
                assert(body.subrange(0, i + 1 - start) == v@.subrange(start as int, i + 1));
                if all_digits(body) {
                    assert(digits_value(body) > u32::MAX);
                }
            }
            return None;
        }
        acc = next;
        i = i + 1;
    }
    assert(v@.subrange(start as int, hi as int) =~= body);
    Some(acc as u32)
}

/// A longer run of digits is worth at least as much as its prefix.
proof fn lemma_digits_prefix_grows(s: Seq<char>, k: int)
    requires
        0 <= k <= s.len(),
        forall|i: int| 0 <= i < k ==> is_digit(#[trigger] s[i]),
    ensures
        (forall|i: int| 0 <= i < s.len() ==> is_digit(#[trigger] s[i])) ==> digits_value(s)
            >= digits_value(s.subrange(0, k)),
    decreases s.len() - k,
{
    if k < s.len() && (forall|i: int| 0 <= i < s.len() ==> is_digit(#[trigger] s[i])) {
        lemma_digits_prefix_grows(s, k + 1);
        let p = s.subrange(0, k + 1);
        assert(p.drop_last() =~= s.subrange(0, k));
        lemma_digits_value_nonneg(s.subrange(0, k));
    }
    if k == s.len() {
        assert(s.subrange(0, k) =~= s);
    }
}

// ---------------------------------------------------------------------------
// Splitting at a character
// ---------------------------------------------------------------------------

pub open spec fn is_char(c: char) -> spec_fn(char) -> bool {
    |x: char| x == c
}

/// The text before the first `c` and, if there is a `c`, the text after it:
/// the first two pieces of `str::splitn(2, c)`.
pub open spec fn split_once_spec(s: Seq<char>, c: char) -> (Seq<char>, Option<Seq<char>>) {
    match first_index(s, is_char(c)) {
        Some(i) => (s.subrange(0, i), Some(s.subrange(i + 1, s.len() as int))),
        None => (s, None),
    }
}

/// Finds the first `c` in `v[lo..hi]`.
pub fn find_char(v: &Vec<char>, lo: usize, hi: usize, c: char) -> (r: Option<usize>)
    requires
        lo <= hi <= v@.len(),
    ensures
        match r {
            Some(j) => lo <= j < hi && v@[j as int] == c && forall|k: int| lo <= k < j ==> v@[k] != c,
            None => forall|k: int| lo <= k < hi ==> v@[k] != c,
        },
        split_once_spec(v@.subrange(lo as int, hi as int), c) == (match r {
            Some(j) => (
                v@.subrange(lo as int, j as int),
                Some(v@.subrange(j + 1, hi as int)),
            ),
            None => (v@.subrange(lo as int, hi as int), None),
        }),
{
    let ghost s = v@.subrange(lo as int, hi as int);
    let mut j = lo;
    while j < hi
        invariant
            lo <= j <= hi <= v@.len(),
            s == v@.subrange(lo as int, hi as int),
            forall|k: int| lo <= k < j ==> v@[k] != c,
        decreases hi - j,
    {
        if v[j] == c {
            proof {
                lemma_first_index_at(s, is_char(c), j - lo);
                assert(s.subrange(0, j - lo) =~= v@.subrange(lo as int, j as int));
                assert(s.subrange(j - lo + 1, s.len() as int) =~= v@.subrange(j + 1, hi as int));
            }
            return Some(j);
        }
        j = j + 1;
    }
    proof {
        lemma_first_index_none(s, is_char(c));
    }
    None
}

// ---------------------------------------------------------------------------
// Probing
// ---------------------------------------------------------------------------

/// The frame rate `num/den` that a rate text such as `30000/1001` stands
/// for: the first two `/`-separated pieces read as `u32`; when either is
/// missing, unreadable or zero, 30/1.
pub open spec fn rate_of_text(s: Seq<char>) -> (u32, u32) {
    let (first, rest) = split_once_spec(s, '/');
    let num: u32 = match u32_of_text(first) {
        Some(n) => n,
        None => 0,
    };
    let den: u32 = match rest {
        Some(r) => match u32_of_text(split_once_spec(r, '/').0) {
            Some(d) => d,
            None => 0,
        },
        None => 0,
    };
    if num == 0 || den == 0 {
        (30, 1)
    } else {
        (num, den)
    }
}

/// A rate read from text is never zero in either term.
pub proof fn lemma_rate_nonzero(s: Seq<char>)
    ensures
        rate_of_text(s).0 >= 1,
        rate_of_text(s).1 >= 1,
{
}

/// Reads a frame rate such as `30000/1001`.
pub fn parse_rate(s: &str) -> (r: (u32, u32))
    ensures
        r == rate_of_text(s@),
{
    let v = chars_of(s);
    let n = v.len();
    assert(v@.subrange(0, n as int) =~= s@);
    let slash = find_char(&v, 0, n, '/');
    let num = match slash {
        Some(j) => parse_u32(&v, 0, j),
        None => parse_u32(&v, 0, n),
    };
    let num: u32 = match num {
        Some(x) => x,
        None => 0,
    };
    let den: u32 = match slash {
        Some(j) => {
            let second = find_char(&v, j + 1, n, '/');
            let d = match second {
                Some(k) => parse_u32(&v, j + 1, k),
                None => parse_u32(&v, j + 1, n),
            };
            match d {
                Some(x) => x,
                None => 0,
            }
        },
        None => 0,
    };
    if num == 0 || den == 0 {
        (30, 1)
    } else {
        (num, den)
    }
}

/// One stream as ffprobe describes it.
#[derive(Debug, Clone, PartialEq)]
pub struct ProbeStream {
    pub codec_type: Option<String>,
    pub codec_name: Option<String>,
    pub width: Option<u32>,
    pub height: Option<u32>,
    pub avg_frame_rate: Option<String>,
}

/// What the streams of a file say about it; the duration is read separately.
#[derive(Debug, Clone, PartialEq)]
pub struct StreamSummary {
    pub width: u32,
    pub height: u32,
    pub fps_num: u32,
    pub fps_den: u32,
    pub has_video: bool,
    pub has_audio: bool,
    pub video_codec: String,
}

pub open spec fn of_type(t: Seq<char>) -> spec_fn(ProbeStream) -> bool {
    |s: ProbeStream| s.codec_type matches Some(x) && x@ == t
}

impl View for StreamSummary {
    /// Width, height, rate numerator and denominator, video and audio
    /// presence, and codec name.
    type V = (u32, u32, u32, u32, bool, bool, Seq<char>);

    open spec fn view(&self) -> Self::V {
        (
            self.width,
            self.height,
            self.fps_num,
            self.fps_den,
            self.has_video,
            self.has_audio,
            self.video_codec@,
        )
    }
}

/// The summary of a stream list: the first video stream gives size, rate
/// (30/1 when it has none) and codec name; any audio stream sets `has_audio`.
pub open spec fn summary_of(streams: Seq<ProbeStream>) -> (u32, u32, u32, u32, bool, bool, Seq<char>) {
    let has_audio = exists|i: int| 0 <= i < streams.len() && #[trigger] of_type("audio"@)(streams[i]);
    match first_index(streams, of_type("video"@)) {
        Some(i) => {
            let v = streams[i];
            let (n, d) = match v.avg_frame_rate {
                Some(r) => rate_of_text(r@),
                None => (30u32, 1u32),
            };
            (
                match v.width { Some(w) => w, None => 0 },
                match v.height { Some(h) => h, None => 0 },
                n,
                d,
                true,
                has_audio,
                match v.codec_name { Some(c) => c@, None => Seq::empty() },
            )
        },
        None => (0, 0, 30, 1, false, has_audio, Seq::empty()),
    }
}

/// Whether `s` holds exactly the text `t`.
fn is_type(s: &Option<String>, t: &str) -> (b: bool)
    ensures
        b == (*s matches Some(x) && x@ == t@),
{
    match s {
        Some(x) => crate::text::same_text(x.as_str(), t),
        None => false,
    }
}

/// Summarises ffprobe's stream list.
pub fn summarize_streams(streams: &Vec<ProbeStream>) -> (r: StreamSummary)
    ensures
        r@ == summary_of(streams@),
{
    broadcast use vstd::string::group_string_axioms;
    let n = streams.len();
    let mut video: Option<usize> = None;
    let mut audio = false;
    let mut i: usize = 0;
    while i < n
        invariant
            n == streams@.len(),
            i <= n,
            audio == exists|k: int| 0 <= k < i && #[trigger] of_type("audio"@)(streams@[k]),
            match video {
                Some(x) => x < i && of_type("video"@)(streams@[x as int]) && forall|k: int|
                    0 <= k < x ==> !of_type("video"@)(#[trigger] streams@[k]),
                None => forall|k: int| 0 <= k < i ==> !of_type("video"@)(#[trigger] streams@[k]),
            },
        decreases n - i,
    {
        let st = &streams[i];
        let ghost was = audio;
        if video.is_none() && is_type(&st.codec_type, "video") {
            video = Some(i);
        }
        let is_audio = is_type(&st.codec_type, "audio");
        if is_audio {
            audio = true;
        }
        proof {
            assert(is_audio == of_type("audio"@)(streams@[i as int]));
            if is_audio {
                assert(of_type("audio"@)(streams@[i as int]));
            } else if was {
                let k = choose|k: int| 0 <= k < i && #[trigger] of_type("audio"@)(streams@[k]);
                assert(of_type("audio"@)(streams@[k]));
            } else {
                assert forall|k: int| 0 <= k < i + 1 implies !(#[trigger] of_type("audio"@)(streams@[k])) by {
                    if k < i {
                        assert(!(exists|k: int| 0 <= k < i && #[trigger] of_type("audio"@)(streams@[k])));
                    }
                }
            }
        }
        i = i + 1;
    }
    proof {
        lemma_first_index(streams@, of_type("video"@));
        match video {
            Some(x) => lemma_first_index_at(streams@, of_type("video"@), x as int),
            None => lemma_first_index_none(streams@, of_type("video"@)),
        }
    }
    match video {
        Some(x) => {
            let v = &streams[x];
            let (fps_num, fps_den) = match &v.avg_frame_rate {
                Some(r) => parse_rate(r.as_str()),
                None => (30, 1),
            };
            StreamSummary {
                width: match v.width { Some(w) => w, None => 0 },
                height: match v.height { Some(h) => h, None => 0 },
                fps_num,
                fps_den,
                has_video: true,
                has_audio: audio,
                video_codec: match &v.codec_name { Some(c) => c.clone(), None => String::new() },
            }
        },
        None => StreamSummary {
            width: 0,
            height: 0,
            fps_num: 30,
            fps_den: 1,
            has_video: false,
            has_audio: audio,
            video_codec: String::new(),
        },
    }
}

/// A file has audio exactly when some stream, wherever it stands in the
/// list, is an audio stream, and has video exactly when some stream is a
/// video stream.
pub proof fn lemma_summary_presence(streams: Seq<ProbeStream>)
    ensures
        summary_of(streams).5 <==> exists|i: int|
            #![trigger streams[i]]
            0 <= i < streams.len() && (streams[i].codec_type matches Some(t) && t@ == "audio"@),
        summary_of(streams).4 <==> exists|i: int|
            #![trigger streams[i]]
            0 <= i < streams.len() && (streams[i].codec_type matches Some(t) && t@ == "video"@),
{
    lemma_first_index(streams, of_type("video"@));
    if exists|i: int| #![trigger streams[i]] 0 <= i < streams.len() && (streams[i].codec_type matches Some(t) && t@ == "audio"@) {
        let i = choose|i: int| #![trigger streams[i]] 0 <= i < streams.len() && (streams[i].codec_type matches Some(t) && t@ == "audio"@);
        assert(of_type("audio"@)(streams[i]));
    }
    if exists|i: int| #![trigger streams[i]] 0 <= i < streams.len() && (streams[i].codec_type matches Some(t) && t@ == "video"@) {
        let i = choose|i: int| #![trigger streams[i]] 0 <= i < streams.len() && (streams[i].codec_type matches Some(t) && t@ == "video"@);
        assert(of_type("video"@)(streams[i]));
    }
}

// ---------------------------------------------------------------------------
// Encoding
// ---------------------------------------------------------------------------

/// `needle` occurs in `hay`.
pub open spec fn occurs_in(hay: Seq<char>, needle: Seq<char>) -> bool {
    exists|i: int| 0 <= i && i + needle.len() <= hay.len() && #[trigger] hay.subrange(i, i + needle.len()) == needle
}

/// Searches `needle` in `hay`.
pub fn occurs(hay: &Vec<char>, needle: &Vec<char>) -> (b: bool)
    ensures
        b == occurs_in(hay@, needle@),
{
    let n = hay.len();
    let m = needle.len();
    if m > n {
        return false;
    }
    let mut i: usize = 0;
    while i <= n - m
        invariant
            n == hay@.len(),
            m == needle@.len(),
            m <= n,
            i <= n - m + 1,
            i + m <= n + 1,
            forall|k: int| 0 <= k < i ==> #[trigger] hay@.subrange(k, k + m) != needle@,
        decreases n - i,
    {
        let mut j: usize = 0;
        while j < m && hay[i + j] == needle[j]
            invariant
                n == hay@.len(),
                m == needle@.len(),
                i + m <= n,
                j <= m,
                forall|k: int| 0 <= k < j ==> hay@[i + k] == needle@[k],
            decreases m - j,
        {
            j = j + 1;
        }
        if j == m {
            assert(hay@.subrange(i as int, i + m) =~= needle@);
            return true;
        }
        assert(hay@.subrange(i as int, i + m)[j as int] != needle@[j as int]);
        i = i + 1;
    }
    proof {
        assert forall|k: int| 0 <= k && k + m <= n implies #[trigger] hay@.subrange(k, k + m) != needle@ by {
            assert(k < i);
        }
    }
    false
}

/// The encoder ffmpeg should use given its `-encoders` listing: `libx264`
/// when the listing names it, else `mpeg4`; with the options for each.
pub open spec fn codec_choice(listing: Seq<char>) -> (Seq<char>, Seq<Seq<char>>) {
    if occurs_in(listing, "libx264 "@) || occurs_in(listing, "libx264\n"@) || occurs_in(
        listing,
        " libx264"@,
    ) {
        (
            "libx264"@,
            seq![
                "-pix_fmt"@,
                "yuv420p"@,
                "-crf"@,
                "20"@,
                "-preset"@,
                "veryfast"@,
                "-movflags"@,
                "+faststart"@,
            ],
        )
    } else {
        ("mpeg4"@, seq!["-pix_fmt"@, "yuv420p"@, "-q:v"@, "3"@])
    }
}

fn owned(s: &str) -> (t: String)
    ensures
        t@ == s@,
{
    broadcast use vstd::string::group_string_axioms;
    s.to_string()
}

/// Picks the video encoder from ffmpeg's encoder listing.
pub fn choose_codec(listing: &str) -> (r: (&'static str, Vec<String>))
    ensures
        r.0@ == codec_choice(listing@).0,
        views(r.1@) == codec_choice(listing@).1,
{
    let hay = chars_of(listing);
    let a = chars_of("libx264 ");
    let b = chars_of("libx264\n");
    let c = chars_of(" libx264");
    if occurs(&hay, &a) || occurs(&hay, &b) || occurs(&hay, &c) {
        let mut v: Vec<String> = Vec::new();
        v.push(owned("-pix_fmt"));
        v.push(owned("yuv420p"));
        v.push(owned("-crf"));
        v.push(owned("20"));
        v.push(owned("-preset"));
        v.push(owned("veryfast"));
        v.push(owned("-movflags"));
        v.push(owned("+faststart"));
        assert(views(v@) =~= codec_choice(listing@).1);
        ("libx264", v)
    } else {
        let mut v: Vec<String> = Vec::new();
        v.push(owned("-pix_fmt"));
        v.push(owned("yuv420p"));
        v.push(owned("-q:v"));
        v.push(owned("3"));
        assert(views(v@) =~= codec_choice(listing@).1);
        ("mpeg4", v)
    }
}

/// A frame of `len` bytes for a `width x height` RGBA8 stream: any other
/// length is refused with `"bad frame size {len}"`.
pub fn check_frame_len(len: usize, width: u32, height: u32) -> (r: Result<(), FfmpegError>)
    requires
        width as int * height as int * 4 <= usize::MAX,
    ensures
        len == width as int * height as int * 4 ==> r == Ok::<(), FfmpegError>(()),
        len != width as int * height as int * 4 ==> (r matches Err(FfmpegError::Write(m)) && m@
            == "bad frame size "@ + decimal_spec(len as nat)),
{
    broadcast use vstd::string::group_string_axioms;
    let expect = crate::plugin::rgba_len(width, height);
    if len == expect {
        return Ok(());
    }
    let mut m = "bad frame size ".to_string();
    m.append(decimal_text(len as u64).as_str());
    Err(FfmpegError::Write(m))
}

// ---------------------------------------------------------------------------
// Command lines
// ---------------------------------------------------------------------------

/// The arguments that probe a media file: ffprobe prints its format and
/// streams as JSON.
pub fn probe_args(path: &str) -> (args: Vec<String>)
    ensures
        views(args@) == seq!["-v"@, "error"@, "-print_format"@, "json"@, "-show_format"@, "-show_streams"@, path@],
{
    let mut v: Vec<String> = Vec::new();
    v.push(owned("-v"));
    v.push(owned("error"));
    v.push(owned("-print_format"));
    v.push(owned("json"));
    v.push(owned("-show_format"));
    v.push(owned("-show_streams"));
    v.push(owned(path));
    assert(views(v@) =~= seq!["-v"@, "error"@, "-print_format"@, "json"@, "-show_format"@, "-show_streams"@, path@]);
    v
}

/// The frame size argument `{width}x{height}`.
pub open spec fn size_text(width: u32, height: u32) -> Seq<char> {
    decimal_spec(width as nat) + "x"@ + decimal_spec(height as nat)
}

/// The arguments that make ffmpeg read raw RGBA8 frames of `width` by
/// `height` from its standard input at `fps` frames per second (as text) and
/// encode them with `codec` and its `extra` options into `out_path`.
pub fn writer_args(width: u32, height: u32, fps: &str, codec: &str, extra: &Vec<String>, out_path: &str) -> (args: Vec<String>)
    ensures
        views(args@) == seq!["-y"@, "-f"@, "rawvideo"@, "-pix_fmt"@, "rgba"@, "-s"@, size_text(width, height),
            "-framerate"@, fps@, "-i"@, "-"@, "-c:v"@, codec@] + views(extra@) + seq![out_path@],
{
    let mut v: Vec<String> = Vec::new();
    v.push(owned("-y"));
    v.push(owned("-f"));
    v.push(owned("rawvideo"));
    v.push(owned("-pix_fmt"));
    v.push(owned("rgba"));
    v.push(owned("-s"));
    let mut size = decimal_text(width as u64);
    size.append("x");
    size.append(decimal_text(height as u64).as_str());
    v.push(size);
    v.push(owned("-framerate"));
    v.push(owned(fps));
    v.push(owned("-i"));
    v.push(owned("-"));
    v.push(owned("-c:v"));
    v.push(owned(codec));
    let ghost head = views(v@);
    let mut k: usize = 0;
    while k < extra.len()
        invariant
            k <= extra@.len(),
            views(v@) == head + views(extra@.subrange(0, k as int)),
        decreases extra.len() - k,
    {
        let ghost before = v@;
        v.push(extra[k].clone());
        assert(views(v@) =~= views(before).push(extra@[k as int]@));
        k = k + 1;
        assert(views(extra@.subrange(0, k as int)) =~= views(extra@.subrange(0, k as int - 1)).push(
            extra@[k as int - 1]@,
        ));
        assert(views(v@) =~= head + views(extra@.subrange(0, k as int)));
    }
    assert(extra@.subrange(0, extra@.len() as int) =~= extra@);
    let ghost before = v@;
    v.push(owned(out_path));
    assert(views(v@) =~= views(before).push(out_path@));
    assert(views(v@) =~= seq!["-y"@, "-f"@, "rawvideo"@, "-pix_fmt"@, "rgba"@, "-s"@, size_text(width, height),
        "-framerate"@, fps@, "-i"@, "-"@, "-c:v"@, codec@] + views(extra@) + seq![out_path@]);
    v
}

/// The arguments that make ffmpeg write the first frame of `src`, scaled to
/// `width` pixels wide with the aspect ratio kept, as the PNG `out_png`.
pub fn thumbnail_args(src: &str, width: u32, out_png: &str) -> (args: Vec<String>)
    ensures
        views(args@) == seq!["-y"@, "-v"@, "error"@, "-i"@, src@, "-frames:v"@, "1"@, "-vf"@,
            "scale="@ + decimal_spec(width as nat) + ":-1"@, out_png@],
{
    let mut v: Vec<String> = Vec::new();
    v.push(owned("-y"));
    v.push(owned("-v"));
    v.push(owned("error"));
    v.push(owned("-i"));
    v.push(owned(src));
    v.push(owned("-frames:v"));
    v.push(owned("1"));
    v.push(owned("-vf"));
    let mut scale = joined("scale=", decimal_text(width as u64).as_str());
    scale.append(":-1");
    v.push(scale);
    v.push(owned(out_png));
    assert(views(v@) =~= seq!["-y"@, "-v"@, "error"@, "-i"@, src@, "-frames:v"@, "1"@, "-vf"@,
        "scale="@ + decimal_spec(width as nat) + ":-1"@, out_png@]);
    v
}

// ---------------------------------------------------------------------------
// Writing frames
// ---------------------------------------------------------------------------

/// An encoder's count of the frames it has been sent, and the frame size it
/// takes.
#[derive(Debug, Clone, PartialEq)]
pub struct WriterState {
    width: u32,
    height: u32,
    frames: u64,
}

impl WriterState {
    pub closed spec fn frames(&self) -> u64 {
        self.frames
    }

    pub closed spec fn frame_width(&self) -> u32 {
        self.width
    }

    pub closed spec fn frame_height(&self) -> u32 {
        self.height
    }

    /// A writer for frames of `width` by `height` that has been sent none.
    pub fn new(width: u32, height: u32) -> (w: WriterState)
        ensures
            w.frame_width() == width,
            w.frame_height() == height,
            w.frames() == 0,
    {
        WriterState { width, height, frames: 0 }
    }

    /// The frame size, width and height.
    pub fn size(&self) -> (s: (u32, u32))
        ensures
            s == (self.frame_width(), self.frame_height()),
    {
        (self.width, self.height)
    }

    /// Frames sent so far.
    pub fn frames_written(&self) -> (n: u64)
        ensures
            n == self.frames(),
    {
        self.frames
    }

    /// Whether a frame of `len` bytes may be sent: one of another size than
    /// `width * height * 4` is the error `bad frame size {len}`.
    pub fn check_frame(&self, len: usize) -> (r: Result<(), FfmpegError>)
        requires
            self.frame_width() as int * self.frame_height() as int * 4 <= usize::MAX,
        ensures
            len == self.frame_width() as int * self.frame_height() as int * 4 ==> r == Ok::<(), FfmpegError>(()),
            len != self.frame_width() as int * self.frame_height() as int * 4 ==> (r matches Err(FfmpegError::Write(m))
                && m@ == "bad frame size "@ + decimal_spec(len as nat)),
    {
        check_frame_len(len, self.width, self.height)
    }

    /// Settles a frame whose bytes were written to the encoder (`sent`, with
    /// the pipe's error text on failure): a written frame is counted, a
    /// failed write is the error `Write` with that text and counts nothing.
    pub fn frame_sent(&mut self, sent: Result<(), String>) -> (r: Result<(), FfmpegError>)
        requires
            old(self).frames() < u64::MAX,
        ensures
            final(self).frame_width() == old(self).frame_width(),
            final(self).frame_height() == old(self).frame_height(),
            match sent {
                Ok(()) => r == Ok::<(), FfmpegError>(()) && final(self).frames() == old(self).frames() + 1,
                Err(e) => r == Err::<(), FfmpegError>(FfmpegError::Write(e)) && final(self).frames()
                    == old(self).frames(),
            },
    {
        match sent {
            Ok(()) => {
                self.frames = self.frames + 1;
                Ok(())
            },
            Err(e) => Err(FfmpegError::Write(e)),
        }
    }
}

} // verus!
