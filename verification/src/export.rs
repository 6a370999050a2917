//! What the editor's preview and export settle on before rendering: output
//! sizes, how many frames are written, in which format, and under which
//! file names.

use vstd::prelude::*;
use crate::model::{end_frames, Scene};
use crate::media::{digits_value, lemma_decimal_value};
use crate::text::{decimal_spec, decimal_text, joined, same_text};

verus! {

/// `x` brought into `[lo, hi]`.
pub open spec fn clamped(x: int, lo: int, hi: int) -> int {
    if x < lo {
        lo
    } else if x > hi {
        hi
    } else {
        x
    }
}

fn clamp_u32(x: u32, lo: u32, hi: u32) -> (y: u32)
    requires
        lo <= hi,
    ensures
        y == clamped(x as int, lo as int, hi as int),
{
    if x < lo {
        lo
    } else if x > hi {
        hi
    } else {
        x
    }
}

/// Size of a preview image: width in `[16, 960]`, height in `[16, 540]`.
pub fn preview_size(width: u32, height: u32) -> (s: (u32, u32))
    ensures
        s.0 == clamped(width as int, 16, 960),
        s.1 == clamped(height as int, 16, 540),
{
    (clamp_u32(width, 16, 960), clamp_u32(height, 16, 540))
}

/// Size of an exported movie or image sequence: exports are at most 1280
/// pixels wide (width in `[16, 1280]`), height in `[16, 1080]`.
pub fn export_size(width: u32, height: u32) -> (s: (u32, u32))
    ensures
        s.0 == clamped(width as int, 16, 1280),
        s.1 == clamped(height as int, 16, 1080),
{
    (clamp_u32(width, 16, 1280), clamp_u32(height, 16, 1080))
}

/// Frames an export writes: the scene's length (its largest end frame), and
/// at least one.
pub fn export_frame_count(scene: &Scene) -> (n: i64)
    ensures
        n >= 1,
        forall|i: int| 0 <= i < end_frames(*scene).len() ==> end_frames(*scene)[i] <= n,
        n == 1 || end_frames(*scene).contains(n),
{
    let d = scene.duration_frames();
    if d < 1 {
        1
    } else {
        d
    }
}

/// The two ways an export is written.
#[derive(Debug, Clone, Copy, PartialEq, Eq)]
pub enum ExportFormat {
    /// One PNG file per frame in a directory.
    PngSequence,
    /// An H.264 MP4 movie written through ffmpeg.
    Mp4,
}

/// The format an export request names: `pngseq` is a PNG sequence, anything
/// else a movie.
pub fn export_format(format: &str) -> (f: ExportFormat)
    ensures
        f == if format@ == "pngseq"@ {
            ExportFormat::PngSequence
        } else {
            ExportFormat::Mp4
        },
{
    if same_text(format, "pngseq") {
        ExportFormat::PngSequence
    } else {
        ExportFormat::Mp4
    }
}

/// `n` zeros.
pub open spec fn zeros(n: nat) -> Seq<char> {
    Seq::new(n, |i: int| '0')
}

/// The decimal digits of `n`, padded with zeros on the left to six.
pub open spec fn six_digits(n: nat) -> Seq<char> {
    let d = decimal_spec(n);
    if d.len() < 6 {
        zeros((6 - d.len()) as nat) + d
    } else {
        d
    }
}

/// File name of frame `f` in a PNG sequence: `frame_`, the frame number in at
/// least six digits, and `.png`.
pub fn frame_file_name(f: u64) -> (name: String)
    ensures
        name@ == "frame_"@ + six_digits(f as nat) + ".png"@,
{
    broadcast use vstd::string::group_string_axioms;
    let d = decimal_text(f);
    let len = d.as_str().unicode_len();
    let mut name = "frame_".to_string();
    let pad: usize = if len < 6 {
        6 - len
    } else {
        0
    };
    let mut j: usize = 0;
    while j < pad
        invariant
            j <= pad,
            name@ == "frame_"@ + zeros(j as nat),
        decreases pad - j,
    {
        name.append("0");
        j = j + 1;
        proof {
            reveal_strlit("0");
        }
        assert("0"@ =~= seq!['0']);
        assert(zeros(j as nat) =~= zeros((j - 1) as nat).push('0'));
    }
    name.append(d.as_str());
    name.append(".png");
    proof {
        if len >= 6 {
            assert(zeros(0) =~= Seq::<char>::empty());
        }
        assert(name@ =~= "frame_"@ + six_digits(f as nat) + ".png"@);
    }
    name
}

proof fn lemma_zeros_value(k: nat)
    ensures
        digits_value(zeros(k)) == 0,
    decreases k,
{
    if k > 0 {
        assert(zeros(k).drop_last() =~= zeros((k - 1) as nat));
        lemma_zeros_value((k - 1) as nat);
    }
}

/// Leading zeros do not change the value of a string of digits.
proof fn lemma_leading_zeros(k: nat, d: Seq<char>)
    ensures
        digits_value(zeros(k) + d) == digits_value(d),
    decreases d.len(),
{
    if d.len() == 0 {
        assert(zeros(k) + d =~= zeros(k));
        lemma_zeros_value(k);
    } else {
        assert((zeros(k) + d).drop_last() =~= zeros(k) + d.drop_last());
        lemma_leading_zeros(k, d.drop_last());
    }
}

/// Different frames of a PNG sequence are written to different files.
pub proof fn lemma_frame_names_distinct(a: u64, b: u64)
    requires
        a != b,
    ensures
        "frame_"@ + six_digits(a as nat) + ".png"@ != "frame_"@ + six_digits(b as nat) + ".png"@,
{
    lemma_decimal_value(a as nat);
    lemma_decimal_value(b as nat);
    let da = decimal_spec(a as nat);
    let db = decimal_spec(b as nat);
    if da.len() < 6 {
        lemma_leading_zeros((6 - da.len()) as nat, da);
    }
    if db.len() < 6 {
        lemma_leading_zeros((6 - db.len()) as nat, db);
    }
    let x = six_digits(a as nat);
    let y = six_digits(b as nat);
    assert(digits_value(x) == a);
    assert(digits_value(y) == b);
    reveal_strlit("frame_");
    reveal_strlit(".png");
    let na = "frame_"@ + x + ".png"@;
    let nb = "frame_"@ + y + ".png"@;
    if na == nb {
        assert(na.len() == 6 + x.len() + 4);
        assert(x =~= na.subrange(6, na.len() - 4));
        assert(y =~= nb.subrange(6, nb.len() - 4));
    }
}

} // verus!
