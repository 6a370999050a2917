//! Integer parts of rendering: reading back the composited frame (row
//! padding, premultiplied to straight alpha), PNG encoding, text coverage
//! bitmaps and the small decoded-frame cache.

use vstd::prelude::*;
use std::collections::HashMap;
use image::ImageEncoder;
use ab_glyph::{Font, FontRef};
use crate::model::{first_index, Rgba, TimelineObject, Value, Param};
use crate::keyframes::base_value;
use crate::text::{joined, views};

verus! {

broadcast use vstd::std_specs::hash::group_hash_axioms;

/// Why rendering failed.
#[derive(Debug, Clone, PartialEq)]
pub enum RenderError {
    NoAdapter,
    Device(String),
    Png(String),
    Readback(String),
}

impl RenderError {
    /// How the error reads for a person.
    pub fn message(&self) -> (m: String)
        ensures
            m@ == match *self {
                RenderError::NoAdapter => "no usable GPU adapter (tried Vulkan, GL)"@,
                RenderError::Device(e) => "device error: "@ + e@,
                RenderError::Png(e) => "png encode error: "@ + e@,
                RenderError::Readback(e) => "readback error: "@ + e@,
            },
    {
        broadcast use vstd::string::group_string_axioms;
        match self {
            RenderError::NoAdapter => "no usable GPU adapter (tried Vulkan, GL)".to_string(),
            RenderError::Device(e) => joined("device error: ", e.as_str()),
            RenderError::Png(e) => joined("png encode error: ", e.as_str()),
            RenderError::Readback(e) => joined("readback error: ", e.as_str()),
        }
    }
}

// ---------------------------------------------------------------------------
// Readback
// ---------------------------------------------------------------------------

/// Bytes per row of a copied texture: `width * 4` rounded up to a multiple of 256.
pub open spec fn padded_row_spec(width: nat) -> nat {
    (((width * 4 + 255) / 256) * 256) as nat
}

/// Row stride of a texture copy of `width` RGBA8 pixels.
pub fn padded_row_bytes(width: u32) -> (p: u32)
    requires
        width as int * 4 + 255 <= u32::MAX,
    ensures
        p == padded_row_spec(width as nat),
        p >= width * 4,
{
    assert((width as int * 4 + 255) / 256 * 256 <= width as int * 4 + 255) by (nonlinear_arith)
        requires
            width as int * 4 + 255 >= 0,
    ;
    assert((width as int * 4 + 255) / 256 * 256 >= width as int * 4) by (nonlinear_arith)
        requires
            width as int * 4 + 255 >= 0,
    ;
    (width * 4 + 255) / 256 * 256
}

/// A channel divided back out of premultiplied alpha `a > 0`, rounded, at most 255.
pub open spec fn unpremultiply_channel(c: u8, a: u8) -> u8 {
    let v = (c as int * 255 + a as int / 2) / (a as int);
    if v > 255 {
        255
    } else {
        v as u8
    }
}

/// A premultiplied RGBA pixel in straight alpha; fully transparent pixels become 0,0,0,0.
pub open spec fn straight_pixel(p: Seq<u8>) -> Seq<u8> {
    if p[3] == 0 {
        seq![0u8, 0u8, 0u8, 0u8]
    } else {
        seq![
            unpremultiply_channel(p[0], p[3]),
            unpremultiply_channel(p[1], p[3]),
            unpremultiply_channel(p[2], p[3]),
            p[3],
        ]
    }
}

/// The first `width` pixels of a row, in straight alpha.
pub open spec fn straight_row(row: Seq<u8>, width: nat) -> Seq<u8>
    decreases width,
{
    if width == 0 {
        Seq::empty()
    } else {
        straight_row(row, (width - 1) as nat) + straight_pixel(
            row.subrange(4 * (width - 1), 4 * width as int),
        )
    }
}

/// `height` rows of `width` pixels, each row starting `stride` bytes after
/// the previous one, in straight alpha and without padding.
pub open spec fn straight_image(data: Seq<u8>, width: nat, height: nat, stride: nat) -> Seq<u8>
    decreases height,
{
    if height == 0 {
        Seq::empty()
    } else {
        straight_row(data, width) + straight_image(
            data.subrange(stride as int, data.len() as int),
            width,
            (height - 1) as nat,
            stride,
        )
    }
}

/// Straight alpha leaves fully opaque pixels as they are.
pub proof fn lemma_opaque_pixel_unchanged(p: Seq<u8>)
    requires
        p.len() == 4,
        p[3] == 255,
    ensures
        straight_pixel(p) == p,
{
    assert forall|c: u8| unpremultiply_channel(c, 255) == c by {
        vstd::arithmetic::div_mod::lemma_fundamental_div_mod_converse(
            c as int * 255 + 127,
            255,
            c as int,
            127,
        );
    }
    assert(straight_pixel(p) =~= p);
}

fn unpremultiply(c: u8, a: u8) -> (r: u8)
    requires
        a > 0,
    ensures
        r == unpremultiply_channel(c, a),
{
    let v = (c as u32 * 255 + a as u32 / 2) / (a as u32);
    if v > 255 {
        255
    } else {
        v as u8
    }
}

/// Converts a padded, premultiplied texture copy of `height` rows of
/// `stride` bytes into tightly packed straight-alpha RGBA8.
pub fn straight_alpha_rows(data: &[u8], width: u32, height: u32, stride: u32) -> (out: Vec<u8>)
    requires
        stride >= width as int * 4,
        data@.len() >= stride as int * height as int,
    ensures
        out@ == straight_image(data@, width as nat, height as nat, stride as nat),
{
    let mut out: Vec<u8> = Vec::new();
    let mut row: u32 = 0;
    let mut start: usize = 0;
    let ghost full = data@;
    let w = width as usize;
    let total = data.len();
    assert(full.subrange(0, full.len() as int) =~= full);
    while row < height
        invariant
            full == data@,
            stride >= width as int * 4,
            w == width,
            row <= height,
            start == row as int * stride as int,
            full.len() >= stride as int * height as int,
            total == full.len(),
            out@ + straight_image(full.subrange(start as int, full.len() as int), width as nat, (height - row) as nat, stride as nat)
                == straight_image(full, width as nat, height as nat, stride as nat),
        decreases height - row,
    {
        proof {
            assert(full.subrange(0, full.len() as int) =~= full);
            assert(start + stride as int <= full.len()) by (nonlinear_arith)
                requires
                    start == row as int * stride as int,
                    row < height,
                    full.len() >= stride as int * height as int,
                    stride >= 0,
            ;
        }
        let ghost rest = full.subrange(start as int, full.len() as int);
        let ghost before = out@;
        let mut x: usize = 0;
        while x < w
            invariant
                full == data@,
                w == width,
                x <= w,
                total == full.len(),
                start + w * 4 <= full.len(),
                rest == full.subrange(start as int, full.len() as int),
                out@ == before + straight_row(rest, x as nat),
            decreases w - x,
        {
            let o = start + x * 4;
            let r = data[o];
            let g = data[o + 1];
            let b = data[o + 2];
            let a = data[o + 3];
            let ghost px = rest.subrange(4 * x as int, 4 * x as int + 4);
            assert(px =~= seq![r, g, b, a]);
            if a == 0 {
                out.push(0);
                out.push(0);
                out.push(0);
                out.push(0);
            } else {
                out.push(unpremultiply(r, a));
                out.push(unpremultiply(g, a));
                out.push(unpremultiply(b, a));
                out.push(a);
            }
            x = x + 1;
            assert(out@ =~= before + straight_row(rest, x as nat));
        }
        proof {
            let next = full.subrange(start + stride as int, full.len() as int);
            assert(rest.subrange(stride as int, rest.len() as int) =~= next);
            assert(out@ + straight_image(next, width as nat, (height - row - 1) as nat, stride as nat)
                =~= before + straight_image(rest, width as nat, (height - row) as nat, stride as nat));
        }
        proof {
            assert(start + stride as int == (row + 1) as int * stride as int) by (nonlinear_arith)
                requires
                    start == row as int * stride as int,
            ;
        }
        start = start + stride as usize;
        row = row + 1;
    }
    proof {
        assert(straight_image(full.subrange(start as int, full.len() as int), width as nat, 0, stride as nat)
            =~= Seq::<u8>::empty());
        assert(out@ + Seq::<u8>::empty() =~= out@);
    }
    out
}

// ---------------------------------------------------------------------------
// PNG
// ---------------------------------------------------------------------------

/// The PNG file the `image` crate's encoder writes for an RGBA8 image, when
/// it writes one.
pub uninterp spec fn png_encoding(rgba: Seq<u8>, width: u32, height: u32) -> Option<Seq<u8>>;

/// Calls `image::codecs::png::PngEncoder::write_image` with 8-bit RGBA into
/// a byte vector. The encoder panics unless the buffer holds exactly
/// `width * height * 4` bytes; what an encoding error says is left unstated.
#[verifier::external_body]
fn png_write(rgba: &[u8], width: u32, height: u32) -> (r: Result<Vec<u8>, String>)
    requires
        rgba@.len() == width as int * height as int * 4,
    ensures
        r is Ok <==> png_encoding(rgba@, width, height) is Some,
        r matches Ok(bytes) ==> bytes@ == png_encoding(rgba@, width, height)->0,
{
    let mut out = Vec::new();
    let enc = image::codecs::png::PngEncoder::new(&mut out);
    match enc.write_image(rgba, width, height, image::ExtendedColorType::Rgba8) {
        Ok(()) => Ok(out),
        Err(e) => Err(e.to_string()),
    }
}

/// Encodes a rendered RGBA8 frame as PNG; a zero width or height is taken as 1.
pub fn encode_png(rgba: &Vec<u8>, width: u32, height: u32) -> (r: Result<Vec<u8>, RenderError>)
    requires
        rgba@.len() == (if width >= 1 { width as int } else { 1 }) * (if height >= 1 {
            height as int
        } else {
            1
        }) * 4,
    ensures
        r is Ok <==> png_encoding(
            rgba@,
            if width >= 1 { width } else { 1 },
            if height >= 1 { height } else { 1 },
        ) is Some,
        r matches Ok(bytes) ==> bytes@ == png_encoding(
            rgba@,
            if width >= 1 { width } else { 1 },
            if height >= 1 { height } else { 1 },
        )->0,
        r matches Err(e) ==> e is Png,
{
    let w = if width >= 1 { width } else { 1 };
    let h = if height >= 1 { height } else { 1 };
    match png_write(rgba.as_slice(), w, h) {
        Ok(bytes) => Ok(bytes),
        Err(msg) => Err(RenderError::Png(msg)),
    }
}

// ---------------------------------------------------------------------------
// Parameters read directly by the renderer
// ---------------------------------------------------------------------------

/// The colour held by the first parameter named `name`; `def` when there is
/// no such parameter or it holds something else.
pub fn color_param(o: &TimelineObject, name: &str, def: Rgba) -> (c: Rgba)
    ensures
        c == (match base_value(*o, name@) {
            Some(Value::Color(x)) => x,
            _ => def,
        }),
{
    match o.param(name) {
        Some(Value::Color(c)) => *c,
        _ => def,
    }
}

// ---------------------------------------------------------------------------
// Text coverage bitmaps
// ---------------------------------------------------------------------------

/// A white bitmap whose alpha is glyph coverage, RGBA8 row-major.
#[derive(Debug, Clone, PartialEq)]
pub struct TextBitmap {
    pub width: u32,
    pub height: u32,
    pub rgba: Vec<u8>,
}

impl TextBitmap {
    /// The bitmap is non-empty and holds `width * height` pixels.
    pub open spec fn well_formed(&self) -> bool {
        &&& self.width >= 1
        &&& self.height >= 1
        &&& self.rgba@.len() == self.width as int * self.height as int * 4
    }

    /// A fully transparent bitmap.
    pub fn blank(width: u32, height: u32) -> (b: TextBitmap)
        requires
            width >= 1,
            height >= 1,
            width as int * height as int * 4 <= usize::MAX,
        ensures
            b.well_formed(),
            b.width == width,
            b.height == height,
            forall|i: int| 0 <= i < b.rgba@.len() ==> b.rgba@[i] == 0,
    {
        let n = crate::plugin::rgba_len(width, height);
        let mut rgba: Vec<u8> = Vec::new();
        let mut i: usize = 0;
        while i < n
            invariant
                i <= n,
                rgba@.len() == i,
                forall|k: int| 0 <= k < i ==> rgba@[k] == 0,
            decreases n - i,
        {
            rgba.push(0);
            i = i + 1;
        }
        TextBitmap { width, height, rgba }
    }

    /// Adds glyph coverage `alpha` at pixel `(x, y)`, clamped to the last
    /// column and row: the pixel turns white and keeps the larger alpha.
    pub fn cover(&mut self, x: u32, y: u32, alpha: u8)
        requires
            old(self).well_formed(),
        ensures
            final(self).well_formed(),
            final(self).width == old(self).width,
            final(self).height == old(self).height,
            ({
                let px = if x < old(self).width { x as int } else { old(self).width - 1 };
                let py = if y < old(self).height { y as int } else { old(self).height - 1 };
                let idx = (py * old(self).width + px) * 4;
                let prev = old(self).rgba@[idx + 3];
                final(self).rgba@ == old(self).rgba@.update(idx, 255u8).update(idx + 1, 255u8).update(
                    idx + 2,
                    255u8,
                ).update(idx + 3, if prev > alpha { prev } else { alpha })
            }),
    {
        let w = self.width;
        let h = self.height;
        let px = if x < w { x } else { w - 1 };
        let py = if y < h { y } else { h - 1 };
        let n = self.rgba.len();
        proof {
            assert((py as int) * (w as int) + (px as int) < (w as int) * (h as int)) by (nonlinear_arith)
                requires
                    px < w,
                    py < h,
            ;
            assert((py as int) * (w as int) <= (w as int) * (h as int)) by (nonlinear_arith)
                requires
                    py < h,
            ;
        }
        let idx = ((py as usize) * (w as usize) + (px as usize)) * 4;
        let prev = self.rgba[idx + 3];
        self.rgba.set(idx, 255);
        self.rgba.set(idx + 1, 255);
        self.rgba.set(idx + 2, 255);
        self.rgba.set(idx + 3, if prev > alpha { prev } else { alpha });
    }
}

/// The font a character is drawn with: the first font of the stack whose
/// glyph id for it (`glyph_ids[i]` for font `i`) is not the missing-glyph
/// id 0; with none, the first font, which draws its missing-glyph box.
pub fn font_index(glyph_ids: &Vec<u16>) -> (i: usize)
    ensures
        match first_index(glyph_ids@, |g: u16| g != 0) {
            Some(k) => i == k,
            None => i == 0,
        },
{
    let n = glyph_ids.len();
    let mut k: usize = 0;
    while k < n
        invariant
            n == glyph_ids@.len(),
            k <= n,
            forall|j: int| 0 <= j < k ==> glyph_ids@[j] == 0,
        decreases n - k,
    {
        if glyph_ids[k] != 0 {
            proof {
                crate::model::lemma_first_index_at(glyph_ids@, |g: u16| g != 0, k as int);
            }
            return k;
        }
        k = k + 1;
    }
    proof {
        crate::model::lemma_first_index_none(glyph_ids@, |g: u16| g != 0);
    }
    0
}

/// What ab_glyph makes of face `index` of font file `bytes`: `None` when
/// the face does not parse, else whether it has a glyph for 'あ'.
pub uninterp spec fn face_probe(bytes: Seq<u8>, index: u32) -> Option<bool>;

/// Calls `ab_glyph::FontRef::try_from_slice_and_index` and, on a parsed
/// face, `Font::glyph_id('あ')`, telling whether that glyph id is not the
/// missing-glyph id 0.
#[verifier::external_body]
fn probe_face(bytes: &[u8], index: u32) -> (r: Option<bool>)
    ensures
        r == face_probe(bytes@, index),
{
    match FontRef::try_from_slice_and_index(bytes, index) {
        Ok(f) => Some(f.glyph_id('あ').0 != 0),
        Err(_) => None,
    }
}

/// Most fonts the font stack takes.
pub const FONT_STACK_LIMIT: usize = 8;

/// Faces a font collection is searched through.
pub const COLLECTION_FACES: u32 = 16;

/// The face of a collection taken, searching from face `i`: the first face
/// with a glyph for 'あ', stopping at the first face that does not parse.
pub open spec fn collection_face_from(bytes: Seq<u8>, i: nat) -> Option<u32>
    decreases COLLECTION_FACES - i,
{
    if i >= COLLECTION_FACES {
        None
    } else {
        match face_probe(bytes, i as u32) {
            Some(true) => Some(i as u32),
            Some(false) => collection_face_from(bytes, i + 1),
            None => None,
        }
    }
}

/// The face a font file adds to the stack, if any: files under 128 bytes
/// add none; a collection adds the face `collection_face_from` finds; any
/// other file adds face 0 when it parses.
pub open spec fn font_face_spec(is_collection: bool, bytes: Seq<u8>) -> Option<u32> {
    if bytes.len() < 128 {
        None
    } else if is_collection {
        collection_face_from(bytes, 0)
    } else if face_probe(bytes, 0) is Some {
        Some(0)
    } else {
        None
    }
}

/// The faces taken from the first `n` candidates: in candidate order, each
/// candidate's face while fewer than `FONT_STACK_LIMIT` are taken.
pub open spec fn font_picks_upto(cands: Seq<(bool, Vec<u8>)>, n: nat) -> Seq<(usize, u32)>
    decreases n,
{
    if n == 0 {
        Seq::empty()
    } else {
        let p = font_picks_upto(cands, (n - 1) as nat);
        if p.len() >= FONT_STACK_LIMIT {
            p
        } else {
            match font_face_spec(cands[n - 1].0, cands[n - 1].1@) {
                Some(f) => p.push(((n - 1) as usize, f)),
                None => p,
            }
        }
    }
}

pub open spec fn font_picks_spec(cands: Seq<(bool, Vec<u8>)>) -> Seq<(usize, u32)> {
    font_picks_upto(cands, cands.len())
}

/// The face a font file adds to the stack, if any.
pub fn font_face(is_collection: bool, bytes: &[u8]) -> (r: Option<u32>)
    ensures
        r == font_face_spec(is_collection, bytes@),
{
    if bytes.len() < 128 {
        return None;
    }
    if !is_collection {
        return match probe_face(bytes, 0) {
            Some(_) => Some(0),
            None => None,
        };
    }
    let mut i: u32 = 0;
    while i < COLLECTION_FACES
        invariant
            i <= COLLECTION_FACES,
            is_collection,
            bytes@.len() >= 128,
            collection_face_from(bytes@, 0) == collection_face_from(bytes@, i as nat),
        decreases COLLECTION_FACES - i,
    {
        let probe = probe_face(bytes, i);
        proof {
            assert((i as nat) as u32 == i);
            assert(collection_face_from(bytes@, i as nat) == match probe {
                Some(true) => Some(i),
                Some(false) => collection_face_from(bytes@, i as nat + 1),
                None => None::<u32>,
            });
        }
        match probe {
            Some(true) => {
                return Some(i);
            },
            Some(false) => {
                i = i + 1;
            },
            None => {
                return None;
            },
        }
    }
    None
}

/// The fonts of the stack, chosen from candidate files in order (each with
/// whether it is a collection, and its bytes): each pick is a candidate's
/// position and the face taken from it, at most `FONT_STACK_LIMIT` of them.
pub fn choose_font_faces(cands: &Vec<(bool, Vec<u8>)>) -> (picks: Vec<(usize, u32)>)
    ensures
        picks@ == font_picks_spec(cands@),
        picks@.len() <= FONT_STACK_LIMIT,
{
    let mut picks: Vec<(usize, u32)> = Vec::new();
    let mut i: usize = 0;
    while i < cands.len()
        invariant
            i <= cands@.len(),
            picks@ == font_picks_upto(cands@, i as nat),
            picks@.len() <= FONT_STACK_LIMIT,
        decreases cands.len() - i,
    {
        if picks.len() < FONT_STACK_LIMIT {
            match font_face(cands[i].0, cands[i].1.as_slice()) {
                Some(f) => picks.push((i, f)),
                None => {},
            }
        }
        i = i + 1;
    }
    picks
}

/// Whether a file extension names a font collection: `ttc`, in any letter case.
pub fn is_collection_extension(ext: &str) -> (b: bool)
    ensures
        b == (crate::aviutl::lower_spec(ext@) == "ttc"@),
{
    let l = crate::aviutl::lowercase(ext);
    crate::text::same_text(l.as_str(), "ttc")
}

/// Font files the font stack loads: `.ttf`, `.otf` and `.ttc`, in any letter case.
pub open spec fn font_extension_spec(ext: Seq<char>) -> bool {
    let l = crate::aviutl::lower_spec(ext);
    l == "ttf"@ || l == "otf"@ || l == "ttc"@
}

/// Whether a file extension names a loadable font file.
pub fn is_font_extension(ext: &str) -> (b: bool)
    ensures
        b == font_extension_spec(ext@),
{
    let l = crate::aviutl::lowercase(ext);
    crate::text::same_text(l.as_str(), "ttf") || crate::text::same_text(l.as_str(), "otf")
        || crate::text::same_text(l.as_str(), "ttc")
}

// ---------------------------------------------------------------------------
// Decoded frames
// ---------------------------------------------------------------------------

/// Most frames the cache holds.
pub const CACHE_FRAMES: usize = 8;

/// Recently decoded video frames by frame number, at most `CACHE_FRAMES` of
/// them. When the cache is full, storing a new frame evicts the least
/// recently used one.
pub struct FrameCache {
    frames: HashMap<i64, Vec<u8>>,
    /// The cached frame numbers, least recently used first.
    order: Vec<i64>,
}

impl View for FrameCache {
    type V = Map<i64, Seq<u8>>;

    closed spec fn view(&self) -> Map<i64, Seq<u8>> {
        self.frames@.map_values(|v: Vec<u8>| v@)
    }
}

/// The recency list after a request for `frame`: a cached frame moves to
/// the most recent end; a new one is added there, after the least recently
/// used frame was evicted when the cache was full.
pub open spec fn served(r: Seq<i64>, frame: i64) -> Seq<i64> {
    if r.contains(frame) {
        r.remove(position(r, frame)).push(frame)
    } else if r.len() >= CACHE_FRAMES {
        r.drop_first().push(frame)
    } else {
        r.push(frame)
    }
}

/// Where `x` stands in `s`.
pub open spec fn position(s: Seq<i64>, x: i64) -> int {
    choose|i: int| 0 <= i < s.len() && s[i] == x
}

impl FrameCache {
    /// The cached frame numbers, least recently used first.
    pub closed spec fn recency(&self) -> Seq<i64> {
        self.order@
    }

    /// The recency list names each cached frame once, and there are at most
    /// `CACHE_FRAMES` of them.
    pub closed spec fn within_capacity(&self) -> bool {
        &&& self.order@.no_duplicates()
        &&& self.frames@.dom() == self.order@.to_set()
        &&& self.order@.len() <= CACHE_FRAMES
    }

    /// An empty cache.
    pub fn new() -> (c: FrameCache)
        ensures
            c@ == Map::<i64, Seq<u8>>::empty(),
            c.recency() == Seq::<i64>::empty(),
            c.within_capacity(),
    {
        let c = FrameCache { frames: HashMap::new(), order: Vec::new() };
        assert(c@ =~= Map::<i64, Seq<u8>>::empty());
        assert(c.frames@.dom() =~= c.order@.to_set());
        c
    }

    /// Whether `frame` is cached.
    pub fn contains(&self, frame: i64) -> (b: bool)
        ensures
            b == self@.contains_key(frame),
    {
        self.frames.contains_key(&frame)
    }

    /// The cached bytes of `frame`.
    pub fn get(&self, frame: i64) -> (r: Option<&Vec<u8>>)
        ensures
            match r {
                Some(v) => self@.contains_key(frame) && v@ == self@[frame],
                None => !self@.contains_key(frame),
            },
    {
        self.frames.get(&frame)
    }

    /// Marks `frame`, when cached, as the most recently used.
    pub fn touch(&mut self, frame: i64)
        requires
            old(self).within_capacity(),
        ensures
            final(self).within_capacity(),
            final(self)@ == old(self)@,
            old(self)@.contains_key(frame) ==> final(self).recency() == old(self).recency().remove(
                position(old(self).recency(), frame),
            ).push(frame),
            !old(self)@.contains_key(frame) ==> final(self).recency() == old(self).recency(),
    {
        let ghost old_order = self.order@;
        proof {
            assert(self@.dom() =~= self.frames@.dom());
        }
        let n = self.order.len();
        let mut i: usize = 0;
        while i < n
            invariant
                n == self.order@.len(),
                self.order@ == old_order,
                i <= n,
                forall|j: int| 0 <= j < i ==> self.order@[j] != frame,
            ensures
                i <= n,
                i < n ==> self.order@[i as int] == frame,
                forall|j: int| 0 <= j < i ==> self.order@[j] != frame,
            decreases n - i,
        {
            if self.order[i] == frame {
                break;
            }
            i = i + 1;
        }
        if i < n {
            proof {
                assert(old_order[i as int] == frame);
                let p = position(old_order, frame);
                assert(0 <= p < old_order.len() && old_order[p] == frame);
                assert(p == i);
            }
            let f = self.order.remove(i);
            self.order.push(f);
            proof {
                let mid = old_order.remove(i as int);
                assert(self.order@ == mid.push(frame));
                assert forall|a: int, b: int|
                    0 <= a < self.order@.len() && 0 <= b < self.order@.len() && a != b implies self.order@[a]
                    != self.order@[b] by {
                    let ia = if a < i { a } else { a + 1 };
                    let ib = if b < i { b } else { b + 1 };
                    if a < mid.len() && b < mid.len() {
                        assert(self.order@[a] == old_order[ia] && self.order@[b] == old_order[ib]);
                    } else if a < mid.len() {
                        assert(self.order@[a] == old_order[ia]);
                    } else if b < mid.len() {
                        assert(self.order@[b] == old_order[ib]);
                    }
                }
                assert forall|x: i64| self.order@.contains(x) <==> old_order.contains(x) by {
                    if old_order.contains(x) {
                        let k = choose|k: int| 0 <= k < old_order.len() && old_order[k] == x;
                        if k < i {
                            assert(self.order@[k] == x);
                        } else if k > i {
                            assert(self.order@[k - 1] == x);
                        } else {
                            assert(self.order@[self.order@.len() - 1] == x);
                        }
                    }
                    if self.order@.contains(x) {
                        let k = choose|k: int| 0 <= k < self.order@.len() && self.order@[k] == x;
                        if k < i {
                            assert(old_order[k] == x);
                        } else if k < mid.len() {
                            assert(old_order[k + 1] == x);
                        } else {
                            assert(old_order[i as int] == x);
                        }
                    }
                }
                assert(self.frames@.dom() =~= self.order@.to_set());
            }
        } else {
            proof {
                assert(!old_order.contains(frame));
                assert(!self.frames@.dom().contains(frame));
            }
        }
    }

    /// Looks up `frame` for a request: a cached frame is a hit and becomes
    /// the most recently used; otherwise nothing changes, and the frame is
    /// to be decoded and stored.
    pub fn lookup(&mut self, frame: i64) -> (hit: bool)
        requires
            old(self).within_capacity(),
        ensures
            final(self).within_capacity(),
            final(self)@ == old(self)@,
            hit == old(self)@.contains_key(frame),
            hit ==> final(self).recency() == served(old(self).recency(), frame),
            !hit ==> final(self).recency() == old(self).recency(),
    {
        proof {
            lemma_cache_bounded(*self);
        }
        let hit = self.contains(frame);
        if hit {
            self.touch(frame);
        }
        hit
    }

    /// Stores a newly decoded frame as the most recently used; a full cache
    /// first evicts its least recently used frame.
    pub fn store(&mut self, frame: i64, bytes: Vec<u8>)
        requires
            old(self).within_capacity(),
            !old(self)@.contains_key(frame),
        ensures
            final(self).within_capacity(),
            old(self).recency().len() >= CACHE_FRAMES ==> {
                &&& final(self)@ == old(self)@.remove(old(self).recency()[0]).insert(frame, bytes@)
                &&& final(self).recency() == old(self).recency().drop_first().push(frame)
            },
            old(self).recency().len() < CACHE_FRAMES ==> {
                &&& final(self)@ == old(self)@.insert(frame, bytes@)
                &&& final(self).recency() == old(self).recency().push(frame)
            },
            final(self).recency() == served(old(self).recency(), frame),
    {
        let ghost b = bytes@;
        let ghost old_order = self.order@;
        let ghost old_view = self@;
        proof {
            assert(self@.dom() =~= self.frames@.dom());
            assert(!old_order.contains(frame));
        }
        if self.order.len() >= CACHE_FRAMES {
            let victim = self.order.remove(0);
            self.frames.remove(&victim);
            proof {
                assert(self.order@ =~= old_order.drop_first());
                assert forall|x: i64| self.order@.contains(x) <==> (old_order.contains(x) && x != victim) by {
                    if old_order.contains(x) && x != victim {
                        let k = choose|k: int| 0 <= k < old_order.len() && old_order[k] == x;
                        assert(k != 0);
                        assert(self.order@[k - 1] == x);
                    }
                    if self.order@.contains(x) {
                        let k = choose|k: int| 0 <= k < self.order@.len() && self.order@[k] == x;
                        assert(old_order[k + 1] == x);
                        assert(old_order[0] != old_order[k + 1]);
                    }
                }
                assert(self.frames@.dom() =~= self.order@.to_set());
            }
        }
        let ghost mid_order = self.order@;
        let ghost mid_frames = self.frames@;
        self.frames.insert(frame, bytes);
        self.order.push(frame);
        proof {
            assert(!mid_order.contains(frame));
            assert forall|a: int, c: int|
                0 <= a < self.order@.len() && 0 <= c < self.order@.len() && a != c implies self.order@[a]
                != self.order@[c] by {
                if a < mid_order.len() && c < mid_order.len() {
                    assert(self.order@[a] == mid_order[a] && self.order@[c] == mid_order[c]);
                } else if a < mid_order.len() {
                    assert(self.order@[a] == mid_order[a]);
                } else {
                    assert(self.order@[c] == mid_order[c]);
                }
            }
            assert forall|x: i64| self.order@.contains(x) <==> (mid_order.contains(x) || x == frame) by {
                if mid_order.contains(x) {
                    let k = choose|k: int| 0 <= k < mid_order.len() && mid_order[k] == x;
                    assert(self.order@[k] == x);
                }
                if x == frame {
                    assert(self.order@[self.order@.len() - 1] == x);
                }
                if self.order@.contains(x) {
                    let k = choose|k: int| 0 <= k < self.order@.len() && self.order@[k] == x;
                    if k < mid_order.len() {
                        assert(mid_order[k] == x);
                    }
                }
            }
            assert(self.frames@.dom() =~= self.order@.to_set());
            if old_order.len() >= CACHE_FRAMES {
                assert(self@ =~= old_view.remove(old_order[0]).insert(frame, b));
            } else {
                assert(self@ =~= old_view.insert(frame, b));
            }
        }
    }
}

/// The recency list after a sequence of requests, starting from an empty cache.
pub open spec fn served_all(rs: Seq<i64>) -> Seq<i64>
    decreases rs.len(),
{
    if rs.len() == 0 {
        Seq::empty()
    } else {
        served(served_all(rs.drop_last()), rs.last())
    }
}

/// The distinct frames of a sequence of requests, least recently requested first.
pub open spec fn last_uses(rs: Seq<i64>) -> Seq<i64>
    decreases rs.len(),
{
    if rs.len() == 0 {
        Seq::empty()
    } else {
        let u = last_uses(rs.drop_last());
        let f = rs.last();
        if u.contains(f) {
            u.remove(position(u, f)).push(f)
        } else {
            u.push(f)
        }
    }
}

/// How many of `n` distinct frames do not fit in the cache.
pub open spec fn excess(n: nat) -> int {
    if n > CACHE_FRAMES {
        n - CACHE_FRAMES
    } else {
        0
    }
}

proof fn lemma_position(s: Seq<i64>, x: i64)
    requires
        s.contains(x),
    ensures
        0 <= position(s, x) < s.len(),
        s[position(s, x)] == x,
        s.no_duplicates() ==> forall|i: int| 0 <= i < s.len() && s[i] == x ==> i == position(s, x),
{
}

/// Removing an element and putting it at the end keeps a list free of duplicates.
proof fn lemma_move_to_end(s: Seq<i64>, p: int)
    requires
        s.no_duplicates(),
        0 <= p < s.len(),
    ensures
        s.remove(p).push(s[p]).no_duplicates(),
        s.remove(p).len() == s.len() - 1,
        forall|i: int| 0 <= i < s.len() - 1 ==> #[trigger] s.remove(p)[i] == if i < p { s[i] } else { s[i + 1] },
{
    let t = s.remove(p).push(s[p]);
    assert forall|a: int, b: int| 0 <= a < t.len() && 0 <= b < t.len() && a != b implies t[a] != t[b] by {
        let ia = if a == t.len() - 1 { p } else if a < p { a } else { a + 1 };
        let ib = if b == t.len() - 1 { p } else if b < p { b } else { b + 1 };
        assert(t[a] == s[ia] && t[b] == s[ib]);
    }
}

/// Served from an empty cache, a sequence of requests leaves cached exactly
/// the `CACHE_FRAMES` most recently requested distinct frames, least
/// recently requested first.
pub proof fn lemma_least_recently_used(rs: Seq<i64>)
    ensures
        last_uses(rs).no_duplicates(),
        served_all(rs) == last_uses(rs).skip(excess(last_uses(rs).len())),
    decreases rs.len(),
{
    if rs.len() == 0 {
        assert(last_uses(rs).skip(0) =~= Seq::<i64>::empty());
    } else {
        let pre = rs.drop_last();
        let f = rs.last();
        lemma_least_recently_used(pre);
        let u = last_uses(pre);
        let k = excess(u.len());
        let c = served_all(pre);
        assert(c == u.skip(k));
        assert(c.len() == u.len() - k);
        let u2 = last_uses(rs);
        let c2 = served_all(rs);
        assert(c2 == served(c, f));
        if u.contains(f) {
            lemma_position(u, f);
            let pu = position(u, f);
            lemma_move_to_end(u, pu);
            assert(u2 == u.remove(pu).push(f));
            assert(u2.len() == u.len());
            if c.contains(f) {
                lemma_position(c, f);
                let pc = position(c, f);
                assert(u[pc + k] == f);
                assert(pc + k == pu);
                assert(c2 == c.remove(pc).push(f));
                assert forall|j: int| 0 <= j < c2.len() implies #[trigger] c2[j] == u2.skip(k)[j] by {
                    if j < c.len() - 1 {
                        assert(u2[k + j] == u.remove(pu)[k + j]);
                        if j < pc {
                            assert(c2[j] == c[j]);
                        } else {
                            assert(c2[j] == c[j + 1]);
                        }
                    }
                }
                assert(c2 =~= u2.skip(k));
            } else {
                if pu >= k {
                    assert(c[pu - k] == f);
                }
                assert(pu < k);
                assert(c2 == c.drop_first().push(f));
                assert forall|j: int| 0 <= j < c2.len() implies #[trigger] c2[j] == u2.skip(k)[j] by {
                    if j < c.len() - 1 {
                        assert(u2[k + j] == u.remove(pu)[k + j]);
                        assert(c2[j] == c[j + 1]);
                    }
                }
                assert(c2 =~= u2.skip(k));
            }
        } else {
            assert(!c.contains(f)) by {
                if c.contains(f) {
                    let j = choose|j: int| 0 <= j < c.len() && c[j] == f;
                    assert(u[j + k] == f);
                }
            }
            assert(u2 == u.push(f));
            assert(u2.no_duplicates()) by {
                assert forall|a: int, b: int| 0 <= a < u2.len() && 0 <= b < u2.len() && a != b implies u2[a]
                    != u2[b] by {
                    if a < u.len() && b < u.len() {
                    } else if a < u.len() {
                        assert(u.contains(u2[a]));
                    } else {
                        assert(u.contains(u2[b]));
                    }
                }
            }
            if u.len() >= CACHE_FRAMES {
                assert(c2 == c.drop_first().push(f));
                assert(excess(u2.len()) == k + 1);
                assert(c2 =~= u2.skip(k + 1));
            } else {
                assert(k == 0);
                assert(excess(u2.len()) == 0);
                assert(c =~= u);
                assert(c2 =~= u2.skip(0));
            }
        }
    }
}

/// A cache that stays within capacity holds at most `CACHE_FRAMES` frames,
/// and its recency list names exactly the cached frames, each once.
pub proof fn lemma_cache_bounded(c: FrameCache)
    requires
        c.within_capacity(),
    ensures
        c@.dom().finite(),
        c@.len() <= CACHE_FRAMES,
        c@.len() == c.recency().len(),
        c.recency().no_duplicates(),
        forall|f: i64| c@.contains_key(f) <==> c.recency().contains(f),
{
    assert(c@.dom() =~= c.frames@.dom());
    c.order@.unique_seq_to_set();
    vstd::seq_lib::seq_to_set_is_finite(c.order@);
}

/// The arguments that make ffmpeg print one frame of `path`, taken at
/// `seek` seconds (as text), as raw RGBA8 on its standard output.
pub fn frame_decode_args(seek: &str, path: &str) -> (args: Vec<String>)
    ensures
        views(args@) == seq!["-y"@, "-v"@, "error"@, "-ss"@, seek@, "-i"@, path@, "-frames:v"@, "1"@,
            "-pix_fmt"@, "rgba"@, "-f"@, "rawvideo"@, "pipe:1"@],
{
    broadcast use vstd::string::group_string_axioms;
    let mut v: Vec<String> = Vec::new();
    v.push("-y".to_string());
    v.push("-v".to_string());
    v.push("error".to_string());
    v.push("-ss".to_string());
    v.push(seek.to_string());
    v.push("-i".to_string());
    v.push(path.to_string());
    v.push("-frames:v".to_string());
    v.push("1".to_string());
    v.push("-pix_fmt".to_string());
    v.push("rgba".to_string());
    v.push("-f".to_string());
    v.push("rawvideo".to_string());
    v.push("pipe:1".to_string());
    assert(views(v@) =~= seq!["-y"@, "-v"@, "error"@, "-ss"@, seek@, "-i"@, path@, "-frames:v"@, "1"@,
        "-pix_fmt"@, "rgba"@, "-f"@, "rawvideo"@, "pipe:1"@]);
    v
}

/// The first `width * height * 4` bytes of what the decoder printed; fewer
/// bytes than that is an error `"short frame: {len} < {expect}"`.
pub fn take_frame(stdout: &Vec<u8>, width: u32, height: u32) -> (r: Result<Vec<u8>, String>)
    requires
        width as int * height as int * 4 <= usize::MAX,
    ensures
        stdout@.len() >= width as int * height as int * 4 ==> (r matches Ok(v) && v@
            == stdout@.subrange(0, width as int * height as int * 4)),
        stdout@.len() < width as int * height as int * 4 ==> (r matches Err(m) && m@ == "short frame: "@
            + crate::text::decimal_spec(stdout@.len()) + " < "@ + crate::text::decimal_spec(
            (width as int * height as int * 4) as nat,
        )),
{
    broadcast use vstd::string::group_string_axioms;
    let expect = crate::plugin::rgba_len(width, height);
    if stdout.len() < expect {
        let mut m = "short frame: ".to_string();
        m.append(crate::text::decimal_text(stdout.len() as u64).as_str());
        m.append(" < ");
        m.append(crate::text::decimal_text(expect as u64).as_str());
        return Err(m);
    }
    let mut out: Vec<u8> = Vec::new();
    let mut i: usize = 0;
    while i < expect
        invariant
            i <= expect <= stdout@.len(),
            out@ == stdout@.subrange(0, i as int),
        decreases expect - i,
    {
        out.push(stdout[i]);
        i = i + 1;
        assert(out@ =~= stdout@.subrange(0, i as int));
    }
    Ok(out)
}

} // verus!
