//! AviUtl script files (`.anm`, `.obj`, `.cam`, `.scn`, `.tra` and their `2`
//! variants): text decoding, splitting into effects, and reading each
//! effect's `--` header lines into a definition. Scripts are not run.

use vstd::prelude::*;
use crate::text::{chars_of, same_text, skip_ws, text_of, trim_range, trim_spec, trim_start_spec};
use crate::media::{find_char, is_char, parse_u32, split_once_spec, u32_of_text};
use crate::model::{first_index, lemma_first_index, lemma_first_index_at, lemma_first_index_none};
use crate::order::{is_stable_order, stable_order, stable_order_of, lemma_stable_order_of};
use crate::text::{lines_of, lines_spec, views, decimal_spec, decimal_text};
use crate::model::{Frame, ObjectKind, Param, TimelineObject, Value, ValueSpec};
use crate::keyframes::LoopTable;
use vstd::utf8::{valid_utf8, decode_utf8};

verus! {

/// Script kinds, known by file extension.
#[derive(Debug, Clone, Copy, PartialEq, Eq)]
pub enum ScriptKind {
    Anim,
    Obj,
    Cam,
    Scn,
    Tra,
    Unknown,
}

/// `c` in ASCII lower case, as `char::to_ascii_lowercase` gives it.
pub open spec fn lower_char(c: char) -> char {
    if 'A' <= c && c <= 'Z' {
        ((c as u32) + 32) as char
    } else {
        c
    }
}

/// `s` in ASCII lower case, as `str::to_ascii_lowercase` gives it.
pub open spec fn lower_spec(s: Seq<char>) -> Seq<char> {
    s.map_values(|c: char| lower_char(c))
}

fn lower_one(c: char) -> (r: char)
    ensures
        r == lower_char(c),
{
    if 'A' <= c && c <= 'Z' {
        ((c as u8) + 32) as char
    } else {
        c
    }
}

/// `s` in ASCII lower case.
pub fn lowercase(s: &str) -> (t: String)
    ensures
        t@ == lower_spec(s@),
{
    let v = chars_of(s);
    let mut w: Vec<char> = Vec::new();
    let mut i: usize = 0;
    while i < v.len()
        invariant
            i <= v@.len(),
            v@ == s@,
            w@ == lower_spec(v@.subrange(0, i as int)),
        decreases v.len() - i,
    {
        w.push(lower_one(v[i]));
        i = i + 1;
        assert(w@ =~= lower_spec(v@.subrange(0, i as int)));
    }
    assert(v@.subrange(0, v@.len() as int) =~= v@);
    crate::text::text_of(&w, 0, w.len())
}

/// `s` without its leading dots, as `trim_start_matches('.')` gives it.
pub open spec fn strip_dots(s: Seq<char>) -> Seq<char>
    decreases s.len(),
{
    if s.len() > 0 && s[0] == '.' {
        strip_dots(s.drop_first())
    } else {
        s
    }
}

/// The kind an extension names, ignoring ASCII case and leading dots.
pub open spec fn kind_of_extension(ext: Seq<char>) -> ScriptKind {
    let e = strip_dots(lower_spec(ext));
    if e == "anm"@ || e == "anm2"@ {
        ScriptKind::Anim
    } else if e == "obj"@ || e == "obj2"@ {
        ScriptKind::Obj
    } else if e == "cam"@ || e == "cam2"@ {
        ScriptKind::Cam
    } else if e == "scn"@ || e == "scn2"@ {
        ScriptKind::Scn
    } else if e == "tra"@ || e == "tra2"@ {
        ScriptKind::Tra
    } else {
        ScriptKind::Unknown
    }
}

/// The kind ignores letter case: an extension and its lower-case form name the same kind.
pub proof fn lemma_kind_ignores_case(ext: Seq<char>)
    ensures
        kind_of_extension(lower_spec(ext)) == kind_of_extension(ext),
{
    assert(lower_spec(lower_spec(ext)) =~= lower_spec(ext));
}

/// The kind ignores a leading dot: `.anm` and `anm` name the same kind.
pub proof fn lemma_kind_ignores_dot(ext: Seq<char>)
    ensures
        kind_of_extension(seq!['.'] + ext) == kind_of_extension(ext),
{
    let l = lower_spec(seq!['.'] + ext);
    assert(l[0] == '.');
    assert(l.drop_first() =~= lower_spec(ext));
}

impl ScriptKind {
    /// The kind a file extension names.
    pub fn from_extension(ext: &str) -> (k: ScriptKind)
        ensures
            k == kind_of_extension(ext@),
    {
        let lower = lowercase(ext);
        let v = chars_of(lower.as_str());
        let mut a: usize = 0;
        assert(v@.subrange(0, v@.len() as int) =~= v@);
        while a < v.len() && v[a] == '.'
            invariant
                a <= v@.len(),
                strip_dots(v@) == strip_dots(v@.subrange(a as int, v@.len() as int)),
            decreases v.len() - a,
        {
            assert(v@.subrange(a as int, v@.len() as int).drop_first() =~= v@.subrange(a + 1, v@.len() as int));
            a = a + 1;
        }
        assert(v@.subrange(0, v@.len() as int) =~= v@);
        let e = crate::text::text_of(&v, a, v.len());
        let t = e.as_str();
        if same_text(t, "anm") || same_text(t, "anm2") {
            ScriptKind::Anim
        } else if same_text(t, "obj") || same_text(t, "obj2") {
            ScriptKind::Obj
        } else if same_text(t, "cam") || same_text(t, "cam2") {
            ScriptKind::Cam
        } else if same_text(t, "scn") || same_text(t, "scn2") {
            ScriptKind::Scn
        } else if same_text(t, "tra") || same_text(t, "tra2") {
            ScriptKind::Tra
        } else {
            ScriptKind::Unknown
        }
    }
}

// ---------------------------------------------------------------------------
// Definitions read from header lines
// ---------------------------------------------------------------------------

/// A slider (`--trackN:name,min,max[,default][,step]`). The numeric fields
/// are kept as the text written in the script, `None` where the line has no
/// such field; reading them as numbers happens outside the library.
#[derive(Debug, Clone, PartialEq)]
pub struct Track {
    pub index: u32,
    pub name: String,
    pub min: Option<String>,
    pub max: Option<String>,
    pub def: Option<String>,
    pub step: Option<String>,
}

/// A checkbox (`--checkN:name,default`).
#[derive(Debug, Clone, PartialEq)]
pub struct Check {
    pub index: u32,
    pub name: String,
    pub def: bool,
}

/// A dialog entry (`--dialog:text,default`).
#[derive(Debug, Clone, PartialEq)]
pub struct Dialog {
    pub text: String,
    pub def: String,
}

/// A colour entry (`--color:name,default`).
#[derive(Debug, Clone, PartialEq)]
pub struct ColorDef {
    pub name: String,
    pub def: String,
}

pub open spec fn opt_view(o: Option<String>) -> Option<Seq<char>> {
    match o {
        Some(s) => Some(s@),
        None => None,
    }
}

/// What a track line says.
pub struct TrackSpec {
    pub index: u32,
    pub name: Seq<char>,
    pub min: Option<Seq<char>>,
    pub max: Option<Seq<char>>,
    pub def: Option<Seq<char>>,
    pub step: Option<Seq<char>>,
}

impl View for Track {
    type V = TrackSpec;

    open spec fn view(&self) -> TrackSpec {
        TrackSpec {
            index: self.index,
            name: self.name@,
            min: opt_view(self.min),
            max: opt_view(self.max),
            def: opt_view(self.def),
            step: opt_view(self.step),
        }
    }
}

impl View for Check {
    type V = (u32, Seq<char>, bool);

    open spec fn view(&self) -> (u32, Seq<char>, bool) {
        (self.index, self.name@, self.def)
    }
}

impl View for Dialog {
    type V = (Seq<char>, Seq<char>);

    open spec fn view(&self) -> (Seq<char>, Seq<char>) {
        (self.text@, self.def@)
    }
}

impl View for ColorDef {
    type V = (Seq<char>, Seq<char>);

    open spec fn view(&self) -> (Seq<char>, Seq<char>) {
        (self.name@, self.def@)
    }
}

/// The pieces of `s` between the separators `c`, as `str::split(c)` gives
/// them (always at least one piece).
#[verifier::opaque]
pub open spec fn split_spec(s: Seq<char>, c: char) -> Seq<Seq<char>>
    decreases s.len(),
{
    match first_index(s, is_char(c)) {
        Some(i) => {
            proof {
                lemma_first_index(s, is_char(c));
            }
            seq![s.subrange(0, i)] + split_spec(s.subrange(i + 1, s.len() as int), c)
        },
        None => seq![s],
    }
}

/// Piece `k`, if there is one.
pub open spec fn piece(parts: Seq<Seq<char>>, k: int) -> Option<Seq<char>> {
    if k < parts.len() {
        Some(parts[k])
    } else {
        None
    }
}

/// The track a `--trackN:` line defines.
pub open spec fn track_spec(index: u32, rest: Seq<char>) -> TrackSpec {
    let parts = split_spec(rest, ',');
    TrackSpec {
        index,
        name: trim_spec(parts[0]),
        min: piece(parts, 1),
        max: piece(parts, 2),
        def: piece(parts, 3),
        step: piece(parts, 4),
    }
}

/// A checkbox default that reads as on.
pub open spec fn truthy(s: Seq<char>) -> bool {
    s == "1"@ || s == "true"@ || s == "on"@
}

/// The checkbox a `--checkN:` line defines: name, and on when the default
/// is `1`, `true` or `on`.
pub open spec fn check_spec(index: u32, rest: Seq<char>) -> (u32, Seq<char>, bool) {
    let (a, b) = split_once_spec(rest, ',');
    (
        index,
        trim_spec(a),
        match b {
            Some(x) => truthy(trim_spec(x)),
            None => false,
        },
    )
}

/// The trimmed text before the first comma and after it (empty when there is none).
pub open spec fn pair_spec(rest: Seq<char>) -> (Seq<char>, Seq<char>) {
    let (a, b) = split_once_spec(rest, ',');
    (
        trim_spec(a),
        match b {
            Some(x) => trim_spec(x),
            None => Seq::empty(),
        },
    )
}

/// A checkbox line `name,d` (the name holding no comma) defines a checkbox
/// with the trimmed name that is on exactly when the trimmed `d` is `1`,
/// `true` or `on`; a line without a comma defines one that is off.
pub proof fn lemma_checkbox_default(index: u32, name: Seq<char>, d: Seq<char>, bare: Seq<char>)
    requires
        forall|k: int| 0 <= k < name.len() ==> name[k] != ',',
        forall|k: int| 0 <= k < bare.len() ==> bare[k] != ',',
    ensures
        check_spec(index, name.push(',') + d) == (
            index,
            trim_spec(name),
            trim_spec(d) == "1"@ || trim_spec(d) == "true"@ || trim_spec(d) == "on"@,
        ),
        check_spec(index, bare) == (index, trim_spec(bare), false),
{
    let rest = name.push(',') + d;
    let n = name.len() as int;
    assert(rest[n] == ',');
    assert forall|k: int| 0 <= k < n implies !is_char(',')(rest[k]) by {
        assert(rest[k] == name[k]);
    }
    lemma_first_index_at(rest, is_char(','), n);
    assert(rest.subrange(0, n) =~= name);
    assert(rest.subrange(n + 1, rest.len() as int) =~= d);
    assert forall|k: int| 0 <= k < bare.len() implies !is_char(',')(bare[k]) by {}
    lemma_first_index_none(bare, is_char(','));
}

proof fn lemma_split_at(s: Seq<char>, c: char, k: int)
    requires
        0 <= k < s.len(),
        s[k] == c,
        forall|x: int| 0 <= x < k ==> s[x] != c,
    ensures
        split_spec(s, c) == seq![s.subrange(0, k)] + split_spec(s.subrange(k + 1, s.len() as int), c),
{
    reveal(split_spec);
    lemma_first_index_at(s, is_char(c), k);
}

proof fn lemma_split_none(s: Seq<char>, c: char)
    requires
        forall|x: int| 0 <= x < s.len() ==> s[x] != c,
    ensures
        split_spec(s, c) == seq![s],
{
    reveal(split_spec);
    lemma_first_index_none(s, is_char(c));
}

/// The text of `v[lo..hi]` without surrounding whitespace.
fn trimmed_text(v: &Vec<char>, lo: usize, hi: usize) -> (t: String)
    requires
        lo <= hi <= v@.len(),
    ensures
        t@ == trim_spec(v@.subrange(lo as int, hi as int)),
{
    let (a, b) = trim_range(v, lo, hi);
    text_of(v, a, b)
}

/// Whether `v[lo..hi]` holds exactly `lit`.
fn range_is(v: &Vec<char>, lo: usize, hi: usize, lit: &str) -> (b: bool)
    requires
        lo <= hi <= v@.len(),
    ensures
        b == (v@.subrange(lo as int, hi as int) == lit@),
{
    let t = text_of(v, lo, hi);
    same_text(t.as_str(), lit)
}

proof fn lemma_split_nonempty(s: Seq<char>, c: char)
    ensures
        split_spec(s, c).len() >= 1,
{
    reveal(split_spec);
    lemma_first_index(s, is_char(c));
}

/// Reads the track defined by `v[lo..hi]`, the part after `--trackN:`.
fn parse_track(index: u32, v: &Vec<char>, lo: usize, hi: usize) -> (t: Track)
    requires
        lo <= hi <= v@.len(),
    ensures
        t@ == track_spec(index, v@.subrange(lo as int, hi as int)),
{
    let ghost rest = v@.subrange(lo as int, hi as int);
    let ghost parts = split_spec(rest, ',');
    // the first five pieces are all a track line uses
    let mut pieces: Vec<(usize, usize)> = Vec::new();
    let mut pos = lo;
    let mut done = false;
    proof {
        lemma_split_nonempty(rest, ',');
        assert(parts =~= parts.subrange(0, 0) + split_spec(v@.subrange(lo as int, hi as int), ','));
    }
    while !done && pieces.len() < 5
        invariant
            lo <= pos <= hi <= v@.len(),
            rest == v@.subrange(lo as int, hi as int),
            parts == split_spec(rest, ','),
            pieces@.len() <= 5,
            pieces@.len() <= parts.len(),
            forall|k: int| 0 <= k < pieces@.len() ==> lo <= (#[trigger] pieces@[k]).0 <= pieces@[k].1 <= hi,
            forall|k: int| 0 <= k < pieces@.len() ==> parts[k] == v@.subrange(
                (#[trigger] pieces@[k]).0 as int,
                pieces@[k].1 as int,
            ),
            !done ==> parts == parts.subrange(0, pieces@.len() as int) + split_spec(
                v@.subrange(pos as int, hi as int),
                ',',
            ),
            done ==> parts.len() == pieces@.len(),
        decreases 6 - pieces@.len() + (if done { 0int } else { 1 }),
    {
        let ghost cur = v@.subrange(pos as int, hi as int);
        let ghost k = pieces@.len() as int;
        let ghost pre = parts.subrange(0, k);
        match find_char(v, pos, hi, ',') {
            Some(j) => {
                let ghost x = v@.subrange(pos as int, j as int);
                let ghost tail = split_spec(v@.subrange(j + 1, hi as int), ',');
                proof {
                    lemma_split_at(cur, ',', j - pos);
                    assert(cur.subrange(0, j - pos) =~= x);
                    assert(cur.subrange(j - pos + 1, cur.len() as int) =~= v@.subrange(j + 1, hi as int));
                    assert(parts =~= pre + (seq![x] + tail));
                    assert(parts[k] == x);
                    assert(parts.subrange(0, k + 1) =~= pre.push(x));
                    assert(parts =~= parts.subrange(0, k + 1) + tail);
                }
                pieces.push((pos, j));
                pos = j + 1;
            },
            None => {
                proof {
                    lemma_split_none(cur, ',');
                    assert(parts =~= pre + seq![cur]);
                    assert(parts[k] == cur);
                }
                pieces.push((pos, hi));
                done = true;
            },
        }
    }
    proof {
        if !done {
            lemma_split_nonempty(v@.subrange(pos as int, hi as int), ',');
            assert(pieces@.len() == 5);
        }
    }
    let (a0, b0) = pieces[0];
    let name = trimmed_text(v, a0, b0);
    let min = if pieces.len() > 1 { Some(text_of(v, pieces[1].0, pieces[1].1)) } else { None };
    let max = if pieces.len() > 2 { Some(text_of(v, pieces[2].0, pieces[2].1)) } else { None };
    let def = if pieces.len() > 3 { Some(text_of(v, pieces[3].0, pieces[3].1)) } else { None };
    let step = if pieces.len() > 4 { Some(text_of(v, pieces[4].0, pieces[4].1)) } else { None };
    Track { index, name, min, max, def, step }
}

/// Reads `v[lo..hi]` as `first,second`: the trimmed text before the first
/// comma and after it.
fn parse_pair(v: &Vec<char>, lo: usize, hi: usize) -> (r: (String, String))
    requires
        lo <= hi <= v@.len(),
    ensures
        (r.0@, r.1@) == pair_spec(v@.subrange(lo as int, hi as int)),
{
    match find_char(v, lo, hi, ',') {
        Some(j) => (trimmed_text(v, lo, j), trimmed_text(v, j + 1, hi)),
        None => (trimmed_text(v, lo, hi), String::new()),
    }
}

/// Reads the checkbox defined by `v[lo..hi]`, the part after `--checkN:`.
fn parse_check(index: u32, v: &Vec<char>, lo: usize, hi: usize) -> (c: Check)
    requires
        lo <= hi <= v@.len(),
    ensures
        c@ == check_spec(index, v@.subrange(lo as int, hi as int)),
{
    match find_char(v, lo, hi, ',') {
        Some(j) => {
            let name = trimmed_text(v, lo, j);
            let (a, b) = trim_range(v, j + 1, hi);
            let def = range_is(v, a, b, "1") || range_is(v, a, b, "true") || range_is(v, a, b, "on");
            Check { index, name, def }
        },
        None => Check { index, name: trimmed_text(v, lo, hi), def: false },
    }
}

/// Reads the dialog entry defined by `v[lo..hi]`, the part after `--dialog:`.
fn parse_dialog(v: &Vec<char>, lo: usize, hi: usize) -> (d: Dialog)
    requires
        lo <= hi <= v@.len(),
    ensures
        d@ == pair_spec(v@.subrange(lo as int, hi as int)),
{
    let (text, def) = parse_pair(v, lo, hi);
    Dialog { text, def }
}

// ---------------------------------------------------------------------------
// Effects
// ---------------------------------------------------------------------------

/// One effect of a script file: its name, what its header lines define, the
/// header lines it did not interpret (kept as written), and the script body.
#[derive(Debug, Clone, PartialEq)]
pub struct Effect {
    pub name: String,
    pub tracks: Vec<Track>,
    pub checks: Vec<Check>,
    pub dialogs: Vec<Dialog>,
    pub files: Vec<String>,
    pub colors: Vec<ColorDef>,
    pub params: Vec<String>,
    pub anchors: Vec<String>,
    pub script_lang: Option<String>,
    pub raw_headers: Vec<String>,
    pub body: String,
}

/// A parsed script file.
#[derive(Debug, Clone, PartialEq)]
pub struct AviScript {
    pub kind: ScriptKind,
    pub effects: Vec<Effect>,
}

/// What an effect holds.
#[verifier::ext_equal]
pub struct EffectSpec {
    pub name: Seq<char>,
    pub tracks: Seq<TrackSpec>,
    pub checks: Seq<(u32, Seq<char>, bool)>,
    pub dialogs: Seq<(Seq<char>, Seq<char>)>,
    pub files: Seq<Seq<char>>,
    pub colors: Seq<(Seq<char>, Seq<char>)>,
    pub params: Seq<Seq<char>>,
    pub anchors: Seq<Seq<char>>,
    pub script_lang: Option<Seq<char>>,
    pub raw_headers: Seq<Seq<char>>,
    pub body: Seq<char>,
}

impl View for Effect {
    type V = EffectSpec;

    open spec fn view(&self) -> EffectSpec {
        EffectSpec {
            name: self.name@,
            tracks: self.tracks@.map_values(|t: Track| t@),
            checks: self.checks@.map_values(|c: Check| c@),
            dialogs: self.dialogs@.map_values(|d: Dialog| d@),
            files: views(self.files@),
            colors: self.colors@.map_values(|c: ColorDef| c@),
            params: views(self.params@),
            anchors: views(self.anchors@),
            script_lang: opt_view(self.script_lang),
            raw_headers: views(self.raw_headers@),
            body: self.body@,
        }
    }
}

impl View for AviScript {
    type V = (ScriptKind, Seq<EffectSpec>);

    open spec fn view(&self) -> (ScriptKind, Seq<EffectSpec>) {
        (self.kind, self.effects@.map_values(|e: Effect| e@))
    }
}

/// An effect with nothing read yet.
pub open spec fn empty_effect(name: Seq<char>) -> EffectSpec {
    EffectSpec {
        name,
        tracks: Seq::empty(),
        checks: Seq::empty(),
        dialogs: Seq::empty(),
        files: Seq::empty(),
        colors: Seq::empty(),
        params: Seq::empty(),
        anchors: Seq::empty(),
        script_lang: None,
        raw_headers: Seq::empty(),
        body: Seq::empty(),
    }
}

/// `s` starts with `p`.
pub open spec fn has_prefix(s: Seq<char>, p: Seq<char>) -> bool {
    s.len() >= p.len() && s.subrange(0, p.len() as int) == p
}

/// The number after a five-letter key prefix such as `track` or `check`.
pub open spec fn key_number(key: Seq<char>) -> Option<u32> {
    u32_of_text(key.subrange(5, key.len() as int))
}

/// What one header `--key:rest` adds to an effect: `trackN` and `checkN`
/// (N a number) add a slider or checkbox; `dialog`, `file`, `color`,
/// `param` and `anchor` add an entry; `script` sets the script language;
/// any other key is kept as the raw line `--key:rest`.
pub open spec fn apply_header_spec(fx: EffectSpec, key: Seq<char>, rest: Seq<char>) -> EffectSpec {
    if has_prefix(key, "track"@) && key_number(key) is Some {
        EffectSpec { tracks: fx.tracks.push(track_spec(key_number(key)->0, rest)), ..fx }
    } else if has_prefix(key, "check"@) && key_number(key) is Some {
        EffectSpec { checks: fx.checks.push(check_spec(key_number(key)->0, rest)), ..fx }
    } else if key == "dialog"@ {
        EffectSpec { dialogs: fx.dialogs.push(pair_spec(rest)), ..fx }
    } else if key == "file"@ {
        EffectSpec { files: fx.files.push(trim_spec(rest)), ..fx }
    } else if key == "color"@ {
        EffectSpec { colors: fx.colors.push(pair_spec(rest)), ..fx }
    } else if key == "param"@ {
        EffectSpec { params: fx.params.push(trim_spec(rest)), ..fx }
    } else if key == "anchor"@ {
        EffectSpec { anchors: fx.anchors.push(trim_spec(rest)), ..fx }
    } else if key == "script"@ {
        EffectSpec { script_lang: Some(trim_spec(rest)), ..fx }
    } else {
        EffectSpec { raw_headers: fx.raw_headers.push(seq!['-', '-'] + key + seq![':'] + rest), ..fx }
    }
}

/// A header line: after leading whitespace it starts with `--`.
pub open spec fn is_header(line: Seq<char>) -> bool {
    let t = trim_start_spec(line);
    t.len() >= 2 && t[0] == '-' && t[1] == '-'
}

/// What a header line adds: `--key:rest` (both trimmed) goes through
/// `apply_header_spec`; a header line without a colon is kept as written
/// (without its leading whitespace).
pub open spec fn header_step(fx: EffectSpec, line: Seq<char>) -> EffectSpec {
    let t = trim_start_spec(line);
    let inner = trim_spec(t.subrange(2, t.len() as int));
    let (k, r) = split_once_spec(inner, ':');
    match r {
        Some(r) => apply_header_spec(fx, trim_spec(k), trim_spec(r)),
        None => EffectSpec { raw_headers: fx.raw_headers.push(t), ..fx },
    }
}

/// The effect after reading the header lines `lines` in order.
pub open spec fn apply_headers(fx: EffectSpec, lines: Seq<Seq<char>>) -> EffectSpec
    decreases lines.len(),
{
    if lines.len() == 0 {
        fx
    } else {
        header_step(apply_headers(fx, lines.drop_last()), lines.last())
    }
}

pub open spec fn not_header() -> spec_fn(Seq<char>) -> bool {
    |l: Seq<char>| !is_header(l)
}

/// How many lines of a section are header lines: up to the first line that is not one.
pub open spec fn header_count(lines: Seq<Seq<char>>) -> int {
    match first_index(lines, not_header()) {
        Some(i) => i,
        None => lines.len() as int,
    }
}

/// Lines joined with line feeds, as `[&str]::join("\n")` gives them.
pub open spec fn join_lines(ls: Seq<Seq<char>>) -> Seq<char>
    decreases ls.len(),
{
    if ls.len() == 0 {
        Seq::empty()
    } else if ls.len() == 1 {
        ls[0]
    } else {
        join_lines(ls.drop_last()) + seq!['\n'] + ls.last()
    }
}

pub open spec fn track_indices(ts: Seq<TrackSpec>) -> Seq<i64> {
    ts.map_values(|t: TrackSpec| t.index as i64)
}

pub open spec fn check_indices(cs: Seq<(u32, Seq<char>, bool)>) -> Seq<i64> {
    cs.map_values(|c: (u32, Seq<char>, bool)| c.0 as i64)
}

/// The effect a section defines: its header lines read in order, sliders
/// and checkboxes then stably sorted by number, and the remaining lines
/// joined as the body.
pub open spec fn section_spec(name: Seq<char>, lines: Seq<Seq<char>>) -> EffectSpec {
    let n = header_count(lines);
    let fx = apply_headers(empty_effect(name), lines.take(n));
    EffectSpec {
        tracks: stable_order_of(track_indices(fx.tracks)).map_values(|i: usize| fx.tracks[i as int]),
        checks: stable_order_of(check_indices(fx.checks)).map_values(|i: usize| fx.checks[i as int]),
        body: join_lines(lines.skip(n)),
        ..fx
    }
}

impl Track {
    /// A copy of the track.
    pub fn copy(&self) -> (t: Track)
        ensures
            t == *self,
    {
        Track {
            index: self.index,
            name: self.name.clone(),
            min: copy_opt(&self.min),
            max: copy_opt(&self.max),
            def: copy_opt(&self.def),
            step: copy_opt(&self.step),
        }
    }
}

fn copy_opt(o: &Option<String>) -> (r: Option<String>)
    ensures
        r == *o,
{
    match o {
        Some(s) => Some(s.clone()),
        None => None,
    }
}

impl Check {
    /// A copy of the checkbox.
    pub fn copy(&self) -> (c: Check)
        ensures
            c == *self,
    {
        Check { index: self.index, name: self.name.clone(), def: self.def }
    }
}

/// Applies header `--key:rest` to `fx`, with key `v[klo..khi]` and rest `v[rlo..rhi]`.
fn apply_header(fx: &mut Effect, v: &Vec<char>, klo: usize, khi: usize, rlo: usize, rhi: usize)
    requires
        klo <= khi <= v@.len(),
        rlo <= rhi <= v@.len(),
    ensures
        final(fx)@ == apply_header_spec(
            old(fx)@,
            v@.subrange(klo as int, khi as int),
            v@.subrange(rlo as int, rhi as int),
        ),
{
    let ghost key = v@.subrange(klo as int, khi as int);
    let ghost rest = v@.subrange(rlo as int, rhi as int);
    let ghost before = fx@;
    let long = khi - klo >= 5;
    if long {
        assert(key.subrange(0, 5) =~= v@.subrange(klo as int, klo + 5));
        assert(key.subrange(5, key.len() as int) =~= v@.subrange(klo + 5, khi as int));
    }
    let is_track = long && range_is(v, klo, klo + 5, "track");
    let is_check = long && range_is(v, klo, klo + 5, "check");
    let num = if long { parse_u32(v, klo + 5, khi) } else { None };
    proof {
        assert(is_track == has_prefix(key, "track"@)) by {
            reveal_strlit("track");
        }
        assert(is_check == has_prefix(key, "check"@)) by {
            reveal_strlit("check");
        }
        if long {
            assert(num == key_number(key));
        }
    }
    if is_track && num.is_some() {
        let t = parse_track(num.unwrap(), v, rlo, rhi);
        fx.tracks.push(t);
        assert(fx@ =~= apply_header_spec(before, key, rest));
        return;
    }
    if is_check && num.is_some() {
        let c = parse_check(num.unwrap(), v, rlo, rhi);
        fx.checks.push(c);
        assert(fx@ =~= apply_header_spec(before, key, rest));
        return;
    }
    if range_is(v, klo, khi, "dialog") {
        fx.dialogs.push(parse_dialog(v, rlo, rhi));
    } else if range_is(v, klo, khi, "file") {
        fx.files.push(trimmed_text(v, rlo, rhi));
    } else if range_is(v, klo, khi, "color") {
        let (name, def) = parse_pair(v, rlo, rhi);
        fx.colors.push(ColorDef { name, def });
    } else if range_is(v, klo, khi, "param") {
        fx.params.push(trimmed_text(v, rlo, rhi));
    } else if range_is(v, klo, khi, "anchor") {
        fx.anchors.push(trimmed_text(v, rlo, rhi));
    } else if range_is(v, klo, khi, "script") {
        fx.script_lang = Some(trimmed_text(v, rlo, rhi));
    } else {
        let mut raw = crate::text::char_text('-');
        raw.append(crate::text::char_text('-').as_str());
        raw.append(text_of(v, klo, khi).as_str());
        raw.append(crate::text::char_text(':').as_str());
        raw.append(text_of(v, rlo, rhi).as_str());
        assert(raw@ =~= seq!['-', '-'] + key + seq![':'] + rest);
        fx.raw_headers.push(raw);
    }
    proof {
        reveal_strlit("track");
        reveal_strlit("check");
        if !(has_prefix(key, "track"@) && key_number(key) is Some) && !(has_prefix(key, "check"@)
            && key_number(key) is Some) {
        }
    }
    assert(fx@ =~= apply_header_spec(before, key, rest));
}

/// Whether a line is a header line.
fn header_line(v: &Vec<char>) -> (r: Option<usize>)
    ensures
        match r {
            Some(a) => is_header(v@) && a + 2 <= v@.len() && trim_start_spec(v@) == v@.subrange(
                a as int,
                v@.len() as int,
            ),
            None => !is_header(v@),
        },
{
    let n = v.len();
    let a = skip_ws(v, 0, n);
    assert(v@.subrange(0, n as int) =~= v@);
    if a < n && n - a >= 2 && v[a] == '-' && v[a + 1] == '-' {
        Some(a)
    } else {
        None
    }
}

/// Reads one header line into `fx`.
fn read_header_line(fx: &mut Effect, v: &Vec<char>, a: usize)
    requires
        is_header(v@),
        a + 2 <= v@.len(),
        trim_start_spec(v@) == v@.subrange(a as int, v@.len() as int),
    ensures
        final(fx)@ == header_step(old(fx)@, v@),
{
    let n = v.len();
    let ghost t = v@.subrange(a as int, n as int);
    let (ilo, ihi) = trim_range(v, a + 2, n);
    assert(t.subrange(2, t.len() as int) =~= v@.subrange(a + 2, n as int));
    let ghost inner = v@.subrange(ilo as int, ihi as int);
    match find_char(v, ilo, ihi, ':') {
        Some(p) => {
            let (klo, khi) = trim_range(v, ilo, p);
            let (rlo, rhi) = trim_range(v, p + 1, ihi);
            apply_header(fx, v, klo, khi, rlo, rhi);
        },
        None => {
            let ghost before = fx@;
            fx.raw_headers.push(text_of(v, a, n));
            assert(fx@ =~= header_step(before, v@));
        },
    }
}

fn sorted_tracks(ts: &Vec<Track>) -> (r: Vec<Track>)
    ensures
        r@.map_values(|t: Track| t@) == stable_order_of(
            track_indices(ts@.map_values(|t: Track| t@)),
        ).map_values(|i: usize| ts@.map_values(|t: Track| t@)[i as int]),
{
    let ghost tv = ts@.map_values(|t: Track| t@);
    let m = ts.len();
    let mut keys: Vec<i64> = Vec::new();
    let mut k: usize = 0;
    while k < m
        invariant
            m == ts@.len(),
            tv == ts@.map_values(|t: Track| t@),
            k <= m,
            keys@ == track_indices(tv).subrange(0, k as int),
        decreases m - k,
    {
        keys.push(ts[k].index as i64);
        k = k + 1;
        assert(keys@ =~= track_indices(tv).subrange(0, k as int));
    }
    assert(keys@ =~= track_indices(tv));
    let order = stable_order(&keys);
    let mut out: Vec<Track> = Vec::new();
    let mut q: usize = 0;
    while q < m
        invariant
            m == ts@.len(),
            tv == ts@.map_values(|t: Track| t@),
            order@ == stable_order_of(track_indices(tv)),
            is_stable_order(track_indices(tv), order@),
            q <= m,
            out@.map_values(|t: Track| t@) == order@.subrange(0, q as int).map_values(|i: usize| tv[i as int]),
        decreases m - q,
    {
        let ghost prev = out@.map_values(|t: Track| t@);
        let j = order[q];
        assert(j < m);
        let t = ts[j].copy();
        assert(t@ == tv[j as int]);
        out.push(t);
        q = q + 1;
        assert(out@.map_values(|t: Track| t@) =~= prev.push(tv[j as int]));
        assert(order@.subrange(0, q as int) =~= order@.subrange(0, q - 1).push(j));
        assert(out@.map_values(|t: Track| t@) =~= order@.subrange(0, q as int).map_values(|i: usize| tv[i as int]));
    }
    assert(order@.subrange(0, m as int) =~= order@);
    out
}

fn sorted_checks(cs: &Vec<Check>) -> (r: Vec<Check>)
    ensures
        r@.map_values(|c: Check| c@) == stable_order_of(
            check_indices(cs@.map_values(|c: Check| c@)),
        ).map_values(|i: usize| cs@.map_values(|c: Check| c@)[i as int]),
{
    let ghost cv = cs@.map_values(|c: Check| c@);
    let m = cs.len();
    let mut keys: Vec<i64> = Vec::new();
    let mut k: usize = 0;
    while k < m
        invariant
            m == cs@.len(),
            cv == cs@.map_values(|c: Check| c@),
            k <= m,
            keys@ == check_indices(cv).subrange(0, k as int),
        decreases m - k,
    {
        keys.push(cs[k].index as i64);
        k = k + 1;
        assert(keys@ =~= check_indices(cv).subrange(0, k as int));
    }
    assert(keys@ =~= check_indices(cv));
    let order = stable_order(&keys);
    let mut out: Vec<Check> = Vec::new();
    let mut q: usize = 0;
    while q < m
        invariant
            m == cs@.len(),
            cv == cs@.map_values(|c: Check| c@),
            order@ == stable_order_of(check_indices(cv)),
            is_stable_order(check_indices(cv), order@),
            q <= m,
            out@.map_values(|c: Check| c@) == order@.subrange(0, q as int).map_values(|i: usize| cv[i as int]),
        decreases m - q,
    {
        let ghost prev = out@.map_values(|c: Check| c@);
        let j = order[q];
        assert(j < m);
        let c = cs[j].copy();
        assert(c@ == cv[j as int]);
        out.push(c);
        q = q + 1;
        assert(out@.map_values(|c: Check| c@) =~= prev.push(cv[j as int]));
        assert(order@.subrange(0, q as int) =~= order@.subrange(0, q - 1).push(j));
        assert(out@.map_values(|c: Check| c@) =~= order@.subrange(0, q as int).map_values(|i: usize| cv[i as int]));
    }
    assert(order@.subrange(0, m as int) =~= order@);
    out
}

/// Joins `lines[from..]` with line feeds.
fn join_from(lines: &Vec<String>, from: usize) -> (body: String)
    requires
        from <= lines@.len(),
    ensures
        body@ == join_lines(views(lines@).skip(from as int)),
{
    let ghost ls = views(lines@);
    let n = lines.len();
    let mut body = String::new();
    let mut k = from;
    assert(ls.subrange(from as int, from as int) =~= Seq::<Seq<char>>::empty());
    while k < n
        invariant
            from <= k <= n,
            n == lines@.len(),
            ls == views(lines@),
            body@ == join_lines(ls.subrange(from as int, k as int)),
        decreases n - k,
    {
        let ghost prev = ls.subrange(from as int, k as int);
        if k > from {
            body.append(crate::text::char_text('\n').as_str());
        }
        body.append(lines[k].as_str());
        k = k + 1;
        proof {
            let cur = ls.subrange(from as int, k as int);
            assert(cur.drop_last() =~= prev);
            assert(cur.last() == lines@[k - 1]@);
            if k - 1 == from {
                assert(cur.len() == 1);
                assert(body@ =~= cur[0]);
            } else {
                assert(body@ =~= join_lines(prev) + seq!['\n'] + cur.last());
            }
        }
    }
    assert(ls.subrange(from as int, n as int) =~= ls.skip(from as int));
    body
}

/// Reads the effect a section defines: its header lines, then the body.
fn parse_section(name: String, lines: &Vec<String>) -> (fx: Effect)
    ensures
        fx@ == section_spec(name@, views(lines@)),
{
    let ghost ls = views(lines@);
    let ghost start = empty_effect(name@);
    let mut fx = Effect {
        name,
        tracks: Vec::new(),
        checks: Vec::new(),
        dialogs: Vec::new(),
        files: Vec::new(),
        colors: Vec::new(),
        params: Vec::new(),
        anchors: Vec::new(),
        script_lang: None,
        raw_headers: Vec::new(),
        body: String::new(),
    };
    assert(fx@ =~= start);
    let n = lines.len();
    let mut i: usize = 0;
    let mut stop = false;
    assert(ls.take(0) =~= Seq::<Seq<char>>::empty());
    while !stop && i < n
        invariant
            n == lines@.len(),
            ls == views(lines@),
            i <= n,
            fx@ == apply_headers(start, ls.take(i as int)),
            forall|j: int| 0 <= j < i ==> is_header(#[trigger] ls[j]),
            stop ==> i < n && !is_header(ls[i as int]),
        decreases n - i + (if stop { 0int } else { 1 }),
    {
        let v = chars_of(lines[i].as_str());
        match header_line(&v) {
            Some(a) => {
                let ghost before = fx@;
                read_header_line(&mut fx, &v, a);
                proof {
                    assert(ls.take(i + 1).drop_last() =~= ls.take(i as int));
                    assert(ls.take(i + 1).last() == ls[i as int]);
                }
                i = i + 1;
            },
            None => {
                stop = true;
            },
        }
    }
    proof {
        if stop {
            lemma_first_index_at(ls, not_header(), i as int);
        } else {
            lemma_first_index_none(ls, not_header());
        }
        assert(header_count(ls) == i);
    }
    let ghost headed = fx@;
    let tracks = sorted_tracks(&fx.tracks);
    let checks = sorted_checks(&fx.checks);
    fx.tracks = tracks;
    fx.checks = checks;
    fx.body = join_from(lines, i);
    assert(fx@ =~= section_spec(name@, ls));
    fx
}

// ---------------------------------------------------------------------------
// Script files
// ---------------------------------------------------------------------------

/// A section: an effect name and its lines.
pub type SectionSpec = (Seq<char>, Seq<Seq<char>>);

/// A line that opens a new effect: after leading whitespace it starts with `@`.
pub open spec fn is_section_start(line: Seq<char>) -> bool {
    let t = trim_start_spec(line);
    t.len() > 0 && t[0] == '@'
}

/// The sections closed so far and the one being read, after `lines`: each
/// `@name` line opens a section named by the trimmed rest of the line; the
/// lines before the first one form a section named `fallback`.
pub open spec fn section_state(lines: Seq<Seq<char>>, fallback: Seq<char>) -> (
    Seq<SectionSpec>,
    Option<SectionSpec>,
)
    decreases lines.len(),
{
    if lines.len() == 0 {
        (Seq::empty(), None)
    } else {
        let (done, cur) = section_state(lines.drop_last(), fallback);
        let line = lines.last();
        if is_section_start(line) {
            (
                match cur {
                    Some(c) => done.push(c),
                    None => done,
                },
                Some((trim_spec(trim_start_spec(line).drop_first()), Seq::empty())),
            )
        } else {
            let c = match cur {
                Some(c) => c,
                None => (fallback, Seq::empty()),
            };
            (done, Some((c.0, c.1.push(line))))
        }
    }
}

/// The sections of a script's lines. A text with no lines is one empty
/// section named `fallback`.
pub open spec fn sections_of(lines: Seq<Seq<char>>, fallback: Seq<char>) -> Seq<SectionSpec> {
    let (done, cur) = section_state(lines, fallback);
    match cur {
        Some(c) => done.push(c),
        None => done.push((fallback, Seq::empty())),
    }
}

/// The script a text defines: the kind its extension names, and one effect per section.
pub open spec fn script_spec(text: Seq<char>, extension: Seq<char>, fallback: Seq<char>) -> (
    ScriptKind,
    Seq<EffectSpec>,
) {
    (
        kind_of_extension(extension),
        sections_of(lines_spec(text), fallback).map_values(|s: SectionSpec| section_spec(s.0, s.1)),
    )
}

pub open spec fn section_views(ss: Seq<(String, Vec<String>)>) -> Seq<SectionSpec> {
    ss.map_values(|s: (String, Vec<String>)| (s.0@, views(s.1@)))
}

/// Reads a script text. Without a leading `@` line the whole text is one
/// effect named `fallback_name`.
pub fn parse_text(text: &str, extension: &str, fallback_name: &str) -> (s: AviScript)
    ensures
        s@ == script_spec(text@, extension@, fallback_name@),
{
    broadcast use vstd::string::group_string_axioms;
    let lines = lines_of(text);
    let ghost ls = views(lines@);
    let n = lines.len();
    let mut done: Vec<(String, Vec<String>)> = Vec::new();
    let mut cur_name = String::new();
    let mut cur_lines: Vec<String> = Vec::new();
    let mut has_cur = false;
    let mut i: usize = 0;
    assert(ls.take(0) =~= Seq::<Seq<char>>::empty());
    while i < n
        invariant
            n == lines@.len(),
            ls == views(lines@),
            ls == lines_spec(text@),
            i <= n,
            section_state(ls.take(i as int), fallback_name@) == (
                section_views(done@),
                if has_cur {
                    Some((cur_name@, views(cur_lines@)))
                } else {
                    None
                },
            ),
        decreases n - i,
    {
        let ghost prev_done = section_views(done@);
        let ghost prev_cur: Option<SectionSpec> = if has_cur {
            Some((cur_name@, views(cur_lines@)))
        } else {
            None
        };
        let v = chars_of(lines[i].as_str());
        let len = v.len();
        let a = skip_ws(&v, 0, len);
        assert(v@.subrange(0, len as int) =~= v@);
        proof {
            assert(ls.take(i + 1).drop_last() =~= ls.take(i as int));
            assert(ls.take(i + 1).last() == ls[i as int]);
        }
        if a < len && v[a] == '@' {
            if has_cur {
                done.push((cur_name, cur_lines));
                assert(section_views(done@) =~= prev_done.push(prev_cur->0));
            }
            proof {
                let t = v@.subrange(a as int, len as int);
                assert(t.drop_first() =~= v@.subrange(a + 1, len as int));
            }
            cur_name = trimmed_text(&v, a + 1, len);
            cur_lines = Vec::new();
            has_cur = true;
            assert(views(cur_lines@) =~= Seq::<Seq<char>>::empty());
        } else {
            if !has_cur {
                cur_name = fallback_name.to_string();
                cur_lines = Vec::new();
                has_cur = true;
                assert(views(cur_lines@) =~= Seq::<Seq<char>>::empty());
            }
            let ghost before_lines = views(cur_lines@);
            cur_lines.push(lines[i].clone());
            assert(views(cur_lines@) =~= before_lines.push(ls[i as int]));
        }
        i = i + 1;
    }
    assert(ls.take(n as int) =~= ls);
    if has_cur {
        let ghost prev_done = section_views(done@);
        done.push((cur_name, cur_lines));
        assert(section_views(done@) =~= prev_done.push((cur_name@, views(cur_lines@))));
    } else {
        let ghost prev_done = section_views(done@);
        let empty: Vec<String> = Vec::new();
        assert(views(empty@) =~= Seq::<Seq<char>>::empty());
        done.push((fallback_name.to_string(), empty));
        assert(section_views(done@) =~= prev_done.push((fallback_name@, Seq::<Seq<char>>::empty())));
    }
    let ghost secs = section_views(done@);
    let m = done.len();
    let mut effects: Vec<Effect> = Vec::new();
    let mut k: usize = 0;
    while k < m
        invariant
            m == done@.len(),
            secs == section_views(done@),
            k <= m,
            effects@.map_values(|e: Effect| e@) == secs.subrange(0, k as int).map_values(
                |s: SectionSpec| section_spec(s.0, s.1),
            ),
        decreases m - k,
    {
        let ghost prev = effects@.map_values(|e: Effect| e@);
        let fx = parse_section(done[k].0.clone(), &done[k].1);
        assert(secs[k as int] == (done@[k as int].0@, views(done@[k as int].1@)));
        assert(fx@ == section_spec(secs[k as int].0, secs[k as int].1));
        effects.push(fx);
        k = k + 1;
        assert(secs.subrange(0, k as int) =~= secs.subrange(0, k - 1).push(secs[k - 1]));
        assert(effects@.map_values(|e: Effect| e@) =~= prev.push(section_spec(secs[k - 1].0, secs[k - 1].1)));
        assert(effects@.map_values(|e: Effect| e@) =~= secs.subrange(0, k as int).map_values(
            |s: SectionSpec| section_spec(s.0, s.1),
        ));
    }
    assert(secs.subrange(0, m as int) =~= secs);
    AviScript { kind: ScriptKind::from_extension(extension), effects }
}

/// The text of a script file's bytes: UTF-8 without a leading byte-order
/// mark when the bytes are valid UTF-8, else the bytes read as Shift_JIS.
pub open spec fn decoded_text(bytes: Seq<u8>) -> Seq<char> {
    if valid_utf8(bytes) {
        let d = decode_utf8(bytes);
        if d.len() > 0 && d[0] == '\u{FEFF}' {
            d.drop_first()
        } else {
            d
        }
    } else {
        shift_jis_text(bytes)
    }
}

/// What `encoding_rs::SHIFT_JIS.decode` yields for `bytes` (with its
/// byte-order-mark sniffing and replacement of malformed sequences).
pub uninterp spec fn shift_jis_text(bytes: Seq<u8>) -> Seq<char>;

/// Calls `std::str::from_utf8`: the text when the bytes are valid UTF-8.
#[verifier::external_body]
fn utf8_text(bytes: &[u8]) -> (r: Option<String>)
    ensures
        match r {
            Some(s) => valid_utf8(bytes@) && s@ == decode_utf8(bytes@),
            None => !valid_utf8(bytes@),
        },
{
    match std::str::from_utf8(bytes) {
        Ok(s) => Some(s.to_string()),
        Err(_) => None,
    }
}

/// Calls `encoding_rs::SHIFT_JIS.decode` and keeps the text.
#[verifier::external_body]
fn shift_jis_decode(bytes: &[u8]) -> (s: String)
    ensures
        s@ == shift_jis_text(bytes@),
{
    let (text, _, _) = encoding_rs::SHIFT_JIS.decode(bytes);
    text.into_owned()
}

/// Decodes a script file's bytes.
pub fn decode_bytes(bytes: &[u8]) -> (s: String)
    ensures
        s@ == decoded_text(bytes@),
{
    match utf8_text(bytes) {
        Some(t) => {
            let v = chars_of(t.as_str());
            if v.len() > 0 && v[0] == '\u{FEFF}' {
                assert(v@.subrange(1, v@.len() as int) =~= v@.drop_first());
                text_of(&v, 1, v.len())
            } else {
                t
            }
        },
        None => shift_jis_decode(bytes),
    }
}

/// Reads a script file from its bytes and extension.
pub fn parse_bytes(bytes: &[u8], extension: &str, fallback_name: &str) -> (s: AviScript)
    ensures
        s@ == script_spec(decoded_text(bytes@), extension@, fallback_name@),
{
    let text = decode_bytes(bytes);
    parse_text(text.as_str(), extension, fallback_name)
}

// ---------------------------------------------------------------------------
// Filter objects
// ---------------------------------------------------------------------------

/// `trackN` parameters: slider number N, default from `defaults`.
pub open spec fn track_params_spec(tracks: Seq<TrackSpec>, defaults: Seq<u64>) -> Seq<(Seq<char>, ValueSpec)> {
    Seq::new(
        tracks.len(),
        |i: int| ("track"@ + decimal_spec(tracks[i].index as nat), ValueSpec::Number(defaults[i])),
    )
}

/// `checkN` parameters: checkbox number N and its default.
pub open spec fn check_params_spec(checks: Seq<(u32, Seq<char>, bool)>) -> Seq<(Seq<char>, ValueSpec)> {
    Seq::new(
        checks.len(),
        |i: int| ("check"@ + decimal_spec(checks[i].0 as nat), ValueSpec::Boolean(checks[i].2)),
    )
}

/// `dialogI` parameters: the default, or the text when the default is empty.
pub open spec fn dialog_params_spec(dialogs: Seq<(Seq<char>, Seq<char>)>) -> Seq<(Seq<char>, ValueSpec)> {
    Seq::new(
        dialogs.len(),
        |i: int|
            (
                "dialog"@ + decimal_spec(i as nat),
                ValueSpec::Text(
                    if dialogs[i].1.len() == 0 {
                        dialogs[i].0
                    } else {
                        dialogs[i].1
                    },
                ),
            ),
    )
}

/// One text parameter per text: `{prefix}{k}` holds text `k`.
pub open spec fn texts_spec(prefix: Seq<char>, texts: Seq<Seq<char>>) -> Seq<(Seq<char>, ValueSpec)> {
    Seq::new(texts.len(), |k: int| (prefix + decimal_spec(k as nat), ValueSpec::Text(texts[k])))
}

/// `fileI` parameters.
pub open spec fn file_params_spec(files: Seq<Seq<char>>) -> Seq<(Seq<char>, ValueSpec)> {
    texts_spec("file"@, files)
}

/// A text parameter `name` holding `o`, when there is one.
pub open spec fn opt_entry(name: Seq<char>, o: Option<Seq<char>>) -> Seq<(Seq<char>, ValueSpec)> {
    match o {
        Some(t) => seq![(name, ValueSpec::Text(t))],
        None => Seq::empty(),
    }
}

/// What the `k`th slider's line says besides its number and default value:
/// `slider_name{k}`, and `slider_min{k}`, `slider_max{k}`,
/// `slider_default{k}`, `slider_step{k}` for the fields the line has, as written.
pub open spec fn track_extra_spec(k: nat, t: TrackSpec) -> Seq<(Seq<char>, ValueSpec)> {
    let n = decimal_spec(k);
    seq![("slider_name"@ + n, ValueSpec::Text(t.name))] + opt_entry("slider_min"@ + n, t.min)
        + opt_entry("slider_max"@ + n, t.max) + opt_entry("slider_default"@ + n, t.def) + opt_entry(
        "slider_step"@ + n,
        t.step,
    )
}

pub open spec fn track_extras_spec(ts: Seq<TrackSpec>) -> Seq<(Seq<char>, ValueSpec)>
    decreases ts.len(),
{
    if ts.len() == 0 {
        Seq::empty()
    } else {
        track_extras_spec(ts.drop_last()) + track_extra_spec((ts.len() - 1) as nat, ts.last())
    }
}

/// `check_name{k}` parameters: the checkbox names.
pub open spec fn check_names_spec(checks: Seq<(u32, Seq<char>, bool)>) -> Seq<(Seq<char>, ValueSpec)> {
    Seq::new(checks.len(), |k: int| ("check_name"@ + decimal_spec(k as nat), ValueSpec::Text(checks[k].1)))
}

/// For each pair `k`, the parameters `{a}{k}` and `{b}{k}` holding its two texts.
pub open spec fn pairs_spec(a: Seq<char>, b: Seq<char>, ps: Seq<(Seq<char>, Seq<char>)>) -> Seq<(Seq<char>, ValueSpec)>
    decreases ps.len(),
{
    if ps.len() == 0 {
        Seq::empty()
    } else {
        let k = decimal_spec((ps.len() - 1) as nat);
        pairs_spec(a, b, ps.drop_last()) + seq![
            (a + k, ValueSpec::Text(ps.last().0)),
            (b + k, ValueSpec::Text(ps.last().1)),
        ]
    }
}

/// The parameters that keep the rest of the definition, as written: slider
/// names and fields, checkbox names, dialog texts and defaults, colour names
/// and defaults, `--param` and `--anchor` lines, the script language, and the
/// header lines that were not read.
pub open spec fn definition_params_spec(fx: EffectSpec) -> Seq<(Seq<char>, ValueSpec)> {
    track_extras_spec(fx.tracks) + check_names_spec(fx.checks) + pairs_spec(
        "dialog_text"@,
        "dialog_default"@,
        fx.dialogs,
    ) + pairs_spec("color_name"@, "color_default"@, fx.colors) + texts_spec("param"@, fx.params)
        + texts_spec("anchor"@, fx.anchors) + opt_entry("script_lang"@, fx.script_lang) + texts_spec(
        "header"@,
        fx.raw_headers,
    )
}

/// `colorI` parameters, as `name=default`.
pub open spec fn color_params_spec(colors: Seq<(Seq<char>, Seq<char>)>) -> Seq<(Seq<char>, ValueSpec)> {
    Seq::new(
        colors.len(),
        |i: int| ("color"@ + decimal_spec(i as nat), ValueSpec::Text(colors[i].0 + "="@ + colors[i].1)),
    )
}

/// The parameters of the filter object standing for an effect: script name
/// and body, then its sliders, checkboxes, dialogs, files and colours, then
/// the rest of its definition, so that nothing of it is lost.
pub open spec fn filter_params_spec(fx: EffectSpec, defaults: Seq<u64>) -> Seq<(Seq<char>, ValueSpec)> {
    seq![("script_name"@, ValueSpec::Text(fx.name)), ("script_body"@, ValueSpec::Text(fx.body))]
        + track_params_spec(fx.tracks, defaults) + check_params_spec(fx.checks)
        + dialog_params_spec(fx.dialogs) + file_params_spec(fx.files) + color_params_spec(fx.colors)
        + definition_params_spec(fx)
}

pub open spec fn param_views(ps: Seq<Param>) -> Seq<(Seq<char>, ValueSpec)> {
    ps.map_values(|p: Param| p@)
}

fn named(prefix: &str, n: u64) -> (t: String)
    ensures
        t@ == prefix@ + decimal_spec(n as nat),
{
    broadcast use vstd::string::group_string_axioms;
    let mut t = prefix.to_string();
    t.append(decimal_text(n).as_str());
    t
}

fn push_track_params(params: &mut Vec<Param>, tracks: &Vec<Track>, defaults: &Vec<u64>)
    requires
        defaults@.len() == tracks@.len(),
    ensures
        param_views(final(params)@) == param_views(old(params)@) + track_params_spec(
            tracks@.map_values(|t: Track| t@),
            defaults@,
        ),
{
    let ghost part = track_params_spec(tracks@.map_values(|t: Track| t@), defaults@);
    let ghost base = param_views(params@);
    let mut i: usize = 0;
    while i < tracks.len()
        invariant
            defaults@.len() == tracks@.len(),
            part == track_params_spec(tracks@.map_values(|t: Track| t@), defaults@),
            i <= tracks@.len(),
            param_views(params@) == base + part.subrange(0, i as int),
        decreases tracks.len() - i,
    {
        let ghost prev = param_views(params@);
        let p = Param { name: named("track", tracks[i].index as u64), value: Value::Number(defaults[i]) };
        assert(p@ == part[i as int]);
        params.push(p);
        i = i + 1;
        assert(param_views(params@) =~= prev.push(part[i - 1]));
        assert(part.subrange(0, i as int) =~= part.subrange(0, i - 1).push(part[i - 1]));
    }
    assert(part.subrange(0, i as int) =~= part);
}

fn push_check_params(params: &mut Vec<Param>, checks: &Vec<Check>)
    ensures
        param_views(final(params)@) == param_views(old(params)@) + check_params_spec(
            checks@.map_values(|c: Check| c@),
        ),
{
    let ghost part = check_params_spec(checks@.map_values(|c: Check| c@));
    let ghost base = param_views(params@);
    let mut i: usize = 0;
    while i < checks.len()
        invariant
            part == check_params_spec(checks@.map_values(|c: Check| c@)),
            i <= checks@.len(),
            param_views(params@) == base + part.subrange(0, i as int),
        decreases checks.len() - i,
    {
        let ghost prev = param_views(params@);
        let p = Param { name: named("check", checks[i].index as u64), value: Value::Boolean(checks[i].def) };
        assert(p@ == part[i as int]);
        params.push(p);
        i = i + 1;
        assert(param_views(params@) =~= prev.push(part[i - 1]));
        assert(part.subrange(0, i as int) =~= part.subrange(0, i - 1).push(part[i - 1]));
    }
    assert(part.subrange(0, i as int) =~= part);
}

/// In the filter standing for an effect, the `k`th dialog gives parameter
/// `dialog{k}`, placed after the script name and body, the sliders and the
/// checkboxes; it holds the dialog's default, or the dialog's text when the
/// default is empty.
pub proof fn lemma_dialog_param(fx: EffectSpec, defaults: Seq<u64>, k: int)
    requires
        defaults.len() == fx.tracks.len(),
        0 <= k < fx.dialogs.len(),
    ensures
        ({
            let at = 2 + fx.tracks.len() + fx.checks.len() + k;
            let ps = filter_params_spec(fx, defaults);
            &&& ps[at].0 == "dialog"@ + decimal_spec(k as nat)
            &&& fx.dialogs[k].1.len() > 0 ==> ps[at].1 == ValueSpec::Text(fx.dialogs[k].1)
            &&& fx.dialogs[k].1.len() == 0 ==> ps[at].1 == ValueSpec::Text(fx.dialogs[k].0)
        }),
{
    let head = seq![("script_name"@, ValueSpec::Text(fx.name)), ("script_body"@, ValueSpec::Text(fx.body))];
    let a = head + track_params_spec(fx.tracks, defaults) + check_params_spec(fx.checks);
    let b = a + dialog_params_spec(fx.dialogs);
    let at = 2 + fx.tracks.len() + fx.checks.len() + k;
    assert(a.len() == 2 + fx.tracks.len() + fx.checks.len());
    assert(b[at] == dialog_params_spec(fx.dialogs)[k]);
    assert(filter_params_spec(fx, defaults) =~= b + file_params_spec(fx.files) + color_params_spec(fx.colors)
        + definition_params_spec(fx));
    assert((b + file_params_spec(fx.files) + color_params_spec(fx.colors) + definition_params_spec(fx))[at] == b[at]);
}

fn push_dialog_params(params: &mut Vec<Param>, dialogs: &Vec<Dialog>)
    ensures
        param_views(final(params)@) == param_views(old(params)@) + dialog_params_spec(
            dialogs@.map_values(|d: Dialog| d@),
        ),
{
    let ghost part = dialog_params_spec(dialogs@.map_values(|d: Dialog| d@));
    let ghost base = param_views(params@);
    let mut i: usize = 0;
    while i < dialogs.len()
        invariant
            part == dialog_params_spec(dialogs@.map_values(|d: Dialog| d@)),
            i <= dialogs@.len(),
            param_views(params@) == base + part.subrange(0, i as int),
        decreases dialogs.len() - i,
    {
        let ghost prev = param_views(params@);
        let d = &dialogs[i];
        let text = if d.def.as_str().is_empty() { d.text.clone() } else { d.def.clone() };
        let p = Param { name: named("dialog", i as u64), value: Value::Text(text) };
        assert(p@ == part[i as int]);
        params.push(p);
        i = i + 1;
        assert(param_views(params@) =~= prev.push(part[i - 1]));
        assert(part.subrange(0, i as int) =~= part.subrange(0, i - 1).push(part[i - 1]));
    }
    assert(part.subrange(0, i as int) =~= part);
}

fn push_texts(params: &mut Vec<Param>, prefix: &str, texts: &Vec<String>)
    ensures
        param_views(final(params)@) == param_views(old(params)@) + texts_spec(prefix@, views(texts@)),
{
    let ghost part = texts_spec(prefix@, views(texts@));
    let ghost base = param_views(params@);
    let mut i: usize = 0;
    while i < texts.len()
        invariant
            part == texts_spec(prefix@, views(texts@)),
            i <= texts@.len(),
            param_views(params@) == base + part.subrange(0, i as int),
        decreases texts.len() - i,
    {
        let ghost prev = param_views(params@);
        let p = Param { name: named(prefix, i as u64), value: Value::Text(texts[i].clone()) };
        assert(p@ == part[i as int]);
        params.push(p);
        i = i + 1;
        assert(param_views(params@) =~= prev.push(part[i - 1]));
        assert(part.subrange(0, i as int) =~= part.subrange(0, i - 1).push(part[i - 1]));
    }
    assert(part.subrange(0, i as int) =~= part);
}

fn push_text(params: &mut Vec<Param>, name: String, text: String)
    ensures
        param_views(final(params)@) == param_views(old(params)@).push((name@, ValueSpec::Text(text@))),
{
    let ghost prev = param_views(params@);
    params.push(Param { name, value: Value::Text(text) });
    assert(param_views(params@) =~= prev.push((name@, ValueSpec::Text(text@))));
}

fn push_opt(params: &mut Vec<Param>, name: String, o: &Option<String>)
    ensures
        param_views(final(params)@) == param_views(old(params)@) + opt_entry(name@, opt_view(*o)),
{
    let ghost prev = param_views(params@);
    match o {
        Some(t) => {
            push_text(params, name, t.clone());
            assert(param_views(params@) =~= prev + opt_entry(name@, opt_view(*o)));
        },
        None => {
            assert(param_views(params@) =~= prev + opt_entry(name@, opt_view(*o)));
        },
    }
}

fn push_track_extras(params: &mut Vec<Param>, tracks: &Vec<Track>)
    ensures
        param_views(final(params)@) == param_views(old(params)@) + track_extras_spec(
            tracks@.map_values(|t: Track| t@),
        ),
{
    let ghost ts = tracks@.map_values(|t: Track| t@);
    let ghost base = param_views(params@);
    let mut i: usize = 0;
    assert(ts.take(0) =~= Seq::<TrackSpec>::empty());
    while i < tracks.len()
        invariant
            ts == tracks@.map_values(|t: Track| t@),
            i <= tracks@.len(),
            param_views(params@) == base + track_extras_spec(ts.take(i as int)),
        decreases tracks.len() - i,
    {
        let ghost before = param_views(params@);
        let t = &tracks[i];
        let k = i as u64;
        let ghost n = decimal_spec(k as nat);
        push_text(params, named("slider_name", k), t.name.clone());
        let ghost p1 = param_views(params@);
        push_opt(params, named("slider_min", k), &t.min);
        let ghost p2 = param_views(params@);
        push_opt(params, named("slider_max", k), &t.max);
        let ghost p3 = param_views(params@);
        push_opt(params, named("slider_default", k), &t.def);
        let ghost p4 = param_views(params@);
        push_opt(params, named("slider_step", k), &t.step);
        proof {
            assert(ts[i as int] == t@);
            assert(ts.take(i + 1).drop_last() =~= ts.take(i as int));
            assert(ts.take(i + 1).last() == ts[i as int]);
            assert(param_views(params@) =~= before + track_extra_spec(k as nat, t@));
            assert(track_extras_spec(ts.take(i + 1)) == track_extras_spec(ts.take(i as int))
                + track_extra_spec(i as nat, ts[i as int]));
        }
        i = i + 1;
        assert(param_views(params@) =~= base + track_extras_spec(ts.take(i as int)));
    }
    assert(ts.take(tracks@.len() as int) =~= ts);
}

fn push_check_names(params: &mut Vec<Param>, checks: &Vec<Check>)
    ensures
        param_views(final(params)@) == param_views(old(params)@) + check_names_spec(
            checks@.map_values(|c: Check| c@),
        ),
{
    let ghost part = check_names_spec(checks@.map_values(|c: Check| c@));
    let ghost base = param_views(params@);
    let mut i: usize = 0;
    while i < checks.len()
        invariant
            part == check_names_spec(checks@.map_values(|c: Check| c@)),
            i <= checks@.len(),
            param_views(params@) == base + part.subrange(0, i as int),
        decreases checks.len() - i,
    {
        let ghost prev = param_views(params@);
        let p = Param { name: named("check_name", i as u64), value: Value::Text(checks[i].name.clone()) };
        assert(p@ == part[i as int]);
        params.push(p);
        i = i + 1;
        assert(param_views(params@) =~= prev.push(part[i - 1]));
        assert(part.subrange(0, i as int) =~= part.subrange(0, i - 1).push(part[i - 1]));
    }
    assert(part.subrange(0, i as int) =~= part);
}

fn push_dialog_pairs(params: &mut Vec<Param>, dialogs: &Vec<Dialog>)
    ensures
        param_views(final(params)@) == param_views(old(params)@) + pairs_spec(
            "dialog_text"@,
            "dialog_default"@,
            dialogs@.map_values(|d: Dialog| d@),
        ),
{
    let ghost ps = dialogs@.map_values(|d: Dialog| d@);
    let ghost base = param_views(params@);
    let mut i: usize = 0;
    assert(ps.take(0) =~= Seq::<(Seq<char>, Seq<char>)>::empty());
    while i < dialogs.len()
        invariant
            ps == dialogs@.map_values(|d: Dialog| d@),
            i <= dialogs@.len(),
            param_views(params@) == base + pairs_spec("dialog_text"@, "dialog_default"@, ps.take(i as int)),
        decreases dialogs.len() - i,
    {
        let ghost before = param_views(params@);
        let d = &dialogs[i];
        push_text(params, named("dialog_text", i as u64), d.text.clone());
        push_text(params, named("dialog_default", i as u64), d.def.clone());
        proof {
            assert(ps[i as int] == d@);
            assert(ps.take(i + 1).drop_last() =~= ps.take(i as int));
            assert(ps.take(i + 1).last() == ps[i as int]);
        }
        i = i + 1;
        assert(param_views(params@) =~= base + pairs_spec("dialog_text"@, "dialog_default"@, ps.take(i as int)));
    }
    assert(ps.take(dialogs@.len() as int) =~= ps);
}

fn push_color_pairs(params: &mut Vec<Param>, colors: &Vec<ColorDef>)
    ensures
        param_views(final(params)@) == param_views(old(params)@) + pairs_spec(
            "color_name"@,
            "color_default"@,
            colors@.map_values(|c: ColorDef| c@),
        ),
{
    let ghost ps = colors@.map_values(|c: ColorDef| c@);
    let ghost base = param_views(params@);
    let mut i: usize = 0;
    assert(ps.take(0) =~= Seq::<(Seq<char>, Seq<char>)>::empty());
    while i < colors.len()
        invariant
            ps == colors@.map_values(|c: ColorDef| c@),
            i <= colors@.len(),
            param_views(params@) == base + pairs_spec("color_name"@, "color_default"@, ps.take(i as int)),
        decreases colors.len() - i,
    {
        let c = &colors[i];
        push_text(params, named("color_name", i as u64), c.name.clone());
        push_text(params, named("color_default", i as u64), c.def.clone());
        proof {
            assert(ps[i as int] == c@);
            assert(ps.take(i + 1).drop_last() =~= ps.take(i as int));
            assert(ps.take(i + 1).last() == ps[i as int]);
        }
        i = i + 1;
        assert(param_views(params@) =~= base + pairs_spec("color_name"@, "color_default"@, ps.take(i as int)));
    }
    assert(ps.take(colors@.len() as int) =~= ps);
}

fn push_color_params(params: &mut Vec<Param>, colors: &Vec<ColorDef>)
    ensures
        param_views(final(params)@) == param_views(old(params)@) + color_params_spec(
            colors@.map_values(|c: ColorDef| c@),
        ),
{
    let ghost part = color_params_spec(colors@.map_values(|c: ColorDef| c@));
    let ghost base = param_views(params@);
    let mut i: usize = 0;
    while i < colors.len()
        invariant
            part == color_params_spec(colors@.map_values(|c: ColorDef| c@)),
            i <= colors@.len(),
            param_views(params@) == base + part.subrange(0, i as int),
        decreases colors.len() - i,
    {
        let ghost prev = param_views(params@);
        let c = &colors[i];
        let mut text = c.name.clone();
        text.append("=");
        text.append(c.def.as_str());
        let p = Param { name: named("color", i as u64), value: Value::Text(text) };
        assert(p@ == part[i as int]);
        params.push(p);
        i = i + 1;
        assert(param_views(params@) =~= prev.push(part[i - 1]));
        assert(part.subrange(0, i as int) =~= part.subrange(0, i - 1).push(part[i - 1]));
    }
    assert(part.subrange(0, i as int) =~= part);
}

impl Effect {
    /// The filter object that holds this effect's whole definition, without
    /// loss (the script is not run): every field of the effect is among its
    /// parameters as written. `track_defaults[i]` is the default of the `i`th
    /// slider as a binary64 bit pattern.
    pub fn to_pool_filter(&self, id: &str, start: Frame, end: Frame, track_defaults: &Vec<u64>) -> (o:
        TimelineObject)
        requires
            track_defaults@.len() == self.tracks@.len(),
        ensures
            o.id@ == id@,
            o.name@ == self.name@,
            o.kind matches ObjectKind::Filter { effect } && effect@ == "lua-script"@,
            o.start_frame == start,
            o.end_frame == end,
            param_views(o.params@) == filter_params_spec(self@, track_defaults@),
            o.keyframes@.len() == 0,
            o.loops@ == Map::<Seq<char>, crate::model::LoopMode>::empty(),
    {
        broadcast use vstd::string::group_string_axioms;
        let mut params: Vec<Param> = Vec::new();
        params.push(Param { name: "script_name".to_string(), value: Value::Text(self.name.clone()) });
        params.push(Param { name: "script_body".to_string(), value: Value::Text(self.body.clone()) });
        assert(param_views(params@) =~= seq![("script_name"@, ValueSpec::Text(self@.name)), ("script_body"@, ValueSpec::Text(self@.body))]);
        push_track_params(&mut params, &self.tracks, track_defaults);
        push_check_params(&mut params, &self.checks);
        push_dialog_params(&mut params, &self.dialogs);
        push_texts(&mut params, "file", &self.files);
        push_color_params(&mut params, &self.colors);
        push_track_extras(&mut params, &self.tracks);
        push_check_names(&mut params, &self.checks);
        push_dialog_pairs(&mut params, &self.dialogs);
        push_color_pairs(&mut params, &self.colors);
        push_texts(&mut params, "param", &self.params);
        push_texts(&mut params, "anchor", &self.anchors);
        push_opt(&mut params, "script_lang".to_string(), &self.script_lang);
        push_texts(&mut params, "header", &self.raw_headers);
        TimelineObject {
            id: id.to_string(),
            name: self.name.clone(),
            kind: ObjectKind::Filter { effect: "lua-script".to_string() },
            start_frame: start,
            end_frame: end,
            params,
            keyframes: Vec::new(),
            loops: LoopTable::new(),
        }
    }
}

} // verus!
