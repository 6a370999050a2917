//! The timeline data model: projects hold scenes, scenes hold layers, layers
//! hold objects placed on half-open frame ranges `[start_frame, end_frame)`.
//!
//! Real-valued quantities (numbers, colour channels, points, curve handles)
//! are held as the IEEE-754 bit patterns of their binary64 (numbers) or
//! binary32 (colour channels) encodings. The model only stores, copies and
//! compares them; arithmetic on them happens outside the library.

use vstd::prelude::*;
use crate::order::{is_stable_order, stable_order, stable_order_of, lemma_stable_order_of};
use crate::text::{decimal_spec, decimal_text, joined, same_text};
use crate::keyframes::LoopTable;

verus! {

/// Version of the project schema; a project of any other version is refused.
pub const PROJECT_VERSION: u32 = 1;

/// A frame number, the only unit of time in the model.
pub type Frame = i64;

/// An RGBA colour; each channel is the bit pattern of a binary32 value in 0..=1.
#[derive(Debug, Clone, Copy, PartialEq, Eq)]
pub struct Rgba {
    pub r: u32,
    pub g: u32,
    pub b: u32,
    pub a: u32,
}

/// Bit pattern of binary32 zero.
pub const CHANNEL_ZERO: u32 = 0x0000_0000;

/// Bit pattern of binary32 one.
pub const CHANNEL_ONE: u32 = 0x3f80_0000;

impl Rgba {
    /// Opaque black.
    pub fn black() -> (c: Rgba)
        ensures
            c == (Rgba { r: CHANNEL_ZERO, g: CHANNEL_ZERO, b: CHANNEL_ZERO, a: CHANNEL_ONE }),
    {
        Rgba { r: CHANNEL_ZERO, g: CHANNEL_ZERO, b: CHANNEL_ZERO, a: CHANNEL_ONE }
    }

    /// Opaque white.
    pub fn white() -> (c: Rgba)
        ensures
            c == (Rgba { r: CHANNEL_ONE, g: CHANNEL_ONE, b: CHANNEL_ONE, a: CHANNEL_ONE }),
    {
        Rgba { r: CHANNEL_ONE, g: CHANNEL_ONE, b: CHANNEL_ONE, a: CHANNEL_ONE }
    }
}

/// A parameter value. `Number` and the coordinates of `Point` are binary64
/// bit patterns.
#[derive(Debug, PartialEq)]
pub enum Value {
    Number(u64),
    Integer(i64),
    Boolean(bool),
    Text(String),
    Color(Rgba),
    Point([u64; 2]),
}

/// What a value holds, with text as characters.
pub enum ValueSpec {
    Number(u64),
    Integer(i64),
    Boolean(bool),
    Text(Seq<char>),
    Color(Rgba),
    Point([u64; 2]),
}

impl View for Value {
    type V = ValueSpec;

    open spec fn view(&self) -> ValueSpec {
        match *self {
            Value::Number(x) => ValueSpec::Number(x),
            Value::Integer(x) => ValueSpec::Integer(x),
            Value::Boolean(x) => ValueSpec::Boolean(x),
            Value::Text(s) => ValueSpec::Text(s@),
            Value::Color(c) => ValueSpec::Color(c),
            Value::Point(p) => ValueSpec::Point(p),
        }
    }
}

impl View for Param {
    type V = (Seq<char>, ValueSpec);

    open spec fn view(&self) -> (Seq<char>, ValueSpec) {
        (self.name@, self.value@)
    }
}

impl Clone for Value {
    fn clone(&self) -> (v: Self)
        ensures
            v == *self,
    {
        self.duplicate()
    }
}

impl Value {
    /// A copy of the value.
    pub fn duplicate(&self) -> (v: Value)
        ensures
            v == *self,
    {
        match self {
            Value::Number(x) => Value::Number(*x),
            Value::Integer(x) => Value::Integer(*x),
            Value::Boolean(x) => Value::Boolean(*x),
            Value::Text(s) => Value::Text(s.clone()),
            Value::Color(c) => Value::Color(*c),
            Value::Point(p) => Value::Point(*p),
        }
    }
}

/// How a keyframe segment moves from its start key to the next one. The
/// `Bezier` handles are binary64 bit patterns of a CSS-style time-normalised
/// cubic Bézier.
#[derive(Debug, Clone, Copy, PartialEq)]
pub enum Interpolation {
    Hold,
    Linear,
    Smooth,
    Bezier { x1: u64, y1: u64, x2: u64, y2: u64 },
}

impl Interpolation {
    /// The "easy ease" curve, cubic-bezier(0.42, 0, 0.58, 1).
    pub fn easy_ease() -> (i: Interpolation)
        ensures
            i == (Interpolation::Bezier {
                x1: 0x3fda_e147_ae14_7ae1,
                y1: 0,
                x2: 0x3fe2_8f5c_28f5_c28f,
                y2: 0x3ff0_0000_0000_0000,
            }),
    {
        Interpolation::Bezier {
            x1: 0x3fda_e147_ae14_7ae1,
            y1: 0,
            x2: 0x3fe2_8f5c_28f5_c28f,
            y2: 0x3ff0_0000_0000_0000,
        }
    }

    /// The CSS `ease` curve, cubic-bezier(0.25, 0.1, 0.25, 1).
    pub fn ease() -> (i: Interpolation)
        ensures
            i == (Interpolation::Bezier {
                x1: 0x3fd0_0000_0000_0000,
                y1: 0x3fb9_9999_9999_999a,
                x2: 0x3fd0_0000_0000_0000,
                y2: 0x3ff0_0000_0000_0000,
            }),
    {
        Interpolation::Bezier {
            x1: 0x3fd0_0000_0000_0000,
            y1: 0x3fb9_9999_9999_999a,
            x2: 0x3fd0_0000_0000_0000,
            y2: 0x3ff0_0000_0000_0000,
        }
    }
}

/// What a parameter does outside the frame range of its keys.
#[derive(Debug, Clone, Copy, PartialEq, Eq, Structural)]
pub enum LoopMode {
    Off,
    Loop,
    PingPong,
}

/// A named parameter.
#[derive(Debug, Clone, PartialEq)]
pub struct Param {
    pub name: String,
    pub value: Value,
}

/// A keyframe of one parameter.
#[derive(Debug, Clone, PartialEq)]
pub struct Keyframe {
    pub param: String,
    pub frame: Frame,
    pub value: Value,
    pub interpolation: Interpolation,
}

/// Shape kinds.
#[derive(Debug, Clone, Copy, PartialEq, Eq)]
pub enum ShapeKind {
    Rectangle,
    Ellipse,
}

/// What an object on the timeline is.
#[derive(Debug, Clone, PartialEq)]
pub enum ObjectKind {
    Video { path: String },
    Image { path: String },
    Audio { path: String },
    Text { body: String },
    Shape { shape: ShapeKind },
    /// Procedural source that repeats the object whose id is `source`.
    Duplicator { source: String },
    /// A filter over what is drawn before it.
    Filter { effect: String },
    /// Groups the `target_layers` layers below it.
    GroupControl { target_layers: u32 },
    CameraControl { target_layers: u32 },
}

/// An object occupying frames `[start_frame, end_frame)` of a layer.
#[derive(Debug, Clone, PartialEq)]
pub struct TimelineObject {
    pub id: String,
    pub name: String,
    pub kind: ObjectKind,
    pub start_frame: Frame,
    pub end_frame: Frame,
    pub params: Vec<Param>,
    pub keyframes: Vec<Keyframe>,
    pub loops: LoopTable,
}

/// A layer. `objects[0]` is the top; objects of one layer may not overlap in time.
#[derive(Debug, Clone, PartialEq)]
pub struct Layer {
    pub id: String,
    pub name: String,
    pub visible: bool,
    pub locked: bool,
    pub objects: Vec<TimelineObject>,
}

/// A scene (composition) with its resolution and frame rate `fps_num / fps_den`.
#[derive(Debug, Clone, PartialEq)]
pub struct Scene {
    pub id: String,
    pub name: String,
    pub width: u32,
    pub height: u32,
    pub fps_num: u32,
    pub fps_den: u32,
    pub sample_rate: u32,
    pub bg_color: Rgba,
    pub layers: Vec<Layer>,
}

/// A project.
#[derive(Debug, Clone, PartialEq)]
pub struct Project {
    pub version: u32,
    pub name: String,
    pub scenes: Vec<Scene>,
    pub active_scene_id: String,
}

/// Why a project, scene or layer is not valid.
#[derive(Debug, Clone, PartialEq)]
pub enum ModelError {
    Json(String),
    UnsupportedVersion { found: u32 },
    EmptyScenes,
    SceneNotFound { id: String },
    InvalidFps { scene: String },
    EmptyRange { layer: String, object: String },
    Overlap { layer: String, first: String, second: String },
}

// ---------------------------------------------------------------------------
// First matches
// ---------------------------------------------------------------------------

/// The first position of `s` whose element satisfies `p`.
pub open spec fn first_index<A>(s: Seq<A>, p: spec_fn(A) -> bool) -> Option<int> {
    if exists|i: int| 0 <= i < s.len() && #[trigger] p(s[i]) {
        Some(
            choose|i: int|
                0 <= i < s.len() && #[trigger] p(s[i]) && forall|j: int| 0 <= j < i ==> !p(s[j]),
        )
    } else {
        None
    }
}

pub proof fn lemma_first_index_at<A>(s: Seq<A>, p: spec_fn(A) -> bool, i: int)
    requires
        0 <= i < s.len(),
        p(s[i]),
        forall|j: int| 0 <= j < i ==> !p(s[j]),
    ensures
        first_index(s, p) == Some(i),
{
    assert(0 <= i < s.len() && p(s[i]) && forall|j: int| 0 <= j < i ==> !p(s[j]));
    let c = choose|c: int|
        0 <= c < s.len() && #[trigger] p(s[c]) && forall|j: int| 0 <= j < c ==> !p(s[j]);
    if c < i {
        assert(!p(s[c]));
    }
    if c > i {
        assert(!p(s[i]));
    }
}

pub proof fn lemma_first_index_none<A>(s: Seq<A>, p: spec_fn(A) -> bool)
    requires
        forall|j: int| 0 <= j < s.len() ==> !p(s[j]),
    ensures
        first_index(s, p) == None::<int>,
{
}

/// If some element satisfies `p`, a first one does.
pub proof fn lemma_first_index_some<A>(s: Seq<A>, p: spec_fn(A) -> bool, i: int)
    requires
        0 <= i < s.len(),
        p(s[i]),
    ensures
        first_index(s, p) is Some,
        0 <= first_index(s, p)->0 <= i,
        p(s[first_index(s, p)->0]),
        forall|j: int| 0 <= j < first_index(s, p)->0 ==> !p(s[j]),
    decreases i,
{
    if exists|j: int| 0 <= j < i && p(s[j]) {
        let j = choose|j: int| 0 <= j < i && p(s[j]);
        lemma_first_index_some(s, p, j);
    } else {
        lemma_first_index_at(s, p, i);
    }
}

/// What `first_index` gives: the first satisfying position, or none at all.
pub proof fn lemma_first_index<A>(s: Seq<A>, p: spec_fn(A) -> bool)
    ensures
        match first_index(s, p) {
            Some(i) => 0 <= i < s.len() && p(s[i]) && forall|j: int| 0 <= j < i ==> !p(s[j]),
            None => forall|j: int| 0 <= j < s.len() ==> !p(s[j]),
        },
{
    if exists|i: int| 0 <= i < s.len() && #[trigger] p(s[i]) {
        let i = choose|i: int| 0 <= i < s.len() && #[trigger] p(s[i]);
        lemma_first_index_some(s, p, i);
    }
}

/// The first error of a sequence of verdicts, or success when there is none.
pub open spec fn first_failure(rs: Seq<Result<(), ModelError>>) -> Result<(), ModelError> {
    match first_index(rs, |r: Result<(), ModelError>| r is Err) {
        Some(i) => rs[i],
        None => Ok(()),
    }
}

// ---------------------------------------------------------------------------
// Objects and layers
// ---------------------------------------------------------------------------

/// Two half-open frame ranges share a frame.
pub open spec fn ranges_overlap(a: TimelineObject, b: TimelineObject) -> bool {
    a.start_frame < b.end_frame && b.start_frame < a.end_frame
}

pub open spec fn start_frames(objs: Seq<TimelineObject>) -> Seq<i64> {
    objs.map_values(|o: TimelineObject| o.start_frame)
}

pub open spec fn empty_range_verdicts(layer: Layer) -> Seq<Result<(), ModelError>> {
    layer.objects@.map_values(
        |o: TimelineObject|
            if o.end_frame <= o.start_frame {
                Err(ModelError::EmptyRange { layer: layer.id, object: o.id })
            } else {
                Ok(())
            },
    )
}

/// Verdicts on neighbouring objects once the layer is ordered by start frame.
pub open spec fn overlap_verdicts(layer: Layer) -> Seq<Result<(), ModelError>> {
    let objs = layer.objects@;
    let order = stable_order_of(start_frames(objs));
    Seq::new(
        (if objs.len() == 0 { 0 } else { objs.len() - 1 }) as nat,
        |w: int|
            {
                let a = objs[order[w] as int];
                let b = objs[order[w + 1] as int];
                if b.start_frame < a.end_frame {
                    Err(ModelError::Overlap { layer: layer.id, first: a.id, second: b.id })
                } else {
                    Ok(())
                }
            },
    )
}

/// The outcome of validating a layer: the first object with an empty range;
/// otherwise the first pair of neighbours, in start-frame order, that overlap.
#[verifier::opaque]
pub open spec fn layer_verdict(layer: Layer) -> Result<(), ModelError> {
    let e = first_failure(empty_range_verdicts(layer));
    if e is Err {
        e
    } else {
        first_failure(overlap_verdicts(layer))
    }
}

/// Every object of the layer has a non-empty range and no two objects overlap.
#[verifier::opaque]
pub open spec fn layer_well_formed(layer: Layer) -> bool {
    let objs = layer.objects@;
    &&& forall|i: int| 0 <= i < objs.len() ==> (#[trigger] objs[i]).start_frame < objs[i].end_frame
    &&& forall|i: int, j: int|
        0 <= i < objs.len() && 0 <= j < objs.len() && i != j ==> !ranges_overlap(
            #[trigger] objs[i],
            #[trigger] objs[j],
        )
}

/// Placing a non-empty object that overlaps none of the objects of a valid
/// layer gives a valid layer.
pub proof fn lemma_place_keeps_layer_valid(layer: Layer, placed: Layer, o: TimelineObject)
    requires
        layer_well_formed(layer),
        o.start_frame < o.end_frame,
        forall|i: int| 0 <= i < layer.objects@.len() ==> !ranges_overlap(#[trigger] layer.objects@[i], o),
        placed.objects@ == layer.objects@.push(o),
    ensures
        layer_well_formed(placed),
{
    reveal(layer_well_formed);
    let objs = placed.objects@;
    let n = layer.objects@.len() as int;
    assert forall|i: int, j: int|
        0 <= i < objs.len() && 0 <= j < objs.len() && i != j implies !ranges_overlap(
        #[trigger] objs[i],
        #[trigger] objs[j],
    ) by {
        if i < n && j < n {
            assert(objs[i] == layer.objects@[i] && objs[j] == layer.objects@[j]);
        } else if i < n {
            assert(objs[i] == layer.objects@[i]);
            assert(!ranges_overlap(layer.objects@[i], o));
        } else {
            assert(objs[j] == layer.objects@[j]);
            assert(!ranges_overlap(layer.objects@[j], o));
        }
    }
    assert forall|i: int| 0 <= i < objs.len() implies (#[trigger] objs[i]).start_frame < objs[i].end_frame by {
        if i < n {
            assert(objs[i] == layer.objects@[i]);
        }
    }
}

/// Removing an object from a valid layer leaves a valid layer.
pub proof fn lemma_remove_keeps_layer_valid(layer: Layer, rest: Layer, k: int)
    requires
        layer_well_formed(layer),
        0 <= k < layer.objects@.len(),
        rest.objects@ == layer.objects@.remove(k),
    ensures
        layer_well_formed(rest),
{
    reveal(layer_well_formed);
    let objs = rest.objects@;
    let all = layer.objects@;
    assert forall|i: int, j: int|
        0 <= i < objs.len() && 0 <= j < objs.len() && i != j implies !ranges_overlap(
        #[trigger] objs[i],
        #[trigger] objs[j],
    ) by {
        let ii = if i < k { i } else { i + 1 };
        let jj = if j < k { j } else { j + 1 };
        assert(objs[i] == all[ii] && objs[j] == all[jj]);
    }
    assert forall|i: int| 0 <= i < objs.len() implies (#[trigger] objs[i]).start_frame < objs[i].end_frame by {
        let ii = if i < k { i } else { i + 1 };
        assert(objs[i] == all[ii]);
    }
}

impl TimelineObject {
    /// Length of the range in frames.
    pub fn len_frames(&self) -> (n: Frame)
        requires
            i64::MIN <= self.end_frame - self.start_frame <= i64::MAX,
        ensures
            n == self.end_frame - self.start_frame,
    {
        self.end_frame - self.start_frame
    }

    /// The range holds no frame.
    pub fn is_empty(&self) -> (b: bool)
        ensures
            b == (self.end_frame <= self.start_frame),
    {
        self.end_frame <= self.start_frame
    }

    /// The range holds `frame`.
    pub fn contains(&self, frame: Frame) -> (b: bool)
        ensures
            b == (self.start_frame <= frame && frame < self.end_frame),
    {
        self.start_frame <= frame && frame < self.end_frame
    }
}

/// Walks objects ordered by start frame: with every object non-empty and
/// neighbours not overlapping, each object ends no later than any later one starts.
proof fn lemma_chain(objs: Seq<TimelineObject>, order: Seq<usize>, p: int, q: int)
    requires
        is_stable_order(start_frames(objs), order),
        forall|i: int| 0 <= i < objs.len() ==> (#[trigger] objs[i]).start_frame < objs[i].end_frame,
        forall|w: int|
            0 <= w && w + 1 < objs.len() ==> !(objs[#[trigger] order[w + 1] as int].start_frame
                < objs[order[w] as int].end_frame),
        0 <= p < q < objs.len(),
    ensures
        objs[order[p] as int].end_frame <= objs[order[q] as int].start_frame,
    decreases q - p,
{
    assert(0 <= order[p] < objs.len());
    assert(0 <= order[p + 1] < objs.len());
    if q > p + 1 {
        lemma_chain(objs, order, p + 1, q);
        assert(objs[order[p + 1] as int].start_frame < objs[order[p + 1] as int].end_frame);
    }
}

/// The first neighbouring pair that overlaps decides the verdict, and the
/// layer is then not well formed.
proof fn lemma_overlap_found(layer: Layer, order: Seq<usize>, w: int)
    requires
        order == stable_order_of(start_frames(layer.objects@)),
        is_stable_order(start_frames(layer.objects@), order),
        first_failure(empty_range_verdicts(layer)) == Ok::<(), ModelError>(()),
        0 <= w && w + 1 < layer.objects@.len(),
        layer.objects@[order[w + 1] as int].start_frame < layer.objects@[order[w] as int].end_frame,
        forall|v: int| 0 <= v < w ==> !(layer.objects@[#[trigger] order[v + 1] as int].start_frame
            < layer.objects@[order[v] as int].end_frame),
    ensures
        layer_verdict(layer) == Err::<(), ModelError>(ModelError::Overlap {
            layer: layer.id,
            first: layer.objects@[order[w] as int].id,
            second: layer.objects@[order[w + 1] as int].id,
        }),
        !layer_well_formed(layer),
{
    reveal(layer_verdict);
    reveal(layer_well_formed);
    let objs = layer.objects@;
    let overlaps = overlap_verdicts(layer);
    assert(overlaps[w] is Err);
    assert forall|v: int| 0 <= v < w implies !(#[trigger] overlaps[v] is Err) by {
        assert(!(objs[order[v + 1] as int].start_frame < objs[order[v] as int].end_frame));
    }
    lemma_first_index_at(overlaps, |r: Result<(), ModelError>| r is Err, w);
    let ia = order[w] as int;
    let ib = order[w + 1] as int;
    assert(crate::order::precedes(start_frames(objs), ia, ib));
    if objs[ib].start_frame < objs[ib].end_frame {
        assert(ranges_overlap(objs[ia], objs[ib]));
    }
}

/// With no neighbouring pair overlapping (and no empty range) the layer is
/// valid and well formed.
proof fn lemma_no_overlap_found(layer: Layer, order: Seq<usize>)
    requires
        order == stable_order_of(start_frames(layer.objects@)),
        is_stable_order(start_frames(layer.objects@), order),
        first_failure(empty_range_verdicts(layer)) == Ok::<(), ModelError>(()),
        layer.objects@.len() <= usize::MAX,
        forall|i: int| 0 <= i < layer.objects@.len() ==> (#[trigger] layer.objects@[i]).start_frame
            < layer.objects@[i].end_frame,
        forall|v: int| 0 <= v && v + 1 < layer.objects@.len() ==> !(layer.objects@[#[trigger] order[v
            + 1] as int].start_frame < layer.objects@[order[v] as int].end_frame),
    ensures
        layer_verdict(layer) == Ok::<(), ModelError>(()),
        layer_well_formed(layer),
{
    reveal(layer_verdict);
    reveal(layer_well_formed);
    let objs = layer.objects@;
    let overlaps = overlap_verdicts(layer);
    assert forall|v: int| 0 <= v < overlaps.len() implies !(#[trigger] overlaps[v] is Err) by {
        assert(!(objs[order[v + 1] as int].start_frame < objs[order[v] as int].end_frame));
    }
    lemma_first_index_none(overlaps, |r: Result<(), ModelError>| r is Err);
    assert forall|i: int, j: int|
        0 <= i < objs.len() && 0 <= j < objs.len() && i != j implies !ranges_overlap(
        #[trigger] objs[i],
        #[trigger] objs[j],
    ) by {
        assert(order.contains(i as usize));
        assert(order.contains(j as usize));
        let pi = choose|p: int| 0 <= p < order.len() && order[p] == i as usize;
        let pj = choose|p: int| 0 <= p < order.len() && order[p] == j as usize;
        assert(pi != pj);
        if pi < pj {
            lemma_chain(objs, order, pi, pj);
        } else {
            lemma_chain(objs, order, pj, pi);
        }
    }
}

impl Layer {
    /// Checks that every object has a non-empty range and that no two objects overlap.
    pub fn validate(&self) -> (r: Result<(), ModelError>)
        ensures
            r == layer_verdict(*self),
            r is Ok <==> layer_well_formed(*self),
    {
        reveal(layer_verdict);
        reveal(layer_well_formed);
        let n = self.objects.len();
        let ghost objs = self.objects@;
        let ghost empties = empty_range_verdicts(*self);
        let mut i: usize = 0;
        while i < n
            invariant
                n == objs.len(),
                objs == self.objects@,
                empties == empty_range_verdicts(*self),
                i <= n,
                forall|j: int| 0 <= j < i ==> (#[trigger] objs[j]).start_frame < objs[j].end_frame,
            decreases n - i,
        {
            let o = &self.objects[i];
            if o.end_frame <= o.start_frame {
                let e = ModelError::EmptyRange { layer: self.id.clone(), object: o.id.clone() };
                proof {
                    reveal(layer_verdict);
                    reveal(layer_well_formed);
                    assert(empties[i as int] is Err);
                    assert forall|j: int| 0 <= j < i implies !(#[trigger] empties[j] is Err) by {
                        assert(objs[j].start_frame < objs[j].end_frame);
                    }
                    lemma_first_index_at(empties, |r: Result<(), ModelError>| r is Err, i as int);
                    assert(!layer_well_formed(*self));
                }
                return Err(e);
            }
            i = i + 1;
        }
        proof {
            assert forall|j: int| 0 <= j < empties.len() implies !(#[trigger] empties[j] is Err) by {
                assert(objs[j].start_frame < objs[j].end_frame);
            }
            lemma_first_index_none(empties, |r: Result<(), ModelError>| r is Err);
        }
        let mut starts: Vec<i64> = Vec::new();
        let mut k: usize = 0;
        while k < n
            invariant
                n == objs.len(),
                objs == self.objects@,
                k <= n,
                starts@ == start_frames(objs).subrange(0, k as int),
            decreases n - k,
        {
            starts.push(self.objects[k].start_frame);
            k = k + 1;
            assert(starts@ =~= start_frames(objs).subrange(0, k as int));
        }
        assert(starts@ =~= start_frames(objs));
        let order = stable_order(&starts);
        let ghost order_s = order@;
        let mut w: usize = 0;
        while n > 0 && w < n - 1
            invariant
                n == objs.len(),
                objs == self.objects@,
                order@ == order_s,
                is_stable_order(start_frames(objs), order_s),
                first_failure(empty_range_verdicts(*self)) == Ok::<(), ModelError>(()),
                forall|j: int| 0 <= j < objs.len() ==> (#[trigger] objs[j]).start_frame < objs[j].end_frame,
                w <= n,
                forall|v: int| 0 <= v < w ==> !(objs[#[trigger] order_s[v + 1] as int].start_frame
                    < objs[order_s[v] as int].end_frame),
            decreases n - w,
        {
            let a = &self.objects[order[w]];
            let b = &self.objects[order[w + 1]];
            if b.start_frame < a.end_frame {
                let e = ModelError::Overlap {
                    layer: self.id.clone(),
                    first: a.id.clone(),
                    second: b.id.clone(),
                };
                proof {
                    lemma_stable_order_of(start_frames(objs), order_s);
                    lemma_overlap_found(*self, order_s, w as int);
                }
                return Err(e);
            }
            w = w + 1;
        }
        proof {
            lemma_stable_order_of(start_frames(objs), order_s);
            lemma_no_overlap_found(*self, order_s);
        }
        Ok(())
    }
}

// ---------------------------------------------------------------------------
// Scenes and projects
// ---------------------------------------------------------------------------

/// The outcome of validating a scene: a zero frame-rate denominator, or else
/// the first invalid layer.
#[verifier::opaque]
pub open spec fn scene_verdict(scene: Scene) -> Result<(), ModelError> {
    if scene.fps_den == 0 {
        Err(ModelError::InvalidFps { scene: scene.id })
    } else {
        first_failure(scene.layers@.map_values(|l: Layer| layer_verdict(l)))
    }
}

#[verifier::opaque]
pub open spec fn scene_well_formed(scene: Scene) -> bool {
    &&& scene.fps_den != 0
    &&& forall|i: int| 0 <= i < scene.layers@.len() ==> layer_well_formed(#[trigger] scene.layers@[i])
}

/// Position of the first scene whose id is the active scene id.
pub open spec fn active_scene_index(project: Project) -> Option<int> {
    first_index(project.scenes@, |s: Scene| s.id@ == project.active_scene_id@)
}

/// The outcome of validating a project: no scenes; else the active scene id
/// naming no scene; else the first invalid scene.
pub open spec fn project_verdict(project: Project) -> Result<(), ModelError> {
    if project.scenes@.len() == 0 {
        Err(ModelError::EmptyScenes)
    } else if active_scene_index(project) is None {
        Err(ModelError::SceneNotFound { id: project.active_scene_id })
    } else {
        first_failure(project.scenes@.map_values(|s: Scene| scene_verdict(s)))
    }
}

pub open spec fn project_well_formed(project: Project) -> bool {
    &&& project.scenes@.len() > 0
    &&& exists|i: int|
        0 <= i < project.scenes@.len() && (#[trigger] project.scenes@[i]).id@
            == project.active_scene_id@
    &&& forall|i: int| 0 <= i < project.scenes@.len() ==> scene_well_formed(#[trigger] project.scenes@[i])
}

/// The outcome of accepting a parsed project: a version other than
/// `PROJECT_VERSION` is refused, then the project is validated.
pub open spec fn load_verdict(project: Project) -> Result<Project, ModelError> {
    if project.version != PROJECT_VERSION {
        Err(ModelError::UnsupportedVersion { found: project.version })
    } else {
        match project_verdict(project) {
            Ok(()) => Ok(project),
            Err(e) => Err(e),
        }
    }
}

/// The end frames of all objects of a scene, layer by layer.
pub open spec fn end_frames(scene: Scene) -> Seq<i64> {
    scene.layers@.map_values(
        |l: Layer| l.objects@.map_values(|o: TimelineObject| o.end_frame),
    ).flatten()
}

impl Scene {
    /// Scene length: the largest end frame of all objects, or 0 when there is none.
    pub fn duration_frames(&self) -> (d: Frame)
        ensures
            end_frames(*self).len() == 0 ==> d == 0,
            end_frames(*self).len() > 0 ==> end_frames(*self).contains(d),
            forall|i: int| 0 <= i < end_frames(*self).len() ==> end_frames(*self)[i] <= d,
    {
        let ghost all = end_frames(*self);
        let ghost per_layer = self.layers@.map_values(
            |l: Layer| l.objects@.map_values(|o: TimelineObject| o.end_frame),
        );
        let mut best: Option<i64> = None;
        let mut li: usize = 0;
        while li < self.layers.len()
            invariant
                per_layer == self.layers@.map_values(
                    |l: Layer| l.objects@.map_values(|o: TimelineObject| o.end_frame),
                ),
                li <= self.layers@.len(),
                best is None <==> per_layer.take(li as int).flatten().len() == 0,
                best is Some ==> per_layer.take(li as int).flatten().contains(best->0),
                forall|i: int|
                    0 <= i < per_layer.take(li as int).flatten().len() ==> per_layer.take(
                        li as int,
                    ).flatten()[i] <= best->0,
            decreases self.layers.len() - li,
        {
            let layer = &self.layers[li];
            let ghost before = per_layer.take(li as int).flatten();
            let ghost row = per_layer[li as int];
            let mut oi: usize = 0;
            while oi < layer.objects.len()
                invariant
                    row == layer.objects@.map_values(|o: TimelineObject| o.end_frame),
                    oi <= layer.objects@.len(),
                    best is None <==> (before + row.take(oi as int)).len() == 0,
                    best is Some ==> (before + row.take(oi as int)).contains(best->0),
                    forall|i: int|
                        0 <= i < (before + row.take(oi as int)).len() ==> (before + row.take(
                            oi as int,
                        ))[i] <= best->0,
                decreases layer.objects.len() - oi,
            {
                let e = layer.objects[oi].end_frame;
                let ghost prev = before + row.take(oi as int);
                let ghost next = before + row.take(oi as int + 1);
                assert(next =~= prev.push(e));
                best = match best {
                    None => Some(e),
                    Some(b) => if e > b { Some(e) } else { Some(b) },
                };
                oi = oi + 1;
                proof {
                    assert(next.last() == e);
                    assert forall|i: int| 0 <= i < next.len() implies next[i] <= best->0 by {
                        if i < prev.len() {
                            assert(next[i] == prev[i]);
                        }
                    }
                    if best->0 == e {
                        assert(next[next.len() - 1] == e);
                    } else {
                        let k = choose|k: int| 0 <= k < prev.len() && prev[k] == best->0;
                        assert(next[k] == prev[k]);
                    }
                }
            }
            proof {
                assert(row.take(row.len() as int) =~= row);
                assert(per_layer.take(li as int + 1) =~= per_layer.take(li as int).push(row));
                per_layer.take(li as int).lemma_flatten_push(row);
            }
            li = li + 1;
        }
        proof {
            assert(per_layer.take(self.layers@.len() as int) =~= per_layer);
        }
        match best {
            None => 0,
            Some(b) => b,
        }
    }

    /// Checks the frame rate and every layer.
    pub fn validate(&self) -> (r: Result<(), ModelError>)
        ensures
            r == scene_verdict(*self),
            r is Ok <==> scene_well_formed(*self),
    {
        reveal(scene_verdict);
        reveal(scene_well_formed);
        if self.fps_den == 0 {
            return Err(ModelError::InvalidFps { scene: self.id.clone() });
        }
        let ghost verdicts = self.layers@.map_values(|l: Layer| layer_verdict(l));
        let mut i: usize = 0;
        while i < self.layers.len()
            invariant
                verdicts == self.layers@.map_values(|l: Layer| layer_verdict(l)),
                self.fps_den != 0,
                i <= self.layers@.len(),
                forall|j: int| 0 <= j < i ==> layer_well_formed(#[trigger] self.layers@[j]),
                forall|j: int| 0 <= j < i ==> !(#[trigger] verdicts[j] is Err),
            decreases self.layers.len() - i,
        {
            let r = self.layers[i].validate();
            if r.is_err() {
                proof {
                    reveal(scene_verdict);
                    reveal(scene_well_formed);
                    lemma_first_index_at(verdicts, |r: Result<(), ModelError>| r is Err, i as int);
                }
                return r;
            }
            i = i + 1;
        }
        proof {
            lemma_first_index_none(verdicts, |r: Result<(), ModelError>| r is Err);
        }
        Ok(())
    }
}

/// A project that was accepted is accepted again, unchanged.
pub proof fn lemma_accept_is_stable(p: Project)
    requires
        load_verdict(p) is Ok,
    ensures
        load_verdict(p) == Ok::<Project, ModelError>(p),
        load_verdict(load_verdict(p)->Ok_0) == load_verdict(p),
{
}

impl Project {
    /// A new project named `name` with one 1920x1080, 30 fps scene holding one
    /// empty layer; that scene is active.
    pub fn new(name: &str) -> (p: Project)
        ensures
            p.version == PROJECT_VERSION,
            p.name@ == name@,
            p.scenes@.len() == 1,
            p.active_scene_id@ == "scene-root"@,
            p.scenes@[0].id@ == "scene-root"@,
            p.scenes@[0].name@ == "Root"@,
            p.scenes@[0].width == 1920,
            p.scenes@[0].height == 1080,
            p.scenes@[0].fps_num == 30,
            p.scenes@[0].fps_den == 1,
            p.scenes@[0].sample_rate == 44100,
            p.scenes@[0].bg_color == (Rgba { r: CHANNEL_ZERO, g: CHANNEL_ZERO, b: CHANNEL_ZERO, a: CHANNEL_ONE }),
            p.scenes@[0].layers@.len() == 1,
            p.scenes@[0].layers@[0].id@ == "layer-1"@,
            p.scenes@[0].layers@[0].name@ == "Layer1"@,
            p.scenes@[0].layers@[0].visible,
            !p.scenes@[0].layers@[0].locked,
            p.scenes@[0].layers@[0].objects@.len() == 0,
            project_verdict(p) == Ok::<(), ModelError>(()),
    {
        reveal(layer_verdict);
        reveal(scene_verdict);
        broadcast use vstd::string::group_string_axioms;
        let layer = Layer {
            id: "layer-1".to_string(),
            name: "Layer1".to_string(),
            visible: true,
            locked: false,
            objects: Vec::new(),
        };
        let mut layers: Vec<Layer> = Vec::new();
        layers.push(layer);
        let scene = Scene {
            id: "scene-root".to_string(),
            name: "Root".to_string(),
            width: 1920,
            height: 1080,
            fps_num: 30,
            fps_den: 1,
            sample_rate: 44100,
            bg_color: Rgba::black(),
            layers,
        };
        let active = scene.id.clone();
        let mut scenes: Vec<Scene> = Vec::new();
        scenes.push(scene);
        let p = Project { version: PROJECT_VERSION, name: name.to_string(), scenes, active_scene_id: active };
        proof {
            let l = p.scenes@[0].layers@[0];
            lemma_first_index_none(empty_range_verdicts(l), |r: Result<(), ModelError>| r is Err);
            assert(overlap_verdicts(l).len() == 0);
            lemma_first_index_none(overlap_verdicts(l), |r: Result<(), ModelError>| r is Err);
            let lv = p.scenes@[0].layers@.map_values(|l: Layer| layer_verdict(l));
            lemma_first_index_none(lv, |r: Result<(), ModelError>| r is Err);
            let sv = p.scenes@.map_values(|s: Scene| scene_verdict(s));
            lemma_first_index_none(sv, |r: Result<(), ModelError>| r is Err);
            lemma_first_index_at(p.scenes@, |s: Scene| s.id@ == p.active_scene_id@, 0);
        }
        p
    }

    /// The first scene whose id is the active scene id.
    pub fn active_scene(&self) -> (s: Option<&Scene>)
        ensures
            s == (match active_scene_index(*self) {
                Some(i) => Some(&self.scenes@[i]),
                None => None,
            }),
    {
        let mut i: usize = 0;
        while i < self.scenes.len()
            invariant
                i <= self.scenes@.len(),
                forall|j: int| 0 <= j < i ==> (#[trigger] self.scenes@[j]).id@ != self.active_scene_id@,
            decreases self.scenes.len() - i,
        {
            if same_text(self.scenes[i].id.as_str(), self.active_scene_id.as_str()) {
                proof {
                    lemma_first_index_at(self.scenes@, |s: Scene| s.id@ == self.active_scene_id@, i as int);
                }
                return Some(&self.scenes[i]);
            }
            i = i + 1;
        }
        proof {
            lemma_first_index_none(self.scenes@, |s: Scene| s.id@ == self.active_scene_id@);
        }
        None
    }

    /// Checks that there is a scene, that the active scene exists, and every scene.
    #[verifier::spinoff_prover]
    #[verifier::rlimit(40)]
    pub fn validate(&self) -> (r: Result<(), ModelError>)
        ensures
            r == project_verdict(*self),
            r is Ok <==> project_well_formed(*self),
    {
        if self.scenes.len() == 0 {
            return Err(ModelError::EmptyScenes);
        }
        proof {
            lemma_first_index(self.scenes@, |s: Scene| s.id@ == self.active_scene_id@);
        }
        if self.active_scene().is_none() {
            return Err(ModelError::SceneNotFound { id: self.active_scene_id.clone() });
        }
        proof {
            let i = active_scene_index(*self)->0;
            assert(self.scenes@[i].id@ == self.active_scene_id@);
        }
        let ghost verdicts = self.scenes@.map_values(|s: Scene| scene_verdict(s));
        let mut i: usize = 0;
        while i < self.scenes.len()
            invariant
                verdicts == self.scenes@.map_values(|s: Scene| scene_verdict(s)),
                self.scenes@.len() > 0,
                active_scene_index(*self) is Some,
                exists|k: int|
                    0 <= k < self.scenes@.len() && (#[trigger] self.scenes@[k]).id@
                        == self.active_scene_id@,
                i <= self.scenes@.len(),
                forall|j: int| 0 <= j < i ==> scene_well_formed(#[trigger] self.scenes@[j]),
                forall|j: int| 0 <= j < i ==> !(#[trigger] verdicts[j] is Err),
            decreases self.scenes.len() - i,
        {
            let r = self.scenes[i].validate();
            if r.is_err() {
                proof {
                    assert(self.scenes@.len() > 0);
                    assert(active_scene_index(*self) is Some);
                    lemma_first_index_at(verdicts, |r: Result<(), ModelError>| r is Err, i as int);
                }
                return r;
            }
            i = i + 1;
        }
        proof {
            lemma_first_index_none(verdicts, |r: Result<(), ModelError>| r is Err);
        }
        Ok(())
    }

    /// Accepts a freshly parsed project: refuses a schema version other than
    /// `PROJECT_VERSION`, then validates it.
    pub fn check_loaded(project: Project) -> (r: Result<Project, ModelError>)
        ensures
            r == load_verdict(project),
    {
        if project.version != PROJECT_VERSION {
            return Err(ModelError::UnsupportedVersion { found: project.version });
        }
        match project.validate() {
            Ok(()) => Ok(project),
            Err(e) => Err(e),
        }
    }
}

impl ModelError {
    /// How the error reads for a person.
    pub fn message(&self) -> (m: String)
        ensures
            m@ == match *self {
                ModelError::Json(e) => "JSON error: "@ + e@,
                ModelError::UnsupportedVersion { found } => "unsupported project version "@
                    + decimal_spec(found as nat) + " (expected "@ + decimal_spec(PROJECT_VERSION as nat)
                    + ")"@,
                ModelError::EmptyScenes => "project has no scenes"@,
                ModelError::SceneNotFound { id } => "active scene not found: "@ + id@,
                ModelError::InvalidFps { scene } => "scene has zero fps denominator: "@ + scene@,
                ModelError::EmptyRange { layer, object } => "object has empty range: "@ + layer@
                    + "/"@ + object@,
                ModelError::Overlap { layer, first, second } => "objects overlap in "@ + layer@
                    + ": "@ + first@ + " vs "@ + second@,
            },
    {
        broadcast use vstd::string::group_string_axioms;
        match self {
            ModelError::Json(e) => joined("JSON error: ", e.as_str()),
            ModelError::UnsupportedVersion { found } => {
                let mut m = joined("unsupported project version ", decimal_text(*found as u64).as_str());
                m.append(" (expected ");
                m.append(decimal_text(PROJECT_VERSION as u64).as_str());
                m.append(")");
                m
            },
            ModelError::EmptyScenes => "project has no scenes".to_string(),
            ModelError::SceneNotFound { id } => joined("active scene not found: ", id.as_str()),
            ModelError::InvalidFps { scene } => joined("scene has zero fps denominator: ", scene.as_str()),
            ModelError::EmptyRange { layer, object } => {
                let mut m = joined("object has empty range: ", layer.as_str());
                m.append("/");
                m.append(object.as_str());
                m
            },
            ModelError::Overlap { layer, first, second } => {
                let mut m = joined("objects overlap in ", layer.as_str());
                m.append(": ");
                m.append(first.as_str());
                m.append(" vs ");
                m.append(second.as_str());
                m
            },
        }
    }
}

} // verus!
