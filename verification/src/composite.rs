//! The order in which a scene is composited at a frame: which objects are
//! drawn, which filters are applied afterwards, and what a duplicator copies.

use vstd::prelude::*;
use crate::model::{ObjectKind, Scene, TimelineObject};

verus! {

/// The two passes over a scene: objects are drawn first, then the filters
/// showing at the frame are applied over everything drawn.
#[derive(Debug, Clone, Copy, PartialEq, Eq)]
pub enum RenderPass {
    Draw,
    Filter,
}

/// Object `o` of layer `l` exists.
pub open spec fn at(s: Scene, l: int, o: int) -> bool {
    0 <= l < s.layers@.len() && 0 <= o < s.layers@[l].objects@.len()
}

pub open spec fn object_at(s: Scene, l: int, o: int) -> TimelineObject {
    s.layers@[l].objects@[o]
}

/// The object's range holds `frame`.
pub open spec fn shows(ob: TimelineObject, frame: int) -> bool {
    ob.start_frame <= frame < ob.end_frame
}

/// Object `o` of layer `l` takes part in `pass` at `frame`: drawing takes the
/// objects of visible layers that are not filters; filtering takes the
/// filters of every layer. Either way the object must show at `frame`.
pub open spec fn in_pass(s: Scene, frame: int, pass: RenderPass, l: int, o: int) -> bool {
    &&& at(s, l, o)
    &&& shows(object_at(s, l, o), frame)
    &&& match pass {
        RenderPass::Draw => s.layers@[l].visible && !(object_at(s, l, o).kind is Filter),
        RenderPass::Filter => object_at(s, l, o).kind is Filter,
    }
}

/// At a frame, an object showing on a visible layer takes part in exactly
/// one of the two passes, and no object takes part in both.
pub proof fn lemma_one_pass_each(s: Scene, frame: int, l: int, o: int)
    ensures
        !(in_pass(s, frame, RenderPass::Draw, l, o) && in_pass(s, frame, RenderPass::Filter, l, o)),
        at(s, l, o) && shows(object_at(s, l, o), frame) && s.layers@[l].visible ==> (in_pass(
            s,
            frame,
            RenderPass::Draw,
            l,
            o,
        ) || in_pass(s, frame, RenderPass::Filter, l, o)),
{
}

/// Position `a` comes before `b`: an earlier layer, or the same layer and an
/// earlier object.
pub open spec fn before(a: (usize, usize), b: (usize, usize)) -> bool {
    a.0 < b.0 || (a.0 == b.0 && a.1 < b.1)
}

/// `v` lists exactly the positions `(layer, object)` where `p` holds, each
/// once, in layer order and within a layer in object order.
pub open spec fn lists_in_order(v: Seq<(usize, usize)>, p: spec_fn(int, int) -> bool) -> bool {
    &&& forall|i: int| 0 <= i < v.len() ==> #[trigger] p(v[i].0 as int, v[i].1 as int)
    &&& forall|i: int, j: int| 0 <= i < j < v.len() ==> before(#[trigger] v[i], #[trigger] v[j])
    &&& forall|l: int, o: int|
        #[trigger] p(l, o) ==> exists|i: int| 0 <= i < v.len() && v[i].0 == l && v[i].1 == o
}

/// The positions `(layer, object)` that take part in `pass` at `frame`, in
/// the order they are composited.
pub fn pass_order(scene: &Scene, frame: i64, pass: RenderPass) -> (v: Vec<(usize, usize)>)
    ensures
        lists_in_order(v@, |l: int, o: int| in_pass(*scene, frame as int, pass, l, o)),
{
    let ghost s = *scene;
    let ghost p = |l: int, o: int| in_pass(s, frame as int, pass, l, o);
    let mut v: Vec<(usize, usize)> = Vec::new();
    let nl = scene.layers.len();
    let mut li: usize = 0;
    while li < nl
        invariant
            s == *scene,
            p == (|l: int, o: int| in_pass(s, frame as int, pass, l, o)),
            nl == s.layers@.len(),
            li <= nl,
            forall|i: int| 0 <= i < v@.len() ==> #[trigger] p(v@[i].0 as int, v@[i].1 as int),
            forall|i: int, j: int| 0 <= i < j < v@.len() ==> before(#[trigger] v@[i], #[trigger] v@[j]),
            forall|i: int| 0 <= i < v@.len() ==> (#[trigger] v@[i]).0 < li,
            forall|l: int, o: int|
                #[trigger] p(l, o) && l < li ==> exists|i: int|
                    0 <= i < v@.len() && v@[i].0 == l && v@[i].1 == o,
        decreases nl - li,
    {
        let layer = &scene.layers[li];
        let no = layer.objects.len();
        let mut oi: usize = 0;
        while oi < no
            invariant
                s == *scene,
                p == (|l: int, o: int| in_pass(s, frame as int, pass, l, o)),
                nl == s.layers@.len(),
                li < nl,
                *layer == s.layers@[li as int],
                no == layer.objects@.len(),
                oi <= no,
                forall|i: int| 0 <= i < v@.len() ==> #[trigger] p(v@[i].0 as int, v@[i].1 as int),
                forall|i: int, j: int| 0 <= i < j < v@.len() ==> before(#[trigger] v@[i], #[trigger] v@[j]),
                forall|i: int|
                    0 <= i < v@.len() ==> (#[trigger] v@[i]).0 < li || (v@[i].0 == li && v@[i].1 < oi),
                forall|l: int, o: int|
                    #[trigger] p(l, o) && (l < li || (l == li && o < oi)) ==> exists|i: int|
                        0 <= i < v@.len() && v@[i].0 == l && v@[i].1 == o,
            decreases no - oi,
        {
            let ob = &layer.objects[oi];
            let showing = ob.contains(frame);
            let is_filter = match ob.kind {
                ObjectKind::Filter { .. } => true,
                _ => false,
            };
            let member = showing && match pass {
                RenderPass::Draw => layer.visible && !is_filter,
                RenderPass::Filter => is_filter,
            };
            proof {
                assert(member == p(li as int, oi as int));
            }
            let ghost old_v = v@;
            if member {
                v.push((li, oi));
                proof {
                    assert forall|i: int, j: int| 0 <= i < j < v@.len() implies before(
                        #[trigger] v@[i],
                        #[trigger] v@[j],
                    ) by {
                        if j == v@.len() - 1 {
                            assert(v@[i] == old_v[i]);
                        } else {
                            assert(v@[i] == old_v[i] && v@[j] == old_v[j]);
                        }
                    }
                    assert(v@[v@.len() - 1] == (li, oi));
                }
            }
            oi = oi + 1;
            proof {
                assert forall|l: int, o: int|
                    #[trigger] p(l, o) && (l < li || (l == li && o < oi)) implies exists|i: int|
                        0 <= i < v@.len() && v@[i].0 == l && v@[i].1 == o by {
                    if l == li && o == oi - 1 {
                        assert(v@[v@.len() - 1].0 == l && v@[v@.len() - 1].1 == o);
                    } else {
                        let k = choose|k: int|
                            0 <= k < old_v.len() && old_v[k].0 == l && old_v[k].1 == o;
                        assert(v@[k] == old_v[k]);
                    }
                }
                assert forall|i: int| 0 <= i < v@.len() implies #[trigger] p(
                    v@[i].0 as int,
                    v@[i].1 as int,
                ) by {
                    if i < old_v.len() {
                        assert(v@[i] == old_v[i]);
                    }
                }
                assert forall|i: int| 0 <= i < v@.len() implies (#[trigger] v@[i]).0 < li || (v@[i].0
                    == li && v@[i].1 < oi) by {
                    if i < old_v.len() {
                        assert(v@[i] == old_v[i]);
                    }
                }
            }
        }
        li = li + 1;
    }
    v
}

// ---------------------------------------------------------------------------
// Drawing one object
// ---------------------------------------------------------------------------

/// What drawing an object amounts to.
#[derive(Debug, Clone, Copy, PartialEq, Eq)]
pub enum DrawStep {
    /// Nothing is drawn: filters come in their own pass, audio has no
    /// picture, and group and camera controls draw nothing themselves.
    Skip,
    /// The duplicator draws copies of its source object.
    Duplicate,
    /// The object paints itself.
    Paint,
}

pub open spec fn draw_step_of(kind: ObjectKind) -> DrawStep {
    match kind {
        ObjectKind::Filter { .. } => DrawStep::Skip,
        ObjectKind::Audio { .. } => DrawStep::Skip,
        ObjectKind::GroupControl { .. } => DrawStep::Skip,
        ObjectKind::CameraControl { .. } => DrawStep::Skip,
        ObjectKind::Duplicator { .. } => DrawStep::Duplicate,
        _ => DrawStep::Paint,
    }
}

/// How an object of this kind is drawn.
pub fn draw_step(kind: &ObjectKind) -> (d: DrawStep)
    ensures
        d == draw_step_of(*kind),
{
    match kind {
        ObjectKind::Filter { .. } => DrawStep::Skip,
        ObjectKind::Audio { .. } => DrawStep::Skip,
        ObjectKind::GroupControl { .. } => DrawStep::Skip,
        ObjectKind::CameraControl { .. } => DrawStep::Skip,
        ObjectKind::Duplicator { .. } => DrawStep::Duplicate,
        _ => DrawStep::Paint,
    }
}

/// Only filters, audio, group controls and camera controls draw nothing
/// themselves, only the duplicator draws copies, and every picture source
/// (video, image, text, shape) paints itself.
pub proof fn lemma_draw_steps(kind: ObjectKind)
    ensures
        draw_step_of(kind) == DrawStep::Skip <==> (kind is Filter || kind is Audio || kind is GroupControl
            || kind is CameraControl),
        draw_step_of(kind) == DrawStep::Duplicate <==> kind is Duplicator,
        (kind is Video || kind is Image || kind is Text || kind is Shape) ==> draw_step_of(kind)
            == DrawStep::Paint,
{
}

// ---------------------------------------------------------------------------
// Duplicators
// ---------------------------------------------------------------------------

/// The object at `(l, o)` has id `id`.
pub open spec fn has_id(s: Scene, id: Seq<char>, l: int, o: int) -> bool {
    at(s, l, o) && object_at(s, l, o).id@ == id
}

/// The object a duplicator copies: the first object, in layer order and
/// within a layer in object order, whose id is `id`.
pub fn duplicator_source(scene: &Scene, id: &str) -> (r: Option<(usize, usize)>)
    ensures
        match r {
            Some((l, o)) => has_id(*scene, id@, l as int, o as int) && forall|l2: int, o2: int|
                #[trigger] has_id(*scene, id@, l2, o2) ==> !before((l2 as usize, o2 as usize), (l, o)),
            None => forall|l2: int, o2: int| !(#[trigger] has_id(*scene, id@, l2, o2)),
        },
{
    let ghost s = *scene;
    let nl = scene.layers.len();
    let mut li: usize = 0;
    while li < nl
        invariant
            s == *scene,
            nl == s.layers@.len(),
            li <= nl,
            forall|l2: int, o2: int| #[trigger] has_id(s, id@, l2, o2) ==> l2 >= li,
        decreases nl - li,
    {
        let layer = &scene.layers[li];
        let no = layer.objects.len();
        let mut oi: usize = 0;
        while oi < no
            invariant
                s == *scene,
                nl == s.layers@.len(),
                li < nl,
                *layer == s.layers@[li as int],
                no == layer.objects@.len(),
                oi <= no,
                forall|l2: int, o2: int|
                    #[trigger] has_id(s, id@, l2, o2) ==> l2 > li || (l2 == li && o2 >= oi),
            decreases no - oi,
        {
            if crate::text::same_text(layer.objects[oi].id.as_str(), id) {
                return Some((li, oi));
            }
            oi = oi + 1;
        }
        li = li + 1;
    }
    None
}

/// Copy number `idx` of a duplicator shows at `frame` when each copy lags
/// `stagger` frames behind the previous one: its lagged frame must fall in
/// the source's range `[start, end)`. Without stagger every copy shows.
pub open spec fn copy_shows(idx: int, stagger: int, frame: int, start: int, end: int) -> bool {
    stagger == 0 || (start <= frame - idx * stagger && frame - idx * stagger < end)
}

/// Whether copy number `idx` shows at `frame`.
pub fn stagger_visible(frame: i64, idx: u64, stagger: i64, start: i64, end: i64) -> (b: bool)
    ensures
        b == copy_shows(idx as int, stagger as int, frame as int, start as int, end as int),
{
    if stagger == 0 {
        return true;
    }
    let i = idx as i128;
    let k = stagger as i128;
    assert(-0xffff_ffff_ffff_ffff * 0x8000_0000_0000_0000 <= i * k <= 0xffff_ffff_ffff_ffff
        * 0x7fff_ffff_ffff_ffff) by (nonlinear_arith)
        requires
            0 <= i <= 0xffff_ffff_ffff_ffff,
            -0x8000_0000_0000_0000 <= k <= 0x7fff_ffff_ffff_ffff,
    {
        if k >= 0 {
            assert(i * k <= 0xffff_ffff_ffff_ffff * k);
            assert(0xffff_ffff_ffff_ffff * k <= 0xffff_ffff_ffff_ffff * 0x7fff_ffff_ffff_ffff);
        } else {
            assert(i * k >= 0xffff_ffff_ffff_ffff * k);
            assert(0xffff_ffff_ffff_ffff * k >= 0xffff_ffff_ffff_ffff * -0x8000_0000_0000_0000);
        }
    }
    let lagged = frame as i128 - i * k;
    start as i128 <= lagged && lagged < end as i128
}

/// Cell `(r, c)` of a `rows` by `cols` grid of copies shows; copies are
/// numbered row by row.
pub open spec fn grid_cell_shows(
    rows: int,
    cols: int,
    stagger: int,
    frame: int,
    start: int,
    end: int,
    r: int,
    c: int,
) -> bool {
    0 <= r < rows && 0 <= c < cols && copy_shows(r * cols + c, stagger, frame, start, end)
}

/// The cells `(row, column)` of a duplicator's grid whose copies show at
/// `frame`, row by row. `start` and `end` are the source object's range.
pub fn grid_cells(rows: usize, cols: usize, stagger: i64, frame: i64, start: i64, end: i64) -> (v: Vec<(usize, usize)>)
    requires
        rows * cols <= usize::MAX,
    ensures
        lists_in_order(
            v@,
            |r: int, c: int|
                grid_cell_shows(rows as int, cols as int, stagger as int, frame as int, start as int, end as int, r, c),
        ),
{
    let ghost p = |r: int, c: int|
        grid_cell_shows(rows as int, cols as int, stagger as int, frame as int, start as int, end as int, r, c);
    let mut v: Vec<(usize, usize)> = Vec::new();
    let mut r: usize = 0;
    while r < rows
        invariant
            p == (|r: int, c: int|
                grid_cell_shows(rows as int, cols as int, stagger as int, frame as int, start as int, end as int, r, c)),
            rows * cols <= usize::MAX,
            r <= rows,
            forall|i: int| 0 <= i < v@.len() ==> #[trigger] p(v@[i].0 as int, v@[i].1 as int),
            forall|i: int, j: int| 0 <= i < j < v@.len() ==> before(#[trigger] v@[i], #[trigger] v@[j]),
            forall|i: int| 0 <= i < v@.len() ==> (#[trigger] v@[i]).0 < r,
            forall|a: int, b: int|
                #[trigger] p(a, b) && a < r ==> exists|i: int|
                    0 <= i < v@.len() && v@[i].0 == a && v@[i].1 == b,
        decreases rows - r,
    {
        let mut c: usize = 0;
        while c < cols
            invariant
                p == (|r: int, c: int|
                    grid_cell_shows(rows as int, cols as int, stagger as int, frame as int, start as int, end as int, r, c)),
                rows * cols <= usize::MAX,
                r < rows,
                c <= cols,
                forall|i: int| 0 <= i < v@.len() ==> #[trigger] p(v@[i].0 as int, v@[i].1 as int),
                forall|i: int, j: int| 0 <= i < j < v@.len() ==> before(#[trigger] v@[i], #[trigger] v@[j]),
                forall|i: int|
                    0 <= i < v@.len() ==> (#[trigger] v@[i]).0 < r || (v@[i].0 == r && v@[i].1 < c),
                forall|a: int, b: int|
                    #[trigger] p(a, b) && (a < r || (a == r && b < c)) ==> exists|i: int|
                        0 <= i < v@.len() && v@[i].0 == a && v@[i].1 == b,
            decreases cols - c,
        {
            assert(r * cols + c < rows * cols) by (nonlinear_arith)
                requires
                    r < rows,
                    c < cols,
            {
                assert(r * cols + c < r * cols + cols);
                assert(r * cols + cols == (r + 1) * cols);
                assert((r + 1) * cols <= rows * cols);
            }
            let idx = r * cols + c;
            let shows = stagger_visible(frame, idx as u64, stagger, start, end);
            proof {
                assert(shows == p(r as int, c as int));
            }
            let ghost old_v = v@;
            if shows {
                v.push((r, c));
                proof {
                    assert forall|i: int, j: int| 0 <= i < j < v@.len() implies before(
                        #[trigger] v@[i],
                        #[trigger] v@[j],
                    ) by {
                        if j == v@.len() - 1 {
                            assert(v@[i] == old_v[i]);
                        } else {
                            assert(v@[i] == old_v[i] && v@[j] == old_v[j]);
                        }
                    }
                    assert(v@[v@.len() - 1] == (r, c));
                }
            }
            c = c + 1;
            proof {
                assert forall|a: int, b: int|
                    #[trigger] p(a, b) && (a < r || (a == r && b < c)) implies exists|i: int|
                        0 <= i < v@.len() && v@[i].0 == a && v@[i].1 == b by {
                    if a == r && b == c - 1 {
                        assert(v@[v@.len() - 1].0 == a && v@[v@.len() - 1].1 == b);
                    } else {
                        let k = choose|k: int|
                            0 <= k < old_v.len() && old_v[k].0 == a && old_v[k].1 == b;
                        assert(v@[k] == old_v[k]);
                    }
                }
                assert forall|i: int| 0 <= i < v@.len() implies #[trigger] p(
                    v@[i].0 as int,
                    v@[i].1 as int,
                ) by {
                    if i < old_v.len() {
                        assert(v@[i] == old_v[i]);
                    }
                }
                assert forall|i: int| 0 <= i < v@.len() implies (#[trigger] v@[i]).0 < r || (v@[i].0
                    == r && v@[i].1 < c) by {
                    if i < old_v.len() {
                        assert(v@[i] == old_v[i]);
                    }
                }
            }
        }
        r = r + 1;
    }
    v
}

} // verus!
