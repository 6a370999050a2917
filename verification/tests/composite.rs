use pool::composite::{draw_step, duplicator_source, grid_cells, pass_order, stagger_visible, DrawStep, RenderPass};
use pool::keyframes::LoopTable;
use pool::model::{Layer, ObjectKind, Project, ShapeKind, TimelineObject};

fn object(id: &str, kind: ObjectKind, start: i64, end: i64) -> TimelineObject {
    TimelineObject {
        id: id.to_string(),
        name: id.to_string(),
        kind,
        start_frame: start,
        end_frame: end,
        params: vec![],
        keyframes: vec![],
        loops: LoopTable::new(),
    }
}

fn shape() -> ObjectKind {
    ObjectKind::Shape { shape: ShapeKind::Rectangle }
}

fn filter() -> ObjectKind {
    ObjectKind::Filter { effect: "blur".to_string() }
}

fn scene_project() -> Project {
    let mut p = Project::new("c");
    let s = &mut p.scenes[0];
    s.layers[0].objects = vec![object("a", shape(), 0, 10), object("f1", filter(), 0, 100), object("b", shape(), 10, 20)];
    s.layers.push(Layer {
        id: "hidden".to_string(),
        name: "Hidden".to_string(),
        visible: false,
        locked: false,
        objects: vec![object("h", shape(), 0, 100), object("f2", filter(), 0, 100)],
    });
    s.layers.push(Layer {
        id: "top".to_string(),
        name: "Top".to_string(),
        visible: true,
        locked: false,
        objects: vec![object("c", shape(), 5, 15), object("a", shape(), 0, 100)],
    });
    p
}

#[test]
fn draw_pass_skips_filters_and_hidden_layers() {
    let p = scene_project();
    let s = &p.scenes[0];
    assert_eq!(pass_order(s, 5, RenderPass::Draw), vec![(0, 0), (2, 0), (2, 1)]);
    assert_eq!(pass_order(s, 10, RenderPass::Draw), vec![(0, 2), (2, 0), (2, 1)]);
    assert_eq!(pass_order(s, 200, RenderPass::Draw), vec![]);
}

#[test]
fn filter_pass_takes_filters_of_every_layer() {
    let p = scene_project();
    let s = &p.scenes[0];
    assert_eq!(pass_order(s, 50, RenderPass::Filter), vec![(0, 1), (1, 1)]);
    assert_eq!(pass_order(s, 100, RenderPass::Filter), vec![]);
}

#[test]
fn duplicator_copies_the_first_object_with_the_id() {
    let p = scene_project();
    let s = &p.scenes[0];
    assert_eq!(duplicator_source(s, "a"), Some((0, 0)));
    assert_eq!(duplicator_source(s, "c"), Some((2, 0)));
    assert_eq!(duplicator_source(s, "zz"), None);
}

#[test]
fn draw_steps_by_kind() {
    assert_eq!(draw_step(&filter()), DrawStep::Skip);
    assert_eq!(draw_step(&ObjectKind::Audio { path: "a.wav".to_string() }), DrawStep::Skip);
    assert_eq!(draw_step(&ObjectKind::GroupControl { target_layers: 2 }), DrawStep::Skip);
    assert_eq!(draw_step(&ObjectKind::CameraControl { target_layers: 2 }), DrawStep::Skip);
    assert_eq!(draw_step(&ObjectKind::Duplicator { source: "a".to_string() }), DrawStep::Duplicate);
    assert_eq!(draw_step(&shape()), DrawStep::Paint);
    assert_eq!(draw_step(&ObjectKind::Text { body: "t".to_string() }), DrawStep::Paint);
    assert_eq!(draw_step(&ObjectKind::Video { path: "v".to_string() }), DrawStep::Paint);
}

#[test]
fn staggered_copies_lag_behind() {
    assert!(stagger_visible(5, 100, 0, 10, 20));
    assert!(stagger_visible(25, 1, 10, 10, 20));
    assert!(!stagger_visible(25, 2, 10, 10, 20));
    assert!(!stagger_visible(i64::MIN, u64::MAX, i64::MAX, i64::MIN, i64::MAX));
    assert!(!stagger_visible(i64::MAX, u64::MAX, -1, i64::MIN, i64::MAX));
}

#[test]
fn grid_lists_showing_cells_row_by_row() {
    assert_eq!(grid_cells(2, 2, 0, 0, 0, 1), vec![(0, 0), (0, 1), (1, 0), (1, 1)]);
    // copy n shows while frame - 2n lies in [0, 4)
    assert_eq!(grid_cells(2, 3, 2, 5, 0, 4), vec![(0, 1), (0, 2)]);
    assert_eq!(grid_cells(0, 3, 0, 0, 0, 1), vec![]);
}

#[test]
fn each_showing_object_takes_one_pass() {
    let p = scene_project();
    let s = &p.scenes[0];
    let draw = pass_order(s, 50, RenderPass::Draw);
    let filters = pass_order(s, 50, RenderPass::Filter);
    assert_eq!(draw, vec![(2, 1)]);
    assert_eq!(filters, vec![(0, 1), (1, 1)]);
    assert!(draw.iter().all(|d| !filters.contains(d)));
}
