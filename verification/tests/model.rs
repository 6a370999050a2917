use pool::keyframes::LoopTable;
use pool::model::{
    Interpolation, Keyframe, Layer, ModelError, ObjectKind, Param, Project, Rgba, Scene, ShapeKind,
    TimelineObject, Value, CHANNEL_ONE, CHANNEL_ZERO, PROJECT_VERSION,
};

fn sample_object(id: &str, start: i64, end: i64) -> TimelineObject {
    TimelineObject {
        id: id.to_string(),
        name: id.to_string(),
        kind: ObjectKind::Text { body: "hi".to_string() },
        start_frame: start,
        end_frame: end,
        params: vec![Param { name: "x".to_string(), value: Value::Number(10.0f64.to_bits()) }],
        keyframes: Vec::new(),
        loops: LoopTable::new(),
    }
}

fn layer_of(objects: Vec<TimelineObject>) -> Layer {
    Layer { id: "l".to_string(), name: "L".to_string(), visible: true, locked: false, objects }
}

#[test]
fn new_project_is_valid() {
    let p = Project::new("demo");
    assert_eq!(p.version, PROJECT_VERSION);
    assert!(p.validate().is_ok());
    assert_eq!(p.active_scene().unwrap().name, "Root");
}

#[test]
fn new_project_has_one_root_scene() {
    let p = Project::new("demo");
    assert_eq!(p.name, "demo");
    assert_eq!(p.scenes.len(), 1);
    let s = &p.scenes[0];
    assert_eq!((s.width, s.height, s.fps_num, s.fps_den, s.sample_rate), (1920, 1080, 30, 1, 44100));
    assert_eq!(s.bg_color, Rgba::black());
    assert_eq!(s.layers.len(), 1);
    assert_eq!(s.layers[0].id, "layer-1");
    assert!(s.layers[0].visible && !s.layers[0].locked);
    assert_eq!(p.active_scene_id, "scene-root");
}

#[test]
fn rejects_overlap_in_layer() {
    let mut layer = layer_of(vec![sample_object("a", 0, 100), sample_object("b", 50, 120)]);
    assert!(matches!(layer.validate(), Err(ModelError::Overlap { .. })));
    layer.objects[1].start_frame = 100;
    assert!(layer.validate().is_ok());
}

#[test]
fn overlap_names_the_pair_in_start_order() {
    let layer = layer_of(vec![sample_object("late", 50, 120), sample_object("early", 0, 100)]);
    assert_eq!(
        layer.validate(),
        Err(ModelError::Overlap { layer: "l".to_string(), first: "early".to_string(), second: "late".to_string() })
    );
}

#[test]
fn rejects_empty_range() {
    let layer = layer_of(vec![sample_object("a", 30, 30)]);
    assert!(matches!(layer.validate(), Err(ModelError::EmptyRange { .. })));
}

#[test]
fn empty_range_is_reported_before_overlap() {
    let layer = layer_of(vec![sample_object("a", 0, 100), sample_object("b", 50, 120), sample_object("c", 7, 3)]);
    assert_eq!(layer.validate(), Err(ModelError::EmptyRange { layer: "l".to_string(), object: "c".to_string() }));
}

#[test]
fn duration_is_max_end() {
    let mut p = Project::new("demo");
    p.scenes[0].layers[0].objects.push(sample_object("a", 0, 90));
    p.scenes[0].layers[0].objects.push(sample_object("b", 100, 301));
    assert_eq!(p.scenes[0].duration_frames(), 301);
}

#[test]
fn duration_of_empty_scene_is_zero() {
    let p = Project::new("demo");
    assert_eq!(p.scenes[0].duration_frames(), 0);
}

#[test]
fn rejects_unknown_version() {
    let p = Project { version: 999, name: "x".to_string(), scenes: vec![], active_scene_id: "s".to_string() };
    assert!(matches!(Project::check_loaded(p), Err(ModelError::UnsupportedVersion { found: 999 })));
}

#[test]
fn accepted_project_comes_back_unchanged() {
    let mut p = Project::new("demo");
    p.scenes[0].layers[0].objects.push(sample_object("o1", 0, 90));
    p.scenes[0].layers[0].objects.push(sample_object("o2", 90, 150));
    let back = Project::check_loaded(p.clone()).unwrap();
    assert_eq!(back, p);
    assert_eq!(Project::check_loaded(back.clone()).unwrap(), back);
}

/// The project of the handwritten sample: a video on layer 1, a caption on layer 2.
fn sample_project() -> Project {
    let video = TimelineObject {
        id: "obj-video".to_string(),
        name: "car.mp4".to_string(),
        kind: ObjectKind::Video { path: "car.mp4".to_string() },
        start_frame: 0,
        end_frame: 150,
        params: vec![Param { name: "opacity".to_string(), value: Value::Number(1.0f64.to_bits()) }],
        keyframes: vec![Keyframe {
            param: "opacity".to_string(),
            frame: 120,
            value: Value::Number(0.0f64.to_bits()),
            interpolation: Interpolation::Linear,
        }],
        loops: LoopTable::new(),
    };
    let text = TimelineObject {
        id: "obj-text".to_string(),
        name: "テロップ".to_string(),
        kind: ObjectKind::Text { body: "こんにちは".to_string() },
        start_frame: 30,
        end_frame: 120,
        params: vec![
            Param { name: "size".to_string(), value: Value::Number(40.0f64.to_bits()) },
            Param { name: "fill".to_string(), value: Value::Color(Rgba::white()) },
        ],
        keyframes: Vec::new(),
        loops: LoopTable::new(),
    };
    Project {
        version: 1,
        name: "sample".to_string(),
        scenes: vec![Scene {
            id: "scene-root".to_string(),
            name: "Root".to_string(),
            width: 1920,
            height: 1080,
            fps_num: 30,
            fps_den: 1,
            sample_rate: 44100,
            bg_color: Rgba::black(),
            layers: vec![
                Layer { id: "layer-1".to_string(), name: "Layer1".to_string(), visible: true, locked: false, objects: vec![video] },
                Layer { id: "layer-2".to_string(), name: "Layer2".to_string(), visible: true, locked: false, objects: vec![text] },
            ],
        }],
        active_scene_id: "scene-root".to_string(),
    }
}

#[test]
fn sample_json_loads_and_validates() {
    let project = Project::check_loaded(sample_project()).unwrap();
    assert_eq!(project.name, "sample");
    assert_eq!(project.active_scene().unwrap().duration_frames(), 150);
}

#[test]
fn overlapping_sample_is_rejected() {
    let mut project = sample_project();
    project.scenes[0].layers[0].objects.push(TimelineObject {
        id: "obj-bad".to_string(),
        name: "bad".to_string(),
        kind: ObjectKind::Shape { shape: ShapeKind::Rectangle },
        start_frame: 100,
        end_frame: 200,
        params: Vec::new(),
        keyframes: Vec::new(),
        loops: LoopTable::new(),
    });
    assert!(project.validate().is_err());
    assert_eq!(
        project.validate(),
        Err(ModelError::Overlap {
            layer: "layer-1".to_string(),
            first: "obj-video".to_string(),
            second: "obj-bad".to_string()
        })
    );
}

#[test]
fn project_errors_come_in_order() {
    let empty = Project { version: 1, name: "x".to_string(), scenes: vec![], active_scene_id: "s".to_string() };
    assert_eq!(empty.validate(), Err(ModelError::EmptyScenes));
    let mut lost = Project::new("x");
    lost.active_scene_id = "nowhere".to_string();
    assert_eq!(lost.validate(), Err(ModelError::SceneNotFound { id: "nowhere".to_string() }));
    let mut zero = Project::new("x");
    zero.scenes[0].fps_den = 0;
    assert_eq!(zero.validate(), Err(ModelError::InvalidFps { scene: "scene-root".to_string() }));
}

#[test]
fn object_range_queries() {
    let o = sample_object("a", 10, 20);
    assert_eq!(o.len_frames(), 10);
    assert!(!o.is_empty());
    assert!(o.contains(10) && o.contains(19));
    assert!(!o.contains(20) && !o.contains(9));
    assert!(sample_object("e", 5, 5).is_empty());
}

#[test]
fn error_messages_read_as_before() {
    assert_eq!(
        ModelError::UnsupportedVersion { found: 999 }.message(),
        "unsupported project version 999 (expected 1)"
    );
    assert_eq!(ModelError::EmptyScenes.message(), "project has no scenes");
    assert_eq!(ModelError::Json("eof".to_string()).message(), "JSON error: eof");
    assert_eq!(ModelError::SceneNotFound { id: "s".to_string() }.message(), "active scene not found: s");
    assert_eq!(ModelError::InvalidFps { scene: "s".to_string() }.message(), "scene has zero fps denominator: s");
    assert_eq!(
        ModelError::EmptyRange { layer: "l".to_string(), object: "o".to_string() }.message(),
        "object has empty range: l/o"
    );
    assert_eq!(
        ModelError::Overlap { layer: "l".to_string(), first: "a".to_string(), second: "b".to_string() }.message(),
        "objects overlap in l: a vs b"
    );
}

#[test]
fn named_curves_hold_their_handles() {
    assert_eq!(
        Interpolation::easy_ease(),
        Interpolation::Bezier {
            x1: 0.42f64.to_bits(),
            y1: 0.0f64.to_bits(),
            x2: 0.58f64.to_bits(),
            y2: 1.0f64.to_bits()
        }
    );
    assert_eq!(
        Interpolation::ease(),
        Interpolation::Bezier {
            x1: 0.25f64.to_bits(),
            y1: 0.1f64.to_bits(),
            x2: 0.25f64.to_bits(),
            y2: 1.0f64.to_bits()
        }
    );
}

#[test]
fn colour_constants_are_binary32_bits() {
    assert_eq!(CHANNEL_ZERO, 0.0f32.to_bits());
    assert_eq!(CHANNEL_ONE, 1.0f32.to_bits());
    assert_eq!(Rgba::white().r, 1.0f32.to_bits());
    assert_eq!(Rgba::black().a, 1.0f32.to_bits());
}

#[test]
fn value_copies_are_equal() {
    let v = Value::Text("abc".to_string());
    assert_eq!(v.duplicate(), v);
    let p = Value::Point([1.5f64.to_bits(), 2.5f64.to_bits()]);
    assert_eq!(p.clone(), p);
}


#[test]
fn placing_and_removing_keep_a_layer_valid() {
    let mut layer = layer_of(vec![sample_object("a", 0, 100)]);
    layer.objects.push(sample_object("b", 100, 120));
    assert!(layer.validate().is_ok());
    layer.objects.push(sample_object("c", 120, 130));
    assert!(layer.validate().is_ok());
    layer.objects.remove(1);
    assert!(layer.validate().is_ok());
    layer.objects.push(sample_object("d", 129, 140));
    assert!(layer.validate().is_err());
}
