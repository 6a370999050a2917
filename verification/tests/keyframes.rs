use pool::keyframes::{Evaluation, LoopTable};
use pool::model::{Interpolation, Keyframe, LoopMode, ObjectKind, Param, TimelineObject, Value};

fn num(x: f64) -> Value {
    Value::Number(x.to_bits())
}

fn keyed_object() -> TimelineObject {
    TimelineObject {
        id: "k".to_string(),
        name: "k".to_string(),
        kind: ObjectKind::Text { body: "x".to_string() },
        start_frame: 0,
        end_frame: 100,
        params: vec![],
        keyframes: vec![
            Keyframe { param: "x".to_string(), frame: 0, value: num(0.0), interpolation: Interpolation::Linear },
            Keyframe { param: "x".to_string(), frame: 10, value: num(10.0), interpolation: Interpolation::Linear },
        ],
        loops: LoopTable::new(),
    }
}

/// The eased progress of a time-normalised cubic Bézier at `t`.
fn cubic_bezier(t: f64, x1: f64, y1: f64, x2: f64, y2: f64) -> f64 {
    let t = t.clamp(0.0, 1.0);
    let (mut lo, mut hi) = (0.0, 1.0);
    let mut s = t;
    for _ in 0..12 {
        s = (lo + hi) / 2.0;
        let x = 3.0 * (1.0 - s).powi(2) * s * x1 + 3.0 * (1.0 - s) * s * s * x2 + s * s * s;
        if x < t {
            lo = s;
        } else {
            hi = s;
        }
    }
    let y = 3.0 * (1.0 - s).powi(2) * s * y1 + 3.0 * (1.0 - s) * s * s * y2 + s * s * s;
    y.clamp(0.0, 1.0)
}

/// The number an evaluation gives for the curves whose easing is a plain
/// polynomial, with `def` where the parameter has no value.
fn number_of(e: &Evaluation, def: f64) -> f64 {
    match e {
        Evaluation::Default => def,
        Evaluation::Fixed(Value::Number(b)) => f64::from_bits(*b),
        Evaluation::Blend { from: Value::Number(a), to: Value::Number(b), interpolation, elapsed, span } => {
            let t = *elapsed as f64 / *span as f64;
            let k = match interpolation {
                Interpolation::Linear => t,
                Interpolation::Smooth => t * t * (3.0 - 2.0 * t),
                Interpolation::Bezier { x1, y1, x2, y2 } => cubic_bezier(
                    t,
                    f64::from_bits(*x1),
                    f64::from_bits(*y1),
                    f64::from_bits(*x2),
                    f64::from_bits(*y2),
                ),
                other => panic!("curve {other:?} does not blend"),
            };
            let (a, b) = (f64::from_bits(*a), f64::from_bits(*b));
            a + (b - a) * k
        },
        other => panic!("not a number: {other:?}"),
    }
}

fn blend(from: f64, to: f64, interpolation: Interpolation, elapsed: i64, span: i64) -> Evaluation {
    Evaluation::Blend { from: num(from), to: num(to), interpolation, elapsed, span }
}

#[test]
fn eval_linear_midpoint() {
    let o = keyed_object();
    assert_eq!(o.evaluate("x", 5), blend(0.0, 10.0, Interpolation::Linear, 5, 10));
    assert!((number_of(&o.evaluate("x", 5), -1.0) - 5.0).abs() < 1e-9);
    assert!((number_of(&o.evaluate("x", 0), -1.0) - 0.0).abs() < 1e-9);
    assert!((number_of(&o.evaluate("x", 10), -1.0) - 10.0).abs() < 1e-9);
}

#[test]
fn eval_clamps_without_loop() {
    let o = keyed_object();
    assert!((number_of(&o.evaluate("x", -5), -1.0) - 0.0).abs() < 1e-9);
    assert!((number_of(&o.evaluate("x", 99), -1.0) - 10.0).abs() < 1e-9);
    assert_eq!(o.evaluate("x", 99), Evaluation::Fixed(num(10.0)));
}

#[test]
fn eval_loop_wraps() {
    let mut o = keyed_object();
    o.loops.insert("x".to_string(), LoopMode::Loop);
    assert!((number_of(&o.evaluate("x", 25), -1.0) - 5.0).abs() < 1e-9);
}

#[test]
fn eval_pingpong_mirrors() {
    let mut o = keyed_object();
    o.loops.insert("x".to_string(), LoopMode::PingPong);
    assert!((number_of(&o.evaluate("x", 15), -1.0) - 5.0).abs() < 1e-9);
}

#[test]
fn eval_bezier_identity_matches_linear() {
    let mut o = keyed_object();
    let identity = Interpolation::Bezier {
        x1: 0.0f64.to_bits(),
        y1: 0.0f64.to_bits(),
        x2: 1.0f64.to_bits(),
        y2: 1.0f64.to_bits(),
    };
    o.keyframes[0].interpolation = identity;
    assert_eq!(o.evaluate("x", 3), blend(0.0, 10.0, identity, 3, 10));
    assert!((number_of(&o.evaluate("x", 3), -1.0) - 3.0).abs() < 0.05);
}

#[test]
fn eval_smooth_midpoint_is_half() {
    let mut o = keyed_object();
    o.keyframes[0].interpolation = Interpolation::Smooth;
    assert!((number_of(&o.evaluate("x", 5), -1.0) - 5.0).abs() < 1e-9);
}

#[test]
fn eval_hold_keeps_start() {
    let mut o = keyed_object();
    o.keyframes[0].interpolation = Interpolation::Hold;
    assert_eq!(o.evaluate("x", 5), Evaluation::Fixed(num(0.0)));
    assert!((number_of(&o.evaluate("x", 5), -1.0) - 0.0).abs() < 1e-9);
}

#[test]
fn eval_missing_param_returns_default() {
    let o = keyed_object();
    assert_eq!(o.evaluate("nope", 5), Evaluation::Default);
    assert!((number_of(&o.evaluate("nope", 5), 42.0) - 42.0).abs() < 1e-9);
}

#[test]
fn eval_prefers_base_param_without_keys() {
    let mut o = keyed_object();
    o.keyframes.clear();
    o.params.push(Param { name: "x".to_string(), value: num(3.0) });
    assert!((number_of(&o.evaluate("x", 5), 42.0) - 3.0).abs() < 1e-9);
}

#[test]
fn keys_are_sorted_by_frame_and_filtered_by_param() {
    let mut o = keyed_object();
    o.keyframes.insert(0, Keyframe { param: "y".to_string(), frame: 3, value: num(1.0), interpolation: Interpolation::Hold });
    o.keyframes.push(Keyframe { param: "x".to_string(), frame: 5, value: num(7.0), interpolation: Interpolation::Linear });
    let ks = o.keyframes_for("x");
    let frames: Vec<i64> = ks.iter().map(|k| k.frame).collect();
    assert_eq!(frames, vec![0, 5, 10]);
    assert!(o.has_keys("y") && !o.has_keys("z"));
}

#[test]
fn equal_frames_keep_their_stored_order() {
    let mut o = keyed_object();
    o.keyframes.push(Keyframe { param: "x".to_string(), frame: 0, value: num(4.0), interpolation: Interpolation::Hold });
    let ks = o.keyframes_for("x");
    assert_eq!(ks[0].value, num(0.0));
    assert_eq!(ks[1].value, num(4.0));
    assert_eq!(ks[2].value, num(10.0));
}

#[test]
fn frame_mapping_by_loop_mode() {
    let mut o = keyed_object();
    assert_eq!(o.map_frame("x", -3, 0, 10), 0);
    assert_eq!(o.map_frame("x", 13, 0, 10), 10);
    o.loops.insert("x".to_string(), LoopMode::Loop);
    assert_eq!(o.map_frame("x", 23, 0, 10), 3);
    assert_eq!(o.map_frame("x", -3, 0, 10), 7);
    o.loops.insert("x".to_string(), LoopMode::PingPong);
    assert_eq!(o.map_frame("x", 13, 0, 10), 7);
    assert_eq!(o.map_frame("x", 20, 0, 10), 0);
    assert_eq!(o.map_frame("x", 4, 4, 4), 4);
}

#[test]
fn looping_repeats_every_period() {
    let mut o = keyed_object();
    o.loops.insert("x".to_string(), LoopMode::Loop);
    for f in 0..10 {
        assert_eq!(o.evaluate("x", f + 10), o.evaluate("x", f));
    }
}

#[test]
fn ping_pong_mirrors_around_the_last_key() {
    let mut o = keyed_object();
    o.loops.insert("x".to_string(), LoopMode::PingPong);
    for d in 0..10 {
        assert_eq!(o.evaluate("x", 10 + d), o.evaluate("x", 10 - d));
    }
}

#[test]
fn loop_table_reads_back_the_last_mode() {
    let mut t = LoopTable::new();
    assert_eq!(t.get("x"), None);
    assert_eq!(t.insert("x".to_string(), LoopMode::Loop), None);
    assert_eq!(t.insert("y".to_string(), LoopMode::PingPong), None);
    assert_eq!(t.insert("x".to_string(), LoopMode::Off), Some(LoopMode::Loop));
    assert_eq!(t.get("x"), Some(LoopMode::Off));
    assert_eq!(t.get("y"), Some(LoopMode::PingPong));
    assert_eq!(LoopTable::default().get("y"), None);
}

#[test]
fn parameter_lookup_takes_the_first_match() {
    let mut o = keyed_object();
    o.params.push(Param { name: "a".to_string(), value: Value::Integer(1) });
    o.params.push(Param { name: "a".to_string(), value: Value::Integer(2) });
    assert_eq!(o.param("a"), Some(&Value::Integer(1)));
    assert_eq!(o.param("b"), None);
    assert_eq!(o.loop_mode("x"), LoopMode::Off);
}

#[test]
fn loop_tables_compare_as_maps() {
    let mut a = LoopTable::new();
    a.insert("x".to_string(), LoopMode::Loop);
    a.insert("y".to_string(), LoopMode::PingPong);
    let mut b = LoopTable::new();
    b.insert("y".to_string(), LoopMode::PingPong);
    b.insert("x".to_string(), LoopMode::Off);
    assert!(a != b);
    b.insert("x".to_string(), LoopMode::Loop);
    assert!(a == b);
    assert!(a.clone() == a);
    b.insert("z".to_string(), LoopMode::Off);
    assert!(a != b);
    let modes = a.modes();
    assert_eq!(modes, vec![("x".to_string(), LoopMode::Loop), ("y".to_string(), LoopMode::PingPong)]);
}
