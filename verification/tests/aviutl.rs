use pool::aviutl::{decode_bytes, lowercase, parse_bytes, parse_text, ScriptKind};
use pool::model::{ObjectKind, Project, Value};

const SAMPLE: &str = "@振動
--track0:X移動,-200,200,0
--track1:Y移動,-100,100,0,1
--check0:ランダム,0
--dialog:周期,10
--color:基準色,0xffffff
--script:luaJIT
obj.ox = obj.ox + math.random(-obj.track0, obj.track0)
obj.oy = obj.oy + math.random(-obj.track1, obj.track1)
@回転
--file:mask.png
obj.rz = obj.time * 90
";

const SJIS_SAMPLE: &str = "--track0:大きさ,0,200,100
--check0:有効,1
obj.zoom = obj.track0 / 100
";

#[test]
fn utf8_multi_effect() {
    let s = parse_bytes(SAMPLE.as_bytes(), "anm2", "sample");
    assert_eq!(s.kind, ScriptKind::Anim);
    assert_eq!(s.effects.len(), 2);
    let v = &s.effects[0];
    assert_eq!(v.name, "振動");
    assert_eq!(v.tracks.len(), 2);
    assert_eq!(v.tracks[0].name, "X移動");
    assert_eq!(
        (v.tracks[0].min.as_deref(), v.tracks[0].max.as_deref(), v.tracks[0].def.as_deref()),
        (Some("-200"), Some("200"), Some("0"))
    );
    assert_eq!(v.tracks[1].step.as_deref(), Some("1"));
    assert_eq!(v.checks[0].name, "ランダム");
    assert!(!v.checks[0].def);
    assert_eq!(v.dialogs[0].text, "周期");
    assert_eq!(v.dialogs[0].def, "10");
    assert_eq!(v.colors[0].name, "基準色");
    assert_eq!(v.script_lang.as_deref(), Some("luaJIT"));
    assert!(v.body.contains("obj.ox"));
    let r = &s.effects[1];
    assert_eq!(r.name, "回転");
    assert_eq!(r.files, vec!["mask.png".to_string()]);
}

#[test]
fn sjis_single_effect() {
    let (bytes, _, unmappable) = encoding_rs::SHIFT_JIS.encode(SJIS_SAMPLE);
    assert!(!unmappable);
    assert!(std::str::from_utf8(&bytes).is_err());
    let s = parse_bytes(&bytes, "anm", "sample_sjis");
    assert_eq!(s.kind, ScriptKind::Anim);
    assert_eq!(s.effects.len(), 1);
    let e = &s.effects[0];
    assert_eq!(e.name, "sample_sjis");
    assert_eq!(e.tracks[0].name, "大きさ");
    assert_eq!(
        (e.tracks[0].min.as_deref(), e.tracks[0].max.as_deref(), e.tracks[0].def.as_deref()),
        (Some("0"), Some("200"), Some("100"))
    );
    assert!(e.checks[0].def);
    assert!(e.body.contains("obj.zoom"));
}

#[test]
fn to_pool_filter_preserves_definition() {
    let s = parse_bytes(SAMPLE.as_bytes(), "anm2", "sample");
    let fx = &s.effects[0];
    let defaults: Vec<u64> = vec![0.0f64.to_bits(), 0.0f64.to_bits()];
    let o = fx.to_pool_filter("imp-1", 0, 90, &defaults);
    assert_eq!((o.start_frame, o.end_frame), (0, 90));
    let get = |n: &str| {
        o.params
            .iter()
            .find(|p| p.name == n)
            .unwrap_or_else(|| panic!("missing {n}"))
            .value
            .clone()
    };
    assert!(matches!(get("track0"), Value::Number(_)));
    assert!(matches!(get("check0"), Value::Boolean(false)));
    assert!(matches!(get("script_body"), Value::Text(_)));
    assert_eq!(get("dialog0"), Value::Text("10".to_string()));
    assert_eq!(get("color0"), Value::Text("基準色=0xffffff".to_string()));
    assert!(matches!(&o.kind, ObjectKind::Filter { effect } if effect == "lua-script"));
    assert_eq!(get("slider_name0"), Value::Text("X移動".to_string()));
    assert_eq!(get("slider_min0"), Value::Text("-200".to_string()));
    assert_eq!(get("slider_step1"), Value::Text("1".to_string()));
    assert!(o.params.iter().all(|p| p.name != "slider_step0"));
    assert_eq!(get("check_name0"), Value::Text("ランダム".to_string()));
    assert_eq!(get("dialog_text0"), Value::Text("周期".to_string()));
    assert_eq!(get("dialog_default0"), Value::Text("10".to_string()));
    assert_eq!(get("color_name0"), Value::Text("基準色".to_string()));
    assert_eq!(get("script_lang"), Value::Text("luaJIT".to_string()));
    let mut p = Project::new("t");
    p.scenes[0].layers[0].objects.push(o);
    assert!(p.validate().is_ok());
}

#[test]
fn extensions_ignore_case_and_dot() {
    assert_eq!(ScriptKind::from_extension("ANM"), ScriptKind::Anim);
    assert_eq!(ScriptKind::from_extension(".obj2"), ScriptKind::Obj);
    assert_eq!(ScriptKind::from_extension("..Cam"), ScriptKind::Cam);
    assert_eq!(ScriptKind::from_extension("scn2"), ScriptKind::Scn);
    assert_eq!(ScriptKind::from_extension("tra"), ScriptKind::Tra);
    assert_eq!(ScriptKind::from_extension("lua"), ScriptKind::Unknown);
    assert_eq!(lowercase("AbC"), "abc");
}

#[test]
fn headers_stop_at_the_first_body_line() {
    let s = parse_text("--track1:b,0,1\n--track0:a,0,1\n--mystery:x\n--nocolon\nbody\n--check0:late,1\n", "obj", "fx");
    let e = &s.effects[0];
    assert_eq!(s.kind, ScriptKind::Obj);
    let names: Vec<&str> = e.tracks.iter().map(|t| t.name.as_str()).collect();
    assert_eq!(names, vec!["a", "b"]);
    assert!(e.checks.is_empty());
    assert_eq!(e.raw_headers, vec!["--mystery:x".to_string(), "--nocolon".to_string()]);
    assert_eq!(e.body, "body\n--check0:late,1");
}

#[test]
fn bom_is_dropped_from_utf8() {
    let mut bytes = vec![0xEF, 0xBB, 0xBF];
    bytes.extend_from_slice("@x\nbody".as_bytes());
    assert_eq!(decode_bytes(&bytes), "@x\nbody");
    let s = parse_bytes(&bytes, "anm", "f");
    assert_eq!(s.effects[0].name, "x");
}

#[test]
fn shift_jis_bytes_decode() {
    let bytes = [0x82u8, 0xA0, 0x82, 0xA2];
    assert_eq!(decode_bytes(&bytes), "あい");
}

#[test]
fn empty_text_is_one_effect_named_after_the_file() {
    let s = parse_text("", "anm", "f");
    assert_eq!(s.effects.len(), 1);
    assert_eq!(s.effects[0].name, "f");
    assert_eq!(s.effects[0].body, "");
    assert!(s.effects[0].tracks.is_empty());
}

#[test]
fn filter_keeps_params_anchors_and_unread_headers() {
    let s = parse_text("--param:a=1\n--anchor:pos,2\n--odd:x\nbody", "anm", "fx");
    let o = s.effects[0].to_pool_filter("f", 0, 1, &vec![]);
    let names: Vec<&str> = o.params.iter().map(|p| p.name.as_str()).collect();
    assert_eq!(names, vec!["script_name", "script_body", "param0", "anchor0", "header0"]);
    assert_eq!(o.params[2].value, Value::Text("a=1".to_string()));
    assert_eq!(o.params[3].value, Value::Text("pos,2".to_string()));
    assert_eq!(o.params[4].value, Value::Text("--odd:x".to_string()));
}
