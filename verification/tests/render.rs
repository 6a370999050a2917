use pool::keyframes::LoopTable;
use pool::model::{ObjectKind, Param, Rgba, TimelineObject, Value};
use pool::render::{
    choose_font_faces, color_param, encode_png, font_face, font_index, is_collection_extension, is_font_extension, padded_row_bytes, straight_alpha_rows, take_frame, FrameCache,
    RenderError, TextBitmap, CACHE_FRAMES,
};

#[test]
fn rows_are_padded_to_256_bytes() {
    assert_eq!(padded_row_bytes(1), 256);
    assert_eq!(padded_row_bytes(64), 256);
    assert_eq!(padded_row_bytes(65), 512);
    assert_eq!(padded_row_bytes(320), 1280);
}

#[test]
fn readback_unpads_and_unpremultiplies() {
    let stride = 12u32;
    let mut data = vec![0u8; 24];
    data[0..4].copy_from_slice(&[100, 50, 0, 255]);
    data[4..8].copy_from_slice(&[64, 32, 0, 128]);
    data[8..12].copy_from_slice(&[9, 9, 9, 9]);
    data[12..16].copy_from_slice(&[10, 20, 30, 0]);
    data[16..20].copy_from_slice(&[200, 0, 0, 200]);
    let out = straight_alpha_rows(&data, 2, 2, stride);
    assert_eq!(out.len(), 16);
    assert_eq!(&out[0..4], &[100, 50, 0, 255]);
    assert_eq!(&out[4..8], &[128, 64, 0, 128]);
    assert_eq!(&out[8..12], &[0, 0, 0, 0]);
    assert_eq!(&out[12..16], &[255, 0, 0, 200]);
}

#[test]
fn png_output_is_valid() {
    let rgba = vec![255u8; 4 * 4 * 4];
    let png = encode_png(&rgba, 4, 4).unwrap();
    assert_eq!(&png[0..8], &[137, 80, 78, 71, 13, 10, 26, 10]);
    assert!(png.len() > rgba.len() / 8);
    let decoded = image::load_from_memory(&png).unwrap().to_rgba8();
    assert_eq!((decoded.width(), decoded.height()), (4, 4));
    assert_eq!(decoded.get_pixel(2, 3).0, [255, 255, 255, 255]);
    let one = encode_png(&vec![0u8, 0, 0, 0], 0, 0).unwrap();
    assert_eq!(&one[1..4], b"PNG");
}

#[test]
fn colour_parameters_fall_back() {
    let red = Rgba { r: 1.0f32.to_bits(), g: 0, b: 0, a: 1.0f32.to_bits() };
    let o = TimelineObject {
        id: "o".to_string(),
        name: "o".to_string(),
        kind: ObjectKind::Shape { shape: pool::model::ShapeKind::Ellipse },
        start_frame: 0,
        end_frame: 10,
        params: vec![
            Param { name: "fill".to_string(), value: Value::Color(red) },
            Param { name: "size".to_string(), value: Value::Number(3.0f64.to_bits()) },
        ],
        keyframes: vec![],
        loops: LoopTable::new(),
    };
    assert_eq!(color_param(&o, "fill", Rgba::white()), red);
    assert_eq!(color_param(&o, "size", Rgba::white()), Rgba::white());
    assert_eq!(color_param(&o, "none", Rgba::black()), Rgba::black());
}

#[test]
fn text_bitmap_coverage() {
    let mut b = TextBitmap::blank(3, 2);
    assert_eq!(b.rgba, vec![0u8; 24]);
    b.cover(1, 1, 100);
    assert_eq!(&b.rgba[16..20], &[255, 255, 255, 100]);
    b.cover(1, 1, 50);
    assert_eq!(b.rgba[19], 100);
    b.cover(9, 9, 200);
    assert_eq!(&b.rgba[20..24], &[255, 255, 255, 200]);
}

#[test]
fn font_files_by_extension() {
    assert!(is_font_extension("ttf") && is_font_extension("OTF") && is_font_extension("Ttc"));
    assert!(!is_font_extension("woff") && !is_font_extension(""));
}

#[test]
fn frame_cache_evicts_least_recently_used() {
    let mut c = FrameCache::new();
    for f in 0..CACHE_FRAMES as i64 {
        c.store(f, vec![f as u8]);
    }
    assert!(c.contains(0) && c.contains(7));
    assert_eq!(c.get(3), Some(&vec![3u8]));
    c.touch(0);
    c.store(100, vec![1, 2]);
    assert!(c.contains(0));
    assert!(!c.contains(1));
    assert_eq!(c.get(100), Some(&vec![1u8, 2]));
    c.store(101, vec![]);
    assert!(!c.contains(2));
    assert!(c.contains(0) && c.contains(3) && c.contains(101));
    c.touch(55);
    assert_eq!(c.get(5), Some(&vec![5u8]));
}

#[test]
fn decoded_frames_are_cut_to_size() {
    let out = vec![7u8; 20];
    assert_eq!(take_frame(&out, 2, 2), Ok(vec![7u8; 16]));
    assert_eq!(take_frame(&out, 3, 2), Err("short frame: 20 < 24".to_string()));
}

#[test]
fn render_error_messages() {
    assert_eq!(RenderError::NoAdapter.message(), "no usable GPU adapter (tried Vulkan, GL)");
    assert_eq!(RenderError::Png("x".to_string()).message(), "png encode error: x");
    assert_eq!(RenderError::Device("x".to_string()).message(), "device error: x");
    assert_eq!(RenderError::Readback("x".to_string()).message(), "readback error: x");
}

#[test]
fn missing_glyph_falls_back_to_first_font() {
    assert_eq!(font_index(&vec![0, 0, 7, 9]), 2);
    assert_eq!(font_index(&vec![0, 0]), 0);
    assert_eq!(font_index(&vec![5, 3]), 0);
    assert_eq!(font_index(&vec![]), 0);
}

#[test]
fn requests_keep_the_eight_most_recent_frames() {
    let mut c = FrameCache::new();
    let requests = [1i64, 2, 3, 1, 4, 5, 6, 7, 8, 9, 2, 1, 10];
    let mut decoded = 0;
    for &f in &requests {
        if !c.lookup(f) {
            decoded += 1;
            c.store(f, vec![f as u8]);
        }
    }
    assert_eq!(decoded, 11);
    for f in [1i64, 2, 5, 6, 7, 8, 9, 10] {
        assert!(c.contains(f), "frame {f} should be cached");
    }
    for f in [3i64, 4] {
        assert!(!c.contains(f));
    }
}

#[test]
fn font_stack_skips_files_that_do_not_parse() {
    assert_eq!(font_face(false, &[0u8; 64]), None);
    assert_eq!(font_face(false, &[0u8; 256]), None);
    assert_eq!(font_face(true, &[0u8; 256]), None);
    let cands = vec![(false, vec![0u8; 10]), (true, vec![1u8; 300]), (false, vec![7u8; 500])];
    assert_eq!(choose_font_faces(&cands), vec![]);
    assert!(is_collection_extension("TTC") && is_collection_extension("ttc"));
    assert!(!is_collection_extension("ttf"));
}
