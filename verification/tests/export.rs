use pool::export::{export_format, export_frame_count, export_size, frame_file_name, preview_size, ExportFormat};
use pool::keyframes::LoopTable;
use pool::model::{ObjectKind, Project, TimelineObject};

#[test]
fn sizes_are_clamped() {
    assert_eq!(preview_size(0, 10_000), (16, 540));
    assert_eq!(preview_size(320, 180), (320, 180));
    assert_eq!(export_size(4000, 1), (1280, 16));
    assert_eq!(export_size(1920, 1080), (1280, 1080));
    assert_eq!(export_size(1280, 720), (1280, 720));
}

#[test]
fn export_writes_at_least_one_frame() {
    let mut p = Project::new("e");
    assert_eq!(export_frame_count(&p.scenes[0]), 1);
    p.scenes[0].layers[0].objects.push(TimelineObject {
        id: "o".to_string(),
        name: "o".to_string(),
        kind: ObjectKind::Text { body: "t".to_string() },
        start_frame: 10,
        end_frame: 90,
        params: vec![],
        keyframes: vec![],
        loops: LoopTable::new(),
    });
    assert_eq!(export_frame_count(&p.scenes[0]), 90);
}

#[test]
fn formats_by_name() {
    assert_eq!(export_format("pngseq"), ExportFormat::PngSequence);
    assert_eq!(export_format("mp4"), ExportFormat::Mp4);
    assert_eq!(export_format("PNGSEQ"), ExportFormat::Mp4);
}

#[test]
fn frame_files_have_six_digits() {
    assert_eq!(frame_file_name(0), "frame_000000.png");
    assert_eq!(frame_file_name(42), "frame_000042.png");
    assert_eq!(frame_file_name(1234567), "frame_1234567.png");
}

#[test]
fn distinct_frames_get_distinct_files() {
    let names: Vec<String> = (0..2000u64).map(frame_file_name).collect();
    let mut sorted = names.clone();
    sorted.sort();
    sorted.dedup();
    assert_eq!(sorted.len(), names.len());
    assert_ne!(frame_file_name(1), frame_file_name(10));
}
