use pool::media::{
    check_frame_len, choose_binary, choose_codec, first_existing, parse_rate, parse_u32, probe_args,
    summarize_streams, thumbnail_args, writer_args, FfmpegError, ProbeStream, WriterState,
};
use pool::text::chars_of;

fn strs(v: &[&str]) -> Vec<String> {
    v.iter().map(|s| s.to_string()).collect()
}

#[test]
fn rates_parse_or_fall_back() {
    assert_eq!(parse_rate("30000/1001"), (30000, 1001));
    assert_eq!(parse_rate("25/1"), (25, 1));
    assert_eq!(parse_rate("0/0"), (30, 1));
    assert_eq!(parse_rate("abc"), (30, 1));
    assert_eq!(parse_rate("24"), (30, 1));
    assert_eq!(parse_rate("+24/1"), (24, 1));
    assert_eq!(parse_rate("24/1/5"), (24, 1));
}

#[test]
fn unsigned_numbers_parse_like_std() {
    let v = chars_of("4294967295x4294967296");
    assert_eq!(parse_u32(&v, 0, 10), Some(u32::MAX));
    assert_eq!(parse_u32(&v, 11, 21), None);
    assert_eq!(parse_u32(&v, 0, 0), None);
}

#[test]
fn streams_are_summarised() {
    let streams = vec![
        ProbeStream { codec_type: Some("audio".to_string()), codec_name: Some("aac".to_string()), width: None, height: None, avg_frame_rate: None },
        ProbeStream {
            codec_type: Some("video".to_string()),
            codec_name: Some("h264".to_string()),
            width: Some(128),
            height: Some(72),
            avg_frame_rate: Some("30/1".to_string()),
        },
        ProbeStream { codec_type: Some("video".to_string()), codec_name: Some("png".to_string()), width: Some(1), height: Some(1), avg_frame_rate: None },
    ];
    let s = summarize_streams(&streams);
    assert_eq!((s.width, s.height, s.fps_num, s.fps_den), (128, 72, 30, 1));
    assert!(s.has_video && s.has_audio);
    assert_eq!(s.video_codec, "h264");
    let none = summarize_streams(&vec![]);
    assert_eq!((none.width, none.height, none.fps_num, none.fps_den), (0, 0, 30, 1));
    assert!(!none.has_video && !none.has_audio);
    assert_eq!(none.video_codec, "");
}

#[test]
fn codec_pick_reports_name() {
    let (name, extra) = choose_codec(" V....D libx264  H.264 / AVC\n V....D mpeg4 MPEG-4 part 2\n");
    assert_eq!(name, "libx264");
    assert_eq!(extra, strs(&["-pix_fmt", "yuv420p", "-crf", "20", "-preset", "veryfast", "-movflags", "+faststart"]));
    let (name, extra) = choose_codec(" V....D mpeg4 MPEG-4 part 2\n");
    assert_eq!(name, "mpeg4");
    assert_eq!(extra, strs(&["-pix_fmt", "yuv420p", "-q:v", "3"]));
    assert_eq!(choose_codec("xlibx264y").0, "mpeg4");
}

#[test]
fn frame_length_is_checked() {
    assert_eq!(check_frame_len(64 * 48 * 4, 64, 48), Ok(()));
    assert_eq!(check_frame_len(5, 64, 48), Err(FfmpegError::Write("bad frame size 5".to_string())));
}

#[test]
fn tools_are_located_in_order() {
    let c = vec![("/env/ffmpeg".to_string(), false), ("/usr/bin/ffmpeg".to_string(), true), ("/b/ffmpeg".to_string(), true)];
    assert_eq!(choose_binary("FFMPEG_PATH", &c), Ok("/usr/bin/ffmpeg".to_string()));
    assert_eq!(first_existing(&c), Some("/usr/bin/ffmpeg".to_string()));
    let none = vec![("/x".to_string(), false)];
    assert_eq!(choose_binary("FFMPEG_PATH", &none), Err(FfmpegError::NotFound("ffmpeg")));
    assert_eq!(choose_binary("FFPROBE_PATH", &none), Err(FfmpegError::NotFound("ffprobe")));
    assert_eq!(first_existing(&none), None);
}

#[test]
fn command_lines() {
    assert_eq!(
        probe_args("a.mp4"),
        strs(&["-v", "error", "-print_format", "json", "-show_format", "-show_streams", "a.mp4"])
    );
    assert_eq!(
        writer_args(64, 48, "30", "mpeg4", &strs(&["-q:v", "3"]), "out.mp4"),
        strs(&["-y", "-f", "rawvideo", "-pix_fmt", "rgba", "-s", "64x48", "-framerate", "30", "-i", "-", "-c:v", "mpeg4", "-q:v", "3", "out.mp4"])
    );
    assert_eq!(
        thumbnail_args("src.mp4", 160, "thumb.png"),
        strs(&["-y", "-v", "error", "-i", "src.mp4", "-frames:v", "1", "-vf", "scale=160:-1", "thumb.png"])
    );
}

#[test]
fn ffmpeg_error_messages() {
    assert_eq!(FfmpegError::NotFound("ffmpeg").message(), "ffmpeg not found (set FFMPEG_PATH/FFPROBE_PATH or PATH)");
    assert_eq!(FfmpegError::Probe("p".to_string()).message(), "probe failed: p");
    assert_eq!(FfmpegError::Spawn("s".to_string()).message(), "spawn failed: s");
    assert_eq!(FfmpegError::Write("w".to_string()).message(), "frame write failed: w");
    assert_eq!(FfmpegError::Finish("f".to_string()).message(), "ffmpeg exited badly: f");
    assert_eq!(FfmpegError::Io("i".to_string()).message(), "io error: i");
}

#[test]
fn writer_counts_only_frames_that_were_written() {
    let mut w = WriterState::new(2, 2);
    assert_eq!(w.size(), (2, 2));
    assert_eq!(w.check_frame(16), Ok(()));
    assert_eq!(w.check_frame(15), Err(FfmpegError::Write("bad frame size 15".to_string())));
    assert_eq!(w.frame_sent(Ok(())), Ok(()));
    assert_eq!(w.frame_sent(Err("broken pipe".to_string())), Err(FfmpegError::Write("broken pipe".to_string())));
    assert_eq!(w.frames_written(), 1);
}
