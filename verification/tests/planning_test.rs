use humancut::config::Config;
use humancut::exporter::{export_prefix, VideoExporter};
use humancut::process::{
    is_model_file_extension, is_video_extension, model_file_name, model_url, ModelError,
};
use humancut::reader::{frame_size, FrameSampler};
use humancut::segment::Segment;

#[test]
fn exporter_keeps_its_directory() {
    let e = VideoExporter::new("./out".to_string());
    assert_eq!(e.output_dir(), "./out");
}

#[test]
fn export_arguments_cut_the_segment() {
    let s = Segment::new(1_500_000, 4_250_400, 1);
    let args = VideoExporter::export_segment_args("in.mp4", &s, "out/clip.mp4");
    assert_eq!(
        args,
        vec![
            "-ss", "1.500", "-i", "in.mp4", "-to", "2.750", "-c", "copy", "-avoid_negative_ts",
            "make_zero", "-reset_timestamps", "1", "-y", "out/clip.mp4",
        ]
    );
}

#[test]
fn export_arguments_round_to_milliseconds() {
    let s = Segment::new(62_000_499, 62_000_500, 1);
    let args = VideoExporter::export_segment_args("a", &s, "b");
    assert_eq!(args[1], "62.000");
    assert_eq!(args[5], "0.000");
    let s = Segment::new(999_500, 0, 1);
    let args = VideoExporter::export_segment_args("a", &s, "b");
    assert_eq!(args[1], "1.000");
    assert_eq!(args[5], "-1.000");
}

#[test]
fn clip_names_are_numbered_from_one() {
    let prefix = export_prefix("holiday");
    assert_eq!(prefix, "human_holiday");
    assert_eq!(VideoExporter::clip_name(&prefix, 0), "human_holiday_0001.mp4");
    assert_eq!(VideoExporter::clip_name(&prefix, 41), "human_holiday_0042.mp4");
    assert_eq!(VideoExporter::clip_name(&prefix, 12344), "human_holiday_12345.mp4");
    let names = VideoExporter::batch_clip_names("p", 3);
    assert_eq!(names, vec!["p_0001.mp4", "p_0002.mp4", "p_0003.mp4"]);
}

#[test]
fn model_names_and_addresses() {
    assert_eq!(model_file_name("nano"), "yolov8n.onnx");
    assert_eq!(model_file_name("medium"), "yolov8m.onnx");
    assert_eq!(
        model_url("small"),
        Ok("https://github.com/ultralytics/assets/releases/download/v8.4.0/yolov8s.onnx")
    );
    assert_eq!(
        model_url("nano"),
        Ok("https://github.com/ultralytics/assets/releases/download/v8.4.0/yolov8n.onnx")
    );
    assert_eq!(model_url("large"), Err(ModelError::UnknownModelType));
    assert_eq!(model_url(""), Err(ModelError::UnknownModelType));
}

#[test]
fn file_extensions() {
    assert!(is_video_extension("mp4"));
    assert!(is_video_extension("mov"));
    assert!(!is_video_extension("MP4"));
    assert!(!is_video_extension("txt"));
    assert!(is_model_file_extension("onnx"));
    assert!(!is_model_file_extension("onnx2"));
}

#[test]
fn sampler_examines_every_nth_frame() {
    let mut s = FrameSampler::new(3);
    let picks: Vec<(usize, bool)> = (0..7).map(|_| s.next_frame()).collect();
    assert_eq!(
        picks,
        vec![(0, false), (1, false), (2, true), (3, false), (4, false), (5, true), (6, false)]
    );
    let mut every = FrameSampler::new(0);
    assert_eq!(every.next_frame(), (0, true));
    assert_eq!(every.next_frame(), (1, true));
}

#[test]
fn frame_size_counts_rgb_bytes() {
    assert_eq!(frame_size(1920, 1080), 6_220_800);
    assert_eq!(frame_size(0, 1080), 0);
}

#[test]
fn config_defaults_and_overrides() {
    let c = Config::default();
    assert_eq!(c.yolo_confidence, 350_000);
    assert_eq!(c.min_segment_duration, 2_000_000);
    assert_eq!(c.merge_gap_seconds, 3_000_000);
    assert_eq!(c.sample_rate_frames, 5);
    assert_eq!(c.output_dir, "./output");

    let mut c = Config::default();
    c.apply_overrides(1_000_000, 5_000_000, "./o".to_string(), None, Some(0));
    assert_eq!(c.min_segment_duration, 1_000_000);
    assert_eq!(c.merge_gap_seconds, 5_000_000);
    assert_eq!(c.output_dir, "./o");
    assert_eq!(c.yolo_confidence, 350_000);
    assert_eq!(c.sample_rate_frames, 1);
    c.apply_overrides(1, 2, "x".to_string(), Some(500_000), Some(10));
    assert_eq!(c.yolo_confidence, 500_000);
    assert_eq!(c.sample_rate_frames, 10);

    let d = Config::demo("./demo".to_string());
    assert_eq!(d.output_dir, "./demo");
    assert_eq!(d.yolo_confidence, 350_000);
    assert_eq!(d.sample_rate_frames, 5);
}
