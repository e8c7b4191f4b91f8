use humancut::config::Config;
use humancut::detection::{
    calculate_iou, detect_humans, iou_is_below, postprocess_outputs, BoundingBox, Detection,
    NMS_THRESHOLD,
};
use humancut::exporter::VideoExporter;
use humancut::process::{
    analyze_video, model_step, process_detections, should_export, ModelError, ModelStep,
};
use humancut::reader::{probe_video, ProbeError};
use humancut::segment::{detect_segments, Segment, SegmentBatch};

const PX: i64 = 1_000_000;

fn det(timestamp: i64, has_humans: bool, confidence: i64) -> Detection {
    Detection { timestamp, has_humans, confidence, bboxes: Vec::new() }
}

fn config_with(min: i64, gap: i64) -> Config {
    let mut c = Config::default();
    c.min_segment_duration = min;
    c.merge_gap_seconds = gap;
    c
}

#[test]
fn clip_times_round_exact_halves_to_even() {
    let s = Segment::new(62_500, 65_000, 1);
    let args = VideoExporter::export_segment_args("a", &s, "b");
    assert_eq!(args[1], "0.062");
    assert_eq!(args[5], "0.002");
    let s = Segment::new(3_500, 0, 1);
    let args = VideoExporter::export_segment_args("a", &s, "b");
    assert_eq!(args[1], "0.004");
    assert_eq!(args[5], "-0.004");
}

#[test]
fn summary_rounds_exact_halves_to_even() {
    let mut batch = SegmentBatch::new("t.mp4".to_string());
    batch.total_duration = 125_000;
    let mut s = Segment::new(0, 375_000, 125_000);
    s.frame_count = 1;
    batch.add_segment(s);
    batch.calculate_statistics();
    assert_eq!(batch.compression_ratio, 3_000_000);
    assert_eq!(
        batch.summary_lines(),
        vec![
            "=== Segment Analysis ===",
            "Input file: t.mp4",
            "Total duration: 0.12 seconds",
            "Human activity: 0.38 seconds",
            "Compression ratio: 300.00%",
            "Number of segments: 1",
            "",
            "  Segment 1: 0.00s - 0.38s (duration: 0.38s, confidence: 0.12)",
        ]
    );
}

#[test]
fn human_duration_is_held_at_the_ends_of_its_range() {
    let mut batch = SegmentBatch::new("x".to_string());
    batch.human_duration = i128::MAX - 5;
    batch.add_segment(Segment::new(0, 10, 1));
    assert_eq!(batch.human_duration, i128::MAX);
    batch.human_duration = i128::MIN + 5;
    batch.add_segment(Segment::new(10, 0, 1));
    assert_eq!(batch.human_duration, i128::MIN);
    assert_eq!(batch.segments.len(), 2);
}

#[test]
fn ratio_is_held_at_the_ends_of_its_range() {
    let mut batch = SegmentBatch::new("x".to_string());
    batch.total_duration = 1;
    batch.human_duration = i128::MAX;
    batch.calculate_statistics();
    assert_eq!(batch.compression_ratio, i128::MAX);
    batch.human_duration = i128::MIN;
    batch.calculate_statistics();
    assert_eq!(batch.compression_ratio, i128::MIN);
    batch.human_duration = -3;
    batch.total_duration = 2;
    batch.calculate_statistics();
    assert_eq!(batch.compression_ratio, -1_500_000);
}

#[test]
fn probe_takes_the_first_video_stream() {
    let json = br#"{"streams":[{"codec_type":"audio","duration":"9.0"},
        {"codec_type":"video","width":1280,"height":720,"r_frame_rate":"25/1","duration":"12.5"},
        {"codec_type":"video","width":640,"height":480}],
        "format":{"duration":"13.0"}}"#;
    let info = probe_video(json).unwrap();
    assert_eq!(info.frame_rate, "25/1");
    assert_eq!(info.width, 1280);
    assert_eq!(info.height, 720);
    assert_eq!(info.duration_texts, vec!["12.5".to_string(), "13.0".to_string()]);
}

#[test]
fn probe_fills_in_missing_fields() {
    let json = br#"{"streams":[{"codec_type":"video","width":"wide","height":5000000000}]}"#;
    let info = probe_video(json).unwrap();
    assert_eq!(info.frame_rate, "30/1");
    assert_eq!(info.width, 1920);
    assert_eq!(info.height, 5_000_000_000i64 as i32);
    assert!(info.duration_texts.is_empty());
}

#[test]
fn probe_errors() {
    let audio_only = br#"{"streams":[{"codec_type":"audio"}],"format":{"duration":"1.0"}}"#;
    assert_eq!(probe_video(audio_only).unwrap_err(), ProbeError::NoVideoStream);
    assert_eq!(probe_video(br#"{"format":{}}"#).unwrap_err(), ProbeError::NoVideoStream);
    assert_eq!(probe_video(br#"{"streams":[]}"#).unwrap_err(), ProbeError::NoVideoStream);
    assert_eq!(probe_video(b"not json").unwrap_err(), ProbeError::InvalidJson);
}

#[test]
fn analysis_stops_without_detections() {
    let config = config_with(0, 0);
    assert!(analyze_video("v".to_string(), &[], &config, 1_000_000).is_none());
    let dets = vec![det(0, true, 500_000), det(1_000_000, false, 0)];
    let batch = analyze_video("v".to_string(), &dets, &config, 2_000_000).unwrap();
    let direct = process_detections("v".to_string(), &dets, &config, 2_000_000);
    assert_eq!(batch.segments, direct.segments);
    assert_eq!(batch.segments.len(), 1);
    assert!(should_export(&batch));
    let quiet = vec![det(0, false, 0)];
    let batch = analyze_video("v".to_string(), &quiet, &config, 1_000_000).unwrap();
    assert!(!should_export(&batch));
}

#[test]
fn model_step_prefers_an_existing_file() {
    assert_eq!(model_step("nano", true), Ok(ModelStep::UseExisting));
    assert_eq!(model_step("huge", true), Ok(ModelStep::UseExisting));
    assert_eq!(
        model_step("medium", false),
        Ok(ModelStep::Download(
            "https://github.com/ultralytics/assets/releases/download/v8.4.0/yolov8m.onnx"
        ))
    );
    assert_eq!(model_step("huge", false), Err(ModelError::UnknownModelType));
}

#[test]
fn nms_threshold_is_forty_five_hundredths() {
    assert_eq!(NMS_THRESHOLD, 450_000);
}

#[test]
fn iou_of_huge_boxes() {
    let a = BoundingBox { x: -i64::MAX, y: -i64::MAX, width: i64::MAX, height: i64::MAX, confidence: 1 };
    let iou = calculate_iou(&a, &a);
    assert_eq!(iou.intersection, iou.union);
    assert!(iou.union > 0);
    assert!(!iou_is_below(&a, &a, NMS_THRESHOLD));
    let b = BoundingBox { x: i64::MAX - 10, y: 0, width: i64::MAX, height: 10, confidence: 1 };
    let iou = calculate_iou(&a, &b);
    assert_eq!(iou.intersection, 0);
    assert!(iou_is_below(&a, &b, NMS_THRESHOLD));
}

#[test]
fn iou_is_symmetric() {
    let a = BoundingBox { x: 0, y: 0, width: 10 * PX, height: 10 * PX, confidence: 1 };
    let b = BoundingBox { x: 5 * PX, y: 2 * PX, width: 10 * PX, height: 4 * PX, confidence: 2 };
    assert_eq!(calculate_iou(&a, &b), calculate_iou(&b, &a));
}

#[test]
fn postprocess_takes_far_away_boxes() {
    // a centre far to the right of the image: the box keeps its place and
    // its width is cut to the (negative) room left on the right
    let n = 1;
    let data = vec![1i64 << 40, 100 * PX, 50 * PX, 50 * PX, 900_000];
    let boxes = postprocess_outputs(&data, n, 640, 640, 350_000, NMS_THRESHOLD);
    assert_eq!(boxes.len(), 1);
    assert_eq!(boxes[0].x, 1_099_486_627_776);
    assert_eq!(boxes[0].y, 75 * PX);
    assert_eq!(boxes[0].width, 640 * PX - 1_099_486_627_776);
    assert_eq!(boxes[0].height, 50 * PX);
}

#[test]
fn postprocess_holds_values_in_range() {
    let data = vec![i64::MAX, 0, 0, 0, 900_000];
    let boxes = postprocess_outputs(&data, 1, i32::MAX, 640, 350_000, NMS_THRESHOLD);
    assert_eq!(boxes.len(), 1);
    assert_eq!(boxes[0].x, i64::MAX);
    assert_eq!(boxes[0].width, i64::MIN);
    assert_eq!(boxes[0].y, 0);
    assert_eq!(boxes[0].height, 0);
    let d = detect_humans(&data, 1, i32::MAX, 640, 350_000, NMS_THRESHOLD, 7);
    assert!(d.has_humans);
    assert_eq!(d.confidence, 900_000);
    assert_eq!(d.timestamp, 7);
}

#[test]
fn segments_from_increasing_times_are_strictly_apart() {
    let dets = vec![
        det(0, true, 1),
        det(1, true, 2),
        det(2, false, 0),
        det(3, true, 3),
        det(4, false, 0),
        det(5, true, 4),
    ];
    let segments = detect_segments(&dets, &config_with(0, 0));
    assert_eq!(segments.len(), 3);
    for w in segments.windows(2) {
        assert!(w[0].end < w[1].start);
    }
    assert!(segments.iter().all(|s| s.frame_count >= 1 && s.start <= s.end));
    assert_eq!(segments[0].frame_count, 2);
}

#[test]
fn larger_minimum_keeps_a_subsequence() {
    let dets = vec![
        det(0, true, 1),
        det(3, true, 2),
        det(4, false, 0),
        det(5, true, 3),
        det(6, false, 0),
        det(7, true, 4),
        det(12, true, 4),
    ];
    let small = detect_segments(&dets, &config_with(0, 0));
    let large = detect_segments(&dets, &config_with(3, 0));
    let filtered: Vec<Segment> = small.iter().copied().filter(|s| s.end - s.start >= 3).collect();
    assert_eq!(large, filtered);
    assert_eq!(large.len(), 2);
    assert_eq!(small.len(), 3);
}

#[test]
fn frame_size_wraps_a_negative_product() {
    assert_eq!(humancut::reader::frame_size(-1, 1), (-3i32) as usize);
    assert_eq!(humancut::reader::frame_size(2, 3), 18);
}

#[test]
fn boxes_sharing_an_edge_do_not_overlap() {
    let a = BoundingBox { x: 0, y: 0, width: 10 * PX, height: 10 * PX, confidence: 1 };
    let b = BoundingBox { x: 10 * PX, y: 0, width: 10 * PX, height: 10 * PX, confidence: 1 };
    assert_eq!(calculate_iou(&a, &b).intersection, 0);
    assert!(iou_is_below(&a, &b, 1));
}

#[test]
fn ratio_percentage_is_rounded_once() {
    // 2503 µs of humans in 10 s: 0.02503 %, written 0.03 %
    let mut batch = SegmentBatch::new("r".to_string());
    batch.total_duration = 10_000_000;
    batch.add_segment(Segment::new(0, 2_503, 1));
    batch.calculate_statistics();
    assert_eq!(batch.compression_ratio, 251);
    assert_eq!(batch.summary_lines()[4], "Compression ratio: 0.03%");
    // an exact ratio is kept as it is
    batch.human_duration = 2_500;
    batch.calculate_statistics();
    assert_eq!(batch.compression_ratio, 250);
    // an inexact odd quotient stays where it is
    batch.human_duration = 1;
    batch.total_duration = 3;
    batch.calculate_statistics();
    assert_eq!(batch.compression_ratio, 333_333);
    batch.human_duration = -2;
    batch.calculate_statistics();
    assert_eq!(batch.compression_ratio, -666_667);
}

#[test]
fn batch_with_segments_adds_them_in_order() {
    let a = Segment::new(0, 1_000_000, 1);
    let b = Segment::new(3_000_000, 3_500_000, 2);
    let c = Segment::new(5_000_000, 4_000_000, 3);
    let batch = SegmentBatch::with_segments("w".to_string(), &[a, b, c]);
    assert_eq!(batch.input_file, "w");
    assert_eq!(batch.segments, vec![a, b, c]);
    assert_eq!(batch.human_duration, 500_000);
    assert_eq!(batch.total_duration, 0);
    assert_eq!(batch.compression_ratio, 0);
    let mut by_hand = SegmentBatch::new("w".to_string());
    for s in [a, b, c] {
        by_hand.add_segment(s);
    }
    assert_eq!(by_hand.human_duration, batch.human_duration);
    assert_eq!(by_hand.segments, batch.segments);
}

#[test]
fn nms_keeps_each_box_at_most_once() {
    let a = BoundingBox { x: 0, y: 0, width: 10 * PX, height: 10 * PX, confidence: 900_000 };
    let far = BoundingBox { x: 100 * PX, y: 0, width: 10 * PX, height: 10 * PX, confidence: 500_000 };
    let kept = humancut::detection::apply_nms(vec![far, a, a, far], NMS_THRESHOLD);
    assert_eq!(kept, vec![a, far]);
}
