use humancut::config::Config;
use humancut::detection::Detection;
use humancut::merger::SegmentMerger;
use humancut::process::process_detections;
use humancut::segment::{detect_segments, Segment, SegmentBatch};

fn det(timestamp: i64, has_humans: bool, confidence: i64) -> Detection {
    Detection { timestamp, has_humans, confidence, bboxes: Vec::new() }
}

fn config_with(min: i64, gap: i64) -> Config {
    let mut c = Config::default();
    c.min_segment_duration = min;
    c.merge_gap_seconds = gap;
    c
}

#[test]
fn segment_new_duration_and_extend() {
    let mut s = Segment::new(1_000_000, 1_500_000, 400_000);
    assert_eq!(s.frame_count, 0);
    assert_eq!(s.duration(), 500_000);
    s.extend(2_000_000, 300_000);
    assert_eq!(s.end, 2_000_000);
    assert_eq!(s.confidence, 400_000);
    assert_eq!(s.frame_count, 1);
    s.extend(2_500_000, 900_000);
    assert_eq!(s.confidence, 900_000);
    assert_eq!(s.frame_count, 2);
    assert_eq!(s.duration(), 1_500_000);
}

#[test]
fn segment_duration_can_be_negative() {
    let s = Segment::new(3_000_000, 1_000_000, 0);
    assert_eq!(s.duration(), -2_000_000);
}

#[test]
fn detect_segments_without_humans_is_empty() {
    let config = config_with(0, 0);
    let dets = vec![det(0, false, 0), det(1, false, 0), det(2, false, 0)];
    assert!(detect_segments(&dets, &config).is_empty());
    assert!(detect_segments(&[], &config).is_empty());
}

#[test]
fn detect_segments_closes_the_last_open_segment() {
    let config = config_with(1_000_000, 0);
    let dets = vec![
        det(0, true, 500_000),
        det(500_000, false, 0),
        det(1_000_000, true, 600_000),
        det(2_000_000, true, 700_000),
        det(3_000_000, true, 650_000),
    ];
    let segments = detect_segments(&dets, &config);
    // The first run lasts 0 s and is dropped; the last one lasts 2 s.
    assert_eq!(segments.len(), 1);
    assert_eq!(segments[0].start, 1_000_000);
    assert_eq!(segments[0].end, 3_000_000);
    assert_eq!(segments[0].confidence, 700_000);
    assert_eq!(segments[0].frame_count, 3);
}

#[test]
fn detect_segments_keeps_runs_in_time_order() {
    let config = config_with(0, 0);
    let dets = vec![
        det(0, true, 100),
        det(10, false, 0),
        det(20, true, 200),
        det(30, true, 300),
        det(40, false, 0),
        det(50, true, 50),
    ];
    let segments = detect_segments(&dets, &config);
    assert_eq!(segments.len(), 3);
    for w in segments.windows(2) {
        assert!(w[0].end <= w[1].start);
    }
    let frames: usize = segments.iter().map(|s| s.frame_count).sum();
    assert_eq!(frames, 4);
}

#[test]
fn merge_of_nothing_is_nothing() {
    let merger = SegmentMerger::new(1_000_000);
    assert!(merger.merge(&[]).is_empty());
}

#[test]
fn merge_sums_frames_and_is_idempotent() {
    let merger = SegmentMerger::new(500_000);
    let mut a = Segment::new(0, 1_000_000, 600_000);
    a.frame_count = 3;
    let mut b = Segment::new(1_500_000, 2_000_000, 900_000);
    b.frame_count = 4;
    let mut c = Segment::new(2_600_000, 4_000_000, 700_000);
    c.frame_count = 5;
    let merged = merger.merge(&[a, b, c]);
    assert_eq!(merged.len(), 2);
    assert_eq!(merged[0].frame_count, 7);
    assert_eq!(merged[0].end, 2_000_000);
    assert_eq!(merged[1], c);
    let again = merger.merge(&merged);
    assert_eq!(again, merged);
    // neighbours are more than the gap apart
    assert!(merged[1].start - merged[0].end > 500_000);
}

#[test]
fn merge_joins_a_gap_exactly_at_the_threshold() {
    let merger = SegmentMerger::new(500_000);
    let a = Segment::new(0, 1_000_000, 1);
    let b = Segment::new(1_500_000, 2_000_000, 2);
    let merged = merger.merge(&[a, b]);
    assert_eq!(merged.len(), 1);
    assert_eq!(merged[0].start, 0);
    assert_eq!(merged[0].end, 2_000_000);
    assert_eq!(merged[0].confidence, 2);
}

#[test]
fn filter_by_duration_keeps_long_segments_in_order() {
    let merger = SegmentMerger::new(0);
    let short = Segment::new(0, 500_000, 1);
    let long = Segment::new(1_000_000, 3_000_000, 2);
    let exact = Segment::new(4_000_000, 5_000_000, 3);
    let kept = merger.filter_by_duration(&[short, long, exact], 1_000_000);
    assert_eq!(kept, vec![long, exact]);
}

#[test]
fn batch_adds_segments_and_computes_ratio() {
    let mut batch = SegmentBatch::new("video.mp4".to_string());
    assert_eq!(batch.human_duration, 0);
    assert_eq!(batch.compression_ratio, 0);
    batch.total_duration = 10_000_000;
    batch.add_segment(Segment::new(0, 2_000_000, 1));
    batch.add_segment(Segment::new(5_000_000, 6_500_000, 1));
    assert_eq!(batch.segments.len(), 2);
    assert_eq!(batch.human_duration, 3_500_000);
    batch.calculate_statistics();
    assert_eq!(batch.compression_ratio, 350_000);
}

#[test]
fn batch_ratio_is_zero_without_total_duration() {
    let mut batch = SegmentBatch::new("v".to_string());
    batch.add_segment(Segment::new(0, 2_000_000, 1));
    batch.calculate_statistics();
    assert_eq!(batch.compression_ratio, 0);
}

#[test]
fn process_detections_runs_the_whole_analysis() {
    // min 1 s, gap 2 s
    let config = config_with(1_000_000, 2_000_000);
    let dets = vec![
        det(0, true, 500_000),
        det(1_000_000, true, 600_000),
        det(2_000_000, false, 0),
        det(2_500_000, true, 900_000),
        det(3_500_000, true, 800_000),
        det(4_000_000, false, 0),
        det(8_000_000, true, 100_000),
        det(8_200_000, false, 0),
    ];
    let batch = process_detections("clip.mp4".to_string(), &dets, &config, 10_000_000);
    assert_eq!(batch.input_file, "clip.mp4");
    assert_eq!(batch.total_duration, 10_000_000);
    assert_eq!(batch.segments.len(), 1);
    assert_eq!(batch.segments[0].start, 0);
    assert_eq!(batch.segments[0].end, 3_500_000);
    assert_eq!(batch.segments[0].confidence, 900_000);
    assert_eq!(batch.segments[0].frame_count, 4);
    assert_eq!(batch.human_duration, 3_500_000);
    assert_eq!(batch.compression_ratio, 350_000);
}

#[test]
fn batch_summary_lines() {
    let mut batch = SegmentBatch::new("v.mp4".to_string());
    batch.total_duration = 10_000_000;
    let mut s = Segment::new(1_234_567, 3_000_000, 876_543);
    s.frame_count = 2;
    batch.add_segment(s);
    batch.calculate_statistics();
    assert_eq!(batch.compression_ratio, 176_543);
    assert_eq!(
        batch.summary_lines(),
        vec![
            "=== Segment Analysis ===",
            "Input file: v.mp4",
            "Total duration: 10.00 seconds",
            "Human activity: 1.77 seconds",
            "Compression ratio: 17.65%",
            "Number of segments: 1",
            "",
            "  Segment 1: 1.23s - 3.00s (duration: 1.77s, confidence: 0.88)",
        ]
    );
}
