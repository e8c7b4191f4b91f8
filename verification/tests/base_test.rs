use humancut::config::Config;
use humancut::detection::Detection;
use humancut::merger::SegmentMerger;
use humancut::segment::{detect_segments, Segment};

/// Seconds as the library's microseconds.
fn us(seconds: f64) -> i64 {
    (seconds * 1_000_000.0).round() as i64
}

/// A confidence as the library's millionths.
fn millionths(value: f64) -> i64 {
    (value * 1_000_000.0).round() as i64
}

fn detection(timestamp: f64, has_humans: bool) -> Detection {
    Detection {
        timestamp: us(timestamp),
        has_humans,
        confidence: if has_humans { millionths(0.8) } else { millionths(0.0) },
        bboxes: Vec::new(),
    }
}

#[test]
fn detect_segments_keeps_segments_above_min_duration() {
    let mut config = Config::default();
    config.min_segment_duration = us(1.0);

    let detections = vec![
        detection(0.0, false),
        detection(1.0, true),
        detection(2.0, true),
        detection(2.5, false),
        detection(4.0, true),
        detection(4.2, false),
    ];

    let segments = detect_segments(&detections, &config);

    assert_eq!(segments.len(), 1);
    assert_eq!(segments[0].start, us(1.0));
    assert_eq!(segments[0].end, us(2.0));
    assert_eq!(segments[0].confidence, millionths(0.8));
    assert_eq!(segments[0].frame_count, 2);
}

#[test]
fn segment_merger_merges_segments_with_small_gap() {
    let merger = SegmentMerger::new(us(0.5));
    let segments = vec![
        Segment::new(us(0.0), us(1.0), millionths(0.6)),
        Segment::new(us(1.4), us(2.0), millionths(0.9)),
        Segment::new(us(3.0), us(4.0), millionths(0.7)),
    ];

    let merged = merger.merge(&segments);

    assert_eq!(merged.len(), 2);
    assert_eq!(merged[0].start, us(0.0));
    assert_eq!(merged[0].end, us(2.0));
    assert_eq!(merged[0].confidence, millionths(0.9));
}
