use humancut::detection::{
    apply_nms, calculate_iou, detect_humans, detection_from_boxes, iou_is_below,
    postprocess_outputs, sort_by_confidence, BoundingBox,
};

const PX: i64 = 1_000_000;

fn bx(x: i64, y: i64, w: i64, h: i64, confidence: i64) -> BoundingBox {
    BoundingBox { x: x * PX, y: y * PX, width: w * PX, height: h * PX, confidence }
}

#[test]
fn iou_of_identical_boxes_is_one() {
    let a = bx(0, 0, 10, 10, 1);
    let iou = calculate_iou(&a, &a);
    assert_eq!(iou.intersection, iou.union);
    assert!(!iou_is_below(&a, &a, 450_000));
}

#[test]
fn iou_of_disjoint_boxes_is_zero() {
    let a = bx(0, 0, 10, 10, 1);
    let b = bx(20, 20, 10, 10, 1);
    let iou = calculate_iou(&a, &b);
    assert_eq!(iou.intersection, 0);
    assert_eq!(iou.union, 1);
    assert!(iou_is_below(&a, &b, 450_000));
}

#[test]
fn iou_of_half_overlap() {
    // overlap 5x10 = 50, union 100 + 100 - 50 = 150: iou = 1/3
    let a = bx(0, 0, 10, 10, 1);
    let b = bx(5, 0, 10, 10, 1);
    let iou = calculate_iou(&a, &b);
    assert_eq!(iou.intersection, (50 * PX * PX) as i128);
    assert_eq!(iou.union, (150 * PX * PX) as i128);
    assert!(iou_is_below(&a, &b, 450_000));
    assert!(!iou_is_below(&a, &b, 333_333));
}

#[test]
fn sort_is_descending_and_stable() {
    let mut v = vec![bx(1, 0, 1, 1, 10), bx(2, 0, 1, 1, 30), bx(3, 0, 1, 1, 10), bx(4, 0, 1, 1, 20)];
    sort_by_confidence(&mut v);
    let xs: Vec<i64> = v.iter().map(|b| b.x / PX).collect();
    assert_eq!(xs, vec![2, 4, 1, 3]);
}

#[test]
fn nms_drops_boxes_that_overlap_a_better_one() {
    let strong = bx(0, 0, 10, 10, 900_000);
    let overlapping = bx(1, 1, 10, 10, 800_000);
    let apart = bx(50, 50, 10, 10, 700_000);
    let kept = apply_nms(vec![apart, overlapping, strong], 450_000);
    assert_eq!(kept, vec![strong, apart]);
}

#[test]
fn nms_of_nothing_is_nothing() {
    assert!(apply_nms(Vec::new(), 450_000).is_empty());
}

/// Raw model output in millionths: rows cx, cy, w, h, score.
fn model_output(rows: &[[f64; 5]]) -> Vec<i64> {
    let n = rows.len();
    let mut data = vec![0i64; 5 * n];
    for (i, r) in rows.iter().enumerate() {
        for k in 0..5 {
            data[k * n + i] = (r[k] * 1_000_000.0).round() as i64;
        }
    }
    data
}

#[test]
fn postprocess_scales_and_clips_boxes() {
    // a 1280 x 640 image: x scales by 2, y by 1
    let data = model_output(&[[320.0, 320.0, 100.0, 50.0, 0.9], [10.0, 10.0, 40.0, 40.0, 0.2]]);
    let boxes = postprocess_outputs(&data, 2, 1280, 640, 350_000, 450_000);
    assert_eq!(boxes.len(), 1);
    assert_eq!(boxes[0].x, 540 * PX);
    assert_eq!(boxes[0].y, 295 * PX);
    assert_eq!(boxes[0].width, 200 * PX);
    assert_eq!(boxes[0].height, 50 * PX);
    assert_eq!(boxes[0].confidence, 900_000);

    // a box hanging over the top-left corner is clipped there
    let data = model_output(&[[5.0, 5.0, 20.0, 20.0, 0.5]]);
    let boxes = postprocess_outputs(&data, 1, 640, 640, 350_000, 450_000);
    assert_eq!(boxes[0].x, 0);
    assert_eq!(boxes[0].y, 0);
    assert_eq!(boxes[0].width, 20 * PX);
}

#[test]
fn postprocess_clips_at_the_right_edge() {
    let data = model_output(&[[630.0, 320.0, 40.0, 40.0, 0.5]]);
    let boxes = postprocess_outputs(&data, 1, 640, 640, 350_000, 450_000);
    assert_eq!(boxes[0].x, 610 * PX);
    assert_eq!(boxes[0].width, 30 * PX);
}

#[test]
fn frame_verdict_follows_the_best_score() {
    let data = model_output(&[
        [100.0, 100.0, 50.0, 50.0, 0.6],
        [102.0, 101.0, 50.0, 50.0, 0.7],
        [500.0, 500.0, 30.0, 30.0, 0.1],
    ]);
    let d = detect_humans(&data, 3, 640, 640, 350_000, 450_000, 42);
    assert_eq!(d.timestamp, 42);
    assert!(d.has_humans);
    assert_eq!(d.confidence, 700_000);
    // the two overlapping boxes collapse into one
    assert_eq!(d.bboxes.len(), 1);

    let d = detect_humans(&data, 3, 640, 640, 800_000, 450_000, 7);
    assert!(!d.has_humans);
    assert_eq!(d.confidence, 0);
    assert!(d.bboxes.is_empty());
}

#[test]
fn detection_from_boxes_lists_corners() {
    let boxes = vec![bx(1, 2, 3, 4, 500_000), bx(5, 6, 7, 8, 600_000)];
    let d = detection_from_boxes(9, &boxes);
    assert!(d.has_humans);
    assert_eq!(d.confidence, 600_000);
    assert_eq!(d.bboxes, vec![[PX, 2 * PX, 3 * PX, 4 * PX], [5 * PX, 6 * PX, 7 * PX, 8 * PX]]);
}
