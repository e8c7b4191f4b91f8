//! The analysis of one video's detections, and the choice of the detector
//! model file.
use vstd::prelude::*;

use crate::config::Config;
use crate::detection::Detection;
use crate::merger::{
    law_filter_exact, law_filter_twice, law_merged_separated, lemma_counts_fit_when_total_fits,
    lemma_filter_keeps_order, lemma_merged_chronological, lemma_merged_shape,
    lemma_separated_everywhere, merged, well_separated, SegmentMerger,
};
use crate::segment::{
    chronological, detect_segments, detected, law_detected_chronological, lemma_detected_counts,
    law_detected_is_filtered_runs, law_runs_are_maximal_runs, law_short_runs_give_no_segments,
    long_enough, maximal_runs, runs,
    ratio_millionths, saturate_i128, saturated_total, timestamps_ordered, Segment, SegmentBatch,
};

verus! {

/// The segments that the analysis keeps: the segments found in the
/// detections, joined over short gaps, and then those at least the minimum
/// duration long.
pub open spec fn kept_segments(dets: Seq<Detection>, min: i64, gap: i64) -> Seq<Segment> {
    merged(detected(dets, min), gap).filter(long_enough(min))
}

/// Finds, joins and filters the segments of a video from its detections
/// (in frame order), and gathers them with their statistics into a batch
/// for `input_file` whose whole length is `total_duration` microseconds.
pub fn process_detections(
    input_file: String,
    detections: &[Detection],
    config: &Config,
    total_duration: i64,
) -> (batch: SegmentBatch)
    ensures
        batch.input_file == input_file,
        batch.total_duration == total_duration,
        batch.segments@ == kept_segments(
            detections@,
            config.min_segment_duration,
            config.merge_gap_seconds,
        ),
        batch.human_duration == saturated_total(batch.segments@),
        batch.compression_ratio == saturate_i128(
            ratio_millionths(saturated_total(batch.segments@), total_duration as int),
        ),
{
    let min = config.min_segment_duration;
    let gap = config.merge_gap_seconds;
    let count = detections.len();
    assert(detections@.len() == count);
    let found = detect_segments(detections, config);
    proof {
        lemma_detected_counts(detections@, min);
        lemma_counts_fit_when_total_fits(found@, gap);
        lemma_merged_shape(found@, gap);
    }
    let merger = SegmentMerger::new(gap);
    let joined = merger.merge(found.as_slice());
    let kept = merger.filter_by_duration(joined.as_slice(), min);
    proof {
        joined@.lemma_filter_len(long_enough(min));
    }
    let mut batch = SegmentBatch::with_segments(input_file, kept.as_slice());
    batch.total_duration = total_duration;
    batch.calculate_statistics();
    batch
}

/// What the extraction of one video does with its detections: nothing when
/// there are none, and otherwise the batch of `process_detections`.
pub fn analyze_video(
    input_file: String,
    detections: &[Detection],
    config: &Config,
    total_duration: i64,
) -> (batch: Option<SegmentBatch>)
    ensures
        (batch is None) == (detections@.len() == 0),
        batch matches Some(b) ==> {
            &&& b.input_file == input_file
            &&& b.total_duration == total_duration
            &&& b.segments@ == kept_segments(
                detections@,
                config.min_segment_duration,
                config.merge_gap_seconds,
            )
            &&& b.human_duration == saturated_total(b.segments@)
            &&& b.compression_ratio == saturate_i128(
                ratio_millionths(saturated_total(b.segments@), total_duration as int),
            )
        },
{
    if detections.len() == 0 {
        None
    } else {
        Some(process_detections(input_file, detections, config, total_duration))
    }
}

/// Whether a batch has clips to export: it has at least one segment.
pub fn should_export(batch: &SegmentBatch) -> (r: bool)
    ensures
        r == (batch.segments@.len() > 0),
{
    batch.segments.len() > 0
}

/// Law: when the frames come in time order, the segments the analysis keeps
/// are in time order, each lasts at least the minimum duration, and any two
/// of them are more than the merge gap apart.
pub proof fn law_kept_segments_ordered(dets: Seq<Detection>, min: i64, gap: i64)
    requires
        timestamps_ordered(dets),
    ensures
        chronological(kept_segments(dets, min, gap)),
        well_separated(kept_segments(dets, min, gap), gap),
        forall|k: int|
            0 <= k < kept_segments(dets, min, gap).len() ==> (#[trigger] kept_segments(
                dets,
                min,
                gap,
            )[k]).span() >= min,
{
    let found = detected(dets, min);
    law_detected_chronological(dets, min);
    lemma_merged_chronological(found, gap);
    law_merged_separated(found, gap);
    lemma_separated_everywhere(merged(found, gap), gap);
    lemma_filter_keeps_order(merged(found, gap), gap, long_enough(min));
    law_filter_exact(merged(found, gap), min);
}

/// Law: the analysis joins, over gaps up to `gap`, exactly the maximal runs
/// of frames with humans that last at least the minimum duration, in frame
/// order, and keeps the joined segments that last at least the minimum. So
/// when no stretch of consecutive frames with humans lasts the minimum, it
/// keeps nothing.
pub proof fn law_kept_segments_from_long_runs(dets: Seq<Detection>, min: i64, gap: i64)
    requires
        dets.len() <= usize::MAX,
    ensures
        kept_segments(dets, min, gap) == merged(
            maximal_runs(dets).filter(long_enough(min)),
            gap,
        ).filter(long_enough(min)),
        (forall|a: int, b: int|
            #![trigger dets[a], dets[b]]
            0 <= a <= b < dets.len() && (forall|i: int| a <= i <= b ==> (#[trigger] dets[i]).has_humans)
                ==> dets[b].timestamp - dets[a].timestamp < min) ==> kept_segments(dets, min, gap).len()
            == 0,
{
    law_runs_are_maximal_runs(dets, min);
    if forall|a: int, b: int|
        #![trigger dets[a], dets[b]]
        0 <= a <= b < dets.len() && (forall|i: int| a <= i <= b ==> (#[trigger] dets[i]).has_humans)
            ==> dets[b].timestamp - dets[a].timestamp < min {
        law_short_runs_give_no_segments(dets, min);
        assert(merged(detected(dets, min), gap).len() == 0);
        merged(detected(dets, min), gap).lemma_filter_len(long_enough(min));
    }
}

/// Law: a larger minimum duration keeps a subsequence of the segments: the
/// segments for the larger minimum are those for the smaller one that are
/// long enough for the larger one, in the same order.
pub proof fn law_larger_minimum_keeps_subsequence(dets: Seq<Detection>, smaller: i64, larger: i64)
    requires
        smaller <= larger,
    ensures
        detected(dets, larger) == detected(dets, smaller).filter(long_enough(larger)),
{
    law_detected_is_filtered_runs(dets, smaller);
    law_detected_is_filtered_runs(dets, larger);
    law_filter_twice(runs(dets), smaller, larger);
}

// ---------------------------------------------------------------------------
// The detector model

/// Why a model cannot be had.
#[derive(Clone, Copy, Debug, PartialEq, Eq, Structural)]
pub enum ModelError {
    /// The model type is none of `nano`, `small` and `medium`.
    UnknownModelType,
}

/// Where the model of each known type is downloaded from.
pub open spec fn model_url_of(model_type: Seq<char>) -> Option<Seq<char>> {
    if model_type == "nano"@ {
        Some("https://github.com/ultralytics/assets/releases/download/v8.4.0/yolov8n.onnx"@)
    } else if model_type == "small"@ {
        Some("https://github.com/ultralytics/assets/releases/download/v8.4.0/yolov8s.onnx"@)
    } else if model_type == "medium"@ {
        Some("https://github.com/ultralytics/assets/releases/download/v8.4.0/yolov8m.onnx"@)
    } else {
        None
    }
}

/// Whether two texts are equal.
pub(crate) fn same_text(a: &str, b: &str) -> (r: bool)
    ensures
        r == (a@ == b@),
{
    let a_owned = a.to_owned();
    let b_owned = b.to_owned();
    a_owned == b_owned
}

/// The download address of the model of type `model_type`.
pub fn model_url(model_type: &str) -> (url: Result<&'static str, ModelError>)
    ensures
        match url {
            Ok(u) => model_url_of(model_type@) == Some(u@),
            Err(e) => model_url_of(model_type@) is None && e == ModelError::UnknownModelType,
        },
{
    if same_text(model_type, "nano") {
        Ok("https://github.com/ultralytics/assets/releases/download/v8.4.0/yolov8n.onnx")
    } else if same_text(model_type, "small") {
        Ok("https://github.com/ultralytics/assets/releases/download/v8.4.0/yolov8s.onnx")
    } else if same_text(model_type, "medium") {
        Ok("https://github.com/ultralytics/assets/releases/download/v8.4.0/yolov8m.onnx")
    } else {
        Err(ModelError::UnknownModelType)
    }
}

/// What to do to have the model of type `model_type`.
#[derive(Clone, Copy, Debug, PartialEq, Eq)]
pub enum ModelStep {
    /// The model file is already there.
    UseExisting,
    /// Download the model from this address.
    Download(&'static str),
}

/// Decides how to have the model of type `model_type` when its file
/// `exists` or not: a file already there is used whatever the type;
/// otherwise the model is downloaded from the address of its type, and an
/// unknown type is an error.
pub fn model_step(model_type: &str, exists: bool) -> (r: Result<ModelStep, ModelError>)
    ensures
        exists ==> r == Ok::<ModelStep, ModelError>(ModelStep::UseExisting),
        !exists ==> match model_url_of(model_type@) {
            Some(u) => r matches Ok(ModelStep::Download(x)) && x@ == u,
            None => r == Err::<ModelStep, ModelError>(ModelError::UnknownModelType),
        },
{
    if exists {
        return Ok(ModelStep::UseExisting);
    }
    match model_url(model_type) {
        Ok(url) => Ok(ModelStep::Download(url)),
        Err(e) => Err(e),
    }
}

/// The file name of the model of type `model_type`: `yolov8`, the first
/// character of the type, and `.onnx`.
pub open spec fn model_file_name_of(model_type: Seq<char>) -> Seq<char> {
    "yolov8"@ + seq![model_type[0]] + ".onnx"@
}

/// The file name of the model of type `model_type`. The type must start
/// with a one-byte (ASCII) character.
pub fn model_file_name(model_type: &str) -> (name: String)
    requires
        model_type@.len() > 0,
        (model_type@[0] as u32) < 128,
    ensures
        name@ == model_file_name_of(model_type@),
{
    let mut name = "yolov8".to_owned();
    let first = model_type.substring_char(0, 1);
    assert(first@ =~= seq![model_type@[0]]);
    name.append(first);
    name.append(".onnx");
    name
}

/// Whether a file with extension `ext` holds a detector model.
pub fn is_model_file_extension(ext: &str) -> (r: bool)
    ensures
        r == (ext@ == "onnx"@),
{
    same_text(ext, "onnx")
}

/// Whether a file with extension `ext` is a video that can be processed.
pub fn is_video_extension(ext: &str) -> (r: bool)
    ensures
        r == (ext@ == "mp4"@ || ext@ == "mkv"@ || ext@ == "avi"@ || ext@ == "mov"@),
{
    same_text(ext, "mp4") || same_text(ext, "mkv") || same_text(ext, "avi") || same_text(
        ext,
        "mov",
    )
}

} // verus!
