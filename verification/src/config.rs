//! Processing parameters.
use vstd::prelude::*;

verus! {

/// Parameters of a run.
#[derive(Clone, Debug)]
pub struct Config {
    /// Minimum person score for a box to count, in millionths.
    pub yolo_confidence: i64,
    /// Shortest segment that is kept, in microseconds.
    pub min_segment_duration: i64,
    /// Segments closer than this are joined, in microseconds.
    pub merge_gap_seconds: i64,
    /// Every this many frames one is examined.
    pub sample_rate_frames: usize,
    /// Directory that receives the exported clips.
    pub output_dir: String,
}

/// The default output directory.
pub open spec fn default_output_dir() -> Seq<char> {
    "./output"@
}

impl Default for Config {
    /// Confidence 0.35, segments of at least 2 s, gaps up to 3 s joined,
    /// every fifth frame examined, clips under `./output`.
    fn default() -> (c: Self)
        ensures
            c.yolo_confidence == 350_000,
            c.min_segment_duration == 2_000_000,
            c.merge_gap_seconds == 3_000_000,
            c.sample_rate_frames == 5,
            c.output_dir@ == default_output_dir(),
    {
        Config {
            yolo_confidence: 350_000,
            min_segment_duration: 2_000_000,
            merge_gap_seconds: 3_000_000,
            sample_rate_frames: 5,
            output_dir: "./output".to_owned(),
        }
    }
}

impl Config {
    /// The parameters of the demo run: the defaults, with clips under
    /// `output_dir`.
    pub fn demo(output_dir: String) -> (c: Self)
        ensures
            c.yolo_confidence == 350_000,
            c.min_segment_duration == 2_000_000,
            c.merge_gap_seconds == 3_000_000,
            c.sample_rate_frames == 5,
            c.output_dir == output_dir,
    {
        Config {
            yolo_confidence: 350_000,
            min_segment_duration: 2_000_000,
            merge_gap_seconds: 3_000_000,
            sample_rate_frames: 5,
            output_dir,
        }
    }

    /// Applies the command-line settings: the minimum duration, merge gap and
    /// output directory always, the confidence and sample rate when given; a
    /// sample rate of zero becomes one.
    pub fn apply_overrides(
        &mut self,
        min_duration: i64,
        merge_gap: i64,
        output_dir: String,
        confidence: Option<i64>,
        sample_rate: Option<usize>,
    )
        ensures
            final(self).min_segment_duration == min_duration,
            final(self).merge_gap_seconds == merge_gap,
            final(self).output_dir == output_dir,
            final(self).yolo_confidence == match confidence {
                Some(c) => c,
                None => old(self).yolo_confidence,
            },
            final(self).sample_rate_frames == ({
                let rate = match sample_rate {
                    Some(r) => r,
                    None => old(self).sample_rate_frames,
                };
                if rate >= 1 {
                    rate
                } else {
                    1
                }
            }),
    {
        self.min_segment_duration = min_duration;
        self.merge_gap_seconds = merge_gap;
        self.output_dir = output_dir;
        if let Some(c) = confidence {
            self.yolo_confidence = c;
        }
        if let Some(r) = sample_rate {
            self.sample_rate_frames = r;
        }
        if self.sample_rate_frames < 1 {
            self.sample_rate_frames = 1;
        }
    }
}

} // verus!
