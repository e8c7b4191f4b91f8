//! Planning the export of segments as clips: where they go, what they are
//! called, and the ffmpeg arguments that cut them.
use vstd::prelude::*;

use crate::segment::Segment;
use crate::text::{format_seconds, push_string, push_text, push_zero_padded, seconds_text, texts, zero_padded};

verus! {

/// Writes segments of a video out as separate clips.
pub struct VideoExporter {
    output_dir: String,
}

impl View for VideoExporter {
    type V = Seq<char>;

    /// The directory that receives the clips.
    closed spec fn view(&self) -> Seq<char> {
        self.output_dir@
    }
}

/// The ffmpeg arguments that copy `segment` of `input` into `output` without
/// re-encoding.
pub open spec fn export_args(input: Seq<char>, segment: Segment, output: Seq<char>) -> Seq<
    Seq<char>,
> {
    seq![
        "-ss"@,
        seconds_text(segment.start as int),
        "-i"@,
        input,
        "-to"@,
        seconds_text(segment.span()),
        "-c"@,
        "copy"@,
        "-avoid_negative_ts"@,
        "make_zero"@,
        "-reset_timestamps"@,
        "1"@,
        "-y"@,
        output,
    ]
}

/// The file name of clip number `index` (counting from zero): the prefix,
/// an underscore, the clip number counting from one in at least four digits,
/// and `.mp4`.
pub open spec fn clip_file_name(prefix: Seq<char>, index: int) -> Seq<char> {
    prefix + "_"@ + zero_padded((index + 1) as nat, 4) + ".mp4"@
}

impl VideoExporter {
    pub fn new(output_dir: String) -> (e: Self)
        ensures
            e@ == output_dir@,
    {
        VideoExporter { output_dir }
    }

    /// The directory that receives the clips.
    pub fn output_dir(&self) -> (dir: &str)
        ensures
            dir@ == self@,
    {
        self.output_dir.as_str()
    }

    /// The arguments of the ffmpeg run that exports `segment` of the video at
    /// `input_path` to `output_path`: seek to the segment start, copy for the
    /// segment length (both in seconds with three decimals), keep timestamps
    /// non-negative and starting at zero, and overwrite the output.
    pub fn export_segment_args(input_path: &str, segment: &Segment, output_path: &str) -> (args:
        Vec<String>)
        ensures
            texts(args@) == export_args(input_path@, *segment, output_path@),
    {
        let mut args: Vec<String> = Vec::new();
        push_text(&mut args, "-ss");
        push_string(&mut args, format_seconds(segment.start as i128));
        push_text(&mut args, "-i");
        push_text(&mut args, input_path);
        push_text(&mut args, "-to");
        push_string(&mut args, format_seconds(segment.duration()));
        push_text(&mut args, "-c");
        push_text(&mut args, "copy");
        push_text(&mut args, "-avoid_negative_ts");
        push_text(&mut args, "make_zero");
        push_text(&mut args, "-reset_timestamps");
        push_text(&mut args, "1");
        push_text(&mut args, "-y");
        push_text(&mut args, output_path);
        assert(texts(args@) =~= export_args(input_path@, *segment, output_path@));
        args
    }

    /// The file name of clip number `index` (counting from zero) of a batch
    /// named `prefix`.
    pub fn clip_name(prefix: &str, index: usize) -> (name: String)
        requires
            index < usize::MAX,
        ensures
            name@ == clip_file_name(prefix@, index as int),
    {
        let mut name = prefix.to_owned();
        name.append("_");
        push_zero_padded(&mut name, (index + 1) as u128, 4);
        name.append(".mp4");
        name
    }

    /// The file names of the clips of a batch of `count` segments named
    /// `prefix`, in segment order.
    pub fn batch_clip_names(prefix: &str, count: usize) -> (names: Vec<String>)
        ensures
            names@.len() == count,
            forall|i: int| 0 <= i < count ==> (#[trigger] names@[i])@ == clip_file_name(prefix@, i),
    {
        let mut names: Vec<String> = Vec::new();
        let mut i: usize = 0;
        while i < count
            invariant
                i <= count,
                names@.len() == i,
                forall|k: int| 0 <= k < i ==> (#[trigger] names@[k])@ == clip_file_name(prefix@, k),
            decreases count - i,
        {
            names.push(Self::clip_name(prefix, i));
            i = i + 1;
        }
        names
    }
}

/// The prefix of the clip names of a video whose file stem is `video_stem`.
pub open spec fn clip_prefix(video_stem: Seq<char>) -> Seq<char> {
    "human_"@ + video_stem
}

/// The prefix of the clip names of a video whose file stem is `video_stem`.
pub fn export_prefix(video_stem: &str) -> (prefix: String)
    ensures
        prefix@ == clip_prefix(video_stem@),
{
    let mut prefix = "human_".to_owned();
    prefix.append(video_stem);
    prefix
}

} // verus!
