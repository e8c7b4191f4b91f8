//! What ffprobe reports of a video, and the decisions of the frame loop
//! that feeds the detector.
use vstd::prelude::*;

use crate::process::same_text;
use crate::text::texts;

verus! {

/// Counts the frames read from a video and says which of them the detector
/// examines: every `sample_rate`-th one.
pub struct FrameSampler {
    frames_read: usize,
    sample_rate: usize,
}

impl FrameSampler {
    #[verifier::type_invariant]
    spec fn inv(self) -> bool {
        self.sample_rate >= 1
    }

    /// Frames read so far.
    pub closed spec fn frames(self) -> nat {
        self.frames_read as nat
    }

    /// One frame in this many is examined.
    pub closed spec fn rate(self) -> nat {
        self.sample_rate as nat
    }

    /// A sampler that examines every `sample_rate_frames`-th frame (every
    /// frame when it is zero).
    pub fn new(sample_rate_frames: usize) -> (s: Self)
        ensures
            s.frames() == 0,
            s.rate() == if sample_rate_frames >= 1 {
                sample_rate_frames as nat
            } else {
                1
            },
    {
        let rate = if sample_rate_frames >= 1 {
            sample_rate_frames
        } else {
            1
        };
        FrameSampler { frames_read: 0, sample_rate: rate }
    }

    /// Takes the next frame: returns its index (counting from zero, for its
    /// timestamp) and whether the detector examines it, which it does when
    /// the number of frames read so far, this one included, is a multiple of
    /// the sample rate.
    pub fn next_frame(&mut self) -> (r: (usize, bool))
        requires
            old(self).frames() < usize::MAX,
        ensures
            r.0 == old(self).frames(),
            final(self).frames() == old(self).frames() + 1,
            final(self).rate() == old(self).rate(),
            r.1 == ((old(self).frames() + 1) % old(self).rate() == 0),
    {
        proof {
            use_type_invariant(&*self);
        }
        let index = self.frames_read;
        self.frames_read = self.frames_read + 1;
        let examine = self.frames_read % self.sample_rate == 0;
        (index, examine)
    }
}

/// Bytes in one RGB frame of `width` x `height` pixels: the product taken
/// as an `i32`, then as a `usize` (a negative product wraps around).
pub fn frame_size(width: i32, height: i32) -> (size: usize)
    requires
        i32::MIN <= width * height * 3 <= i32::MAX,
    ensures
        size == (width * height * 3) as usize,
        width * height * 3 >= 0 ==> size == width * height * 3,
{
    (width * height * 3) as usize
}

// ---------------------------------------------------------------------------
// The ffprobe report

/// What ffprobe reports of one stream.
#[derive(Clone, Debug)]
pub struct ProbeStream {
    pub codec_type: Option<String>,
    pub width: Option<i64>,
    pub height: Option<i64>,
    pub r_frame_rate: Option<String>,
    pub duration: Option<String>,
}

/// What ffprobe reports of a file: its streams (`None` when the report has
/// no list of streams) and the duration text of the container.
#[derive(Clone, Debug)]
pub struct ProbeReport {
    pub streams: Option<Vec<ProbeStream>>,
    pub format_duration: Option<String>,
}

/// Why a video cannot be read.
#[derive(Clone, Copy, Debug, PartialEq, Eq, Structural)]
pub enum ProbeError {
    /// The ffprobe output is not JSON.
    InvalidJson,
    /// The report lists no video stream.
    NoVideoStream,
}

/// The report that `serde_json` decodes from the ffprobe output `json`.
pub uninterp spec fn probe_report(json: Seq<u8>) -> Option<ProbeReport>;

/// Decodes the JSON that ffprobe prints with `serde_json::from_slice` and
/// picks out the fields the reader uses: for each entry of `streams`, the
/// text of `codec_type`, the integers `width` and `height`, and the texts
/// `r_frame_rate` and `duration`; and the text of `format.duration`. A field
/// that is missing or of another JSON type is `None`. Returns `None` when
/// the bytes are not JSON. The contract only names the result.
#[verifier::external_body]
fn decode_probe(json: &[u8]) -> (r: Option<ProbeReport>)
    ensures
        r == probe_report(json@),
{
    let v: serde_json::Value = serde_json::from_slice(json).ok()?;
    let text = |x: &serde_json::Value| x.as_str().map(|t| t.to_string());
    let streams = v["streams"].as_array().map(|a| a.iter().map(|s| ProbeStream {
        codec_type: text(&s["codec_type"]),
        width: s["width"].as_i64(),
        height: s["height"].as_i64(),
        r_frame_rate: text(&s["r_frame_rate"]),
        duration: text(&s["duration"]),
    }).collect());
    Some(ProbeReport { streams, format_duration: text(&v["format"]["duration"]) })
}

/// What the reader takes from the video stream: the frame rate text, the
/// frame size, and the duration texts to try, in order.
#[derive(Clone, Debug)]
pub struct StreamInfo {
    pub frame_rate: String,
    pub width: i32,
    pub height: i32,
    pub duration_texts: Vec<String>,
}

/// Whether `s` is a video stream.
pub open spec fn is_video_stream(s: ProbeStream) -> bool {
    s.codec_type matches Some(t) && t@ == "video"@
}

/// The text of `t`, as a list of none or one.
pub open spec fn present(t: Option<String>) -> Seq<Seq<char>> {
    match t {
        Some(s) => seq![s@],
        None => Seq::empty(),
    }
}

/// What the reader takes from stream `s` of a report whose container
/// duration is `format_duration`: the frame rate (`30/1` when missing), the
/// width and height (1920 and 1080 when missing, cut to `i32`), and the
/// stream's then the container's duration text.
pub open spec fn info_from(info: StreamInfo, s: ProbeStream, format_duration: Option<String>) -> bool {
    &&& info.frame_rate@ == match s.r_frame_rate {
        Some(t) => t@,
        None => "30/1"@,
    }
    &&& info.width == (match s.width {
        Some(w) => w,
        None => 1920,
    }) as i32
    &&& info.height == (match s.height {
        Some(h) => h,
        None => 1080,
    }) as i32
    &&& texts(info.duration_texts@) == present(s.duration) + present(format_duration)
}

/// Whether `info` is what the reader takes from the first video stream of
/// `report`, and the error exactly when there is none.
pub open spec fn stream_info_of(report: ProbeReport, r: Result<StreamInfo, ProbeError>) -> bool {
    match report.streams {
        None => r == Err::<StreamInfo, ProbeError>(ProbeError::NoVideoStream),
        Some(v) => if forall|j: int| 0 <= j < v@.len() ==> !is_video_stream(#[trigger] v@[j]) {
            r == Err::<StreamInfo, ProbeError>(ProbeError::NoVideoStream)
        } else {
            r matches Ok(info) && exists|i: int|
                0 <= i < v@.len() && is_video_stream(#[trigger] v@[i]) && (forall|j: int|
                    0 <= j < i ==> !is_video_stream(#[trigger] v@[j])) && info_from(
                    info,
                    v@[i],
                    report.format_duration,
                )
        },
    }
}

fn texts_of(t: Option<String>, out: &mut Vec<String>)
    ensures
        texts(final(out)@) == texts(old(out)@) + present(t),
{
    if let Some(s) = t {
        let ghost v = s@;
        out.push(s);
        assert(texts(out@) =~= texts(old(out)@) + present(Some(s)));
    } else {
        assert(texts(out@) =~= texts(old(out)@) + present(t));
    }
}

/// Takes the frame rate, size and duration texts from the first video stream
/// of `report`.
pub fn video_stream_info(report: ProbeReport) -> (r: Result<StreamInfo, ProbeError>)
    ensures
        stream_info_of(report, r),
{
    let ghost whole = report;
    let format_duration = report.format_duration;
    let streams = report.streams;
    let mut streams = match streams {
        Some(v) => v,
        None => return Err(ProbeError::NoVideoStream),
    };
    let ghost all = streams@;
    let n = streams.len();
    let mut i: usize = 0;
    while i < n
        invariant
            n == streams@.len(),
            streams@ == all,
            whole.streams matches Some(v) && v@ == all,
            whole == report,
            format_duration == whole.format_duration,
            i <= n,
            forall|j: int| 0 <= j < i ==> !is_video_stream(#[trigger] all[j]),
        decreases n - i,
    {
        let found = match &streams[i].codec_type {
            Some(t) => same_text(t.as_str(), "video"),
            None => false,
        };
        if found {
            let s = streams.remove(i);
            let frame_rate = match s.r_frame_rate {
                Some(t) => t,
                None => "30/1".to_owned(),
            };
            let width = match s.width {
                Some(w) => w,
                None => 1920,
            };
            let height = match s.height {
                Some(h) => h,
                None => 1080,
            };
            let mut duration_texts: Vec<String> = Vec::new();
            texts_of(s.duration, &mut duration_texts);
            texts_of(format_duration, &mut duration_texts);
            let info = StreamInfo {
                frame_rate,
                width: #[verifier::truncate] (width as i32),
                height: #[verifier::truncate] (height as i32),
                duration_texts,
            };
            assert(info_from(info, all[i as int], whole.format_duration));
            return Ok(info);
        }
        i = i + 1;
    }
    Err(ProbeError::NoVideoStream)
}

/// Reads the video stream information out of the ffprobe output `json`.
pub fn probe_video(json: &[u8]) -> (r: Result<StreamInfo, ProbeError>)
    ensures
        match probe_report(json@) {
            None => r == Err::<StreamInfo, ProbeError>(ProbeError::InvalidJson),
            Some(report) => stream_info_of(report, r),
        },
{
    match decode_probe(json) {
        Some(report) => video_stream_info(report),
        None => Err(ProbeError::InvalidJson),
    }
}

} // verus!
