//! Time segments in which humans were seen, and the scan that finds them in
//! a run of per-frame detections.
//!
//! Times are whole microseconds (`i64`), confidences are whole millionths
//! (`i64`, so `1_000_000` stands for a confidence of `1.0`).
use vstd::prelude::*;

use crate::detection::Detection;
use crate::text::{
    decimal, fixed_text, format_fixed, push_decimal, push_string, push_text, round_half_even, texts,
};

verus! {

/// A stretch of video `[start, end]` (microseconds) with human activity.
#[derive(Clone, Copy, Debug, PartialEq, Eq, Structural)]
pub struct Segment {
    pub start: i64,
    pub end: i64,
    /// Highest confidence seen in the stretch, in millionths.
    pub confidence: i64,
    /// Number of sampled frames that make up the stretch.
    pub frame_count: usize,
}

/// The larger of two confidences.
pub open spec fn max_of(a: int, b: int) -> int {
    if a >= b {
        a
    } else {
        b
    }
}

impl Segment {
    /// Length of the segment in microseconds (negative when `end < start`).
    pub open spec fn span(self) -> int {
        self.end - self.start
    }

    /// The segment after one more frame at time `end` with confidence `confidence`.
    pub open spec fn extended(self, end: i64, confidence: i64) -> Segment {
        Segment {
            start: self.start,
            end: end,
            confidence: max_of(self.confidence as int, confidence as int) as i64,
            frame_count: (self.frame_count + 1) as usize,
        }
    }

    /// A segment with no frames yet.
    pub fn new(start: i64, end: i64, confidence: i64) -> (s: Self)
        ensures
            s == (Segment { start, end, confidence, frame_count: 0 }),
    {
        Segment { start, end, confidence, frame_count: 0 }
    }

    /// `end - start`, in microseconds.
    pub fn duration(&self) -> (d: i128)
        ensures
            d == self.span(),
    {
        (self.end as i128) - (self.start as i128)
    }

    /// Grows the segment by one frame: the end moves to `end`, the confidence
    /// becomes the larger of the two, and the frame count goes up by one.
    pub fn extend(&mut self, end: i64, confidence: i64)
        requires
            old(self).frame_count < usize::MAX,
        ensures
            *final(self) == old(self).extended(end, confidence),
    {
        self.end = end;
        if confidence > self.confidence {
            self.confidence = confidence;
        }
        self.frame_count = self.frame_count + 1;
    }
}

/// Sum of the lengths of `s`.
pub open spec fn total_span(s: Seq<Segment>) -> int
    decreases s.len(),
{
    if s.len() == 0 {
        0
    } else {
        total_span(s.drop_last()) + s.last().span()
    }
}

/// Sum of the lengths of `s`, added up from the first and held within the
/// `i128` range after each addition.
pub open spec fn saturated_total(s: Seq<Segment>) -> int
    decreases s.len(),
{
    if s.len() == 0 {
        0
    } else {
        saturate_i128(saturated_total(s.drop_last()) + s.last().span())
    }
}

/// The sum of the lengths of any `k` segments is within `k * 2^64` of zero,
/// and holding it within `i128` changes nothing while `k` is below `2^63`.
proof fn lemma_saturated_total_exact(s: Seq<Segment>)
    requires
        s.len() <= i64::MAX,
    ensures
        -s.len() * 0x1_0000_0000_0000_0000 <= total_span(s) <= s.len() * 0x1_0000_0000_0000_0000,
        saturated_total(s) == total_span(s),
    decreases s.len(),
{
    if s.len() > 0 {
        lemma_saturated_total_exact(s.drop_last());
    }
}

/// Law: the human duration gathered by `add_segment` calls, starting from an
/// empty batch, is the sum of the lengths of the segments added, for any
/// number of segments a vector can hold.
pub proof fn law_human_duration_is_sum(s: Seq<Segment>)
    requires
        s.len() <= i64::MAX,
    ensures
        saturated_total(s) == total_span(s),
{
    lemma_saturated_total_exact(s);
}

/// Sum of the frame counts of `s`.
pub open spec fn total_frames(s: Seq<Segment>) -> int
    decreases s.len(),
{
    if s.len() == 0 {
        0
    } else {
        total_frames(s.drop_last()) + s.last().frame_count
    }
}

/// Frame counts add up to a non-negative number.
pub proof fn lemma_total_frames_nonneg(s: Seq<Segment>)
    ensures
        total_frames(s) >= 0,
    decreases s.len(),
{
    if s.len() > 0 {
        lemma_total_frames_nonneg(s.drop_last());
    }
}

/// `v` held within the `i128` range.
pub open spec fn saturate_i128(v: int) -> int {
    if v > i128::MAX {
        i128::MAX as int
    } else if v < i128::MIN {
        i128::MIN as int
    } else {
        v
    }
}

/// `magnitude * 1_000_000 / total`, rounded down, with whether the division
/// is exact; or any value above `i128::MAX` when that quotient is above
/// `i128::MAX`.
fn scaled_quotient(magnitude: u128, total: u128) -> (r: (u128, bool))
    requires
        0 < total <= i64::MAX,
        magnitude <= 0x8000_0000_0000_0000_0000_0000_0000_0000,
    ensures
        (r.0 <= i128::MAX || magnitude * 1_000_000 / (total as int) <= i128::MAX) ==> r.0
            == magnitude * 1_000_000 / (total as int) && r.1 == ((magnitude * 1_000_000) % (
        total as int) == 0),
        r.0 > i128::MAX ==> magnitude * 1_000_000 / (total as int) > i128::MAX,
{
    let q = magnitude / total;
    let rem = magnitude % total;
    let limit: u128 = 0x8000_0000_0000_0000_0000_0000_0000_0000 / 1_000_000;
    proof {
        vstd::arithmetic::div_mod::lemma_fundamental_div_mod(magnitude as int, total as int);
        vstd::arithmetic::div_mod::lemma_mod_bound(magnitude as int, total as int);
    }
    let ghost x = magnitude * 1_000_000;
    if q > limit {
        proof {
            assert(x >= q * 1_000_000 * total) by (nonlinear_arith)
                requires
                    x == magnitude * 1_000_000,
                    magnitude == total * q + rem,
                    rem >= 0,
                    total >= 1,
            ;
            vstd::arithmetic::div_mod::lemma_div_is_ordered(
                q * 1_000_000 * total,
                x,
                total as int,
            );
            vstd::arithmetic::div_mod::lemma_div_by_multiple(q * 1_000_000, total as int);
        }
        return (u128::MAX, false);
    }
    assert(rem * 1_000_000 < 0x1_0000_0000_0000_0000_0000_0000);
    let q2 = (rem * 1_000_000) / total;
    let rem2 = (rem * 1_000_000) % total;
    proof {
        vstd::arithmetic::div_mod::lemma_fundamental_div_mod(rem * 1_000_000, total as int);
        vstd::arithmetic::div_mod::lemma_mod_bound(rem * 1_000_000, total as int);
        assert(x == (q * 1_000_000 + q2) * total + rem2) by (nonlinear_arith)
            requires
                x == magnitude * 1_000_000,
                magnitude == total * q + rem,
                rem * 1_000_000 == total * q2 + rem2,
        ;
        vstd::arithmetic::div_mod::lemma_fundamental_div_mod_converse(
            x,
            total as int,
            q * 1_000_000 + q2,
            rem2 as int,
        );
        assert(q2 < 1_000_000) by (nonlinear_arith)
            requires
                rem < total,
                rem * 1_000_000 == total * q2 + rem2,
                rem2 >= 0,
                total >= 1,
        ;
    }
    (q * 1_000_000 + q2, rem2 == 0)
}

/// `n / d` rounded to odd: rounded down, then up to the next whole number
/// when the division is not exact and the result would be even. A value
/// rounded to odd keeps enough of what was cut off that rounding it again
/// to fewer digits gives the same result as rounding `n / d` once.
pub open spec fn odd_quotient(n: nat, d: nat) -> nat {
    let q = n / d;
    if n % d == 0 || q % 2 == 1 {
        q
    } else {
        q + 1
    }
}

/// `human_duration / total_duration` in millionths, its magnitude rounded to
/// odd, and `0` when the total duration is not positive.
pub open spec fn ratio_millionths(human: int, total: int) -> int {
    if total > 0 {
        if human >= 0 {
            odd_quotient((human * 1_000_000) as nat, total as nat) as int
        } else {
            -(odd_quotient(((-human) * 1_000_000) as nat, total as nat) as int)
        }
    } else {
        0
    }
}

/// Rounding a quotient to odd and then to the nearest hundredth (exact
/// halves to even) is rounding it once to the nearest hundredth.
proof fn lemma_odd_then_half_even(a: nat, t: nat)
    requires
        t > 0,
    ensures
        round_half_even(odd_quotient(100 * a, t), 100) == round_half_even(a, t),
{
    let qa = a / t;
    let ra = a % t;
    vstd::arithmetic::div_mod::lemma_fundamental_div_mod(a as int, t as int);
    vstd::arithmetic::div_mod::lemma_mod_bound(a as int, t as int);
    let hr = 100 * ra;
    let s = hr / t;
    let r = hr % t;
    vstd::arithmetic::div_mod::lemma_fundamental_div_mod(hr as int, t as int);
    vstd::arithmetic::div_mod::lemma_mod_bound(hr as int, t as int);
    let x = 100 * a;
    assert(x == t * (100 * qa + s) + r) by (nonlinear_arith)
        requires
            a == t * qa + ra,
            hr == 100 * ra,
            hr == t * s + r,
            x == 100 * a,
    ;
    vstd::arithmetic::div_mod::lemma_fundamental_div_mod_converse(
        x as int,
        t as int,
        (100 * qa + s) as int,
        r as int,
    );
    assert(s < 100) by (nonlinear_arith)
        requires
            ra < t,
            hr == 100 * ra,
            hr == t * s + r,
            r >= 0,
    ;
    if 2 * ra == t {
        assert(hr == t * 50 + 0);
        vstd::arithmetic::div_mod::lemma_fundamental_div_mod_converse(hr as int, t as int, 50, 0);
    } else if 2 * ra > t {
        assert(s >= 50) by (nonlinear_arith)
            requires
                2 * ra > t,
                hr == 100 * ra,
                hr == t * s + r,
                r < t,
                t > 0,
        ;
        if s == 50 {
            assert(r > 0) by (nonlinear_arith)
                requires
                    2 * ra > t,
                    hr == 100 * ra,
                    hr == t * s + r,
                    s == 50,
            ;
        }
    } else {
        assert(s < 50) by (nonlinear_arith)
            requires
                2 * ra < t,
                hr == 100 * ra,
                hr == t * s + r,
                r >= 0,
                t > 0,
        ;
    }
    let q = 100 * qa + s;
    let o = odd_quotient(x, t);
    assert(q % 2 == s % 2);
    let op: int = o - 100 * qa;
    assert(0 <= op < 100);
    vstd::arithmetic::div_mod::lemma_fundamental_div_mod_converse(o as int, 100, qa as int, op);
}

/// Law: the compression ratio written as a percentage with two decimals
/// from its value in millionths is the exact ratio rounded once to two
/// decimals (exact halves to even).
pub proof fn law_ratio_text_rounds_once(human: int, total: int)
    requires
        total > 0,
    ensures
        fixed_text(ratio_millionths(human, total), 100, 2) == fixed_text(
            human * 10_000,
            total as nat,
            2,
        ),
{
    let a: nat = if human < 0 {
        (-human) as nat
    } else {
        human as nat
    };
    assert(a * 1_000_000 == 100 * (a * 10_000));
    lemma_odd_then_half_even((a * 10_000) as nat, total as nat);
    if human < 0 {
        assert((-human) * 1_000_000 > 0) by (nonlinear_arith)
            requires
                human < 0,
        ;
        let n = ((-human) * 1_000_000) as nat;
        let t = total as nat;
        vstd::arithmetic::div_mod::lemma_fundamental_div_mod(n as int, t as int);
        assert(n > 0);
        if n / t == 0 {
            assert(t * (n / t) == 0);
            assert(n % t == n);
        }
        assert(odd_quotient(n, t) > 0);
        assert(human * 10_000 < 0) by (nonlinear_arith)
            requires
                human < 0,
        ;
    } else {
        assert(human * 10_000 >= 0) by (nonlinear_arith)
            requires
                human >= 0,
        ;
    }
}

/// The segments found in one video, with their statistics.
#[derive(Clone, Debug)]
pub struct SegmentBatch {
    pub input_file: String,
    pub segments: Vec<Segment>,
    /// Length of the whole video, in microseconds.
    pub total_duration: i64,
    /// Sum of the segment lengths, in microseconds.
    pub human_duration: i128,
    /// `human_duration / total_duration`, in millionths, rounded to odd
    /// (see `ratio_millionths`).
    pub compression_ratio: i128,
}

impl SegmentBatch {
    /// An empty batch for `input_file`.
    pub fn new(input_file: String) -> (b: Self)
        ensures
            b.input_file == input_file,
            b.segments@ == Seq::<Segment>::empty(),
            b.total_duration == 0,
            b.human_duration == 0,
            b.compression_ratio == 0,
    {
        SegmentBatch {
            input_file,
            segments: Vec::new(),
            total_duration: 0,
            human_duration: 0,
            compression_ratio: 0,
        }
    }

    /// Appends `segment` and adds its length to the human duration (held at
    /// the ends of the `i128` range).
    pub fn add_segment(&mut self, segment: Segment)
        ensures
            final(self).segments@ == old(self).segments@.push(segment),
            final(self).human_duration == saturate_i128(old(self).human_duration + segment.span()),
            final(self).input_file == old(self).input_file,
            final(self).total_duration == old(self).total_duration,
            final(self).compression_ratio == old(self).compression_ratio,
    {
        let d = segment.duration();
        let h = self.human_duration;
        if d > 0 && h > i128::MAX - d {
            self.human_duration = i128::MAX;
        } else if d < 0 && h < i128::MIN - d {
            self.human_duration = i128::MIN;
        } else {
            self.human_duration = h + d;
        }
        self.segments.push(segment);
    }

    /// A batch for `input_file` with `segments` added one by one by
    /// `add_segment`: it holds them in order, and its human duration is the
    /// sum of their lengths.
    pub fn with_segments(input_file: String, segments: &[Segment]) -> (b: Self)
        ensures
            b.input_file == input_file,
            b.segments@ == segments@,
            b.total_duration == 0,
            b.compression_ratio == 0,
            b.human_duration == saturated_total(segments@),
            segments@.len() <= i64::MAX ==> b.human_duration == total_span(segments@),
    {
        let ghost file = input_file;
        let mut batch = SegmentBatch::new(input_file);
        let n = segments.len();
        let mut i: usize = 0;
        while i < n
            invariant
                n == segments@.len(),
                i <= n,
                batch.segments@ == segments@.take(i as int),
                batch.human_duration == saturated_total(segments@.take(i as int)),
                batch.input_file == file,
                batch.total_duration == 0,
                batch.compression_ratio == 0,
            decreases n - i,
        {
            proof {
                assert(segments@.take(i as int + 1).drop_last() =~= segments@.take(i as int));
            }
            batch.add_segment(segments[i]);
            assert(batch.segments@ =~= segments@.take(i as int + 1));
            i = i + 1;
        }
        assert(segments@.take(n as int) =~= segments@);
        proof {
            if segments@.len() <= i64::MAX {
                lemma_saturated_total_exact(segments@);
            }
        }
        batch
    }

    /// The summary of the batch, one line per element.
    pub fn summary_lines(&self) -> (lines: Vec<String>)
        ensures
            texts(lines@) == summary_text(
                self.input_file@,
                self.segments@,
                self.total_duration as int,
                self.human_duration as int,
                self.compression_ratio as int,
            ),
    {
        let mut lines: Vec<String> = Vec::new();
        push_text(&mut lines, "=== Segment Analysis ===");
        let mut input = "Input file: ".to_owned();
        input.append(self.input_file.as_str());
        push_string(&mut lines, input);
        let mut total = "Total duration: ".to_owned();
        total.append(format_fixed(self.total_duration as i128, 10_000, 2).as_str());
        total.append(" seconds");
        push_string(&mut lines, total);
        let mut human = "Human activity: ".to_owned();
        human.append(format_fixed(self.human_duration, 10_000, 2).as_str());
        human.append(" seconds");
        push_string(&mut lines, human);
        let mut ratio = "Compression ratio: ".to_owned();
        ratio.append(format_fixed(self.compression_ratio, 100, 2).as_str());
        ratio.append("%");
        push_string(&mut lines, ratio);
        let mut count = "Number of segments: ".to_owned();
        push_decimal(&mut count, self.segments.len() as u128);
        push_string(&mut lines, count);
        push_string(&mut lines, String::new());
        let ghost head = texts(lines@);
        let n = self.segments.len();
        let mut i: usize = 0;
        while i < n
            invariant
                n == self.segments@.len(),
                i <= n,
                texts(lines@) == head + Seq::new(
                    i as nat,
                    |k: int| segment_line(k, self.segments@[k]),
                ),
            decreases n - i,
        {
            let line = segment_summary_line(i, &self.segments[i]);
            push_string(&mut lines, line);
            assert(texts(lines@) =~= head + Seq::new(
                (i + 1) as nat,
                |k: int| segment_line(k, self.segments@[k]),
            ));
            i = i + 1;
        }
        assert(texts(lines@) =~= summary_text(
            self.input_file@,
            self.segments@,
            self.total_duration as int,
            self.human_duration as int,
            self.compression_ratio as int,
        ));
        lines
    }

    /// Sets the compression ratio from the human and total durations, in
    /// millionths rounded to odd (held at the ends of the `i128` range).
    pub fn calculate_statistics(&mut self)
        ensures
            final(self).compression_ratio == saturate_i128(
                ratio_millionths(old(self).human_duration as int, old(self).total_duration as int),
            ),
            final(self).segments@ == old(self).segments@,
            final(self).human_duration == old(self).human_duration,
            final(self).input_file == old(self).input_file,
            final(self).total_duration == old(self).total_duration,
    {
        if self.total_duration > 0 {
            let h = self.human_duration;
            let magnitude: u128 = if h < 0 {
                (-(h + 1)) as u128 + 1
            } else {
                h as u128
            };
            let (quotient, exact) = scaled_quotient(magnitude, self.total_duration as u128);
            let ratio = if exact || quotient % 2 == 1 || quotient > i128::MAX as u128 {
                quotient
            } else {
                quotient + 1
            };
            if h >= 0 {
                self.compression_ratio = if ratio > i128::MAX as u128 {
                    i128::MAX
                } else {
                    ratio as i128
                };
            } else {
                self.compression_ratio = if ratio > i128::MAX as u128 {
                    i128::MIN
                } else {
                    -(ratio as i128)
                };
            }
        } else {
            self.compression_ratio = 0;
        }
    }
}

/// The summary line of segment number `i` (counting from zero): times and
/// the duration in seconds, and the confidence, each with two decimals.
pub open spec fn segment_line(i: int, s: Segment) -> Seq<char> {
    "  Segment "@ + decimal((i + 1) as nat) + ": "@ + fixed_text(s.start as int, 10_000, 2)
        + "s - "@ + fixed_text(s.end as int, 10_000, 2) + "s (duration: "@ + fixed_text(
        s.span(),
        10_000,
        2,
    ) + "s, confidence: "@ + fixed_text(s.confidence as int, 10_000, 2) + ")"@
}

/// The summary of a batch, line by line: the input file, the total and
/// human durations in seconds and the compression ratio in percent (two
/// decimals each), the number of segments, an empty line, and a line per
/// segment.
pub open spec fn summary_text(
    input: Seq<char>,
    segments: Seq<Segment>,
    total: int,
    human: int,
    ratio: int,
) -> Seq<Seq<char>> {
    seq![
        "=== Segment Analysis ==="@,
        "Input file: "@ + input,
        "Total duration: "@ + fixed_text(total, 10_000, 2) + " seconds"@,
        "Human activity: "@ + fixed_text(human, 10_000, 2) + " seconds"@,
        "Compression ratio: "@ + fixed_text(ratio, 100, 2) + "%"@,
        "Number of segments: "@ + decimal(segments.len()),
        Seq::<char>::empty(),
    ] + Seq::new(segments.len(), |i: int| segment_line(i, segments[i]))
}

/// Law: the summary has seven lines (the heading, the input file, the total
/// and human durations in seconds and the compression ratio in percent with
/// two decimals, the number of segments, an empty line), then, for each
/// segment of the batch in order, the line that numbers it from one and
/// gives its start, end, length and confidence with two decimals.
pub proof fn law_summary_lists_segments_in_order(
    input: Seq<char>,
    segments: Seq<Segment>,
    total: int,
    human: int,
    ratio: int,
)
    ensures
        summary_text(input, segments, total, human, ratio).len() == 7 + segments.len(),
        summary_text(input, segments, total, human, ratio)[0] == "=== Segment Analysis ==="@,
        summary_text(input, segments, total, human, ratio)[1] == "Input file: "@ + input,
        summary_text(input, segments, total, human, ratio)[2] == "Total duration: "@ + fixed_text(
            total,
            10_000,
            2,
        ) + " seconds"@,
        summary_text(input, segments, total, human, ratio)[3] == "Human activity: "@ + fixed_text(
            human,
            10_000,
            2,
        ) + " seconds"@,
        summary_text(input, segments, total, human, ratio)[4] == "Compression ratio: "@
            + fixed_text(ratio, 100, 2) + "%"@,
        summary_text(input, segments, total, human, ratio)[5] == "Number of segments: "@ + decimal(
            segments.len(),
        ),
        summary_text(input, segments, total, human, ratio)[6] == Seq::<char>::empty(),
        forall|k: int|
            #![trigger segments[k]]
            0 <= k < segments.len() ==> summary_text(input, segments, total, human, ratio)[7 + k]
                == "  Segment "@ + decimal((k + 1) as nat) + ": "@ + fixed_text(
                segments[k].start as int,
                10_000,
                2,
            ) + "s - "@ + fixed_text(segments[k].end as int, 10_000, 2) + "s (duration: "@
                + fixed_text(segments[k].end - segments[k].start, 10_000, 2)
                + "s, confidence: "@ + fixed_text(segments[k].confidence as int, 10_000, 2)
                + ")"@,
{
}

/// The summary line of segment number `i` (counting from zero).
fn segment_summary_line(i: usize, s: &Segment) -> (line: String)
    requires
        i < usize::MAX,
    ensures
        line@ == segment_line(i as int, *s),
{
    let mut line = String::new();
    line.append("  Segment ");
    push_decimal(&mut line, (i + 1) as u128);
    line.append(": ");
    line.append(format_fixed(s.start as i128, 10_000, 2).as_str());
    line.append("s - ");
    line.append(format_fixed(s.end as i128, 10_000, 2).as_str());
    line.append("s (duration: ");
    line.append(format_fixed(s.duration(), 10_000, 2).as_str());
    line.append("s, confidence: ");
    line.append(format_fixed(s.confidence as i128, 10_000, 2).as_str());
    line.append(")");
    assert(line@ =~= segment_line(i as int, *s));
    line
}

/// What `filter_by_duration` keeps: segments at least `min` long.
pub open spec fn long_enough(min: i64) -> spec_fn(Segment) -> bool {
    |seg: Segment| seg.span() >= min
}

/// A new segment made of the single frame `d`.
pub open spec fn started(d: Detection) -> Segment {
    Segment { start: d.timestamp, end: d.timestamp, confidence: d.confidence, frame_count: 1 }
}

/// Closes the open segment `cur`: it is kept when it is at least `min` long.
pub open spec fn close(done: Seq<Segment>, cur: Option<Segment>, min: i64) -> Seq<Segment> {
    match cur {
        Some(s) => if s.span() >= min {
            done.push(s)
        } else {
            done
        },
        None => done,
    }
}

/// The scan over `dets`: the segments closed so far and the one still open.
pub open spec fn scan(dets: Seq<Detection>, min: i64) -> (Seq<Segment>, Option<Segment>)
    decreases dets.len(),
{
    if dets.len() == 0 {
        (Seq::empty(), None)
    } else {
        let (done, cur) = scan(dets.drop_last(), min);
        let d = dets.last();
        if d.has_humans {
            match cur {
                Some(s) => (done, Some(s.extended(d.timestamp, d.confidence))),
                None => (done, Some(started(d))),
            }
        } else {
            (close(done, cur, min), None)
        }
    }
}

/// The segments that `detect_segments` returns for `dets`: every maximal run
/// of frames with humans becomes one segment, kept when at least `min` long.
pub open spec fn detected(dets: Seq<Detection>, min: i64) -> Seq<Segment> {
    close(scan(dets, min).0, scan(dets, min).1, min)
}

/// Closes the open segment `cur`, keeping it whatever its length.
pub open spec fn close_all(done: Seq<Segment>, cur: Option<Segment>) -> Seq<Segment> {
    match cur {
        Some(s) => done.push(s),
        None => done,
    }
}

/// The scan over `dets` that keeps every run: the runs closed so far and the
/// one still open.
pub open spec fn runs_scan(dets: Seq<Detection>) -> (Seq<Segment>, Option<Segment>)
    decreases dets.len(),
{
    if dets.len() == 0 {
        (Seq::empty(), None)
    } else {
        let (done, cur) = runs_scan(dets.drop_last());
        let d = dets.last();
        if d.has_humans {
            match cur {
                Some(s) => (done, Some(s.extended(d.timestamp, d.confidence))),
                None => (done, Some(started(d))),
            }
        } else {
            (close_all(done, cur), None)
        }
    }
}

/// Every maximal run of frames with humans in `dets`, as a segment from its
/// first to its last frame, with the highest confidence and the number of
/// frames of the run.
pub open spec fn runs(dets: Seq<Detection>) -> Seq<Segment> {
    close_all(runs_scan(dets).0, runs_scan(dets).1)
}

/// Pushing onto a sequence and then filtering.
proof fn lemma_filter_push(done: Seq<Segment>, s: Segment, min: i64)
    ensures
        done.push(s).filter(long_enough(min)) == if s.span() >= min {
            done.filter(long_enough(min)).push(s)
        } else {
            done.filter(long_enough(min))
        },
{
    reveal_with_fuel(Seq::filter, 1);
    assert(done.push(s).drop_last() =~= done);
}

/// The scan with a minimum keeps, of the closed runs, those long enough,
/// and has the same run open.
proof fn lemma_scan_filters_runs(dets: Seq<Detection>, min: i64)
    ensures
        scan(dets, min).1 == runs_scan(dets).1,
        scan(dets, min).0 == runs_scan(dets).0.filter(long_enough(min)),
    decreases dets.len(),
{
    if dets.len() == 0 {
        reveal_with_fuel(Seq::filter, 1);
    } else {
        lemma_scan_filters_runs(dets.drop_last(), min);
        let (done, cur) = runs_scan(dets.drop_last());
        if let Some(s) = cur {
            lemma_filter_push(done, s, min);
        }
    }
}

/// Law: `detect_segments` returns, in order, exactly the runs of frames with
/// humans that last at least the minimum duration.
pub proof fn law_detected_is_filtered_runs(dets: Seq<Detection>, min: i64)
    ensures
        detected(dets, min) == runs(dets).filter(long_enough(min)),
{
    lemma_scan_filters_runs(dets, min);
    if let Some(s) = runs_scan(dets).1 {
        lemma_filter_push(runs_scan(dets).0, s, min);
    }
}

/// The first frame of the run of frames with humans that reaches frame `b`:
/// the earliest frame from which every frame up to `b` shows humans.
pub open spec fn run_start(dets: Seq<Detection>, b: int) -> int
    decreases b,
{
    if b > 0 && dets[b - 1].has_humans {
        run_start(dets, b - 1)
    } else {
        b
    }
}

/// The highest confidence among frames `a` to `b` of `dets`.
pub open spec fn run_confidence(dets: Seq<Detection>, a: int, b: int) -> int
    decreases b - a,
{
    if b <= a {
        dets[a].confidence as int
    } else {
        max_of(run_confidence(dets, a, b - 1), dets[b].confidence as int)
    }
}

/// Whether frame `b` shows humans and is the last frame of `dets` or is
/// followed by a frame without humans.
pub open spec fn ends_run(dets: Seq<Detection>, b: int) -> bool {
    &&& dets[b].has_humans
    &&& (b + 1 == dets.len() || !dets[b + 1].has_humans)
}

/// The segment of the run of frames with humans that ends at frame `b`:
/// from its first to its last frame, with its highest confidence and its
/// number of frames.
pub open spec fn run_segment(dets: Seq<Detection>, b: int) -> Segment {
    let a = run_start(dets, b);
    Segment {
        start: dets[a].timestamp,
        end: dets[b].timestamp,
        confidence: run_confidence(dets, a, b) as i64,
        frame_count: (b - a + 1) as usize,
    }
}

/// The frames of `dets` that end a run of frames with humans, in order.
pub open spec fn run_ends(dets: Seq<Detection>) -> Seq<int> {
    Seq::new(dets.len(), |i: int| i).filter(|b: int| ends_run(dets, b))
}

/// One segment for each maximal run of frames with humans in `dets`, in
/// frame order.
pub open spec fn maximal_runs(dets: Seq<Detection>) -> Seq<Segment> {
    run_ends(dets).map_values(|b: int| run_segment(dets, b))
}

/// The segments of the runs that end among the first `m` frames.
spec fn closed_runs(dets: Seq<Detection>, m: int) -> Seq<Segment>
    decreases m,
{
    if m <= 0 {
        Seq::empty()
    } else {
        let prev = closed_runs(dets, m - 1);
        if ends_run(dets, m - 1) {
            prev.push(run_segment(dets, m - 1))
        } else {
            prev
        }
    }
}

/// Whether `p` is a prefix of `q`.
spec fn is_prefix(p: Seq<Detection>, q: Seq<Detection>) -> bool {
    p.len() <= q.len() && forall|i: int| 0 <= i < p.len() ==> #[trigger] p[i] == q[i]
}

proof fn lemma_run_start_stable(p: Seq<Detection>, q: Seq<Detection>, b: int)
    requires
        is_prefix(p, q),
        0 <= b < p.len(),
    ensures
        run_start(q, b) == run_start(p, b),
        0 <= run_start(p, b) <= b,
    decreases b,
{
    if b > 0 {
        assert(p[b - 1] == q[b - 1]);
        lemma_run_start_stable(p, q, b - 1);
    }
}

proof fn lemma_run_confidence_stable(p: Seq<Detection>, q: Seq<Detection>, a: int, b: int)
    requires
        is_prefix(p, q),
        0 <= a <= b < p.len(),
    ensures
        run_confidence(q, a, b) == run_confidence(p, a, b),
        i64::MIN <= run_confidence(p, a, b) <= i64::MAX,
    decreases b - a,
{
    assert(p[a] == q[a]);
    assert(p[b] == q[b]);
    if b > a {
        lemma_run_confidence_stable(p, q, a, b - 1);
    }
}

proof fn lemma_run_segment_stable(p: Seq<Detection>, q: Seq<Detection>, b: int)
    requires
        is_prefix(p, q),
        0 <= b < p.len(),
    ensures
        run_segment(q, b) == run_segment(p, b),
{
    lemma_run_start_stable(p, q, b);
    let a = run_start(p, b);
    lemma_run_confidence_stable(p, q, a, b);
    assert(p[a] == q[a]);
    assert(p[b] == q[b]);
}

proof fn lemma_closed_runs_stable(p: Seq<Detection>, q: Seq<Detection>, m: int)
    requires
        is_prefix(p, q),
        m < p.len(),
    ensures
        closed_runs(q, m) == closed_runs(p, m),
    decreases m,
{
    if m > 0 {
        lemma_closed_runs_stable(p, q, m - 1);
        assert(p[m - 1] == q[m - 1]);
        assert(p[m] == q[m]);
        lemma_run_segment_stable(p, q, m - 1);
    }
}

/// The scan that keeps every run has closed exactly the runs that end before
/// the last frame, and has open the run that ends at the last frame, if any.
proof fn lemma_runs_scan_direct(dets: Seq<Detection>)
    requires
        dets.len() <= usize::MAX,
    ensures
        runs_scan(dets).0 == closed_runs(dets, dets.len() - 1),
        runs_scan(dets).1 == if dets.len() > 0 && dets.last().has_humans {
            Some(run_segment(dets, dets.len() - 1))
        } else {
            None::<Segment>
        },
    decreases dets.len(),
{
    if dets.len() > 0 {
        let p = dets.drop_last();
        let m = p.len() as int;
        lemma_runs_scan_direct(p);
        assert(is_prefix(p, dets));
        let (done, cur) = runs_scan(p);
        let d = dets.last();
        assert(d == dets[m]);
        if m > 0 {
            assert(p[m - 1] == dets[m - 1]);
            lemma_closed_runs_stable(p, dets, m - 1);
            lemma_run_segment_stable(p, dets, m - 1);
            lemma_run_start_stable(p, dets, m - 1);
        }
        if d.has_humans {
            if let Some(s) = cur {
                let a = run_start(dets, m - 1);
                assert(run_start(dets, m) == a);
                lemma_run_confidence_stable(p, dets, a, m - 1);
                assert(run_confidence(dets, a, m) == max_of(
                    run_confidence(dets, a, m - 1),
                    d.confidence as int,
                ));
                assert(s.extended(d.timestamp, d.confidence) == run_segment(dets, m));
            }
        }
    }
}

/// The runs that end among the first `m` frames are those of the frames
/// among the first `m` that end a run, in order.
proof fn lemma_closed_runs_direct(dets: Seq<Detection>, m: int)
    requires
        0 <= m <= dets.len(),
    ensures
        closed_runs(dets, m) == Seq::new(m as nat, |i: int| i).filter(
            |b: int| ends_run(dets, b),
        ).map_values(|b: int| run_segment(dets, b)),
    decreases m,
{
    reveal_with_fuel(Seq::filter, 1);
    let idx = Seq::new(m as nat, |i: int| i);
    let f = |b: int| ends_run(dets, b);
    let g = |b: int| run_segment(dets, b);
    if m > 0 {
        lemma_closed_runs_direct(dets, m - 1);
        let prev = Seq::new((m - 1) as nat, |i: int| i);
        assert(idx.drop_last() =~= prev);
        assert(idx.last() == m - 1);
        let fp = prev.filter(f);
        assert(fp.push(m - 1).map_values(g) =~= fp.map_values(g).push(g(m - 1)));
    } else {
        assert(idx =~= Seq::<int>::empty());
        assert(idx.filter(f).map_values(g) =~= Seq::<Segment>::empty());
    }
}

/// From the first frame of the run that reaches a frame with humans up to
/// that frame, every frame shows humans.
pub proof fn lemma_run_start_humans(dets: Seq<Detection>, b: int)
    requires
        0 <= b < dets.len(),
        dets[b].has_humans,
    ensures
        0 <= run_start(dets, b) <= b,
        forall|i: int| run_start(dets, b) <= i <= b ==> (#[trigger] dets[i]).has_humans,
    decreases b,
{
    if b > 0 && dets[b - 1].has_humans {
        lemma_run_start_humans(dets, b - 1);
    }
}

/// Law: when no stretch of consecutive frames with humans lasts the
/// minimum duration (from its first frame's time to its last's), the scan
/// finds no segment.
pub proof fn law_short_runs_give_no_segments(dets: Seq<Detection>, min: i64)
    requires
        dets.len() <= usize::MAX,
        forall|a: int, b: int|
            #![trigger dets[a], dets[b]]
            0 <= a <= b < dets.len() && (forall|i: int| a <= i <= b ==> (#[trigger] dets[i]).has_humans)
                ==> dets[b].timestamp - dets[a].timestamp < min,
    ensures
        detected(dets, min).len() == 0,
{
    law_runs_are_maximal_runs(dets, min);
    let ends = run_ends(dets);
    let idx = Seq::new(dets.len(), |i: int| i);
    let f = |b: int| ends_run(dets, b);
    idx.filter_lemma(f);
    let runs = maximal_runs(dets);
    assert forall|k: int| 0 <= k < runs.len() implies !long_enough(min)(#[trigger] runs[k]) by {
        let b = ends[k];
        assert(f(ends[k]));
        assert(ends.contains(b));
        idx.lemma_filter_contains_rev(f, b);
        let j = choose|j: int| 0 <= j < idx.len() && idx[j] == b;
        assert(0 <= b < dets.len());
        lemma_run_start_humans(dets, b);
        let a = run_start(dets, b);
        assert(dets[a] == dets[a] && dets[b] == dets[b]);
        assert(runs[k] == run_segment(dets, b));
    }
    runs.lemma_all_neg_filter_empty(long_enough(min));
}

/// Law: the runs of frames with humans are, in frame order, one segment for
/// each frame that ends a run: from the first frame of its run to it, with
/// the highest confidence and the number of frames of the run. So
/// `detect_segments` returns exactly those of them that last at least the
/// minimum duration.
pub proof fn law_runs_are_maximal_runs(dets: Seq<Detection>, min: i64)
    requires
        dets.len() <= usize::MAX,
    ensures
        runs(dets) == maximal_runs(dets),
        detected(dets, min) == maximal_runs(dets).filter(long_enough(min)),
{
    lemma_runs_scan_direct(dets);
    lemma_closed_runs_direct(dets, dets.len() as int);
    let n = dets.len() as int;
    if n > 0 {
        assert(dets.last() == dets[n - 1]);
    }
    assert(runs(dets) == closed_runs(dets, n));
    law_detected_is_filtered_runs(dets, min);
}

/// Number of frames in `dets` that show humans.
pub open spec fn human_frames(dets: Seq<Detection>) -> int
    decreases dets.len(),
{
    if dets.len() == 0 {
        0
    } else {
        human_frames(dets.drop_last()) + if dets.last().has_humans {
            1int
        } else {
            0int
        }
    }
}

/// Frames counted by the scan never exceed the frames with humans, and there
/// are never more segments than frames.
proof fn lemma_scan_counts(dets: Seq<Detection>, min: i64)
    requires
        dets.len() <= usize::MAX,
    ensures
        total_frames(scan(dets, min).0) + match scan(dets, min).1 {
            Some(s) => s.frame_count as int,
            None => 0int,
        } <= human_frames(dets),
        scan(dets, min).0.len() + match scan(dets, min).1 {
            Some(s) => 1int,
            None => 0int,
        } <= dets.len(),
        human_frames(dets) <= dets.len(),
        scan(dets, min).1 is Some ==> scan(dets, min).1.unwrap().frame_count >= 1,
    decreases dets.len(),
{
    if dets.len() > 0 {
        lemma_scan_counts(dets.drop_last(), min);
        let (done, cur) = scan(dets.drop_last(), min);
        lemma_total_frames_nonneg(done);
        let d = dets.last();
        if !d.has_humans {
            if let Some(s) = cur {
                if s.span() >= min {
                    assert(done.push(s).drop_last() =~= done);
                }
            }
        } else {
            if let Some(s) = cur {
                assert(s.frame_count + 1 <= usize::MAX) by {
                    assert(s.frame_count <= human_frames(dets.drop_last()));
                    assert(human_frames(dets.drop_last()) < dets.len());
                };
            }
        }
    }
}

/// Every segment of `close(done, cur, min)` is at least `min` long when every
/// segment of `done` is.
proof fn lemma_close_long(done: Seq<Segment>, cur: Option<Segment>, min: i64)
    requires
        forall|k: int| 0 <= k < done.len() ==> #[trigger] done[k].span() >= min,
    ensures
        forall|k: int|
            0 <= k < close(done, cur, min).len() ==> #[trigger] close(done, cur, min)[k].span()
                >= min,
{
}

/// All closed segments of the scan are at least `min` long.
proof fn lemma_scan_long(dets: Seq<Detection>, min: i64)
    ensures
        forall|k: int|
            0 <= k < scan(dets, min).0.len() ==> #[trigger] scan(dets, min).0[k].span() >= min,
    decreases dets.len(),
{
    if dets.len() > 0 {
        lemma_scan_long(dets.drop_last(), min);
        let (done, cur) = scan(dets.drop_last(), min);
        lemma_close_long(done, cur, min);
    }
}

/// Frame counts of the closed segments never exceed the frames with humans.
pub proof fn lemma_detected_counts(dets: Seq<Detection>, min: i64)
    requires
        dets.len() <= usize::MAX,
    ensures
        total_frames(detected(dets, min)) <= human_frames(dets),
        detected(dets, min).len() <= dets.len(),
        human_frames(dets) <= dets.len(),
{
    lemma_scan_counts(dets, min);
    let (done, cur) = scan(dets, min);
    if let Some(s) = cur {
        if s.span() >= min {
            assert(done.push(s).drop_last() =~= done);
        }
    }
}

/// Law: every segment that `detect_segments` returns lasts at least the
/// minimum segment duration.
pub proof fn law_detected_segments_are_long_enough(dets: Seq<Detection>, min: i64)
    ensures
        forall|k: int|
            0 <= k < detected(dets, min).len() ==> #[trigger] detected(dets, min)[k].span() >= min,
{
    lemma_scan_long(dets, min);
    lemma_close_long(scan(dets, min).0, scan(dets, min).1, min);
}

/// A scan over frames none of which show humans opens and closes nothing.
proof fn lemma_scan_no_humans(dets: Seq<Detection>, min: i64)
    requires
        forall|i: int| 0 <= i < dets.len() ==> !(#[trigger] dets[i]).has_humans,
    ensures
        scan(dets, min).0.len() == 0,
        scan(dets, min).1 is None,
    decreases dets.len(),
{
    if dets.len() > 0 {
        lemma_scan_no_humans(dets.drop_last(), min);
        assert(!dets[dets.len() - 1].has_humans);
    }
}

/// Law: when no frame shows humans, `detect_segments` returns no segment.
pub proof fn law_no_humans_no_segments(dets: Seq<Detection>, min: i64)
    requires
        forall|i: int| 0 <= i < dets.len() ==> !(#[trigger] dets[i]).has_humans,
    ensures
        detected(dets, min).len() == 0,
{
    lemma_scan_no_humans(dets, min);
}

/// Law: the frames counted in the returned segments are at most the frames
/// that show humans.
pub proof fn law_detected_frames_bounded(dets: Seq<Detection>, min: i64)
    requires
        dets.len() <= usize::MAX,
    ensures
        total_frames(detected(dets, min)) <= human_frames(dets),
{
    lemma_detected_counts(dets, min);
}

/// Finds the segments of consecutive frames with humans in `detections`
/// (in frame order) and keeps those at least `config.min_segment_duration`
/// long.
pub fn detect_segments(detections: &[Detection], config: &crate::config::Config) -> (segments: Vec<
    Segment,
>)
    ensures
        segments@ == detected(detections@, config.min_segment_duration),
{
    let min = config.min_segment_duration;
    let mut segments: Vec<Segment> = Vec::new();
    let mut current: Option<Segment> = None;
    let n = detections.len();
    let mut i: usize = 0;
    while i < n
        invariant
            n == detections@.len(),
            i <= n,
            (segments@, current) == scan(detections@.take(i as int), min),
        decreases n - i,
    {
        let ghost prefix = detections@.take(i as int);
        assert(detections@.take(i as int + 1).drop_last() =~= prefix);
        proof {
            lemma_scan_counts(prefix, min);
            lemma_total_frames_nonneg(segments@);
        }
        let detection = &detections[i];
        if detection.has_humans {
            match current {
                Some(segment) => {
                    let mut grown = segment;
                    grown.extend(detection.timestamp, detection.confidence);
                    current = Some(grown);
                },
                None => {
                    let mut fresh = Segment::new(
                        detection.timestamp,
                        detection.timestamp,
                        detection.confidence,
                    );
                    fresh.frame_count = 1;
                    current = Some(fresh);
                },
            }
        } else {
            match current {
                Some(segment) => {
                    if segment.duration() >= min as i128 {
                        segments.push(segment);
                    }
                },
                None => {},
            }
            current = None;
        }
        i = i + 1;
    }
    assert(detections@.take(n as int) =~= detections@);
    match current {
        Some(segment) => {
            if segment.duration() >= min as i128 {
                segments.push(segment);
            }
        },
        None => {},
    }
    segments
}

/// Whether every segment of `s` starts no later than it ends and ends no
/// later than any later segment starts.
pub open spec fn chronological(s: Seq<Segment>) -> bool {
    &&& forall|i: int| 0 <= i < s.len() ==> (#[trigger] s[i]).start <= s[i].end
    &&& forall|i: int, j: int| 0 <= i < j < s.len() ==> (#[trigger] s[i]).end <= (#[trigger] s[j]).start
}

/// Whether the frames of `dets` come in time order.
pub open spec fn timestamps_ordered(dets: Seq<Detection>) -> bool {
    forall|i: int, j: int|
        0 <= i < j < dets.len() ==> (#[trigger] dets[i]).timestamp <= (#[trigger] dets[j]).timestamp
}

/// Appending a segment that starts no later than it ends, and no earlier than
/// every segment before it ends, keeps a sequence in time order; with a
/// strict gap before it, a strictly ordered sequence stays strictly ordered.
proof fn lemma_push_chronological(done: Seq<Segment>, s: Segment)
    requires
        chronological(done),
        s.start <= s.end,
        forall|k: int| 0 <= k < done.len() ==> (#[trigger] done[k]).end <= s.start,
    ensures
        chronological(done.push(s)),
        strictly_chronological(done) && (forall|k: int|
            0 <= k < done.len() ==> (#[trigger] done[k]).end < s.start) ==> strictly_chronological(
            done.push(s),
        ),
{
    let nd = done.push(s);
    assert forall|i: int, j: int| 0 <= i < j < nd.len() implies (#[trigger] nd[i]).end <= (
    #[trigger] nd[j]).start by {
        if j == nd.len() - 1 {
            assert(done[i].end <= s.start);
        } else {
            assert(done[i].end <= done[j].start);
        }
    }
    if strictly_chronological(done) && (forall|k: int|
        0 <= k < done.len() ==> (#[trigger] done[k]).end < s.start) {
        assert forall|i: int, j: int| 0 <= i < j < nd.len() implies (#[trigger] nd[i]).end < (
        #[trigger] nd[j]).start by {
            if j == nd.len() - 1 {
                assert(done[i].end < s.start);
            } else {
                assert(done[i].end < done[j].start);
            }
        }
    }
}

/// The scan over frames in time order keeps its closed segments in time
/// order, ahead of the open one, which ends at the latest frame.
proof fn lemma_scan_chronological(dets: Seq<Detection>, min: i64)
    requires
        timestamps_ordered(dets),
    ensures
        chronological(scan(dets, min).0),
        dets.len() > 0 ==> forall|k: int|
            0 <= k < scan(dets, min).0.len() ==> (#[trigger] scan(dets, min).0[k]).end
                <= dets.last().timestamp,
        scan(dets, min).1 matches Some(s) ==> {
            &&& dets.len() > 0
            &&& s.start <= s.end
            &&& s.end == dets.last().timestamp
            &&& forall|k: int|
                0 <= k < scan(dets, min).0.len() ==> (#[trigger] scan(dets, min).0[k]).end
                    <= s.start
        },
    decreases dets.len(),
{
    if dets.len() > 0 {
        let q = dets.drop_last();
        assert(timestamps_ordered(q)) by {
            assert forall|i: int, j: int| 0 <= i < j < q.len() implies (#[trigger] q[i]).timestamp
                <= (#[trigger] q[j]).timestamp by {
                assert(dets[i].timestamp <= dets[j].timestamp);
            }
        }
        lemma_scan_chronological(q, min);
        let (done, cur) = scan(q, min);
        let d = dets.last();
        if q.len() > 0 {
            assert(q.last().timestamp <= d.timestamp) by {
                assert(dets[q.len() - 1].timestamp <= dets[dets.len() - 1].timestamp);
            }
        }
        if !d.has_humans {
            if let Some(s) = cur {
                if s.span() >= min {
                    lemma_push_chronological(done, s);
                    let nd = done.push(s);
                    assert forall|k: int| 0 <= k < nd.len() implies (#[trigger] nd[k]).end
                        <= d.timestamp by {
                        if k < done.len() {
                            assert(done[k].end <= s.start);
                        }
                    }
                }
            }
        }
    }
}

/// Law: when the frames come in time order, the segments that
/// `detect_segments` returns are in time order too, each starting no later
/// than it ends.
pub proof fn law_detected_chronological(dets: Seq<Detection>, min: i64)
    requires
        timestamps_ordered(dets),
    ensures
        chronological(detected(dets, min)),
{
    lemma_scan_chronological(dets, min);
    let (done, cur) = scan(dets, min);
    if let Some(s) = cur {
        if s.span() >= min {
            lemma_push_chronological(done, s);
        }
    }
}

/// Whether every segment of `s` starts no later than it ends and ends
/// strictly before any later segment starts.
pub open spec fn strictly_chronological(s: Seq<Segment>) -> bool {
    &&& forall|i: int| 0 <= i < s.len() ==> (#[trigger] s[i]).start <= s[i].end
    &&& forall|i: int, j: int| 0 <= i < j < s.len() ==> (#[trigger] s[i]).end < (#[trigger] s[j]).start
}

/// Whether the frames of `dets` come in strictly increasing time order.
pub open spec fn timestamps_increasing(dets: Seq<Detection>) -> bool {
    forall|i: int, j: int|
        0 <= i < j < dets.len() ==> (#[trigger] dets[i]).timestamp < (#[trigger] dets[j]).timestamp
}

/// Over frames in strictly increasing time order, the closed segments of the
/// scan are strictly apart, the open one starts after all of them end, and
/// each of them is made of at least one frame.
proof fn lemma_scan_strict(dets: Seq<Detection>, min: i64)
    requires
        timestamps_increasing(dets),
        dets.len() <= usize::MAX,
    ensures
        timestamps_ordered(dets),
        strictly_chronological(scan(dets, min).0),
        forall|k: int|
            0 <= k < scan(dets, min).0.len() ==> (#[trigger] scan(dets, min).0[k]).frame_count
                >= 1,
        scan(dets, min).1 matches Some(s) ==> forall|k: int|
            0 <= k < scan(dets, min).0.len() ==> (#[trigger] scan(dets, min).0[k]).end < s.start,
    decreases dets.len(),
{
    if dets.len() > 0 {
        let q = dets.drop_last();
        assert(timestamps_increasing(q)) by {
            assert forall|i: int, j: int| 0 <= i < j < q.len() implies (#[trigger] q[i]).timestamp
                < (#[trigger] q[j]).timestamp by {
                assert(dets[i].timestamp < dets[j].timestamp);
            }
        }
        lemma_scan_strict(q, min);
        lemma_scan_chronological(q, min);
        lemma_scan_counts(q, min);
        let (done, cur) = scan(q, min);
        let d = dets.last();
        if q.len() > 0 {
            assert(q.last().timestamp < d.timestamp) by {
                assert(dets[q.len() - 1].timestamp < dets[dets.len() - 1].timestamp);
            }
        }
        if !d.has_humans {
            if let Some(s) = cur {
                if s.span() >= min {
                    lemma_push_chronological(done, s);
                }
            }
        }
    }
}

/// Law: when the frames come in strictly increasing time order, the segments
/// that `detect_segments` returns are strictly apart (each ends before the
/// next one starts), and each is made of at least one frame.
pub proof fn law_detected_strictly_apart(dets: Seq<Detection>, min: i64)
    requires
        timestamps_increasing(dets),
        dets.len() <= usize::MAX,
    ensures
        strictly_chronological(detected(dets, min)),
        forall|k: int|
            0 <= k < detected(dets, min).len() ==> (#[trigger] detected(dets, min)[k]).frame_count
                >= 1,
{
    lemma_scan_strict(dets, min);
    lemma_scan_chronological(dets, min);
    lemma_scan_counts(dets, min);
    let (done, cur) = scan(dets, min);
    if let Some(s) = cur {
        if s.span() >= min {
            lemma_push_chronological(done, s);
        }
    }
}

} // verus!
