//! Joining segments separated by short gaps, and dropping short segments.
use vstd::prelude::*;

use crate::segment::{
    chronological, lemma_total_frames_nonneg, long_enough, max_of, total_frames, Segment,
};

verus! {

/// Whether segment `i` of `s` opens a new group: it is the first one, or it
/// starts more than `gap` after the end of the one before it.
pub open spec fn opens_group(s: Seq<Segment>, gap: i64, i: int) -> bool {
    i == 0 || s[i].start - s[i - 1].end > gap
}

/// `current` with `next` joined onto it.
pub open spec fn joined(current: Segment, next: Segment) -> Segment {
    Segment {
        start: current.start,
        end: next.end,
        confidence: max_of(current.confidence as int, next.confidence as int) as i64,
        frame_count: (current.frame_count + next.frame_count) as usize,
    }
}

/// What `merge` returns: consecutive segments whose gap is at most `gap` are
/// joined into one.
pub open spec fn merged(s: Seq<Segment>, gap: i64) -> Seq<Segment>
    decreases s.len(),
{
    if s.len() == 0 {
        Seq::empty()
    } else {
        let p = merged(s.drop_last(), gap);
        if opens_group(s, gap, s.len() - 1) {
            p.push(s.last())
        } else {
            p.update(p.len() - 1, joined(p.last(), s.last()))
        }
    }
}

/// The frame counts added up inside each joined group fit in a `usize`.
pub open spec fn counts_fit(s: Seq<Segment>, gap: i64) -> bool
    decreases s.len(),
{
    if s.len() == 0 {
        true
    } else {
        &&& counts_fit(s.drop_last(), gap)
        &&& (opens_group(s, gap, s.len() - 1) || merged(s.drop_last(), gap).last().frame_count
            + s.last().frame_count <= usize::MAX)
    }
}

/// Consecutive segments of `s` are more than `gap` apart.
pub open spec fn separated(s: Seq<Segment>, gap: i64) -> bool {
    forall|k: int| 0 < k < s.len() ==> #[trigger] s[k].start - s[k - 1].end > gap
}


/// Shape facts of `merged`: length, first start, last end.
pub proof fn lemma_merged_shape(s: Seq<Segment>, gap: i64)
    ensures
        merged(s, gap).len() <= s.len(),
        s.len() > 0 ==> merged(s, gap).len() > 0,
        s.len() > 0 ==> merged(s, gap)[0].start == s[0].start,
        s.len() > 0 ==> merged(s, gap).last().end == s.last().end,
    decreases s.len(),
{
    if s.len() > 0 {
        lemma_merged_shape(s.drop_last(), gap);
    }
}

/// Counts fit in any separated sequence: it has no group to join.
pub proof fn lemma_separated_counts_fit(s: Seq<Segment>, gap: i64)
    requires
        separated(s, gap),
    ensures
        counts_fit(s, gap),
    decreases s.len(),
{
    if s.len() > 0 {
        let q = s.drop_last();
        assert(separated(q, gap)) by {
            assert forall|k: int| 0 < k < q.len() implies #[trigger] q[k].start - q[k - 1].end
                > gap by {
                assert(s[k].start - s[k - 1].end > gap);
            }
        }
        lemma_separated_counts_fit(q, gap);
        if s.len() > 1 {
            assert(s[s.len() - 1].start - s[s.len() - 2].end > gap);
        }
    }
}

/// Number of segments of `s` that open a group.
pub open spec fn group_count(s: Seq<Segment>, gap: i64) -> int
    decreases s.len(),
{
    if s.len() == 0 {
        0
    } else {
        group_count(s.drop_last(), gap) + if opens_group(s, gap, s.len() - 1) {
            1int
        } else {
            0int
        }
    }
}

/// Merging gives one segment per group.
proof fn lemma_merged_len(s: Seq<Segment>, gap: i64)
    ensures
        merged(s, gap).len() == group_count(s, gap),
    decreases s.len(),
{
    if s.len() > 0 {
        lemma_merged_len(s.drop_last(), gap);
        lemma_merged_shape(s.drop_last(), gap);
    }
}

/// A wider gap opens no more groups.
proof fn lemma_group_count_monotone(s: Seq<Segment>, narrow: i64, wide: i64)
    requires
        narrow <= wide,
    ensures
        group_count(s, wide) <= group_count(s, narrow),
    decreases s.len(),
{
    if s.len() > 0 {
        lemma_group_count_monotone(s.drop_last(), narrow, wide);
    }
}

/// Law: merging over a wider gap never gives more segments.
pub proof fn law_wider_gap_fewer_segments(s: Seq<Segment>, narrow: i64, wide: i64)
    requires
        narrow <= wide,
    ensures
        merged(s, wide).len() <= merged(s, narrow).len(),
{
    lemma_merged_len(s, narrow);
    lemma_merged_len(s, wide);
    lemma_group_count_monotone(s, narrow, wide);
}

/// Law: filtering by one minimum and then by another keeps the same
/// segments as filtering once by the larger minimum.
pub proof fn law_filter_twice(s: Seq<Segment>, first: i64, second: i64)
    ensures
        s.filter(long_enough(first)).filter(long_enough(second)) == s.filter(
            long_enough(if first >= second {
                first
            } else {
                second
            }),
        ),
    decreases s.len(),
{
    reveal_with_fuel(Seq::filter, 1);
    let larger = if first >= second {
        first
    } else {
        second
    };
    if s.len() > 0 {
        let q = s.drop_last();
        law_filter_twice(q, first, second);
        let f = q.filter(long_enough(first));
        if long_enough(first)(s.last()) {
            assert(f.push(s.last()).drop_last() =~= f);
        }
    } else {
        assert(s.filter(long_enough(first)).len() == 0);
    }
}

/// Counts fit in every prefix of a sequence whose counts fit.
proof fn lemma_counts_fit_prefix(s: Seq<Segment>, gap: i64, k: int)
    requires
        counts_fit(s, gap),
        0 <= k <= s.len(),
    ensures
        counts_fit(s.take(k), gap),
    decreases s.len() - k,
{
    if k < s.len() {
        assert(s.take(k + 1).drop_last() =~= s.take(k));
        lemma_counts_fit_prefix(s, gap, k + 1);
    } else {
        assert(s.take(k) =~= s);
    }
}

/// Law: after merging, consecutive segments are more than `gap` apart.
pub proof fn law_merged_separated(s: Seq<Segment>, gap: i64)
    ensures
        separated(merged(s, gap), gap),
    decreases s.len(),
{
    if s.len() > 0 {
        let p = merged(s.drop_last(), gap);
        law_merged_separated(s.drop_last(), gap);
        lemma_merged_shape(s.drop_last(), gap);
        let m = merged(s, gap);
        if opens_group(s, gap, s.len() - 1) {
            assert forall|k: int| 0 < k < m.len() implies #[trigger] m[k].start - m[k - 1].end
                > gap by {
                if k == m.len() - 1 {
                    assert(p.last().end == s.drop_last().last().end);
                }
            }
        } else {
            assert forall|k: int| 0 < k < m.len() implies #[trigger] m[k].start - m[k - 1].end
                > gap by {
                assert(p[k].start - p[k - 1].end > gap);
            }
        }
    }
}

/// Merging a separated sequence changes nothing.
pub proof fn lemma_merged_separated_fixed(s: Seq<Segment>, gap: i64)
    requires
        separated(s, gap),
    ensures
        merged(s, gap) == s,
    decreases s.len(),
{
    if s.len() > 0 {
        let q = s.drop_last();
        assert(separated(q, gap)) by {
            assert forall|k: int| 0 < k < q.len() implies #[trigger] q[k].start - q[k - 1].end
                > gap by {
                assert(s[k].start - s[k - 1].end > gap);
            }
        }
        lemma_merged_separated_fixed(q, gap);
        if s.len() > 1 {
            assert(s[s.len() - 1].start - s[s.len() - 2].end > gap);
        }
        assert(q.push(s.last()) =~= s);
    }
}

/// The first segment of the group that reaches segment `b`: the segment
/// that opens it.
pub open spec fn group_start(s: Seq<Segment>, gap: i64, b: int) -> int
    decreases b,
{
    if b > 0 && !opens_group(s, gap, b) {
        group_start(s, gap, b - 1)
    } else {
        b
    }
}

/// The highest confidence among segments `a` to `b` of `s`.
pub open spec fn group_confidence(s: Seq<Segment>, a: int, b: int) -> int
    decreases b - a,
{
    if b <= a {
        s[a].confidence as int
    } else {
        max_of(group_confidence(s, a, b - 1), s[b].confidence as int)
    }
}

/// The frame counts of segments `a` to `b` of `s`, added up.
pub open spec fn group_frames(s: Seq<Segment>, a: int, b: int) -> int
    decreases b - a,
{
    if b <= a {
        s[a].frame_count as int
    } else {
        group_frames(s, a, b - 1) + s[b].frame_count
    }
}

/// Whether segment `b` is the last of its group: it is the last segment, or
/// the next one opens a group.
pub open spec fn ends_group(s: Seq<Segment>, gap: i64, b: int) -> bool {
    b + 1 == s.len() || opens_group(s, gap, b + 1)
}

/// The group that ends at segment `b`, as one segment: from the start of its
/// first segment to the end of its last, with the highest confidence and
/// the frame counts added up.
pub open spec fn group_segment(s: Seq<Segment>, gap: i64, b: int) -> Segment {
    let a = group_start(s, gap, b);
    Segment {
        start: s[a].start,
        end: s[b].end,
        confidence: group_confidence(s, a, b) as i64,
        frame_count: group_frames(s, a, b) as usize,
    }
}

/// One segment for each group of `s`, in order: each group is a segment that
/// starts more than `gap` after the end of the one before it (or is the
/// first), followed by the segments that start at most `gap` after the end
/// of the one before them.
pub open spec fn merged_groups(s: Seq<Segment>, gap: i64) -> Seq<Segment> {
    Seq::new(s.len(), |i: int| i).filter(|b: int| ends_group(s, gap, b)).map_values(
        |b: int| group_segment(s, gap, b),
    )
}

/// The groups that end among the first `m` segments.
spec fn closed_groups(s: Seq<Segment>, gap: i64, m: int) -> Seq<Segment>
    decreases m,
{
    if m <= 0 {
        Seq::empty()
    } else {
        let prev = closed_groups(s, gap, m - 1);
        if ends_group(s, gap, m - 1) {
            prev.push(group_segment(s, gap, m - 1))
        } else {
            prev
        }
    }
}

proof fn lemma_group_start_stable(q: Seq<Segment>, gap: i64, b: int)
    requires
        0 <= b < q.len() - 1,
    ensures
        group_start(q, gap, b) == group_start(q.drop_last(), gap, b),
        0 <= group_start(q, gap, b) <= b,
    decreases b,
{
    let p = q.drop_last();
    assert(p[b] == q[b]);
    if b > 0 {
        assert(p[b - 1] == q[b - 1]);
        lemma_group_start_stable(q, gap, b - 1);
    }
}

proof fn lemma_group_sums_stable(q: Seq<Segment>, a: int, b: int)
    requires
        0 <= a <= b < q.len() - 1,
    ensures
        group_confidence(q, a, b) == group_confidence(q.drop_last(), a, b),
        i64::MIN <= group_confidence(q, a, b) <= i64::MAX,
        group_frames(q, a, b) == group_frames(q.drop_last(), a, b),
        group_frames(q, a, b) >= 0,
    decreases b - a,
{
    let p = q.drop_last();
    assert(p[a] == q[a] && p[b] == q[b]);
    if b > a {
        lemma_group_sums_stable(q, a, b - 1);
    }
}

/// Segment `b` of `q`'s group, the same in `q` and in `q` without its last
/// segment.
proof fn lemma_group_segment_stable(q: Seq<Segment>, gap: i64, b: int)
    requires
        0 <= b < q.len() - 1,
    ensures
        group_segment(q, gap, b) == group_segment(q.drop_last(), gap, b),
        0 <= group_start(q, gap, b) <= b,
        group_start(q, gap, b) == group_start(q.drop_last(), gap, b),
        group_confidence(q, group_start(q, gap, b), b) == group_confidence(
            q.drop_last(),
            group_start(q, gap, b),
            b,
        ),
        i64::MIN <= group_confidence(q, group_start(q, gap, b), b) <= i64::MAX,
        group_frames(q, group_start(q, gap, b), b) == group_frames(
            q.drop_last(),
            group_start(q, gap, b),
            b,
        ),
        group_frames(q, group_start(q, gap, b), b) >= 0,
{
    lemma_group_start_stable(q, gap, b);
    let a = group_start(q, gap, b);
    lemma_group_sums_stable(q, a, b);
    assert(q.drop_last()[a] == q[a] && q.drop_last()[b] == q[b]);
}

proof fn lemma_closed_groups_stable(q: Seq<Segment>, gap: i64, m: int)
    requires
        0 <= m < q.len() - 1,
    ensures
        closed_groups(q, gap, m) == closed_groups(q.drop_last(), gap, m),
    decreases m,
{
    if m > 0 {
        let p = q.drop_last();
        lemma_closed_groups_stable(q, gap, m - 1);
        assert(p[m] == q[m] && p[m - 1] == q[m - 1]);
        lemma_group_segment_stable(q, gap, m - 1);
    }
}

/// Merging gives the groups that end among all the segments; the frame
/// counts of the last group fit in a `usize`.
proof fn lemma_merged_closed_groups(s: Seq<Segment>, gap: i64)
    requires
        counts_fit(s, gap),
    ensures
        merged(s, gap) == closed_groups(s, gap, s.len() as int),
        s.len() > 0 ==> group_frames(s, group_start(s, gap, s.len() - 1), s.len() - 1)
            <= usize::MAX,
    decreases s.len(),
{
    if s.len() > 0 {
        let p = s.drop_last();
        let m = p.len() as int;
        lemma_merged_closed_groups(p, gap);
        let x = s.last();
        assert(x == s[m]);
        let base = closed_groups(s, gap, m);
        assert(closed_groups(s, gap, m + 1) == base.push(group_segment(s, gap, m)));
        if opens_group(s, gap, m) {
            assert(group_start(s, gap, m) == m);
            assert(group_segment(s, gap, m) == x);
            if m > 0 {
                assert(p[m - 1] == s[m - 1]);
                lemma_closed_groups_stable(s, gap, m - 1);
                lemma_group_segment_stable(s, gap, m - 1);
                assert(base == closed_groups(p, gap, m));
            }
        } else {
            assert(p[m - 1] == s[m - 1]);
            lemma_closed_groups_stable(s, gap, m - 1);
            lemma_group_segment_stable(s, gap, m - 1);
            let a = group_start(s, gap, m - 1);
            assert(p[a] == s[a]);
            lemma_merged_shape(p, gap);
            let head = closed_groups(p, gap, m - 1);
            assert(base == head);
            assert(merged(p, gap) == head.push(group_segment(p, gap, m - 1)));
            assert(group_start(s, gap, m) == a);
            assert(group_frames(s, a, m) == group_frames(s, a, m - 1) + x.frame_count);
            assert(group_confidence(s, a, m) == max_of(
                group_confidence(s, a, m - 1),
                x.confidence as int,
            ));
            assert(joined(merged(p, gap).last(), x) == group_segment(s, gap, m));
            assert(merged(s, gap) =~= head.push(group_segment(s, gap, m)));
        }
    }
}

/// The groups that end among the first `m` segments are those of the
/// segments among the first `m` that end a group, in order.
proof fn lemma_closed_groups_direct(s: Seq<Segment>, gap: i64, m: int)
    requires
        0 <= m <= s.len(),
    ensures
        closed_groups(s, gap, m) == Seq::new(m as nat, |i: int| i).filter(
            |b: int| ends_group(s, gap, b),
        ).map_values(|b: int| group_segment(s, gap, b)),
    decreases m,
{
    reveal_with_fuel(Seq::filter, 1);
    let idx = Seq::new(m as nat, |i: int| i);
    let f = |b: int| ends_group(s, gap, b);
    let g = |b: int| group_segment(s, gap, b);
    if m > 0 {
        lemma_closed_groups_direct(s, gap, m - 1);
        let prev = Seq::new((m - 1) as nat, |i: int| i);
        assert(idx.drop_last() =~= prev);
        assert(idx.last() == m - 1);
        let fp = prev.filter(f);
        assert(fp.push(m - 1).map_values(g) =~= fp.map_values(g).push(g(m - 1)));
    } else {
        assert(idx =~= Seq::<int>::empty());
        assert(idx.filter(f).map_values(g) =~= Seq::<Segment>::empty());
    }
}

/// Law: when the frame counts of each group fit in a `usize`, merging gives,
/// in order, one segment per group of segments that follow each other within
/// `gap`: from the start of the group's first segment to the end of its
/// last, with its highest confidence and its frame counts added up.
pub proof fn law_merged_is_groups(s: Seq<Segment>, gap: i64)
    requires
        counts_fit(s, gap),
    ensures
        merged(s, gap) == merged_groups(s, gap),
{
    lemma_merged_closed_groups(s, gap);
    lemma_closed_groups_direct(s, gap, s.len() as int);
}

/// Law: merging twice gives the same segments as merging once.
pub proof fn law_merge_idempotent(s: Seq<Segment>, gap: i64)
    ensures
        merged(merged(s, gap), gap) == merged(s, gap),
{
    law_merged_separated(s, gap);
    lemma_merged_separated_fixed(merged(s, gap), gap);
}

/// Law: when the group counts fit, merging keeps the total frame count.
pub proof fn law_merge_keeps_frames(s: Seq<Segment>, gap: i64)
    requires
        counts_fit(s, gap),
    ensures
        total_frames(merged(s, gap)) == total_frames(s),
    decreases s.len(),
{
    if s.len() > 0 {
        let q = s.drop_last();
        let p = merged(q, gap);
        law_merge_keeps_frames(q, gap);
        lemma_merged_shape(q, gap);
        if !opens_group(s, gap, s.len() - 1) {
            let m = p.update(p.len() - 1, joined(p.last(), s.last()));
            assert(m.drop_last() =~= p.drop_last());
            assert(p.push(s.last()).drop_last() =~= p);
        } else {
            assert(p.push(s.last()).drop_last() =~= p);
        }
    }
}

/// When the total frame count fits in a `usize`, so does every group count.
pub proof fn lemma_counts_fit_when_total_fits(s: Seq<Segment>, gap: i64)
    requires
        total_frames(s) <= usize::MAX,
    ensures
        counts_fit(s, gap),
        total_frames(merged(s, gap)) == total_frames(s),
    decreases s.len(),
{
    if s.len() > 0 {
        let q = s.drop_last();
        lemma_total_frames_nonneg(q);
        lemma_counts_fit_when_total_fits(q, gap);
        law_merge_keeps_frames(q, gap);
        lemma_merged_shape(q, gap);
        let p = merged(q, gap);
        if p.len() > 0 {
            lemma_total_frames_nonneg(p.drop_last());
            assert(p.last().frame_count <= total_frames(p));
        }
        law_merge_keeps_frames(s, gap);
    }
}

/// Law: every segment that `filter_by_duration` keeps lasts at least `min`,
/// and every such segment of the input is kept.
pub proof fn law_filter_exact(s: Seq<Segment>, min: i64)
    ensures
        forall|k: int|
            0 <= k < s.filter(long_enough(min)).len() ==> #[trigger] s.filter(
                long_enough(min),
            )[k].span() >= min,
        forall|k: int|
            0 <= k < s.len() && s[k].span() >= min ==> #[trigger] s.filter(
                long_enough(min),
            ).contains(s[k]),
        s.filter(long_enough(min)).len() <= s.len(),
{
    broadcast use Seq::lemma_filter_len, Seq::lemma_filter_pred, Seq::lemma_filter_contains;

    assert forall|k: int| 0 <= k < s.filter(long_enough(min)).len() implies #[trigger] s.filter(
        long_enough(min),
    )[k].span() >= min by {
        assert(long_enough(min)(s.filter(long_enough(min))[k]));
    }
    assert forall|k: int| 0 <= k < s.len() && s[k].span() >= min implies #[trigger] s.filter(
        long_enough(min),
    ).contains(s[k]) by {
        assert(long_enough(min)(s[k]));
    }
}

/// Joins segments that follow each other closely.
pub struct SegmentMerger {
    /// Largest gap (microseconds) over which two segments are joined.
    gap_threshold: i64,
}

impl SegmentMerger {
    /// The gap over which `merge` joins segments.
    pub closed spec fn gap(&self) -> i64 {
        self.gap_threshold
    }

    pub fn new(gap_threshold: i64) -> (m: Self)
        ensures
            m.gap() == gap_threshold,
    {
        SegmentMerger { gap_threshold }
    }

    /// Joins each segment whose start is at most the gap threshold after the
    /// end of the segment before it onto that segment: the joined segment keeps
    /// the first start, takes the last end, the highest confidence and the sum
    /// of the frame counts.
    pub fn merge(&self, segments: &[Segment]) -> (result: Vec<Segment>)
        requires
            counts_fit(segments@, self.gap()),
        ensures
            result@ == merged(segments@, self.gap()),
            separated(result@, self.gap()),
            counts_fit(result@, self.gap()),
    {
        proof {
            law_merged_separated(segments@, self.gap());
            lemma_separated_counts_fit(merged(segments@, self.gap()), self.gap());
        }
        let n = segments.len();
        let mut out: Vec<Segment> = Vec::new();
        if n == 0 {
            return out;
        }
        let gap = self.gap_threshold;
        let mut current = segments[0];
        assert(segments@.take(1).drop_last() =~= Seq::<Segment>::empty());
        assert(merged(segments@.take(1).drop_last(), gap).len() == 0);
        assert(segments@.take(1).last() == segments@[0]);
        assert(out@.push(current) =~= merged(segments@.take(1), gap));
        let mut i: usize = 1;
        while i < n
            invariant
                n == segments@.len(),
                1 <= i <= n,
                gap == self.gap(),
                counts_fit(segments@, gap),
                out@.push(current) == merged(segments@.take(i as int), gap),
                current.end == segments@[i - 1].end,
            decreases n - i,
        {
            let ghost before = segments@.take(i as int);
            let ghost after = segments@.take(i as int + 1);
            proof {
                assert(after.drop_last() =~= before);
                lemma_counts_fit_prefix(segments@, gap, i as int + 1);
                lemma_merged_shape(before, gap);
                assert(out@.push(current).last() == current);
                assert(out@.push(current).len() - 1 == out@.len());
            }
            let segment = segments[i];
            let gap_now: i128 = (segment.start as i128) - (current.end as i128);
            if gap_now <= gap as i128 {
                current.end = segment.end;
                if segment.confidence > current.confidence {
                    current.confidence = segment.confidence;
                }
                current.frame_count = current.frame_count + segment.frame_count;
                assert(out@.push(current) =~= merged(after, gap));
            } else {
                out.push(current);
                current = segment;
                assert(out@.push(current) =~= merged(after, gap));
            }
            i = i + 1;
        }
        assert(segments@.take(n as int) =~= segments@);
        out.push(current);
        out
    }

    /// The segments at least `min_duration` long, in their order.
    pub fn filter_by_duration(&self, segments: &[Segment], min_duration: i64) -> (result: Vec<
        Segment,
    >)
        ensures
            result@ == segments@.filter(long_enough(min_duration)),
    {
        let n = segments.len();
        let mut out: Vec<Segment> = Vec::new();
        let mut i: usize = 0;
        while i < n
            invariant
                n == segments@.len(),
                i <= n,
                out@ == segments@.take(i as int).filter(long_enough(min_duration)),
            decreases n - i,
        {
            proof {
                reveal_with_fuel(Seq::filter, 1);
                assert(segments@.take(i as int + 1).drop_last() =~= segments@.take(i as int));
            }
            let segment = segments[i];
            if segment.duration() >= min_duration as i128 {
                out.push(segment);
            }
            i = i + 1;
        }
        assert(segments@.take(n as int) =~= segments@);
        out
    }
}

/// Whether any two segments of `s`, the later one starts more than `gap`
/// after the earlier one ends.
pub open spec fn well_separated(s: Seq<Segment>, gap: i64) -> bool {
    forall|i: int, j: int|
        0 <= i < j < s.len() ==> (#[trigger] s[j]).start - (#[trigger] s[i]).end > gap
}

/// Merging segments in time order gives segments in time order.
pub proof fn lemma_merged_chronological(s: Seq<Segment>, gap: i64)
    requires
        chronological(s),
    ensures
        chronological(merged(s, gap)),
    decreases s.len(),
{
    if s.len() > 0 {
        let q = s.drop_last();
        assert(chronological(q)) by {
            assert forall|i: int, j: int| 0 <= i < j < q.len() implies (#[trigger] q[i]).end <= (
            #[trigger] q[j]).start by {
                assert(s[i].end <= s[j].start);
            }
            assert forall|i: int| 0 <= i < q.len() implies (#[trigger] q[i]).start <= q[i].end by {
                assert(s[i].start <= s[i].end);
            }
        }
        lemma_merged_chronological(q, gap);
        lemma_merged_shape(q, gap);
        let p = merged(q, gap);
        let x = s.last();
        let m = merged(s, gap);
        assert(x.start <= x.end) by {
            assert(s[s.len() - 1].start <= s[s.len() - 1].end);
        }
        if p.len() > 0 {
            assert(p.last().end <= x.start) by {
                assert(s[s.len() - 2].end <= s[s.len() - 1].start);
            }
            assert(p.last().start <= p.last().end) by {
                assert(p[p.len() - 1].start <= p[p.len() - 1].end);
            }
        }
        if opens_group(s, gap, s.len() - 1) {
            assert forall|i: int, j: int| 0 <= i < j < m.len() implies (#[trigger] m[i]).end <= (
            #[trigger] m[j]).start by {
                if j == m.len() - 1 {
                    assert(p[i].start <= p[i].end);
                    if i < p.len() - 1 {
                        assert(p[i].end <= p[p.len() - 1].start);
                        assert(p[p.len() - 1].start <= p[p.len() - 1].end);
                    }
                } else {
                    assert(p[i].end <= p[j].start);
                }
            }
            assert forall|i: int| 0 <= i < m.len() implies (#[trigger] m[i]).start <= m[i].end by {
                if i < p.len() {
                    assert(p[i].start <= p[i].end);
                }
            }
        } else {
            assert forall|i: int, j: int| 0 <= i < j < m.len() implies (#[trigger] m[i]).end <= (
            #[trigger] m[j]).start by {
                assert(p[i].end <= p[j].start);
            }
            assert forall|i: int| 0 <= i < m.len() implies (#[trigger] m[i]).start <= m[i].end by {
                if i < p.len() - 1 {
                    assert(p[i].start <= p[i].end);
                }
            }
        }
    }
}

/// Segments in time order whose neighbours are more than `gap` apart are
/// all more than `gap` apart.
pub proof fn lemma_separated_everywhere(s: Seq<Segment>, gap: i64)
    requires
        chronological(s),
        separated(s, gap),
    ensures
        well_separated(s, gap),
{
    assert forall|i: int, j: int| 0 <= i < j < s.len() implies (#[trigger] s[j]).start - (
    #[trigger] s[i]).end > gap by {
        assert(s[j].start - s[j - 1].end > gap);
        if i < j - 1 {
            assert(s[i].end <= s[j - 1].start);
            assert(s[j - 1].start <= s[j - 1].end);
        }
    }
}

/// Filtering keeps segments in time order and keeps them apart.
pub proof fn lemma_filter_keeps_order(s: Seq<Segment>, gap: i64, p: spec_fn(Segment) -> bool)
    requires
        chronological(s),
        well_separated(s, gap),
    ensures
        chronological(s.filter(p)),
        well_separated(s.filter(p), gap),
    decreases s.len(),
{
    broadcast use Seq::lemma_filter_contains_rev;

    reveal_with_fuel(Seq::filter, 1);
    if s.len() > 0 {
        let q = s.drop_last();
        assert(chronological(q) && well_separated(q, gap)) by {
            assert forall|i: int, j: int| 0 <= i < j < q.len() implies (#[trigger] q[i]).end <= (
            #[trigger] q[j]).start by {
                assert(s[i].end <= s[j].start);
            }
            assert forall|i: int| 0 <= i < q.len() implies (#[trigger] q[i]).start <= q[i].end by {
                assert(s[i].start <= s[i].end);
            }
            assert forall|i: int, j: int| 0 <= i < j < q.len() implies (#[trigger] q[j]).start - (
            #[trigger] q[i]).end > gap by {
                assert(s[j].start - s[i].end > gap);
            }
        }
        lemma_filter_keeps_order(q, gap, p);
        let f = q.filter(p);
        let x = s.last();
        if p(x) {
            let r = f.push(x);
            assert(r == s.filter(p));
            assert forall|i: int| 0 <= i < f.len() implies (#[trigger] f[i]).end <= x.start && x.start
                - f[i].end > gap by {
                assert(f.contains(f[i]));
                assert(q.contains(f[i]));
                let k = choose|k: int| 0 <= k < q.len() && q[k] == f[i];
                assert(s[k].end <= s[s.len() - 1].start);
                assert(s[s.len() - 1].start - s[k].end > gap);
            }
            assert forall|i: int, j: int| 0 <= i < j < r.len() implies (#[trigger] r[i]).end <= (
            #[trigger] r[j]).start by {
                if j < f.len() {
                    assert(f[i].end <= f[j].start);
                }
            }
            assert forall|i: int, j: int| 0 <= i < j < r.len() implies (#[trigger] r[j]).start - (
            #[trigger] r[i]).end > gap by {
                if j < f.len() {
                    assert(f[j].start - f[i].end > gap);
                }
            }
            assert forall|i: int| 0 <= i < r.len() implies (#[trigger] r[i]).start <= r[i].end by {
                if i < f.len() {
                    assert(f[i].start <= f[i].end);
                } else {
                    assert(s[s.len() - 1].start <= s[s.len() - 1].end);
                }
            }
        }
    }
}

} // verus!
