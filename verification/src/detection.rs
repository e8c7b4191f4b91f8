//! Per-frame detection results and the box post-processing of the person
//! detector: turning raw model outputs into boxes, sorting them by score,
//! and non-maximum suppression.
//!
//! All geometry and scores are fixed-point integers in millionths: a box
//! coordinate of `1_000_000` is one pixel, a score of `1_000_000` is `1.0`.
use vstd::prelude::*;

use crate::segment::max_of;

verus! {

/// What the detector reports for one sampled frame.
#[derive(Clone, Debug)]
pub struct Detection {
    /// Time of the frame in microseconds.
    pub timestamp: i64,
    pub has_humans: bool,
    /// Highest person score in the frame, in millionths (`0` when none).
    pub confidence: i64,
    /// Kept boxes as `[x, y, width, height]`, in millionths of a pixel.
    pub bboxes: Vec<[i64; 4]>,
}

/// A person box in image coordinates (millionths of a pixel) with its score
/// (millionths).
#[derive(Clone, Copy, Debug, PartialEq, Eq, Structural)]
pub struct BoundingBox {
    pub x: i64,
    pub y: i64,
    pub width: i64,
    pub height: i64,
    pub confidence: i64,
}

pub open spec fn min_of(a: int, b: int) -> int {
    if a <= b {
        a
    } else {
        b
    }
}

/// Intersection over union of two boxes as the fraction
/// `(intersection, union)`; boxes that do not overlap, or whose union is not
/// positive, give `(0, 1)`.
pub open spec fn iou_of(a: BoundingBox, b: BoundingBox) -> (int, int) {
    let x1 = max_of(a.x as int, b.x as int);
    let y1 = max_of(a.y as int, b.y as int);
    let x2 = min_of(a.x + a.width, b.x + b.width);
    let y2 = min_of(a.y + a.height, b.y + b.height);
    if x2 < x1 || y2 < y1 {
        (0, 1)
    } else {
        let inter = (x2 - x1) * (y2 - y1);
        let union = a.width * a.height + b.width * b.height - inter;
        if union <= 0 {
            (0, 1)
        } else {
            (inter, union)
        }
    }
}

/// Whether the overlap of `a` and `b` is below `threshold` (millionths).
pub open spec fn iou_below(a: BoundingBox, b: BoundingBox, threshold: int) -> bool {
    iou_of(a, b).0 * 1_000_000 < threshold * iou_of(a, b).1
}

/// Intersection over union of two boxes, as the fraction
/// `intersection / union` with `union > 0`.
#[derive(Clone, Copy, Debug, PartialEq, Eq, Structural)]
pub struct Iou {
    pub intersection: i128,
    pub union: i128,
}

/// The products of two overlaps bounded by the sides of two boxes.
proof fn lemma_overlap_products(dx: int, dy: int, a: BoundingBox, b: BoundingBox)
    requires
        0 <= dx <= a.width,
        dx <= b.width,
        0 <= dy <= a.height,
        dy <= b.height,
    ensures
        0 <= dx * dy <= a.width * a.height < 0x4000_0000_0000_0000_0000_0000_0000_0000,
        dx * dy <= b.width * b.height < 0x4000_0000_0000_0000_0000_0000_0000_0000,
{
    let m = 0x8000_0000_0000_0000int;
    assert(0 <= dx * dy <= a.width * a.height < m * m) by (nonlinear_arith)
        requires
            0 <= dx <= a.width < m,
            0 <= dy <= a.height < m,
    ;
    assert(0 <= dx * dy <= b.width * b.height < m * m) by (nonlinear_arith)
        requires
            0 <= dx <= b.width < m,
            0 <= dy <= b.height < m,
    ;
}

/// In the overlap case every side of both boxes is at least the overlap
/// along it, so all areas are non-negative, the intersection is at most each
/// area, and the union lies between the intersection and `2^127`.
proof fn lemma_overlap_sizes(a: BoundingBox, b: BoundingBox)
    ensures
        ({
            let (inter, union) = iou_of(a, b);
            &&& 0 <= inter <= union
            &&& 0 < union < 0x8000_0000_0000_0000_0000_0000_0000_0000
        }),
{
    let x1 = max_of(a.x as int, b.x as int);
    let y1 = max_of(a.y as int, b.y as int);
    let x2 = min_of(a.x + a.width, b.x + b.width);
    let y2 = min_of(a.y + a.height, b.y + b.height);
    if !(x2 < x1 || y2 < y1) {
        lemma_overlap_products(x2 - x1, y2 - y1, a, b);
    }
}

/// The overlap of two boxes as a fraction.
pub fn calculate_iou(box1: &BoundingBox, box2: &BoundingBox) -> (r: Iou)
    ensures
        (r.intersection as int, r.union as int) == iou_of(*box1, *box2),
        0 <= r.intersection <= r.union,
        r.union > 0,
{
    proof {
        lemma_overlap_sizes(*box1, *box2);
    }
    let x1 = if box1.x >= box2.x { box1.x as i128 } else { box2.x as i128 };
    let y1 = if box1.y >= box2.y { box1.y as i128 } else { box2.y as i128 };
    let r1 = box1.x as i128 + box1.width as i128;
    let r2 = box2.x as i128 + box2.width as i128;
    let b1 = box1.y as i128 + box1.height as i128;
    let b2 = box2.y as i128 + box2.height as i128;
    let x2 = if r1 <= r2 { r1 } else { r2 };
    let y2 = if b1 <= b2 { b1 } else { b2 };
    if x2 < x1 || y2 < y1 {
        return Iou { intersection: 0, union: 1 };
    }
    proof {
        lemma_overlap_products((x2 - x1) as int, (y2 - y1) as int, *box1, *box2);
    }
    let intersection = (x2 - x1) * (y2 - y1);
    let area1 = (box1.width as i128) * (box1.height as i128);
    let area2 = (box2.width as i128) * (box2.height as i128);
    let union = area1 - intersection + area2;
    if union <= 0 {
        Iou { intersection: 0, union: 1 }
    } else {
        Iou { intersection, union }
    }
}

/// `a * b` as a high part and a low part below `2^64`.
fn wide_mul(a: u128, b: u64) -> (r: (u128, u128))
    ensures
        r.1 < 0x1_0000_0000_0000_0000,
        r.0 * 0x1_0000_0000_0000_0000 + r.1 == a * b,
{
    let base: u128 = 0x1_0000_0000_0000_0000;
    let a_hi = a / base;
    let a_lo = a % base;
    proof {
        vstd::arithmetic::div_mod::lemma_fundamental_div_mod(a as int, base as int);
        vstd::arithmetic::div_mod::lemma_mod_bound(a as int, base as int);
        assert(a_hi < base) by (nonlinear_arith)
            requires
                a == base * a_hi + a_lo,
                a_lo >= 0,
                a < base * base,
        ;
    }
    let bb = b as u128;
    assert(a_hi * bb <= (base - 1) * (base - 1)) by (nonlinear_arith)
        requires
            a_hi < base,
            bb < base,
    ;
    assert(a_lo * bb <= (base - 1) * (base - 1)) by (nonlinear_arith)
        requires
            a_lo < base,
            bb < base,
    ;
    let p_hi = a_hi * bb;
    let p_lo = a_lo * bb;
    let carry = p_lo / base;
    let lo = p_lo % base;
    proof {
        vstd::arithmetic::div_mod::lemma_fundamental_div_mod(p_lo as int, base as int);
        vstd::arithmetic::div_mod::lemma_mod_bound(p_lo as int, base as int);
        assert(carry < base) by (nonlinear_arith)
            requires
                p_lo == base * carry + lo,
                lo >= 0,
                p_lo < base * base,
        ;
        assert((p_hi + carry) * base + lo == a * b) by (nonlinear_arith)
            requires
                a == base * a_hi + a_lo,
                p_hi == a_hi * bb,
                p_lo == a_lo * bb,
                p_lo == base * carry + lo,
                bb == b,
        ;
    }
    (p_hi + carry, lo)
}

/// Whether `a * ka < b * kb`.
fn product_less(a: u128, ka: u64, b: u128, kb: u64) -> (r: bool)
    ensures
        r == (a * ka < b * kb),
{
    let (h1, l1) = wide_mul(a, ka);
    let (h2, l2) = wide_mul(b, kb);
    let ghost base: int = 0x1_0000_0000_0000_0000int;
    proof {
        let v1 = h1 * base + l1;
        let v2 = h2 * base + l2;
        if h1 < h2 {
            assert(v1 < v2) by (nonlinear_arith)
                requires
                    v1 == h1 * base + l1,
                    v2 == h2 * base + l2,
                    h1 + 1 <= h2,
                    0 <= l1 < base,
                    0 <= l2,
            ;
        } else if h2 < h1 {
            assert(v2 < v1) by (nonlinear_arith)
                requires
                    v1 == h1 * base + l1,
                    v2 == h2 * base + l2,
                    h2 + 1 <= h1,
                    0 <= l2 < base,
                    0 <= l1,
            ;
        }
    }
    h1 < h2 || (h1 == h2 && l1 < l2)
}

/// Whether the overlap of the two boxes is below `threshold` (millionths).
pub fn iou_is_below(box1: &BoundingBox, box2: &BoundingBox, threshold: u32) -> (r: bool)
    ensures
        r == iou_below(*box1, *box2, threshold as int),
{
    let iou = calculate_iou(box1, box2);
    let ghost u = iou.union as int;
    assert(u * threshold == threshold * u) by (nonlinear_arith);
    product_less(iou.intersection as u128, 1_000_000, iou.union as u128, threshold as u64)
}

/// Law: overlap is symmetric, and lies between zero and one.
pub proof fn law_iou_symmetric(a: BoundingBox, b: BoundingBox)
    ensures
        iou_of(a, b) == iou_of(b, a),
        0 <= iou_of(a, b).0 <= iou_of(a, b).1,
        iou_of(a, b).1 > 0,
{
    lemma_overlap_sizes(a, b);
    assert(a.width * a.height + b.width * b.height == b.width * b.height + a.width * a.height);
}

/// Law: a box with positive width and height overlaps itself fully, and two
/// boxes whose overlap has no width or no height have no overlap.
pub proof fn law_iou_self_and_apart(a: BoundingBox, b: BoundingBox)
    ensures
        a.width > 0 && a.height > 0 ==> iou_of(a, a).0 == iou_of(a, a).1 && iou_of(a, a).0 > 0,
        min_of(a.x + a.width, b.x + b.width) <= max_of(a.x as int, b.x as int) || min_of(
            a.y + a.height,
            b.y + b.height,
        ) <= max_of(a.y as int, b.y as int) ==> iou_of(a, b).0 == 0,
{
    if a.width > 0 && a.height > 0 {
        let w = a.width as int;
        let h = a.height as int;
        assert(w * h > 0) by (nonlinear_arith)
            requires
                w > 0,
                h > 0,
        ;
    }
    let x1 = max_of(a.x as int, b.x as int);
    let y1 = max_of(a.y as int, b.y as int);
    let x2 = min_of(a.x + a.width, b.x + b.width);
    let y2 = min_of(a.y + a.height, b.y + b.height);
    assert(0 * (y2 - y1) == 0 && (x2 - x1) * 0 == 0) by (nonlinear_arith);
}

/// Law: the overlap of two boxes is the area that they share, and the union
/// is the sum of their areas less that shared area. When a box with positive
/// sides lies inside another, the overlap is the inner box's area and the
/// union is the outer box's area.
pub proof fn law_iou_is_shared_area_over_union(a: BoundingBox, b: BoundingBox)
    ensures
        iou_of(a, b).0 > 0 ==> iou_of(a, b).1 == a.width * a.height + b.width * b.height - iou_of(
            a,
            b,
        ).0,
        ({
            let dx = min_of(a.x + a.width, b.x + b.width) - max_of(a.x as int, b.x as int);
            let dy = min_of(a.y + a.height, b.y + b.height) - max_of(a.y as int, b.y as int);
            dx >= 0 && dy >= 0 && a.width * a.height + b.width * b.height - dx * dy > 0
                ==> iou_of(a, b).0 == dx * dy
        }),
        a.x <= b.x && b.x + b.width <= a.x + a.width && a.y <= b.y && b.y + b.height <= a.y
            + a.height && b.width > 0 && b.height > 0 ==> iou_of(a, b) == (
            b.width * b.height,
            a.width * a.height,
        ),
{
    if a.x <= b.x && b.x + b.width <= a.x + a.width && a.y <= b.y && b.y + b.height <= a.y
        + a.height && b.width > 0 && b.height > 0 {
        let aw = a.width as int;
        let ah = a.height as int;
        let bw = b.width as int;
        let bh = b.height as int;
        assert(aw * ah >= bw * bh && bw * bh > 0) by (nonlinear_arith)
            requires
                aw >= bw > 0,
                ah >= bh > 0,
        ;
    }
}

// ---------------------------------------------------------------------------
// Ordering by score

/// `x` placed into `s` after every box whose confidence is at least that
/// of `x` (the insertion step of a stable sort, highest score first).
pub open spec fn insert_by_confidence(s: Seq<BoundingBox>, x: BoundingBox) -> Seq<BoundingBox>
    decreases s.len(),
{
    if s.len() == 0 {
        seq![x]
    } else if s.last().confidence >= x.confidence {
        s.push(x)
    } else {
        insert_by_confidence(s.drop_last(), x).push(s.last())
    }
}

/// `s` sorted by confidence, highest first; boxes with equal confidence
/// keep their order.
pub open spec fn sorted_by_confidence(s: Seq<BoundingBox>) -> Seq<BoundingBox>
    decreases s.len(),
{
    if s.len() == 0 {
        s
    } else {
        insert_by_confidence(sorted_by_confidence(s.drop_last()), s.last())
    }
}

/// Whether the confidences of `s` never increase.
pub open spec fn descending(s: Seq<BoundingBox>) -> bool {
    forall|i: int, j: int| 0 <= i < j < s.len() ==> s[i].confidence >= s[j].confidence
}

/// Facts about one insertion step: the length grows by one, the elements are
/// those of `s` and `x`, and order is kept.
proof fn lemma_insert_facts(s: Seq<BoundingBox>, x: BoundingBox)
    ensures
        insert_by_confidence(s, x).len() == s.len() + 1,
        insert_by_confidence(s, x).contains(x),
        forall|i: int| 0 <= i < s.len() ==> insert_by_confidence(s, x).contains(#[trigger] s[i]),
        forall|b: BoundingBox|
            insert_by_confidence(s, x).contains(b) ==> b == x || #[trigger] s.contains(b),
        descending(s) ==> descending(insert_by_confidence(s, x)),
    decreases s.len(),
{
    let r = insert_by_confidence(s, x);
    if s.len() == 0 {
        assert(r[0] == x);
    } else if s.last().confidence >= x.confidence {
        assert(r[s.len() as int] == x);
        assert forall|i: int| 0 <= i < s.len() implies r.contains(#[trigger] s[i]) by {
            assert(r[i] == s[i]);
        }
        assert forall|b: BoundingBox| r.contains(b) implies b == x || #[trigger] s.contains(b) by {
            let k = choose|k: int| 0 <= k < r.len() && r[k] == b;
            if k < s.len() {
                assert(s[k] == b);
            }
        }
    } else {
        let q = s.drop_last();
        let p = insert_by_confidence(q, x);
        lemma_insert_facts(q, x);
        let last = s.last();
        assert(r[p.len() as int] == last);
        assert(p.contains(x));
        let kx = choose|k: int| 0 <= k < p.len() && p[k] == x;
        assert(r[kx] == x);
        assert forall|i: int| 0 <= i < s.len() implies r.contains(#[trigger] s[i]) by {
            if i < q.len() {
                assert(q[i] == s[i]);
                assert(p.contains(q[i]));
                let k = choose|k: int| 0 <= k < p.len() && p[k] == q[i];
                assert(r[k] == s[i]);
            } else {
                assert(r[p.len() as int] == s[i]);
            }
        }
        assert forall|b: BoundingBox| r.contains(b) implies b == x || #[trigger] s.contains(b) by {
            let k = choose|k: int| 0 <= k < r.len() && r[k] == b;
            if k < p.len() {
                assert(p[k] == b);
                assert(p.contains(b));
                if b != x {
                    assert(q.contains(b));
                    let j = choose|j: int| 0 <= j < q.len() && q[j] == b;
                    assert(s[j] == b);
                }
            } else {
                assert(s[s.len() - 1] == b);
            }
        }
        if descending(s) {
            assert(descending(q));
            assert forall|i: int, j: int|
                0 <= i < j < r.len() implies r[i].confidence >= r[j].confidence by {
                if j == r.len() - 1 {
                    // every element of p is an element of q or x, and both are
                    // at least as confident as the last element of s
                    assert(p.contains(r[i]));
                    if r[i] != x {
                        assert(q.contains(r[i]));
                        let m = choose|m: int| 0 <= m < q.len() && q[m] == r[i];
                        assert(s[m] == r[i]);
                    }
                }
            }
        }
    }
}

/// Law: sorting by confidence gives a descending sequence of the same
/// length that holds exactly the boxes of the input.
pub proof fn law_sorted_by_confidence(s: Seq<BoundingBox>)
    ensures
        sorted_by_confidence(s).len() == s.len(),
        descending(sorted_by_confidence(s)),
        forall|i: int| 0 <= i < s.len() ==> sorted_by_confidence(s).contains(#[trigger] s[i]),
        forall|b: BoundingBox| sorted_by_confidence(s).contains(b) ==> #[trigger] s.contains(b),
    decreases s.len(),
{
    if s.len() > 0 {
        let q = s.drop_last();
        let p = sorted_by_confidence(q);
        law_sorted_by_confidence(q);
        lemma_insert_facts(p, s.last());
        let r = sorted_by_confidence(s);
        assert forall|i: int| 0 <= i < s.len() implies r.contains(#[trigger] s[i]) by {
            if i < q.len() {
                assert(q[i] == s[i]);
                assert(p.contains(q[i]));
                let k = choose|k: int| 0 <= k < p.len() && p[k] == q[i];
                assert(r.contains(p[k]));
            }
        }
        assert forall|b: BoundingBox| r.contains(b) implies #[trigger] s.contains(b) by {
            if b != s.last() {
                assert(p.contains(b));
                assert(q.contains(b));
                let j = choose|j: int| 0 <= j < q.len() && q[j] == b;
                assert(s[j] == b);
            } else {
                assert(s[s.len() - 1] == b);
            }
        }
    }
}

/// Sorts `boxes` by confidence, highest first, keeping the order of boxes
/// with equal confidence.
pub fn sort_by_confidence(boxes: &mut Vec<BoundingBox>)
    ensures
        final(boxes)@ == sorted_by_confidence(old(boxes)@),
{
    let ghost input = boxes@;
    let n = boxes.len();
    if n == 0 {
        return;
    }
    assert(input.take(1).drop_last() =~= Seq::<BoundingBox>::empty());
    assert(sorted_by_confidence(input.take(1).drop_last()).len() == 0);
    assert(insert_by_confidence(Seq::<BoundingBox>::empty(), input[0]) == seq![input[0]]);
    assert(boxes@.take(1) =~= sorted_by_confidence(input.take(1)));
    assert(boxes@.skip(1) =~= input.skip(1));
    let mut i: usize = 1;
    while i < n
        invariant
            n == boxes@.len(),
            n == input.len(),
            1 <= i <= n,
            boxes@.take(i as int) == sorted_by_confidence(input.take(i as int)),
            boxes@.skip(i as int) == input.skip(i as int),
        decreases n - i,
    {
        let ghost sorted = boxes@.take(i as int);
        let ghost x = input[i as int];
        assert(boxes@[i as int] == input.skip(i as int)[0]);
        assert(input.take(i as int + 1).drop_last() =~= input.take(i as int));
        assert(input.take(i as int + 1).last() == x);
        assert forall|k: int| i + 1 <= k < n implies boxes@[k] == input[k] by {
            assert(boxes@.skip(i as int)[k - i] == input.skip(i as int)[k - i]);
        }
        assert(boxes@.skip(i as int + 1) =~= input.skip(i as int + 1));
        assert(sorted.take(i as int) =~= sorted);
        assert(insert_by_confidence(sorted, x) + sorted.subrange(i as int, i as int)
            =~= insert_by_confidence(sorted, x));
        let mut j: usize = i;
        while j > 0 && boxes[j - 1].confidence < boxes[j].confidence
            invariant
                n == boxes@.len(),
                n == input.len(),
                1 <= i < n,
                j <= i,
                x == input[i as int],
                boxes@[j as int] == x,
                boxes@.take(j as int) == sorted.take(j as int),
                boxes@.subrange(j as int + 1, i as int + 1) == sorted.subrange(j as int, i as int),
                boxes@.skip(i as int + 1) == input.skip(i as int + 1),
                insert_by_confidence(sorted, x) == insert_by_confidence(sorted.take(j as int), x)
                    + sorted.subrange(j as int, i as int),
                sorted.len() == i,
            decreases j,
        {
            let ghost before = boxes@;
            let prev = boxes[j - 1];
            let cur = boxes[j];
            boxes.set(j - 1, cur);
            boxes.set(j, prev);
            proof {
                let t = sorted.take(j as int);
                assert(t.drop_last() =~= sorted.take(j - 1));
                assert(t.last() == prev);
                assert(insert_by_confidence(t, x) == insert_by_confidence(t.drop_last(), x).push(
                    t.last(),
                ));
                assert(sorted.subrange(j - 1, i as int) =~= seq![prev] + sorted.subrange(
                    j as int,
                    i as int,
                ));
                assert(insert_by_confidence(t.drop_last(), x).push(t.last()) + sorted.subrange(
                    j as int,
                    i as int,
                ) =~= insert_by_confidence(t.drop_last(), x) + sorted.subrange(j - 1, i as int));
                assert(boxes@.take(j - 1) =~= before.take(j - 1));
                assert(boxes@.subrange(j as int, i as int + 1) =~= sorted.subrange(
                    j - 1,
                    i as int,
                ));
                assert(boxes@.skip(i as int + 1) =~= before.skip(i as int + 1));
            }
            j = j - 1;
        }
        proof {
            let t = sorted.take(j as int);
            if j > 0 {
                assert(t.last() == sorted[j - 1]);
                assert(t.last().confidence >= x.confidence);
            }
            assert(insert_by_confidence(t, x) =~= t.push(x));
            assert(boxes@.take(i as int + 1) =~= t.push(x) + sorted.subrange(j as int, i as int));
            assert(sorted_by_confidence(input.take(i as int + 1)) == insert_by_confidence(
                sorted_by_confidence(input.take(i as int)),
                x,
            ));
            assert(boxes@.skip(i as int + 1) == input.skip(i as int + 1));
        }
        i = i + 1;
    }
    assert(boxes@.take(n as int) =~= boxes@);
    assert(input.take(n as int) =~= input);
}

// ---------------------------------------------------------------------------
// Non-maximum suppression

/// Whether a box survives next to `best`: their overlap is below `threshold`.
pub open spec fn survives(best: BoundingBox, threshold: int) -> spec_fn(BoundingBox) -> bool {
    |b: BoundingBox| iou_below(best, b, threshold)
}

/// Greedy non-maximum suppression over `s` (already in score order): keep
/// the first box, drop every later box whose overlap with it reaches
/// `threshold`, and go on with the rest.
pub open spec fn suppressed(s: Seq<BoundingBox>, threshold: int) -> Seq<BoundingBox>
    decreases s.len(),
{
    if s.len() == 0 {
        Seq::empty()
    } else {
        let rest = s.drop_first().filter(survives(s[0], threshold));
        proof {
            s.drop_first().lemma_filter_len(survives(s[0], threshold));
        }
        seq![s[0]] + suppressed(rest, threshold)
    }
}

/// Every box that suppression keeps comes from its input.
pub proof fn lemma_suppressed_subset(s: Seq<BoundingBox>, threshold: int)
    ensures
        forall|b: BoundingBox| #[trigger] suppressed(s, threshold).contains(b) ==> s.contains(b),
        suppressed(s, threshold).len() <= s.len(),
    decreases s.len(),
{
    broadcast use Seq::lemma_filter_len, Seq::lemma_filter_contains_rev;

    if s.len() > 0 {
        let rest = s.drop_first().filter(survives(s[0], threshold));
        lemma_suppressed_subset(rest, threshold);
        let r = suppressed(s, threshold);
        assert forall|b: BoundingBox| #[trigger] r.contains(b) implies s.contains(b) by {
            let k = choose|k: int| 0 <= k < r.len() && r[k] == b;
            if k == 0 {
                assert(s[0] == b);
            } else {
                assert(suppressed(rest, threshold)[k - 1] == b);
                assert(suppressed(rest, threshold).contains(b));
                assert(rest.contains(b));
                assert(s.drop_first().contains(b));
                let j = choose|j: int| 0 <= j < s.drop_first().len() && s.drop_first()[j] == b;
                assert(s[j + 1] == b);
            }
        }
    }
}

/// Law: every box that the post-processing keeps is the box of one
/// detection whose score reaches the threshold: its left and top edges are
/// the detection's, scaled from the model's 640 x 640 input to the image
/// and moved to zero when outside the image; its width and height are the
/// detection's, scaled, and cut at the right and bottom edges of the image;
/// its score is the detection's. Each value is held within the `i64` range.
pub proof fn law_kept_boxes_are_scaled_detections(
    data: Seq<i64>,
    n: int,
    width: int,
    height: int,
    threshold: int,
    nms_threshold: int,
)
    requires
        0 <= n,
        5 * n <= data.len(),
    ensures
        forall|b: BoundingBox|
            #[trigger] suppressed(
                sorted_by_confidence(candidates(data, n, width, height, threshold, n)),
                nms_threshold,
            ).contains(b) ==> exists|i: int|
                0 <= i < n && #[trigger] data[4 * n + i] >= threshold && ({
                    let cx = data[i] as int;
                    let cy = data[n + i] as int;
                    let w = data[2 * n + i] as int;
                    let h = data[3 * n + i] as int;
                    let left = max_of(0, (2 * cx - w) * width / 1280);
                    let top = max_of(0, (2 * cy - h) * height / 1280);
                    &&& b.x == saturate_i64(left)
                    &&& b.y == saturate_i64(top)
                    &&& b.width == saturate_i64(min_of(w * width / 640, width * 1_000_000 - left))
                    &&& b.height == saturate_i64(min_of(h * height / 640, height * 1_000_000 - top))
                    &&& b.confidence == data[4 * n + i]
                }),
{
    broadcast use Seq::lemma_filter_contains_rev;

    let c = candidates(data, n, width, height, threshold, n);
    let sorted = sorted_by_confidence(c);
    let kept = suppressed(sorted, nms_threshold);
    law_sorted_by_confidence(c);
    lemma_suppressed_subset(sorted, nms_threshold);
    law_candidates_are_scored_boxes(data, n, width, height, threshold, n as nat);
    let all = scaled_boxes(data, n, width, height, n as nat);
    assert forall|b: BoundingBox| #[trigger] kept.contains(b) implies exists|i: int|
        0 <= i < n && #[trigger] data[4 * n + i] >= threshold && ({
            let cx = data[i] as int;
            let cy = data[n + i] as int;
            let w = data[2 * n + i] as int;
            let h = data[3 * n + i] as int;
            let left = max_of(0, (2 * cx - w) * width / 1280);
            let top = max_of(0, (2 * cy - h) * height / 1280);
            &&& b.x == saturate_i64(left)
            &&& b.y == saturate_i64(top)
            &&& b.width == saturate_i64(min_of(w * width / 640, width * 1_000_000 - left))
            &&& b.height == saturate_i64(min_of(h * height / 640, height * 1_000_000 - top))
            &&& b.confidence == data[4 * n + i]
        }) by {
        assert(sorted.contains(b));
        assert(c.contains(b));
        assert(all.filter(scored_at_least(threshold)).contains(b));
        all.filter_lemma(scored_at_least(threshold));
        assert(scored_at_least(threshold)(b));
        assert(all.contains(b));
        let i = choose|i: int| 0 <= i < all.len() && all[i] == b;
        assert(b == scaled_box(data, n, i, width, height));
        assert(data[4 * n + i] >= threshold);
    }
}

/// Inserting a box adds exactly that box.
proof fn lemma_insert_multiset(s: Seq<BoundingBox>, x: BoundingBox)
    ensures
        insert_by_confidence(s, x).to_multiset() =~= s.to_multiset().insert(x),
    decreases s.len(),
{
    broadcast use vstd::seq_lib::group_to_multiset_ensures, vstd::multiset::group_multiset_axioms;

    if s.len() == 0 {
        assert(seq![x] =~= s.push(x));
    } else if s.last().confidence < x.confidence {
        lemma_insert_multiset(s.drop_last(), x);
        assert(s.drop_last().push(s.last()) =~= s);
    }
}

/// Sorting keeps every box as often as it is given.
proof fn lemma_sorted_multiset(s: Seq<BoundingBox>)
    ensures
        sorted_by_confidence(s).to_multiset() =~= s.to_multiset(),
    decreases s.len(),
{
    broadcast use vstd::seq_lib::group_to_multiset_ensures, vstd::multiset::group_multiset_axioms;

    if s.len() > 0 {
        lemma_sorted_multiset(s.drop_last());
        lemma_insert_multiset(sorted_by_confidence(s.drop_last()), s.last());
        assert(s.drop_last().push(s.last()) =~= s);
    }
}

/// Filtering keeps each box at most as often as it is given.
proof fn lemma_filter_count(s: Seq<BoundingBox>, p: spec_fn(BoundingBox) -> bool, b: BoundingBox)
    ensures
        s.filter(p).to_multiset().count(b) <= s.to_multiset().count(b),
    decreases s.len(),
{
    broadcast use vstd::seq_lib::group_to_multiset_ensures, vstd::multiset::group_multiset_axioms;

    reveal_with_fuel(Seq::filter, 1);
    if s.len() > 0 {
        lemma_filter_count(s.drop_last(), p, b);
        assert(s.drop_last().push(s.last()) =~= s);
    }
}

/// Suppression keeps each box at most as often as it is given.
proof fn lemma_suppressed_count(s: Seq<BoundingBox>, threshold: int, b: BoundingBox)
    ensures
        suppressed(s, threshold).to_multiset().count(b) <= s.to_multiset().count(b),
    decreases s.len(),
{
    broadcast use vstd::seq_lib::group_to_multiset_ensures, vstd::multiset::group_multiset_axioms;

    if s.len() > 0 {
        let p = survives(s[0], threshold);
        let rest = s.drop_first().filter(p);
        s.drop_first().lemma_filter_len(p);
        lemma_suppressed_count(rest, threshold, b);
        lemma_filter_count(s.drop_first(), p, b);
        let one = seq![s[0]];
        assert(one =~= Seq::<BoundingBox>::empty().push(s[0]));
        vstd::seq_lib::lemma_multiset_commutative(one, suppressed(rest, threshold));
        vstd::seq_lib::lemma_multiset_commutative(one, s.drop_first());
        assert(one + s.drop_first() =~= s);
    }
}

/// Law: sorting by confidence keeps every box exactly as often as it is
/// given, and non-maximum suppression after it keeps each box at most as
/// often as it is given.
pub proof fn law_nms_keeps_given_boxes(s: Seq<BoundingBox>, threshold: int)
    ensures
        sorted_by_confidence(s).to_multiset() == s.to_multiset(),
        forall|b: BoundingBox|
            #[trigger] suppressed(sorted_by_confidence(s), threshold).to_multiset().count(b)
                <= s.to_multiset().count(b),
{
    lemma_sorted_multiset(s);
    assert forall|b: BoundingBox|
        #[trigger] suppressed(sorted_by_confidence(s), threshold).to_multiset().count(b)
            <= s.to_multiset().count(b) by {
        lemma_suppressed_count(sorted_by_confidence(s), threshold, b);
    }
}

/// Law: suppression keeps at least one box exactly when it is given one, and
/// the first box it keeps is the first box of its input.
pub proof fn law_suppressed_keeps_first(s: Seq<BoundingBox>, threshold: int)
    ensures
        (suppressed(s, threshold).len() > 0) == (s.len() > 0),
        s.len() > 0 ==> suppressed(s, threshold)[0] == s[0],
{
}

/// Law: of any two boxes that suppression keeps, the overlap of the later
/// one with the earlier one is below the threshold.
pub proof fn law_suppressed_pairwise(s: Seq<BoundingBox>, threshold: int)
    ensures
        forall|i: int, j: int|
            0 <= i < j < suppressed(s, threshold).len() ==> iou_below(
                #[trigger] suppressed(s, threshold)[i],
                #[trigger] suppressed(s, threshold)[j],
                threshold,
            ),
    decreases s.len(),
{
    broadcast use Seq::lemma_filter_len, Seq::lemma_filter_pred;

    if s.len() > 0 {
        let rest = s.drop_first().filter(survives(s[0], threshold));
        let tail = suppressed(rest, threshold);
        law_suppressed_pairwise(rest, threshold);
        lemma_suppressed_subset(rest, threshold);
        let r = suppressed(s, threshold);
        assert forall|i: int, j: int| 0 <= i < j < r.len() implies iou_below(
            #[trigger] r[i],
            #[trigger] r[j],
            threshold,
        ) by {
            if i == 0 {
                assert(r[j] == tail[j - 1]);
                assert(tail.contains(tail[j - 1]));
                assert(rest.contains(r[j]));
                let k = choose|k: int| 0 <= k < rest.len() && rest[k] == r[j];
                assert(survives(s[0], threshold)(rest[k]));
            } else {
                assert(r[i] == tail[i - 1]);
                assert(r[j] == tail[j - 1]);
            }
        }
    }
}

/// Law: every box that suppression drops overlaps some kept box by at least
/// the threshold.
pub proof fn law_suppressed_covers(s: Seq<BoundingBox>, threshold: int)
    ensures
        forall|b: BoundingBox|
            #[trigger] s.contains(b) ==> suppressed(s, threshold).contains(b) || exists|k: BoundingBox|
                #[trigger] suppressed(s, threshold).contains(k) && !iou_below(k, b, threshold),
    decreases s.len(),
{
    broadcast use Seq::lemma_filter_len, Seq::lemma_filter_contains;

    if s.len() > 0 {
        let rest = s.drop_first().filter(survives(s[0], threshold));
        let tail = suppressed(rest, threshold);
        let r = suppressed(s, threshold);
        law_suppressed_covers(rest, threshold);
        assert forall|b: BoundingBox| #[trigger] s.contains(b) implies r.contains(b) || exists|
            k: BoundingBox,
        | #[trigger] r.contains(k) && !iou_below(k, b, threshold) by {
            assert(r[0] == s[0]);
            if b == s[0] {
                assert(r.contains(b));
            } else {
                let j = choose|j: int| 0 <= j < s.len() && s[j] == b;
                assert(j > 0);
                assert(s.drop_first()[j - 1] == b);
                if iou_below(s[0], b, threshold) {
                    assert(survives(s[0], threshold)(s.drop_first()[j - 1]));
                    assert(rest.contains(b));
                    if tail.contains(b) {
                        let m = choose|m: int| 0 <= m < tail.len() && tail[m] == b;
                        assert(r[m + 1] == b);
                    } else {
                        let k = choose|k: BoundingBox|
                            #[trigger] tail.contains(k) && !iou_below(k, b, threshold);
                        let m = choose|m: int| 0 <= m < tail.len() && tail[m] == k;
                        assert(r[m + 1] == k);
                        assert(r.contains(k));
                    }
                } else {
                    assert(r.contains(s[0]));
                }
            }
        }
    }
}

/// Non-maximum suppression: sorts the boxes by confidence (highest first)
/// and keeps, greedily, each box whose overlap with every box kept before it
/// stays below `nms_threshold` (millionths).
pub fn apply_nms(detections: Vec<BoundingBox>, nms_threshold: u32) -> (keep: Vec<BoundingBox>)
    ensures
        keep@ == suppressed(sorted_by_confidence(detections@), nms_threshold as int),
{
    let ghost t = nms_threshold as int;
    let mut rest = detections;
    let ghost input = rest@;
    sort_by_confidence(&mut rest);
    let ghost sorted = rest@;
    let mut keep: Vec<BoundingBox> = Vec::new();
    assert(keep@ + suppressed(rest@, t) =~= suppressed(sorted, t));
    while rest.len() > 0
        invariant
            keep@ + suppressed(rest@, t) == suppressed(sorted, t),
            t == nms_threshold as int,
        decreases rest.len(),
    {
        let best = rest[0];
        let n = rest.len();
        let mut next: Vec<BoundingBox> = Vec::new();
        let mut j: usize = 1;
        while j < n
            invariant
                n == rest@.len(),
                1 <= j <= n,
                best == rest@[0],
                next@ == rest@.subrange(1, j as int).filter(survives(best, t)),
                t == nms_threshold as int,
            decreases n - j,
        {
            proof {
                reveal_with_fuel(Seq::filter, 1);
                assert(rest@.subrange(1, j as int + 1).drop_last() =~= rest@.subrange(
                    1,
                    j as int,
                ));
            }
            let candidate = rest[j];
            if iou_is_below(&best, &candidate, nms_threshold) {
                next.push(candidate);
            }
            j = j + 1;
        }
        proof {
            assert(rest@.subrange(1, n as int) =~= rest@.drop_first());
            rest@.drop_first().lemma_filter_len(survives(best, t));
            assert(keep@.push(best) + suppressed(next@, t) =~= keep@ + suppressed(rest@, t));
        }
        keep.push(best);
        rest = next;
    }
    assert(keep@ + suppressed(rest@, t) =~= keep@);
    keep
}

// ---------------------------------------------------------------------------
// From model outputs to boxes

/// Side of the square image the model looks at, in pixels.
pub const MODEL_INPUT_SIZE: i64 = 640;

/// The threshold of overlap (millionths, that is 0.45) at which the person
/// detector suppresses the weaker of two boxes.
pub const NMS_THRESHOLD: u32 = 450_000;

/// What the post-processing needs of its inputs: the four coordinate rows and
/// the score row are all there.
pub open spec fn model_output_ok(data: Seq<i64>, n: int) -> bool {
    5 * n <= data.len()
}

/// `v` held within the `i64` range.
pub open spec fn saturate_i64(v: int) -> int {
    if v > i64::MAX {
        i64::MAX as int
    } else if v < i64::MIN {
        i64::MIN as int
    } else {
        v
    }
}

/// Box `i` of the model output, scaled from the model's square input to an
/// image of `width` x `height` pixels and clipped at the top-left corner and
/// at the right and bottom edges; each value is then held within the `i64`
/// range. The model output holds the centre x, the centre y, the width, the
/// height and the person score of detection `i` at `i`, `n + i`, `2n + i`,
/// `3n + i` and `4n + i`.
pub open spec fn scaled_box(data: Seq<i64>, n: int, i: int, width: int, height: int) -> BoundingBox {
    let cx = data[i] as int;
    let cy = data[n + i] as int;
    let w = data[2 * n + i] as int;
    let h = data[3 * n + i] as int;
    let x = max_of(0, (2 * cx - w) * width / (2 * MODEL_INPUT_SIZE as int));
    let y = max_of(0, (2 * cy - h) * height / (2 * MODEL_INPUT_SIZE as int));
    let bw = min_of(w * width / (MODEL_INPUT_SIZE as int), width * 1_000_000 - x);
    let bh = min_of(h * height / (MODEL_INPUT_SIZE as int), height * 1_000_000 - y);
    BoundingBox {
        x: saturate_i64(x) as i64,
        y: saturate_i64(y) as i64,
        width: saturate_i64(bw) as i64,
        height: saturate_i64(bh) as i64,
        confidence: data[4 * n + i],
    }
}

/// The boxes among the first `k` detections whose score reaches `threshold`,
/// in detection order.
pub open spec fn candidates(
    data: Seq<i64>,
    n: int,
    width: int,
    height: int,
    threshold: int,
    k: int,
) -> Seq<BoundingBox>
    decreases k,
{
    if k <= 0 {
        Seq::empty()
    } else {
        let prev = candidates(data, n, width, height, threshold, k - 1);
        if data[4 * n + k - 1] >= threshold {
            prev.push(scaled_box(data, n, k - 1, width, height))
        } else {
            prev
        }
    }
}

/// The first `k` boxes of the model output, each scaled and clipped, in
/// detection order.
pub open spec fn scaled_boxes(data: Seq<i64>, n: int, width: int, height: int, k: nat) -> Seq<
    BoundingBox,
> {
    Seq::new(k, |i: int| scaled_box(data, n, i, width, height))
}

/// Whether a box's score reaches `threshold`.
pub open spec fn scored_at_least(threshold: int) -> spec_fn(BoundingBox) -> bool {
    |b: BoundingBox| b.confidence >= threshold
}

/// Law: the candidate boxes are exactly the scaled boxes whose score reaches
/// the threshold, in detection order.
pub proof fn law_candidates_are_scored_boxes(
    data: Seq<i64>,
    n: int,
    width: int,
    height: int,
    threshold: int,
    k: nat,
)
    ensures
        candidates(data, n, width, height, threshold, k as int) == scaled_boxes(
            data,
            n,
            width,
            height,
            k,
        ).filter(scored_at_least(threshold)),
    decreases k,
{
    reveal_with_fuel(Seq::filter, 1);
    if k > 0 {
        law_candidates_are_scored_boxes(data, n, width, height, threshold, (k - 1) as nat);
        let all = scaled_boxes(data, n, width, height, k);
        assert(all.drop_last() =~= scaled_boxes(data, n, width, height, (k - 1) as nat));
    } else {
        assert(scaled_boxes(data, n, width, height, k) =~= Seq::<BoundingBox>::empty());
    }
}

/// Quotient of `a` and `b` within `m` when `a` is within `m * b`.
proof fn lemma_div_within(a: int, b: int, m: int)
    requires
        b >= 1,
        m >= 0,
        -m * b <= a <= m * b,
    ensures
        -m <= a / b <= m,
{
    vstd::arithmetic::div_mod::lemma_div_is_ordered(a, m * b, b);
    vstd::arithmetic::div_mod::lemma_div_is_ordered(-m * b, a, b);
    vstd::arithmetic::div_mod::lemma_fundamental_div_mod_converse(m * b, b, m, 0);
    vstd::arithmetic::div_mod::lemma_fundamental_div_mod_converse(-m * b, b, -m, 0);
}

/// `a / b` rounded toward negative infinity.
fn floor_div(a: i128, b: i128) -> (q: i128)
    requires
        b > 0,
        a > i128::MIN,
        a + b <= i128::MAX,
        -a + b <= i128::MAX,
    ensures
        q == a / b,
{
    if a >= 0 {
        ((a as u128) / (b as u128)) as i128
    } else {
        let p = (-a + b - 1) as u128;
        let q = p / (b as u128);
        proof {
            let pi = -a + b - 1;
            vstd::arithmetic::div_mod::lemma_fundamental_div_mod(pi, b as int);
            let r = pi % (b as int);
            assert(0 <= r < b) by {
                vstd::arithmetic::div_mod::lemma_mod_bound(pi, b as int);
            }
            let qi = pi / (b as int);
            assert(a == (-qi) * b + (b - 1 - r)) by (nonlinear_arith)
                requires
                    pi == b * qi + r,
                    pi == -a + b - 1,
            ;
            vstd::arithmetic::div_mod::lemma_fundamental_div_mod_converse(
                a as int,
                b as int,
                -qi,
                b - 1 - r,
            );
            vstd::arithmetic::div_mod::lemma_div_pos_is_pos(pi, b as int);
            vstd::arithmetic::div_mod::lemma_div_is_ordered_by_denominator(pi, 1, b as int);
            assert(pi / 1 == pi);
        }
        -(q as i128)
    }
}

/// `v` held within the `i64` range.
fn saturating_i64(v: i128) -> (r: i64)
    ensures
        r == saturate_i64(v as int),
{
    if v > i64::MAX as i128 {
        i64::MAX
    } else if v < i64::MIN as i128 {
        i64::MIN
    } else {
        v as i64
    }
}

/// `(2 * centre - side) * image_side / 1280`, rounded down, and
/// `side * image_side / 640`, rounded down: the start and the length of a
/// box along one axis in image millionths of a pixel.
fn scale_axis(centre: i64, side: i64, image_side: i32) -> (r: (i128, i128))
    ensures
        r.0 == (2 * centre - side) * image_side / (2 * MODEL_INPUT_SIZE as int),
        r.1 == side * image_side / (MODEL_INPUT_SIZE as int),
        -0x1_0000_0000_0000_0000_0000_0000 < r.0 < 0x1_0000_0000_0000_0000_0000_0000,
        -0x1_0000_0000_0000_0000_0000_0000 < r.1 < 0x1_0000_0000_0000_0000_0000_0000,
{
    let ghost m: int = 0x8000_0000_0000_0000int;
    let ghost q: int = 0x8000_0000int;
    let c = centre as i128;
    let s = side as i128;
    let k = image_side as i128;
    let span = 2 * c - s;
    assert(-3 * m <= span <= 3 * m);
    assert(-3 * m * q <= span * k <= 3 * m * q) by (nonlinear_arith)
        requires
            -3 * m <= span <= 3 * m,
            -q <= k <= q,
            m > 0,
            q > 0,
    ;
    assert(-m * q <= s * k <= m * q) by (nonlinear_arith)
        requires
            -m <= s <= m,
            -q <= k <= q,
            m > 0,
            q > 0,
    ;
    let side_px = MODEL_INPUT_SIZE as i128;
    let start = floor_div(span * k, 2 * side_px);
    let length = floor_div(s * k, side_px);
    proof {
        lemma_div_within(span * k, 1280, 3 * m * q);
        lemma_div_within(s * k, 640, m * q);
    }
    (start, length)
}

/// The box of detection `i`, scaled to the image.
fn scale_box(data: &[i64], n: usize, i: usize, img_width: i32, img_height: i32) -> (b: BoundingBox)
    requires
        model_output_ok(data@, n as int),
        i < n,
    ensures
        b == scaled_box(data@, n as int, i as int, img_width as int, img_height as int),
{
    let (x0, w0) = scale_axis(data[i], data[2 * n + i], img_width);
    let (y0, h0) = scale_axis(data[n + i], data[3 * n + i], img_height);
    let x = if x0 >= 0 { x0 } else { 0 };
    let y = if y0 >= 0 { y0 } else { 0 };
    let w1 = img_width as i128 * 1_000_000 - x;
    let h1 = img_height as i128 * 1_000_000 - y;
    let bw = if w0 <= w1 { w0 } else { w1 };
    let bh = if h0 <= h1 { h0 } else { h1 };
    BoundingBox {
        x: saturating_i64(x),
        y: saturating_i64(y),
        width: saturating_i64(bw),
        height: saturating_i64(bh),
        confidence: data[4 * n + i],
    }
}

/// Turns the raw model output for an image of `img_width` x `img_height`
/// pixels into person boxes: keeps the detections whose score reaches
/// `confidence_threshold`, scales their boxes to the image, and applies
/// non-maximum suppression with `nms_threshold`.
pub fn postprocess_outputs(
    data: &[i64],
    num_detections: usize,
    img_width: i32,
    img_height: i32,
    confidence_threshold: i64,
    nms_threshold: u32,
) -> (boxes: Vec<BoundingBox>)
    requires
        model_output_ok(data@, num_detections as int),
    ensures
        boxes@ == suppressed(
            sorted_by_confidence(
                candidates(
                    data@,
                    num_detections as int,
                    img_width as int,
                    img_height as int,
                    confidence_threshold as int,
                    num_detections as int,
                ),
            ),
            nms_threshold as int,
        ),
{
    let n = num_detections;
    let mut found: Vec<BoundingBox> = Vec::new();
    let mut i: usize = 0;
    while i < n
        invariant
            model_output_ok(data@, n as int),
            data@.len() == data.len(),
            i <= n,
            found@ == candidates(
                data@,
                n as int,
                img_width as int,
                img_height as int,
                confidence_threshold as int,
                i as int,
            ),
        decreases n - i,
    {
        let person_score = data[4 * n + i];
        if person_score >= confidence_threshold {
            let b = scale_box(data, n, i, img_width, img_height);
            found.push(b);
        }
        i = i + 1;
    }
    apply_nms(found, nms_threshold)
}

// ---------------------------------------------------------------------------
// The verdict on a frame

/// The highest confidence in `s`, and `0` when there is none higher.
pub open spec fn best_confidence(s: Seq<BoundingBox>) -> int
    decreases s.len(),
{
    if s.len() == 0 {
        0
    } else {
        max_of(best_confidence(s.drop_last()), s.last().confidence as int)
    }
}

/// A box as `[x, y, width, height]`.
pub open spec fn corners(b: BoundingBox) -> Seq<i64> {
    seq![b.x, b.y, b.width, b.height]
}

/// The per-frame result for the kept `boxes` of the frame at `timestamp`.
pub fn detection_from_boxes(timestamp: i64, boxes: &Vec<BoundingBox>) -> (d: Detection)
    ensures
        d.timestamp == timestamp,
        d.has_humans == (boxes@.len() > 0),
        d.confidence == best_confidence(boxes@),
        d.bboxes@.len() == boxes@.len(),
        forall|i: int| 0 <= i < boxes@.len() ==> (#[trigger] d.bboxes@[i])@ == corners(boxes@[i]),
{
    let n = boxes.len();
    let mut best: i64 = 0;
    let mut arrays: Vec<[i64; 4]> = Vec::new();
    let mut i: usize = 0;
    while i < n
        invariant
            n == boxes@.len(),
            i <= n,
            best == best_confidence(boxes@.take(i as int)),
            arrays@.len() == i,
            forall|k: int| 0 <= k < i ==> (#[trigger] arrays@[k])@ == corners(boxes@[k]),
        decreases n - i,
    {
        assert(boxes@.take(i as int + 1).drop_last() =~= boxes@.take(i as int));
        let b = boxes[i];
        if b.confidence > best {
            best = b.confidence;
        }
        let corners: [i64; 4] = [b.x, b.y, b.width, b.height];
        assert(corners@ =~= seq![b.x, b.y, b.width, b.height]);
        arrays.push(corners);
        i = i + 1;
    }
    assert(boxes@.take(n as int) =~= boxes@);
    Detection { timestamp, has_humans: n > 0, confidence: best, bboxes: arrays }
}

/// The result for one frame from the raw model output: the frame shows
/// humans when a person box survives, and its confidence is the best score
/// among the kept boxes.
pub fn detect_humans(
    data: &[i64],
    num_detections: usize,
    img_width: i32,
    img_height: i32,
    confidence_threshold: i64,
    nms_threshold: u32,
    timestamp: i64,
) -> (d: Detection)
    requires
        model_output_ok(data@, num_detections as int),
    ensures
        d.timestamp == timestamp,
        d.has_humans == (exists|i: int|
            0 <= i < num_detections && #[trigger] data@[4 * num_detections + i]
                >= confidence_threshold),
        d.confidence == best_confidence(
            candidates(
                data@,
                num_detections as int,
                img_width as int,
                img_height as int,
                confidence_threshold as int,
                num_detections as int,
            ),
        ),
        ({
            let kept = suppressed(
                sorted_by_confidence(
                    candidates(
                        data@,
                        num_detections as int,
                        img_width as int,
                        img_height as int,
                        confidence_threshold as int,
                        num_detections as int,
                    ),
                ),
                nms_threshold as int,
            );
            &&& d.bboxes@.len() == kept.len()
            &&& forall|i: int| 0 <= i < kept.len() ==> (#[trigger] d.bboxes@[i])@ == corners(kept[i])
        }),
{
    let boxes = postprocess_outputs(
        data,
        num_detections,
        img_width,
        img_height,
        confidence_threshold,
        nms_threshold,
    );
    proof {
        law_frame_verdict(
            data@,
            num_detections as int,
            img_width as int,
            img_height as int,
            confidence_threshold as int,
            nms_threshold as int,
        );
    }
    detection_from_boxes(timestamp, &boxes)
}

/// `best_confidence` is at least zero and every confidence of `s`, and is
/// zero or one of them.
proof fn lemma_best_confidence(s: Seq<BoundingBox>)
    ensures
        best_confidence(s) >= 0,
        forall|i: int| 0 <= i < s.len() ==> best_confidence(s) >= (#[trigger] s[i]).confidence,
        best_confidence(s) == 0 || exists|i: int|
            0 <= i < s.len() && (#[trigger] s[i]).confidence == best_confidence(s),
    decreases s.len(),
{
    if s.len() > 0 {
        let q = s.drop_last();
        lemma_best_confidence(q);
        assert forall|i: int| 0 <= i < s.len() implies best_confidence(s) >= (
        #[trigger] s[i]).confidence by {
            if i < q.len() {
                assert(q[i] == s[i]);
            }
        }
        if best_confidence(s) != 0 {
            if best_confidence(s) == s.last().confidence {
                assert(s[s.len() - 1].confidence == best_confidence(s));
            } else {
                let i = choose|i: int| 0 <= i < q.len() && (#[trigger] q[i]).confidence
                    == best_confidence(q);
                assert(s[i] == q[i]);
            }
        }
    }
}

/// Two sequences where every confidence of each is below some confidence of
/// the other (or zero) have the same best confidence.
proof fn lemma_best_confidence_same(a: Seq<BoundingBox>, b: Seq<BoundingBox>)
    requires
        forall|x: BoundingBox| #[trigger] a.contains(x) ==> x.confidence <= best_confidence(b),
        forall|x: BoundingBox| #[trigger] b.contains(x) ==> x.confidence <= best_confidence(a),
    ensures
        best_confidence(a) == best_confidence(b),
{
    lemma_best_confidence(a);
    lemma_best_confidence(b);
    if best_confidence(a) != 0 {
        let i = choose|i: int| 0 <= i < a.len() && (#[trigger] a[i]).confidence == best_confidence(
            a,
        );
        assert(a.contains(a[i]));
    }
    if best_confidence(b) != 0 {
        let i = choose|i: int| 0 <= i < b.len() && (#[trigger] b[i]).confidence == best_confidence(
            b,
        );
        assert(b.contains(b[i]));
    }
}

/// There is a candidate among the first `k` detections exactly when one of
/// their scores reaches the threshold; every candidate is a scaled box.
proof fn lemma_candidates_exist(
    data: Seq<i64>,
    n: int,
    width: int,
    height: int,
    threshold: int,
    k: int,
)
    requires
        0 <= k <= n,
    ensures
        (candidates(data, n, width, height, threshold, k).len() > 0) == (exists|i: int|
            0 <= i < k && #[trigger] data[4 * n + i] >= threshold),
    decreases k,
{
    if k > 0 {
        lemma_candidates_exist(data, n, width, height, threshold, k - 1);
        if data[4 * n + k - 1] < threshold {
            if exists|i: int| 0 <= i < k && #[trigger] data[4 * n + i] >= threshold {
                let i = choose|i: int| 0 <= i < k && #[trigger] data[4 * n + i] >= threshold;
                assert(i < k - 1);
            }
        } else {
            assert(data[4 * n + (k - 1)] >= threshold);
        }
    }
}

/// Law: a frame shows humans exactly when some detection's person score
/// reaches the confidence threshold, and the frame's confidence is the best
/// score among those detections (or zero): suppression never drops the best
/// box.
pub proof fn law_frame_verdict(
    data: Seq<i64>,
    n: int,
    width: int,
    height: int,
    threshold: int,
    nms_threshold: int,
)
    requires
        0 <= n,
    ensures
        ({
            let found = candidates(data, n, width, height, threshold, n);
            let kept = suppressed(sorted_by_confidence(found), nms_threshold);
            &&& (kept.len() > 0) == (exists|i: int|
                0 <= i < n && #[trigger] data[4 * n + i] >= threshold)
            &&& best_confidence(kept) == best_confidence(found)
        }),
{
    let found = candidates(data, n, width, height, threshold, n);
    let sorted = sorted_by_confidence(found);
    let kept = suppressed(sorted, nms_threshold);
    lemma_candidates_exist(data, n, width, height, threshold, n);
    law_sorted_by_confidence(found);
    lemma_suppressed_subset(sorted, nms_threshold);
    law_suppressed_keeps_first(sorted, nms_threshold);
    lemma_best_confidence(kept);
    lemma_best_confidence(found);
    assert forall|x: BoundingBox| #[trigger] kept.contains(x) implies x.confidence
        <= best_confidence(found) by {
        assert(sorted.contains(x));
        assert(found.contains(x));
        let j = choose|j: int| 0 <= j < found.len() && found[j] == x;
    }
    assert forall|x: BoundingBox| #[trigger] found.contains(x) implies x.confidence
        <= best_confidence(kept) by {
        let j = choose|j: int| 0 <= j < found.len() && found[j] == x;
        assert(sorted.contains(found[j]));
        let m = choose|m: int| 0 <= m < sorted.len() && sorted[m] == x;
        assert(sorted[0].confidence >= sorted[m].confidence || m == 0);
        assert(kept[0] == sorted[0]);
    }
    lemma_best_confidence_same(kept, found);
}

/// Keeping some boxes of a descending sequence keeps it descending.
proof fn lemma_filter_descending(s: Seq<BoundingBox>, p: spec_fn(BoundingBox) -> bool)
    requires
        descending(s),
    ensures
        descending(s.filter(p)),
    decreases s.len(),
{
    broadcast use Seq::lemma_filter_contains_rev;

    reveal_with_fuel(Seq::filter, 1);
    if s.len() > 0 {
        let q = s.drop_last();
        assert(descending(q)) by {
            assert forall|i: int, j: int| 0 <= i < j < q.len() implies q[i].confidence
                >= q[j].confidence by {
                assert(s[i].confidence >= s[j].confidence);
            }
        }
        lemma_filter_descending(q, p);
        let f = q.filter(p);
        if p(s.last()) {
            let r = f.push(s.last());
            assert forall|i: int, j: int| 0 <= i < j < r.len() implies r[i].confidence
                >= r[j].confidence by {
                if j == r.len() - 1 {
                    assert(f.contains(f[i]));
                    assert(q.contains(f[i]));
                    let k = choose|k: int| 0 <= k < q.len() && q[k] == f[i];
                    assert(s[k].confidence >= s[s.len() - 1].confidence);
                }
            }
        }
    }
}

/// Law: suppression over boxes in score order keeps them in score order.
pub proof fn law_suppressed_descending(s: Seq<BoundingBox>, threshold: int)
    requires
        descending(s),
    ensures
        descending(suppressed(s, threshold)),
    decreases s.len(),
{
    if s.len() > 0 {
        let d = s.drop_first();
        assert(descending(d)) by {
            assert forall|i: int, j: int| 0 <= i < j < d.len() implies d[i].confidence
                >= d[j].confidence by {
                assert(s[i + 1].confidence >= s[j + 1].confidence);
            }
        }
        let rest = d.filter(survives(s[0], threshold));
        lemma_filter_descending(d, survives(s[0], threshold));
        law_suppressed_descending(rest, threshold);
        lemma_suppressed_subset(rest, threshold);
        let tail = suppressed(rest, threshold);
        let r = suppressed(s, threshold);
        assert forall|i: int, j: int| 0 <= i < j < r.len() implies r[i].confidence
            >= r[j].confidence by {
            if i == 0 {
                assert(r[j] == tail[j - 1]);
                assert(tail.contains(tail[j - 1]));
                assert(rest.contains(r[j]));
                broadcast use Seq::lemma_filter_contains_rev;

                assert(d.contains(r[j]));
                let k = choose|k: int| 0 <= k < d.len() && d[k] == r[j];
                assert(s[0].confidence >= s[k + 1].confidence);
            } else {
                assert(r[i] == tail[i - 1]);
                assert(r[j] == tail[j - 1]);
            }
        }
    }
}

/// Whether `b` lies in an image of `width` x `height` pixels, starting at
/// or right of and below its top-left corner, with a score of at least
/// `threshold`.
pub open spec fn box_in_image(b: BoundingBox, width: int, height: int, threshold: int) -> bool {
    &&& b.x >= 0
    &&& b.y >= 0
    &&& b.x + b.width <= width * 1_000_000
    &&& b.y + b.height <= height * 1_000_000
    &&& b.confidence >= threshold
}

/// A scaled box lies in the image.
proof fn lemma_scaled_box_in_image(data: Seq<i64>, n: int, i: int, width: int, height: int)
    requires
        0 <= width <= i32::MAX,
        0 <= height <= i32::MAX,
    ensures
        box_in_image(scaled_box(data, n, i, width, height), width, height, data[4 * n + i] as int),
{
    let cx = data[i] as int;
    let cy = data[n + i] as int;
    let w = data[2 * n + i] as int;
    let h = data[3 * n + i] as int;
    let x = max_of(0, (2 * cx - w) * width / (2 * MODEL_INPUT_SIZE as int));
    let y = max_of(0, (2 * cy - h) * height / (2 * MODEL_INPUT_SIZE as int));
    let bw = min_of(w * width / (MODEL_INPUT_SIZE as int), width * 1_000_000 - x);
    let bh = min_of(h * height / (MODEL_INPUT_SIZE as int), height * 1_000_000 - y);
    assert(x >= 0 && bw <= width * 1_000_000 - x);
    assert(y >= 0 && bh <= height * 1_000_000 - y);
    assert(width * 1_000_000 <= i64::MAX);
    assert(height * 1_000_000 <= i64::MAX);
}

/// Every candidate lies in the image and reaches the threshold.
proof fn lemma_candidates_in_image(
    data: Seq<i64>,
    n: int,
    width: int,
    height: int,
    threshold: int,
    k: int,
)
    requires
        0 <= width <= i32::MAX,
        0 <= height <= i32::MAX,
    ensures
        forall|i: int|
            0 <= i < candidates(data, n, width, height, threshold, k).len() ==> box_in_image(
                #[trigger] candidates(data, n, width, height, threshold, k)[i],
                width,
                height,
                threshold,
            ),
    decreases k,
{
    if k > 0 {
        lemma_candidates_in_image(data, n, width, height, threshold, k - 1);
        lemma_scaled_box_in_image(data, n, k - 1, width, height);
        let prev = candidates(data, n, width, height, threshold, k - 1);
        let c = candidates(data, n, width, height, threshold, k);
        assert forall|i: int| 0 <= i < c.len() implies box_in_image(
            #[trigger] c[i],
            width,
            height,
            threshold,
        ) by {
            if i < prev.len() {
                assert(c[i] == prev[i]);
            }
        }
    }
}

/// Law: on an image with non-negative sides, every box the post-processing
/// keeps starts at or right of and below the top-left corner, ends within the
/// image, and scores at least the confidence threshold; the kept boxes come
/// in score order; and the frame's confidence is zero when no box is kept
/// and otherwise at least the threshold and at least zero.
pub proof fn law_kept_boxes_in_image(
    data: Seq<i64>,
    n: int,
    width: int,
    height: int,
    threshold: int,
    nms_threshold: int,
)
    requires
        0 <= width <= i32::MAX,
        0 <= height <= i32::MAX,
    ensures
        ({
            let kept = suppressed(
                sorted_by_confidence(candidates(data, n, width, height, threshold, n)),
                nms_threshold,
            );
            &&& forall|i: int|
                0 <= i < kept.len() ==> box_in_image(#[trigger] kept[i], width, height, threshold)
            &&& descending(kept)
            &&& kept.len() == 0 ==> best_confidence(kept) == 0
            &&& kept.len() > 0 ==> best_confidence(kept) >= threshold && best_confidence(kept) >= 0
        }),
{
    let found = candidates(data, n, width, height, threshold, n);
    let sorted = sorted_by_confidence(found);
    let kept = suppressed(sorted, nms_threshold);
    lemma_candidates_in_image(data, n, width, height, threshold, n);
    law_sorted_by_confidence(found);
    lemma_suppressed_subset(sorted, nms_threshold);
    law_suppressed_descending(sorted, nms_threshold);
    lemma_best_confidence(kept);
    assert forall|i: int| 0 <= i < kept.len() implies box_in_image(
        #[trigger] kept[i],
        width,
        height,
        threshold,
    ) by {
        assert(kept.contains(kept[i]));
        assert(sorted.contains(kept[i]));
        assert(found.contains(kept[i]));
        let j = choose|j: int| 0 <= j < found.len() && found[j] == kept[i];
    }
    if kept.len() > 0 {
        assert(box_in_image(kept[0], width, height, threshold));
    }
}

} // verus!
