//! The anchor quantizer: maps a per-pixel intensity to an output intensity
//! using a sorted list of 1 to 10 anchor breakpoints, under two segmentation
//! policies. `Average` emits the midpoint of the matched anchor segment;
//! `Partial` emits a fixed posterization ladder of `anchors + 2` equal-width
//! steps. Both scan the anchor list ascending with inclusive bounds, so a
//! boundary value matching two adjacent segments resolves to the
//! lower-indexed one (first match wins); this tie-break is deliberate and
//! kept exactly.

use vstd::prelude::*;

verus! {

/// The segmentation policy that pairs with an anchor set.
#[derive(Clone, Copy, PartialEq, Eq, Structural, Debug)]
pub enum ReflectionMode {
    Average,
    Partial,
}

/// Ascending order, duplicates allowed.
pub open spec fn sorted(s: Seq<u8>) -> bool {
    forall|i: int, j: int| 0 <= i <= j < s.len() ==> s[i] <= s[j]
}

/// Inserts `v` into `s` after every element less than or equal to it,
/// scanning from the back.
pub open spec fn insert_sorted(s: Seq<u8>, v: u8) -> Seq<u8>
    decreases s.len(),
{
    if s.len() == 0 {
        seq![v]
    } else if v >= s.last() {
        s.push(v)
    } else {
        insert_sorted(s.drop_last(), v).push(s.last())
    }
}

/// Insertion sort of a byte sequence, ascending.
pub open spec fn spec_sort(s: Seq<u8>) -> Seq<u8>
    decreases s.len(),
{
    if s.len() == 0 {
        Seq::empty()
    } else {
        insert_sorted(spec_sort(s.drop_last()), s.last())
    }
}

proof fn lemma_insert_sorted_len(s: Seq<u8>, v: u8)
    ensures
        insert_sorted(s, v).len() == s.len() + 1,
    decreases s.len(),
{
    if s.len() == 0 {
    } else if v >= s.last() {
    } else {
        lemma_insert_sorted_len(s.drop_last(), v);
    }
}

/// Every element of the insertion result is an upper-bounded element of the
/// input or `v` itself.
proof fn lemma_insert_sorted_bound(s: Seq<u8>, v: u8, b: u8)
    requires
        forall|i: int| 0 <= i < s.len() ==> s[i] <= b,
        v <= b,
    ensures
        forall|i: int| 0 <= i < insert_sorted(s, v).len() ==> insert_sorted(s, v)[i] <= b,
    decreases s.len(),
{
    lemma_insert_sorted_len(s, v);
    if s.len() == 0 {
    } else if v >= s.last() {
    } else {
        let s1 = s.drop_last();
        assert(forall|i: int| 0 <= i < s1.len() ==> s1[i] <= b);
        lemma_insert_sorted_bound(s1, v, b);
        lemma_insert_sorted_len(s1, v);
        let w = insert_sorted(s1, v).push(s.last());
        assert(s.last() == s[s.len() - 1]);
        assert forall|i: int| 0 <= i < w.len() implies w[i] <= b by {
            if i < w.len() - 1 {
                assert(insert_sorted(s1, v)[i] <= b);
            }
        }
    }
}

proof fn lemma_insert_sorted_sorted(s: Seq<u8>, v: u8)
    requires
        sorted(s),
    ensures
        sorted(insert_sorted(s, v)),
    decreases s.len(),
{
    lemma_insert_sorted_len(s, v);
    if s.len() == 0 {
    } else if v >= s.last() {
    } else {
        let s1 = s.drop_last();
        assert(sorted(s1));
        lemma_insert_sorted_sorted(s1, v);
        lemma_insert_sorted_len(s1, v);
        assert(forall|i: int| 0 <= i < s1.len() ==> s1[i] <= s.last());
        lemma_insert_sorted_bound(s1, v, s.last());
        let w = insert_sorted(s1, v).push(s.last());
        assert forall|i: int, j: int| 0 <= i <= j < w.len() implies w[i] <= w[j] by {
            if j < w.len() - 1 {
                assert(insert_sorted(s1, v)[i] <= insert_sorted(s1, v)[j]);
            }
        }
    }
}

pub proof fn lemma_sort_len(s: Seq<u8>)
    ensures
        spec_sort(s).len() == s.len(),
    decreases s.len(),
{
    if s.len() > 0 {
        lemma_sort_len(s.drop_last());
        lemma_insert_sorted_len(spec_sort(s.drop_last()), s.last());
    }
}

pub proof fn lemma_sort_sorted(s: Seq<u8>)
    ensures
        sorted(spec_sort(s)),
    decreases s.len(),
{
    if s.len() > 0 {
        lemma_sort_sorted(s.drop_last());
        lemma_insert_sorted_sorted(spec_sort(s.drop_last()), s.last());
    }
}

/// Where a back-to-front scan of a sorted sequence stops, the insertion is a
/// plain `Seq::insert` at that point.
proof fn lemma_insert_sorted_at(s: Seq<u8>, v: u8, k: int)
    requires
        sorted(s),
        0 <= k <= s.len(),
        k == 0 || s[k - 1] <= v,
        k == s.len() || s[k] > v,
    ensures
        insert_sorted(s, v) == s.insert(k, v),
    decreases s.len(),
{
    if s.len() == 0 {
        assert(insert_sorted(s, v) =~= s.insert(0, v));
    } else if v >= s.last() {
        assert(k == s.len());
        assert(s.push(v) =~= s.insert(k as int, v));
    } else {
        let s1 = s.drop_last();
        assert(k < s.len());
        assert(sorted(s1));
        lemma_insert_sorted_at(s1, v, k);
        assert(insert_sorted(s1, v).push(s.last()) =~= s.insert(k, v));
    }
}

/// Sorts a copy of the anchor values ascending; consumers sort before use
/// since producers need not.
pub fn sort_anchors(values: &Vec<u8>) -> (r: Vec<u8>)
    ensures
        r@ == spec_sort(values@),
{
    let mut out: Vec<u8> = Vec::new();
    let n = values.len();
    let mut idx: usize = 0;
    while idx < n
        invariant
            idx <= n,
            n == values@.len(),
            out@ == spec_sort(values@.take(idx as int)),
        decreases n - idx,
    {
        let x = values[idx];
        let mut j = out.len();
        while j > 0 && out[j - 1] > x
            invariant
                j <= out@.len(),
                forall|m: int| j <= m < out@.len() ==> out@[m] > x,
            decreases j,
        {
            j -= 1;
        }
        proof {
            lemma_sort_sorted(values@.take(idx as int));
            lemma_insert_sorted_at(out@, x, j as int);
            assert(values@.take(idx as int + 1).drop_last() =~= values@.take(idx as int));
            assert(values@.take(idx as int + 1).last() == values@[idx as int]);
        }
        out.insert(j, x);
        idx += 1;
    }
    proof {
        assert(values@.take(n as int) =~= values@);
    }
    out
}

/// The first index `j >= i` whose segment `[a[j], a[j+1]]` contains `v`
/// (inclusive on both ends), scanning ascending; `None` when no interior
/// segment matches.
pub open spec fn first_segment(v: int, a: Seq<u8>, i: int) -> Option<int>
    decreases a.len() - i,
{
    if i < 0 || i + 1 >= a.len() {
        None
    } else if a[i] <= v && v <= a[i + 1] {
        Some(i)
    } else {
        first_segment(v, a, i + 1)
    }
}

pub proof fn lemma_first_segment_bounds(v: int, a: Seq<u8>, i: int, j: int)
    requires
        first_segment(v, a, i) == Some(j),
    ensures
        i <= j < a.len() - 1,
        a[j] <= v <= a[j + 1],
    decreases a.len() - i,
{
    if i < 0 || i + 1 >= a.len() {
    } else if a[i] <= v && v <= a[i + 1] {
    } else {
        lemma_first_segment_bounds(v, a, i + 1, j);
    }
}

/// The quantizer under the `Average` policy. Interior segments emit the
/// floor of the segment's anchor midpoint. Below the first anchor the second
/// anchor's half is reused when more than one anchor exists (a deliberate
/// quirk of the mapping, kept for bit-compatibility); above the last anchor
/// the second-to-last anchor is averaged with 255. With a single anchor the
/// range splits at that anchor into the two halves' midpoints.
pub open spec fn spec_quantize_average(v: int, a: Seq<u8>) -> int {
    if a.len() <= 1 {
        if v < a[0] {
            (a[0] as int) / 2
        } else {
            (a[0] + 255) / 2
        }
    } else {
        match first_segment(v, a, 0) {
            Some(i) => (a[i] + a[i + 1]) / 2,
            None => {
                if v <= a[0] {
                    (a[1] as int) / 2
                } else {
                    (a[a.len() - 2] + 255) / 2
                }
            },
        }
    }
}

/// The fixed ladder color of segment index `k` out of `n + 2` equal-width
/// segments: 0 for the reserved lowest segment, 255 for the highest, and the
/// floor of the segment's midpoint `255 (2k + 1) / (2 (n + 2))` between.
pub open spec fn spec_partial_color(n: int, k: int) -> int {
    if k <= 0 {
        0
    } else if k >= n + 1 {
        255
    } else {
        (255 * (2 * k + 1)) / (2 * (n + 2))
    }
}

/// The quantizer under the `Partial` policy: the matched anchor interval
/// selects a precomputed ladder color, offset by one to skip the reserved
/// pure-black segment; below the first anchor pure black, above the last
/// pure white.
pub open spec fn spec_quantize_partial(v: int, a: Seq<u8>) -> int {
    if a.len() <= 1 {
        if v < a[0] {
            0
        } else {
            255
        }
    } else {
        match first_segment(v, a, 0) {
            Some(i) => spec_partial_color(a.len() as int, i + 1),
            None => {
                if v <= a[0] {
                    0
                } else {
                    255
                }
            },
        }
    }
}

proof fn lemma_div_bound(x: int, d: int, b: int)
    requires
        0 < d,
        0 <= x,
        x < b * d,
    ensures
        x / d < b,
{
    assert(x / d < b) by (nonlinear_arith)
        requires
            0 < d,
            0 <= x,
            x < b * d,
    ;
}

/// Quantizer totality and range: both policies stay within [0, 255] for
/// every intensity and every non-empty anchor set.
pub proof fn lemma_quantize_range(v: int, a: Seq<u8>)
    requires
        a.len() >= 1,
    ensures
        0 <= spec_quantize_average(v, a) <= 255,
        0 <= spec_quantize_partial(v, a) <= 255,
{
    if a.len() > 1 {
        match first_segment(v, a, 0) {
            Some(i) => {
                lemma_first_segment_bounds(v, a, 0, i);
                lemma_partial_color_range(a.len() as int, i + 1);
            },
            None => {},
        }
    }
}

/// Ladder colors stay within [0, 255].
pub proof fn lemma_partial_color_range(n: int, k: int)
    requires
        n >= 0,
    ensures
        0 <= spec_partial_color(n, k) <= 255,
{
    if 0 < k < n + 1 {
        assert(255 * (2 * k + 1) < 255 * (2 * (n + 2))) by (nonlinear_arith)
            requires
                0 < k < n + 1,
        ;
        lemma_div_bound(255 * (2 * k + 1), 2 * (n + 2), 255);
    }
}

/// The ladder is 255/(n+2)-spaced: each interior color lies between the
/// boundaries of its segment, the k-th boundary standing at 255 k / (n+2).
pub proof fn lemma_partial_color_between(n: int, k: int)
    requires
        1 <= n,
        1 <= k <= n,
    ensures
        (255 * k) / (n + 2) <= spec_partial_color(n, k) <= (255 * (k + 1)) / (n + 2),
{
    let d = n + 2;
    assert((255 * k) / d == (510 * k) / (2 * d)) by (nonlinear_arith)
        requires
            d > 0,
            k >= 0,
    ;
    assert((255 * (k + 1)) / d == (510 * k + 510) / (2 * d)) by (nonlinear_arith)
        requires
            d > 0,
            k >= 0,
    ;
    assert((510 * k) / (2 * d) <= (255 * (2 * k + 1)) / (2 * d)) by (nonlinear_arith)
        requires
            d > 0,
            k >= 0,
    ;
    assert((255 * (2 * k + 1)) / (2 * d) <= (510 * k + 510) / (2 * d)) by (nonlinear_arith)
        requires
            d > 0,
            k >= 0,
    ;
}

/// Partial segmentation determinism: the result is a function of intensity
/// and anchors alone, so repeated calls with identical inputs yield
/// identical outputs.
pub proof fn lemma_quantize_partial_deterministic(r1: int, r2: int, v: int, a: Seq<u8>)
    requires
        r1 == spec_quantize_partial(v, a),
        r2 == spec_quantize_partial(v, a),
    ensures
        r1 == r2,
{
}

/// Maps an intensity through the `Average` policy over anchors sorted
/// ascending.
pub fn quantize_average(intensity: u8, anchors: &Vec<u8>) -> (v: u8)
    requires
        1 <= anchors@.len() <= 10,
        sorted(anchors@),
    ensures
        v as int == spec_quantize_average(intensity as int, anchors@),
{
    let n = anchors.len();
    if n == 1 {
        let a0 = anchors[0];
        if intensity < a0 {
            a0 / 2
        } else {
            ((a0 as u16 + 255) / 2) as u8
        }
    } else {
        let mut i: usize = 0;
        while i < n - 1
            invariant
                i <= n - 1,
                n == anchors@.len(),
                2 <= n <= 10,
                first_segment(intensity as int, anchors@, 0) == first_segment(intensity as int, anchors@, i as int),
            decreases n - i,
        {
            if anchors[i] <= intensity && intensity <= anchors[i + 1] {
                proof {
                    assert(first_segment(intensity as int, anchors@, i as int) == Some(i as int));
                }
                return ((anchors[i] as u16 + anchors[i + 1] as u16) / 2) as u8;
            }
            i += 1;
        }
        proof {
            assert(first_segment(intensity as int, anchors@, n - 1) is None);
        }
        if intensity <= anchors[0] {
            anchors[1] / 2
        } else {
            ((anchors[n - 2] as u16 + 255) / 2) as u8
        }
    }
}

/// Computes the interior ladder color for segment `k` of `n + 2`.
fn partial_color(n: usize, k: usize) -> (c: u8)
    requires
        1 <= n <= 10,
        1 <= k <= n,
    ensures
        c as int == spec_partial_color(n as int, k as int),
{
    let num: u32 = 255 * (2 * (k as u32) + 1);
    let den: u32 = 2 * ((n as u32) + 2);
    proof {
        lemma_partial_color_range(n as int, k as int);
        assert(num as int == 255 * (2 * (k as int) + 1));
        assert(den as int == 2 * ((n as int) + 2));
    }
    (num / den) as u8
}

/// Maps an intensity through the `Partial` policy over anchors sorted
/// ascending.
pub fn quantize_partial(intensity: u8, anchors: &Vec<u8>) -> (v: u8)
    requires
        1 <= anchors@.len() <= 10,
        sorted(anchors@),
    ensures
        v as int == spec_quantize_partial(intensity as int, anchors@),
{
    let n = anchors.len();
    if n == 1 {
        let a0 = anchors[0];
        if intensity < a0 {
            0
        } else {
            255
        }
    } else {
        let mut i: usize = 0;
        while i < n - 1
            invariant
                i <= n - 1,
                n == anchors@.len(),
                2 <= n <= 10,
                first_segment(intensity as int, anchors@, 0) == first_segment(intensity as int, anchors@, i as int),
            decreases n - i,
        {
            if anchors[i] <= intensity && intensity <= anchors[i + 1] {
                proof {
                    assert(first_segment(intensity as int, anchors@, i as int) == Some(i as int));
                }
                return partial_color(n, i + 1);
            }
            i += 1;
        }
        proof {
            assert(first_segment(intensity as int, anchors@, n - 1) is None);
        }
        if intensity <= anchors[0] {
            0
        } else {
            255
        }
    }
}

} // verus!
