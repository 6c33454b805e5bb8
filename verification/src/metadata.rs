//! The anchor metadata codec: serializes the anchor list, segmentation
//! policy and luma policy to a compact single-line textual payload, and
//! reads them back by substring scanning. The decoder tolerates only this
//! encoder's format: a missing key, missing brackets or an unrecognized
//! policy name yield "absent" rather than an error, and list entries that
//! fail to parse as a decimal in 0..=255 are skipped.

use vstd::prelude::*;
use vstd::string::StrSliceExecFns;
use vstd::string::StringExecFns;
use crate::luma::GrayscaleMode;
use crate::quantize::ReflectionMode;

verus! {

/// The anchor snapshot that a transform application records: the anchors it
/// used, both policies, and whether a transform has been applied at all this
/// session (metadata is only written after one has).
pub struct AnchorMetadata {
    pub anchors: Vec<u8>,
    pub reflection_mode: ReflectionMode,
    pub grayscale_mode: GrayscaleMode,
    pub has_applied: bool,
}

pub open spec fn key_anchors() -> Seq<char> {
    seq!['"', 'a', 'n', 'c', 'h', 'o', 'r', 's', '"']
}

pub open spec fn key_reflection() -> Seq<char> {
    seq!['"', 'r', 'e', 'f', 'l', 'e', 'c', 't', 'i', 'o', 'n', 'M', 'o', 'd', 'e', '"']
}

pub open spec fn key_grayscale() -> Seq<char> {
    seq!['"', 'g', 'r', 'a', 'y', 's', 'c', 'a', 'l', 'e', 'M', 'o', 'd', 'e', '"']
}

pub open spec fn name_average() -> Seq<char> {
    seq!['A', 'v', 'e', 'r', 'a', 'g', 'e']
}

pub open spec fn name_partial() -> Seq<char> {
    seq!['P', 'a', 'r', 't', 'i', 'a', 'l']
}

pub open spec fn name_default() -> Seq<char> {
    seq!['D', 'e', 'f', 'a', 'u', 'l', 't']
}

pub open spec fn name_max() -> Seq<char> {
    seq!['M', 'a', 'x']
}

pub open spec fn name_min() -> Seq<char> {
    seq!['M', 'i', 'n']
}

/// The wire name of a segmentation policy.
pub open spec fn reflection_name(m: ReflectionMode) -> Seq<char> {
    match m {
        ReflectionMode::Average => name_average(),
        ReflectionMode::Partial => name_partial(),
    }
}

/// The wire name of a luma policy.
pub open spec fn grayscale_name(m: GrayscaleMode) -> Seq<char> {
    match m {
        GrayscaleMode::Default => name_default(),
        GrayscaleMode::Max => name_max(),
        GrayscaleMode::Min => name_min(),
    }
}

pub open spec fn is_space(c: char) -> bool {
    c == ' ' || c == '\t' || c == '\n' || c == '\r'
}

pub open spec fn is_digit(c: char) -> bool {
    c == '0' || c == '1' || c == '2' || c == '3' || c == '4' || c == '5' || c == '6' || c == '7'
        || c == '8' || c == '9'
}

pub open spec fn digit_val(c: char) -> int {
    if c == '0' {
        0
    } else if c == '1' {
        1
    } else if c == '2' {
        2
    } else if c == '3' {
        3
    } else if c == '4' {
        4
    } else if c == '5' {
        5
    } else if c == '6' {
        6
    } else if c == '7' {
        7
    } else if c == '8' {
        8
    } else {
        9
    }
}

pub open spec fn digit_char(d: int) -> char {
    if d == 0 {
        '0'
    } else if d == 1 {
        '1'
    } else if d == 2 {
        '2'
    } else if d == 3 {
        '3'
    } else if d == 4 {
        '4'
    } else if d == 5 {
        '5'
    } else if d == 6 {
        '6'
    } else if d == 7 {
        '7'
    } else if d == 8 {
        '8'
    } else {
        '9'
    }
}

/// The decimal digits of `n >= 0`, most significant first.
pub open spec fn dec_digits(n: int) -> Seq<char>
    decreases n,
{
    if n <= 9 {
        seq![digit_char(n)]
    } else {
        dec_digits(n / 10).push(digit_char(n % 10))
    }
}

/// The first index at or after `i` where `key` occurs as a subrange of `s`.
pub open spec fn find_seq(s: Seq<char>, key: Seq<char>, i: int) -> Option<int>
    decreases s.len() - i,
{
    if i < 0 || key.len() == 0 || i + key.len() > s.len() {
        None
    } else if s.subrange(i, i + key.len() as int) == key {
        Some(i)
    } else {
        find_seq(s, key, i + 1)
    }
}

/// The first index at or after `i` holding character `c`.
pub open spec fn find_char(s: Seq<char>, c: char, i: int) -> Option<int>
    decreases s.len() - i,
{
    if i < 0 || i >= s.len() {
        None
    } else if s[i] == c {
        Some(i)
    } else {
        find_char(s, c, i + 1)
    }
}

/// The first index in [i, hi) holding character `c`.
pub open spec fn find_char_in(s: Seq<char>, c: char, i: int, hi: int) -> Option<int>
    decreases hi - i,
{
    if i < 0 || i >= hi || hi > s.len() {
        None
    } else if s[i] == c {
        Some(i)
    } else {
        find_char_in(s, c, i + 1, hi)
    }
}

proof fn lemma_find_seq_bounds(s: Seq<char>, key: Seq<char>, i: int, k: int)
    requires
        find_seq(s, key, i) == Some(k),
    ensures
        i <= k,
        k + key.len() <= s.len(),
        s.subrange(k, k + key.len() as int) == key,
    decreases s.len() - i,
{
    if i < 0 || key.len() == 0 || i + key.len() > s.len() {
    } else if s.subrange(i, i + key.len() as int) == key {
    } else {
        lemma_find_seq_bounds(s, key, i + 1, k);
    }
}

proof fn lemma_find_char_bounds(s: Seq<char>, c: char, i: int, k: int)
    requires
        find_char(s, c, i) == Some(k),
    ensures
        i <= k < s.len(),
        s[k] == c,
    decreases s.len() - i,
{
    if i < 0 || i >= s.len() {
    } else if s[i] == c {
    } else {
        lemma_find_char_bounds(s, c, i + 1, k);
    }
}

proof fn lemma_find_char_in_bounds(s: Seq<char>, c: char, i: int, hi: int, k: int)
    requires
        find_char_in(s, c, i, hi) == Some(k),
    ensures
        i <= k < hi,
        hi <= s.len(),
        s[k] == c,
    decreases hi - i,
{
    if i < 0 || i >= hi || hi > s.len() {
    } else if s[i] == c {
    } else {
        lemma_find_char_in_bounds(s, c, i + 1, hi, k);
    }
}

/// Drops leading whitespace.
pub open spec fn trim_front(s: Seq<char>) -> Seq<char>
    decreases s.len(),
{
    if s.len() > 0 && is_space(s[0]) {
        trim_front(s.subrange(1, s.len() as int))
    } else {
        s
    }
}

/// Drops trailing whitespace.
pub open spec fn trim_back(s: Seq<char>) -> Seq<char>
    decreases s.len(),
{
    if s.len() > 0 && is_space(s.last()) {
        trim_back(s.drop_last())
    } else {
        s
    }
}

pub open spec fn trim_spaces(s: Seq<char>) -> Seq<char> {
    trim_back(trim_front(s))
}

pub open spec fn all_digits(s: Seq<char>) -> bool {
    forall|i: int| 0 <= i < s.len() ==> is_digit(s[i])
}

/// The value of a digit string, most significant first.
pub open spec fn digits_val(s: Seq<char>) -> int
    decreases s.len(),
{
    if s.len() == 0 {
        0
    } else {
        digits_val(s.drop_last()) * 10 + digit_val(s.last())
    }
}

/// One list entry: trimmed, non-empty, all digits, value at most 255;
/// anything else is skipped by the list parser.
pub open spec fn spec_parse_entry(s: Seq<char>) -> Option<u8> {
    let t = trim_spaces(s);
    if t.len() > 0 && all_digits(t) && digits_val(t) <= 255 {
        Some(digits_val(t) as u8)
    } else {
        None
    }
}

pub open spec fn opt_entry(o: Option<u8>) -> Seq<u8> {
    match o {
        Some(v) => seq![v],
        None => Seq::empty(),
    }
}

/// The values parsed from the comma-separated entries of s[lo..hi], failed
/// entries skipped.
pub open spec fn parse_entries(s: Seq<char>, lo: int, hi: int) -> Seq<u8>
    decreases hi - lo,
    via parse_entries_dec
{
    if lo < 0 || lo > hi || hi > s.len() {
        Seq::empty()
    } else {
        match find_char_in(s, ',', lo, hi) {
            None => opt_entry(spec_parse_entry(s.subrange(lo, hi))),
            Some(k) => opt_entry(spec_parse_entry(s.subrange(lo, k))) + parse_entries(s, k + 1, hi),
        }
    }
}

#[via_fn]
proof fn parse_entries_dec(s: Seq<char>, lo: int, hi: int) {
    if !(lo < 0 || lo > hi || hi > s.len()) {
        match find_char_in(s, ',', lo, hi) {
            None => {},
            Some(k) => {
                lemma_find_char_in_bounds(s, ',', lo, hi, k);
            },
        }
    }
}

proof fn lemma_digits_val_nonneg(s: Seq<char>)
    ensures
        digits_val(s) >= 0,
    decreases s.len(),
{
    if s.len() > 0 {
        lemma_digits_val_nonneg(s.drop_last());
    }
}

/// A digit string is worth at least any of its prefixes.
proof fn lemma_digits_prefix_bound(s: Seq<char>, i: int)
    requires
        0 <= i <= s.len(),
    ensures
        digits_val(s) >= digits_val(s.take(i)),
    decreases s.len() - i,
{
    if i < s.len() {
        lemma_digits_val_nonneg(s.take(i));
        assert(s.take(i + 1).drop_last() =~= s.take(i));
        assert(digits_val(s.take(i + 1)) == digits_val(s.take(i)) * 10 + digit_val(s[i]));
        assert(digit_val(s[i]) >= 0);
        assert(digits_val(s.take(i)) * 10 >= digits_val(s.take(i)));
        lemma_digits_prefix_bound(s, i + 1);
        assert(s.take(s.len() as int) =~= s);
    } else {
        assert(s.take(i) =~= s);
    }
}

/// Encoded digits are digit characters, and at least one is written.
proof fn lemma_dec_digits_all_digits(n: int)
    requires
        n >= 0,
    ensures
        all_digits(dec_digits(n)),
        dec_digits(n).len() >= 1,
    decreases n,
{
    if n <= 9 {
        assert(is_digit(digit_char(n)));
    } else {
        lemma_dec_digits_all_digits(n / 10);
        let s = dec_digits(n / 10);
        let w = s.push(digit_char(n % 10));
        assert(is_digit(digit_char(n % 10)));
        assert forall|i: int| 0 <= i < w.len() implies is_digit(w[i]) by {
            if i < s.len() {
                assert(is_digit(s[i]));
            }
        }
    }
}

/// The digits the encoder writes are worth the value they were written
/// from.
pub proof fn lemma_digits_round_trip(n: int)
    requires
        n >= 0,
    ensures
        digits_val(dec_digits(n)) == n,
    decreases n,
{
    if n <= 9 {
        let d = seq![digit_char(n)];
        assert(d.drop_last() =~= Seq::<char>::empty());
        assert(digits_val(Seq::<char>::empty()) == 0);
        assert(digits_val(d) == digits_val(d.drop_last()) * 10 + digit_val(d.last()));
        assert(digit_val(digit_char(n)) == n);
    } else {
        lemma_digits_round_trip(n / 10);
        let s = dec_digits(n / 10);
        let w = s.push(digit_char(n % 10));
        assert(w.drop_last() =~= s);
        assert(w.last() == digit_char(n % 10));
        assert(digits_val(w) == digits_val(w.drop_last()) * 10 + digit_val(w.last()));
        assert(digit_val(digit_char(n % 10)) == n % 10);
        assert((n / 10) * 10 + n % 10 == n);
        assert(dec_digits(n) == w);
    }
}

/// Entry round trip: a byte written by the encoder reads back as itself.
pub proof fn lemma_entry_round_trip(v: u8)
    ensures
        spec_parse_entry(dec_digits(v as int)) == Some(v),
{
    lemma_dec_digits_all_digits(v as int);
    lemma_digits_round_trip(v as int);
    let d = dec_digits(v as int);
    assert(is_digit(d[0]));
    assert(!is_space(d[0]));
    assert(trim_front(d) == d);
    assert(is_digit(d.last()));
    assert(!is_space(d.last()));
    assert(trim_back(d) == d);
}

/// Only digits and commas: what an encoded anchor list is made of.
spec fn digits_or_commas(s: Seq<char>) -> bool {
    forall|i: int| 0 <= i < s.len() ==> (is_digit(s[i]) || s[i] == ',')
}

proof fn lemma_anchors_body_charset(a: Seq<u8>)
    ensures
        digits_or_commas(anchors_body(a)),
    decreases a.len(),
{
    if a.len() == 0 {
    } else if a.len() == 1 {
        lemma_dec_digits_all_digits(a[0] as int);
    } else {
        lemma_anchors_body_charset(a.drop_last());
        lemma_dec_digits_all_digits(a.last() as int);
        let head = anchors_body(a.drop_last());
        let tail = dec_digits(a.last() as int);
        let w = head + seq![','] + tail;
        assert forall|i: int| 0 <= i < w.len() implies (is_digit(w[i]) || w[i] == ',') by {
            if i < head.len() {
                assert(w[i] == head[i]);
            } else if i == head.len() {
            } else {
                assert(w[i] == tail[i - head.len() - 1]);
                assert(is_digit(tail[i - head.len() - 1]));
            }
        }
    }
}

/// The encoded list seen from the front: first entry, comma, the rest.
proof fn lemma_anchors_body_front(a: Seq<u8>)
    requires
        a.len() >= 2,
    ensures
        anchors_body(a) == dec_digits(a[0] as int) + seq![','] + anchors_body(
            a.subrange(1, a.len() as int),
        ),
    decreases a.len(),
{
    let rest = a.subrange(1, a.len() as int);
    if a.len() == 2 {
        assert(a.drop_last() =~= seq![a[0]]);
        assert(rest =~= seq![a[1]]);
        assert(anchors_body(a) =~= dec_digits(a[0] as int) + seq![','] + anchors_body(rest));
    } else {
        lemma_anchors_body_front(a.drop_last());
        assert(a.drop_last()[0] == a[0]);
        assert(a.drop_last().subrange(1, a.drop_last().len() as int) =~= rest.drop_last());
        assert(anchors_body(a.drop_last()) == dec_digits(a[0] as int) + seq![','] + anchors_body(
            rest.drop_last(),
        ));
        assert(anchors_body(a) == anchors_body(a.drop_last()) + seq![','] + dec_digits(
            a.last() as int,
        ));
        assert(rest.len() >= 2);
        assert(rest.last() == a.last());
        assert(anchors_body(rest) == anchors_body(rest.drop_last()) + seq![','] + dec_digits(
            a.last() as int,
        ));
        assert(anchors_body(a) =~= dec_digits(a[0] as int) + seq![','] + anchors_body(rest));
    }
}

/// A scan that skips everything before the first hit finds exactly it.
proof fn lemma_find_char_in_first(s: Seq<char>, c: char, i: int, k: int, hi: int)
    requires
        0 <= i <= k < hi <= s.len(),
        s[k] == c,
        forall|j: int| i <= j < k ==> s[j] != c,
    ensures
        find_char_in(s, c, i, hi) == Some(k),
    decreases k - i,
{
    if i < k {
        lemma_find_char_in_first(s, c, i + 1, k, hi);
    }
}

/// A scan over a stretch without the character finds nothing.
proof fn lemma_find_char_in_none(s: Seq<char>, c: char, i: int, hi: int)
    requires
        0 <= i <= hi <= s.len(),
        forall|j: int| i <= j < hi ==> s[j] != c,
    ensures
        find_char_in(s, c, i, hi) is None,
    decreases hi - i,
{
    if i < hi {
        lemma_find_char_in_none(s, c, i + 1, hi);
    }
}

/// List round trip: wherever an encoded anchor list stands in a larger
/// text, parsing that stretch recovers exactly the anchors.
pub proof fn lemma_parse_entries_round_trip(s: Seq<char>, lo: int, a: Seq<u8>)
    requires
        a.len() >= 1,
        0 <= lo,
        lo + anchors_body(a).len() <= s.len(),
        s.subrange(lo, lo + anchors_body(a).len() as int) == anchors_body(a),
    ensures
        parse_entries(s, lo, lo + anchors_body(a).len()) == a,
    decreases a.len(),
{
    let body = anchors_body(a);
    let hi = lo + body.len() as int;
    if a.len() == 1 {
        lemma_dec_digits_all_digits(a[0] as int);
        assert forall|j: int| lo <= j < hi implies s[j] != ',' by {
            assert(s[j] == body[j - lo]);
            assert(is_digit(body[j - lo]));
        }
        lemma_find_char_in_none(s, ',', lo, hi);
        lemma_entry_round_trip(a[0]);
        assert(parse_entries(s, lo, hi) =~= seq![a[0]]);
        assert(a =~= seq![a[0]]);
    } else {
        lemma_anchors_body_front(a);
        let d0 = dec_digits(a[0] as int);
        let rest = a.subrange(1, a.len() as int);
        let rest_body = anchors_body(rest);
        let k = lo + d0.len() as int;
        lemma_dec_digits_all_digits(a[0] as int);
        assert forall|j: int| lo <= j < k implies s[j] != ',' by {
            assert(s[j] == body[j - lo]);
            assert(body[j - lo] == d0[j - lo]);
            assert(is_digit(d0[j - lo]));
        }
        assert(body[k - lo] == ',');
        assert(s[k] == ',');
        lemma_find_char_in_first(s, ',', lo, k, hi);
        assert forall|j: int| 0 <= j < d0.len() implies s.subrange(lo, k)[j] == d0[j] by {
            assert(s.subrange(lo, k)[j] == s[lo + j]);
            assert(s[lo + j] == body[j]);
        }
        assert(s.subrange(lo, k) =~= d0);
        lemma_entry_round_trip(a[0]);
        assert forall|j: int| 0 <= j < rest_body.len() implies s.subrange(
            k + 1,
            k + 1 + rest_body.len() as int,
        )[j] == rest_body[j] by {
            assert(s.subrange(k + 1, k + 1 + rest_body.len() as int)[j] == s[k + 1 + j]);
            assert(s[k + 1 + j] == body[d0.len() + 1 + j]);
            assert(body[d0.len() + 1 + j] == rest_body[j]);
        }
        assert(s.subrange(k + 1, k + 1 + rest_body.len() as int) =~= rest_body);
        lemma_parse_entries_round_trip(s, k + 1, rest);
        assert(k + 1 + rest_body.len() == hi);
        assert(parse_entries(s, lo, hi) == opt_entry(spec_parse_entry(s.subrange(lo, k)))
            + parse_entries(s, k + 1, hi));
        assert(parse_entries(s, lo, hi) =~= seq![a[0]] + rest);
        assert(a =~= seq![a[0]] + rest);
    }
}

/// A search that skips everything before the first occurrence finds it.
proof fn lemma_find_seq_first(s: Seq<char>, key: Seq<char>, i: int, k: int)
    requires
        key.len() >= 1,
        0 <= i <= k,
        k + key.len() <= s.len(),
        s.subrange(k, k + key.len() as int) == key,
        forall|j: int| i <= j < k ==> #[trigger] s.subrange(j, j + key.len() as int) != key,
    ensures
        find_seq(s, key, i) == Some(k),
    decreases k - i,
{
    if i < k {
        lemma_find_seq_first(s, key, i + 1, k);
    }
}

/// A scan that skips everything before the first hit finds exactly it.
proof fn lemma_find_char_first(s: Seq<char>, c: char, i: int, k: int)
    requires
        0 <= i <= k < s.len(),
        s[k] == c,
        forall|j: int| i <= j < k ==> s[j] != c,
    ensures
        find_char(s, c, i) == Some(k),
    decreases k - i,
{
    if i < k {
        lemma_find_char_first(s, c, i + 1, k);
    }
}

/// Anchor round trip: decoding any payload the encoder wrote recovers the
/// anchors that went in, order preserved.
pub proof fn lemma_metadata_anchors_round_trip(a: Seq<u8>, rm: ReflectionMode, gm: GrayscaleMode)
    requires
        a.len() >= 1,
    ensures
        spec_parse_anchors(spec_encode_metadata(a, rm, gm)) == Some(a),
{
    let s = spec_encode_metadata(a, rm, gm);
    let body = anchors_body(a);
    let bl = body.len() as int;
    lemma_anchors_body_charset(a);
    let head = seq!['{', '"', 'a', 'n', 'c', 'h', 'o', 'r', 's', '"', ':', '['];
    assert(s.subrange(0, 12) =~= head);
    assert forall|j: int| 0 <= j < 12 implies s[j] == head[j] by {
        assert(s.subrange(0, 12)[j] == s[j]);
    }
    assert(s.subrange(1, 10) =~= key_anchors());
    assert forall|j: int| 0 <= j < bl implies s[12 + j] == body[j] by {
        assert(s.subrange(12, 12 + bl)[j] == s[12 + j]);
        assert(s.subrange(12, 12 + bl) =~= body);
    }
    assert(s.subrange(12, 12 + bl) =~= body);
    assert(s[12 + bl] == ']');
    // the key cannot match at 0: the brace differs from its opening quote
    assert(s.subrange(0, 9)[0] == '{');
    assert(s.subrange(0, 9) != key_anchors());
    lemma_find_seq_first(s, key_anchors(), 0, 1);
    assert(find_seq(s, key_anchors(), 0) == Some(1int));
    // the opening bracket follows the colon
    assert(s[10] == ':');
    assert(s[11] == '[');
    lemma_find_char_first(s, '[', 10, 11);
    // no closing bracket inside the digit-and-comma list
    assert forall|j: int| 12 <= j < 12 + bl implies s[j] != ']' by {
        assert(s[j] == body[j - 12]);
        assert(is_digit(body[j - 12]) || body[j - 12] == ',');
    }
    lemma_find_char_first(s, ']', 12, 12 + bl);
    lemma_parse_entries_round_trip(s, 12, a);
    assert(parse_entries(s, 12, 12 + bl) == a);
}

/// Policy round trip: decoding any payload the encoder wrote recovers the
/// segmentation and luma policies that went in.
#[verifier::rlimit(60)]
pub proof fn lemma_metadata_policies_round_trip(a: Seq<u8>, rm: ReflectionMode, gm: GrayscaleMode)
    ensures
        spec_parse_reflection(spec_encode_metadata(a, rm, gm)) == Some(rm),
        spec_parse_grayscale(spec_encode_metadata(a, rm, gm)) == Some(gm),
{
    let s = spec_encode_metadata(a, rm, gm);
    let body = anchors_body(a);
    let bl = body.len() as int;
    let rname = reflection_name(rm);
    let rl = rname.len() as int;
    let gname = grayscale_name(gm);
    let gl = gname.len() as int;
    lemma_anchors_body_charset(a);
    let head = seq!['{', '"', 'a', 'n', 'c', 'h', 'o', 'r', 's', '"', ':', '['];
    // the payload, position by position
    assert(s.subrange(0, 12) =~= head);
    assert forall|j: int| 0 <= j < 12 implies s[j] == head[j] by {
        assert(s.subrange(0, 12)[j] == s[j]);
    }
    assert(s.subrange(12, 12 + bl) =~= body);
    assert forall|j: int| 0 <= j < bl implies s[12 + j] == body[j] by {
        assert(s.subrange(12, 12 + bl)[j] == s[12 + j]);
    }
    assert(s[12 + bl] == ']');
    assert(s[13 + bl] == ',');
    assert(s.subrange(14 + bl, 30 + bl) =~= key_reflection());
    assert forall|j: int| 0 <= j < 16 implies s[14 + bl + j] == key_reflection()[j] by {
        assert(s.subrange(14 + bl, 30 + bl)[j] == s[14 + bl + j]);
    }
    assert(s[30 + bl] == ':');
    assert(s[31 + bl] == '"');
    assert(s.subrange(32 + bl, 32 + bl + rl) =~= rname);
    assert forall|j: int| 0 <= j < rl implies s[32 + bl + j] == rname[j] by {
        assert(s.subrange(32 + bl, 32 + bl + rl)[j] == s[32 + bl + j]);
    }
    assert(s[32 + bl + rl] == '"');
    assert(s[33 + bl + rl] == ',');
    assert(s.subrange(34 + bl + rl, 49 + bl + rl) =~= key_grayscale());
    assert forall|j: int| 0 <= j < 15 implies s[34 + bl + rl + j] == key_grayscale()[j] by {
        assert(s.subrange(34 + bl + rl, 49 + bl + rl)[j] == s[34 + bl + rl + j]);
    }
    assert(s[49 + bl + rl] == ':');
    assert(s[50 + bl + rl] == '"');
    assert(s.subrange(51 + bl + rl, 51 + bl + rl + gl) =~= gname);
    assert forall|j: int| 0 <= j < gl implies s[51 + bl + rl + j] == gname[j] by {
        assert(s.subrange(51 + bl + rl, 51 + bl + rl + gl)[j] == s[51 + bl + rl + j]);
    }
    assert(s[51 + bl + rl + gl] == '"');
    assert(s[52 + bl + rl + gl] == '}');
    assert(s.len() == 53 + bl + rl + gl);
    // no character of a policy name or key interior is a quote mark
    assert(forall|j: int| 0 <= j < 16 ==> (key_reflection()[j] == '"' ==> (j == 0 || j == 15)));
    assert(forall|j: int| 0 <= j < 15 ==> (key_grayscale()[j] == '"' ==> (j == 0 || j == 14)));
    assert(forall|j: int| 0 <= j < rl ==> rname[j] != '"');
    assert(forall|j: int| 0 <= j < gl ==> gname[j] != '"');
    // where quote marks stand before the grayscale key
    assert forall|j: int| 0 <= j < 34 + bl + rl && s[j] == '"' implies (j == 1 || j == 9 || j == 14
        + bl || j == 29 + bl || j == 31 + bl || j == 32 + bl + rl) by {
        if j < 12 {
            assert(s[j] == head[j]);
        } else if j < 12 + bl {
            assert(s[j] == body[j - 12]);
            assert(is_digit(body[j - 12]) || body[j - 12] == ',');
        } else if j < 14 + bl {
        } else if j < 30 + bl {
            assert(s[j] == key_reflection()[j - (14 + bl)]);
        } else if j < 32 + bl {
        } else if j < 32 + bl + rl {
            assert(s[j] == rname[j - (32 + bl)]);
        } else {
        }
    }
    // the reflection key occurs first at its true position
    assert forall|j: int| 0 <= j < 14 + bl implies #[trigger] s.subrange(j, j + 16) != key_reflection() by {
        if s[j] == '"' {
            assert(j == 1 || j == 9);
            assert(s.subrange(j, j + 16)[1] == s[j + 1]);
            if j == 1 {
                assert(s[2] == 'a');
            } else {
                assert(s[10] == ':');
            }
            assert(key_reflection()[1] == 'r');
        } else {
            assert(s.subrange(j, j + 16)[0] == s[j]);
            assert(key_reflection()[0] == '"');
        }
    }
    lemma_find_seq_first(s, key_reflection(), 0, 14 + bl);
    // the value's opening quote follows the colon
    assert forall|j: int| 30 + bl <= j < 31 + bl implies s[j] != '"' by {
        assert(s[j] == ':');
    }
    lemma_find_char_first(s, '"', 30 + bl, 31 + bl);
    // and its closing quote ends the name
    assert forall|j: int| 32 + bl <= j < 32 + bl + rl implies s[j] != '"' by {
        assert(s[j] == rname[j - (32 + bl)]);
    }
    lemma_find_char_first(s, '"', 32 + bl, 32 + bl + rl);
    assert(s.subrange(32 + bl, 32 + bl + rl) == rname);
    // the two policy names tell apart
    assert(name_average()[0] == 'A' && name_partial()[0] == 'P');
    match rm {
        ReflectionMode::Average => {
            assert(spec_string_value(s, key_reflection()) == Some(name_average()));
        },
        ReflectionMode::Partial => {
            assert(rname != name_average());
            assert(spec_string_value(s, key_reflection()) == Some(name_partial()));
        },
    }
    // the grayscale key occurs first at its true position
    assert forall|j: int| 0 <= j < 34 + bl + rl implies #[trigger] s.subrange(j, j + 15)
        != key_grayscale() by {
        if s[j] == '"' {
            assert(s.subrange(j, j + 15)[1] == s[j + 1]);
            assert(key_grayscale()[1] == 'g');
            if j == 1 {
                assert(s[2] == 'a');
            } else if j == 9 {
                assert(s[10] == ':');
            } else if j == 14 + bl {
                assert(s[15 + bl] == key_reflection()[1]);
            } else if j == 29 + bl {
                assert(s[30 + bl] == ':');
            } else if j == 31 + bl {
                assert(s[32 + bl] == rname[0]);
                assert(rname[0] == 'A' || rname[0] == 'P');
            } else {
                assert(j == 32 + bl + rl);
                assert(s[33 + bl + rl] == ',');
            }
        } else {
            assert(s.subrange(j, j + 15)[0] == s[j]);
            assert(key_grayscale()[0] == '"');
        }
    }
    lemma_find_seq_first(s, key_grayscale(), 0, 34 + bl + rl);
    assert forall|j: int| 49 + bl + rl <= j < 50 + bl + rl implies s[j] != '"' by {
        assert(s[j] == ':');
    }
    lemma_find_char_first(s, '"', 49 + bl + rl, 50 + bl + rl);
    assert forall|j: int| 51 + bl + rl <= j < 51 + bl + rl + gl implies s[j] != '"' by {
        assert(s[j] == gname[j - (51 + bl + rl)]);
    }
    lemma_find_char_first(s, '"', 51 + bl + rl, 51 + bl + rl + gl);
    assert(s.subrange(51 + bl + rl, 51 + bl + rl + gl) == gname);
    // the three luma names tell apart
    assert(name_default().len() == 7 && name_max().len() == 3 && name_min().len() == 3);
    assert(name_max()[1] == 'a' && name_min()[1] == 'i');
    match gm {
        GrayscaleMode::Default => {
            assert(spec_string_value(s, key_grayscale()) == Some(name_default()));
        },
        GrayscaleMode::Max => {
            assert(gname != name_default());
            assert(spec_string_value(s, key_grayscale()) == Some(name_max()));
        },
        GrayscaleMode::Min => {
            assert(gname != name_default());
            assert(gname != name_max());
            assert(spec_string_value(s, key_grayscale()) == Some(name_min()));
        },
    }
}

fn char_is_space(c: char) -> (r: bool)
    ensures
        r == is_space(c),
{
    c == ' ' || c == '\t' || c == '\n' || c == '\r'
}

fn char_digit(c: char) -> (r: Option<u8>)
    ensures
        r is Some <==> is_digit(c),
        r is Some ==> r->0 as int == digit_val(c),
{
    match c {
        '0' => Some(0),
        '1' => Some(1),
        '2' => Some(2),
        '3' => Some(3),
        '4' => Some(4),
        '5' => Some(5),
        '6' => Some(6),
        '7' => Some(7),
        '8' => Some(8),
        '9' => Some(9),
        _ => None,
    }
}

/// Whether `key` occurs in `s` exactly at position `i`.
fn range_matches(s: &str, i: usize, key: &str) -> (r: bool)
    requires
        i + key@.len() <= s@.len(),
    ensures
        r == (s@.subrange(i as int, i + key@.len()) == key@),
{
    let n = s.unicode_len();
    let m = key.unicode_len();
    let mut j: usize = 0;
    while j < m
        invariant
            j <= m,
            m == key@.len(),
            n == s@.len(),
            i + m <= n,
            forall|jj: int| 0 <= jj < j ==> s@[i + jj] == key@[jj],
        decreases m - j,
    {
        if s.get_char(i + j) != key.get_char(j) {
            proof {
                assert(s@.subrange(i as int, i + m as int)[j as int] == s@[i + j]);
            }
            return false;
        }
        j += 1;
    }
    proof {
        assert(s@.subrange(i as int, i + m as int) =~= key@);
    }
    true
}

/// Finds the first occurrence of `key` at or after `from`.
fn find_key(s: &str, key: &str, from: usize) -> (r: Option<usize>)
    ensures
        match r {
            Some(k) => find_seq(s@, key@, from as int) == Some(k as int),
            None => find_seq(s@, key@, from as int) is None,
        },
{
    let n = s.unicode_len();
    let m = key.unicode_len();
    if m == 0 || from > n || m > n - from {
        return None;
    }
    let mut i: usize = from;
    while i <= n - m
        invariant
            from <= i,
            1 <= m == key@.len(),
            n == s@.len(),
            m <= n,
            i <= n - m + 1,
            find_seq(s@, key@, from as int) == find_seq(s@, key@, i as int),
        decreases n - i,
    {
        if range_matches(s, i, key) {
            proof {
                assert(find_seq(s@, key@, i as int) == Some(i as int));
            }
            return Some(i);
        }
        proof {
            assert(find_seq(s@, key@, i as int) == find_seq(s@, key@, i as int + 1));
        }
        i += 1;
    }
    proof {
        assert(find_seq(s@, key@, i as int) is None);
    }
    None
}

/// Finds the first occurrence of character `c` at or after `from`.
fn find_char_from(s: &str, c: char, from: usize) -> (r: Option<usize>)
    ensures
        match r {
            Some(k) => find_char(s@, c, from as int) == Some(k as int),
            None => find_char(s@, c, from as int) is None,
        },
{
    let n = s.unicode_len();
    let mut i: usize = from;
    while i < n
        invariant
            from <= i,
            n == s@.len(),
            find_char(s@, c, from as int) == find_char(s@, c, i as int),
        decreases n - i,
    {
        if s.get_char(i) == c {
            proof {
                assert(find_char(s@, c, i as int) == Some(i as int));
            }
            return Some(i);
        }
        proof {
            assert(find_char(s@, c, i as int) == find_char(s@, c, i as int + 1));
        }
        i += 1;
    }
    proof {
        assert(find_char(s@, c, i as int) is None);
    }
    None
}

/// Finds the first occurrence of character `c` in [from, hi).
fn find_char_between(s: &str, c: char, from: usize, hi: usize) -> (r: Option<usize>)
    requires
        hi <= s@.len(),
    ensures
        match r {
            Some(k) => find_char_in(s@, c, from as int, hi as int) == Some(k as int),
            None => find_char_in(s@, c, from as int, hi as int) is None,
        },
{
    let n = s.unicode_len();
    let mut i: usize = from;
    while i < hi
        invariant
            from <= i,
            n == s@.len(),
            hi <= n,
            find_char_in(s@, c, from as int, hi as int) == find_char_in(
                s@,
                c,
                i as int,
                hi as int,
            ),
        decreases hi - i,
    {
        if s.get_char(i) == c {
            proof {
                assert(find_char_in(s@, c, i as int, hi as int) == Some(i as int));
            }
            return Some(i);
        }
        proof {
            assert(find_char_in(s@, c, i as int, hi as int) == find_char_in(
                s@,
                c,
                i as int + 1,
                hi as int,
            ));
        }
        i += 1;
    }
    proof {
        assert(find_char_in(s@, c, i as int, hi as int) is None);
    }
    None
}

/// Parses s[lo..hi] as one trimmed decimal entry in 0..=255.
fn parse_entry_range(s: &str, lo: usize, hi: usize) -> (r: Option<u8>)
    requires
        lo <= hi <= s@.len(),
    ensures
        r == spec_parse_entry(s@.subrange(lo as int, hi as int)),
{
    let n = s.unicode_len();
    let ghost whole = s@.subrange(lo as int, hi as int);
    let mut l: usize = lo;
    while l < hi && char_is_space(s.get_char(l))
        invariant
            lo <= l <= hi,
            hi <= n,
            n == s@.len(),
            trim_front(whole) == trim_front(s@.subrange(l as int, hi as int)),
        decreases hi - l,
    {
        proof {
            let cur = s@.subrange(l as int, hi as int);
            assert(cur[0] == s@[l as int]);
            assert(cur.subrange(1, cur.len() as int) =~= s@.subrange(l as int + 1, hi as int));
        }
        l += 1;
    }
    proof {
        assert(trim_front(whole) == s@.subrange(l as int, hi as int));
    }
    let mut h: usize = hi;
    while h > l && char_is_space(s.get_char(h - 1))
        invariant
            l <= h <= hi,
            hi <= n,
            n == s@.len(),
            trim_back(s@.subrange(l as int, hi as int)) == trim_back(
                s@.subrange(l as int, h as int),
            ),
        decreases h,
    {
        proof {
            let cur = s@.subrange(l as int, h as int);
            assert(cur.last() == s@[h - 1]);
            assert(cur.drop_last() =~= s@.subrange(l as int, h as int - 1));
        }
        h -= 1;
    }
    let ghost t = s@.subrange(l as int, h as int);
    proof {
        assert(trim_back(s@.subrange(l as int, hi as int)) == t);
        assert(trim_spaces(whole) == t);
    }
    if l == h {
        return None;
    }
    let mut v: u32 = 0;
    let mut i: usize = l;
    while i < h
        invariant
            lo <= l <= i <= h <= hi,
            h <= n,
            n == s@.len(),
            whole == s@.subrange(lo as int, hi as int),
            t == trim_spaces(whole),
            t == s@.subrange(l as int, h as int),
            l < h,
            v <= 255,
            all_digits(t.take(i - l)),
            v as int == digits_val(t.take(i - l)),
        decreases h - i,
    {
        let c = s.get_char(i);
        proof {
            assert(t[i - l] == s@[i as int]);
            assert(t.take(i - l + 1).drop_last() =~= t.take(i - l));
            assert(t.take(i - l + 1).last() == t[i - l]);
        }
        match char_digit(c) {
            None => {
                // a non-digit inside the trimmed entry: the entry is skipped
                proof {
                    assert(!is_digit(t[i - l]));
                }
                return None;
            },
            Some(d) => {
                v = v * 10 + d as u32;
                if v > 255 {
                    // every extension of this prefix exceeds 255
                    proof {
                        assert(digits_val(t.take(i - l + 1)) == v as int);
                        lemma_digits_prefix_bound(t, i - l + 1);
                        assert(t.take(t.len() as int) =~= t);
                        assert(digits_val(t) > 255);
                    }
                    return None;
                }
            },
        }
        i += 1;
    }
    proof {
        assert(t.take(i - l) =~= t);
    }
    Some(v as u8)
}

/// Whether s[lo..hi] spells exactly `name`.
fn value_equals(s: &str, lo: usize, hi: usize, name: &str) -> (r: bool)
    requires
        lo <= hi <= s@.len(),
    ensures
        r == (s@.subrange(lo as int, hi as int) == name@),
{
    let m = name.unicode_len();
    if hi - lo != m {
        proof {
            assert(s@.subrange(lo as int, hi as int).len() != name@.len());
        }
        return false;
    }
    let r = range_matches(s, lo, name);
    proof {
        assert(s@.subrange(lo as int, lo + name@.len()) =~= s@.subrange(lo as int, hi as int));
    }
    r
}

/// The anchor list decoded from the payload: the first `"anchors"` key, the
/// bracketed list after it, its entries split at commas, unparseable entries
/// skipped; absent key, absent brackets or no surviving entry all yield
/// `None`.
pub open spec fn spec_parse_anchors(s: Seq<char>) -> Option<Seq<u8>> {
    match find_seq(s, key_anchors(), 0) {
        None => None,
        Some(i) => match find_char(s, '[', i + key_anchors().len() as int) {
            None => None,
            Some(lb) => match find_char(s, ']', lb + 1) {
                None => None,
                Some(rb) => {
                    let vals = parse_entries(s, lb + 1, rb);
                    if vals.len() == 0 {
                        None
                    } else {
                        Some(vals)
                    }
                },
            },
        },
    }
}

/// The quoted value of `key`: the text between the first two quote marks
/// after the key's first occurrence.
pub open spec fn spec_string_value(s: Seq<char>, key: Seq<char>) -> Option<Seq<char>> {
    match find_seq(s, key, 0) {
        None => None,
        Some(i) => match find_char(s, '"', i + key.len() as int) {
            None => None,
            Some(q1) => match find_char(s, '"', q1 + 1) {
                None => None,
                Some(q2) => Some(s.subrange(q1 + 1, q2)),
            },
        },
    }
}

/// The luma policy named in the payload; an unrecognized or absent value is
/// `None`.
pub open spec fn spec_parse_grayscale(s: Seq<char>) -> Option<GrayscaleMode> {
    match spec_string_value(s, key_grayscale()) {
        None => None,
        Some(v) => if v == name_default() {
            Some(GrayscaleMode::Default)
        } else if v == name_max() {
            Some(GrayscaleMode::Max)
        } else if v == name_min() {
            Some(GrayscaleMode::Min)
        } else {
            None
        },
    }
}

/// The segmentation policy named in the payload; an unrecognized or absent
/// value is `None`.
pub open spec fn spec_parse_reflection(s: Seq<char>) -> Option<ReflectionMode> {
    match spec_string_value(s, key_reflection()) {
        None => None,
        Some(v) => if v == name_average() {
            Some(ReflectionMode::Average)
        } else if v == name_partial() {
            Some(ReflectionMode::Partial)
        } else {
            None
        },
    }
}

/// Decodes the anchor list from a payload.
pub fn parse_anchors_from_json(json: &str) -> (r: Option<Vec<u8>>)
    ensures
        r is Some <==> spec_parse_anchors(json@) is Some,
        r is Some ==> r->0@ == spec_parse_anchors(json@)->0,
{
    let n = json.unicode_len();
    proof {
        reveal_strlit("\"anchors\"");
        assert("\"anchors\""@ =~= key_anchors());
    }
    let i = match find_key(json, "\"anchors\"", 0) {
        None => {
            return None;
        },
        Some(i) => i,
    };
    proof {
        lemma_find_seq_bounds(json@, key_anchors(), 0, i as int);
    }
    let lb = match find_char_from(json, '[', i + 9) {
        None => {
            return None;
        },
        Some(lb) => lb,
    };
    proof {
        lemma_find_char_bounds(json@, '[', i as int + 9, lb as int);
    }
    let rb = match find_char_from(json, ']', lb + 1) {
        None => {
            return None;
        },
        Some(rb) => rb,
    };
    proof {
        lemma_find_char_bounds(json@, ']', lb as int + 1, rb as int);
    }
    let mut vals: Vec<u8> = Vec::new();
    let mut pos: usize = lb + 1;
    let mut done = false;
    while !done
        invariant
            n == json@.len(),
            lb + 1 <= pos <= rb < n,
            done ==> parse_entries(json@, lb + 1, rb as int) == vals@,
            !done ==> parse_entries(json@, lb + 1, rb as int) == vals@ + parse_entries(
                json@,
                pos as int,
                rb as int,
            ),
        decreases
                rb - pos + if done {
                    0int
                } else {
                    1int
                },
    {
        match find_char_between(json, ',', pos, rb) {
            Some(k) => {
                proof {
                    lemma_find_char_in_bounds(json@, ',', pos as int, rb as int, k as int);
                }
                let e = parse_entry_range(json, pos, k);
                let ghost old_vals = vals@;
                match e {
                    Some(v) => {
                        vals.push(v);
                    },
                    None => {},
                }
                proof {
                    assert(vals@ =~= old_vals + opt_entry(e));
                    assert(parse_entries(json@, pos as int, rb as int) == opt_entry(
                        spec_parse_entry(json@.subrange(pos as int, k as int)),
                    ) + parse_entries(json@, k + 1, rb as int));
                    assert(old_vals + parse_entries(json@, pos as int, rb as int) =~= vals@
                        + parse_entries(json@, k + 1, rb as int));
                }
                pos = k + 1;
            },
            None => {
                let e = parse_entry_range(json, pos, rb);
                let ghost old_vals = vals@;
                match e {
                    Some(v) => {
                        vals.push(v);
                    },
                    None => {},
                }
                proof {
                    assert(vals@ =~= old_vals + opt_entry(e));
                    assert(parse_entries(json@, pos as int, rb as int) == opt_entry(
                        spec_parse_entry(json@.subrange(pos as int, rb as int)),
                    ));
                    assert(old_vals + parse_entries(json@, pos as int, rb as int) =~= vals@);
                }
                done = true;
            },
        }
    }
    if vals.len() == 0 {
        None
    } else {
        Some(vals)
    }
}

/// Decodes the luma policy from a payload.
pub fn parse_grayscale_from_json(json: &str) -> (r: Option<GrayscaleMode>)
    ensures
        r == spec_parse_grayscale(json@),
{
    // binds the view length to a machine word, bounding the index arithmetic
    let _n = json.unicode_len();
    proof {
        reveal_strlit("\"grayscaleMode\"");
        assert("\"grayscaleMode\""@ =~= key_grayscale());
    }
    let i = match find_key(json, "\"grayscaleMode\"", 0) {
        None => {
            return None;
        },
        Some(i) => i,
    };
    proof {
        lemma_find_seq_bounds(json@, key_grayscale(), 0, i as int);
    }
    let q1 = match find_char_from(json, '"', i + 15) {
        None => {
            return None;
        },
        Some(q1) => q1,
    };
    proof {
        lemma_find_char_bounds(json@, '"', i as int + 15, q1 as int);
    }
    let q2 = match find_char_from(json, '"', q1 + 1) {
        None => {
            return None;
        },
        Some(q2) => q2,
    };
    proof {
        lemma_find_char_bounds(json@, '"', q1 as int + 1, q2 as int);
    }
    proof {
        reveal_strlit("Default");
        reveal_strlit("Max");
        reveal_strlit("Min");
        assert("Default"@ =~= name_default());
        assert("Max"@ =~= name_max());
        assert("Min"@ =~= name_min());
    }
    if value_equals(json, q1 + 1, q2, "Default") {
        Some(GrayscaleMode::Default)
    } else if value_equals(json, q1 + 1, q2, "Max") {
        Some(GrayscaleMode::Max)
    } else if value_equals(json, q1 + 1, q2, "Min") {
        Some(GrayscaleMode::Min)
    } else {
        None
    }
}

/// Decodes the segmentation policy from a payload.
pub fn parse_reflection_from_json(json: &str) -> (r: Option<ReflectionMode>)
    ensures
        r == spec_parse_reflection(json@),
{
    // binds the view length to a machine word, bounding the index arithmetic
    let _n = json.unicode_len();
    proof {
        reveal_strlit("\"reflectionMode\"");
        assert("\"reflectionMode\""@ =~= key_reflection());
    }
    let i = match find_key(json, "\"reflectionMode\"", 0) {
        None => {
            return None;
        },
        Some(i) => i,
    };
    proof {
        lemma_find_seq_bounds(json@, key_reflection(), 0, i as int);
    }
    let q1 = match find_char_from(json, '"', i + 16) {
        None => {
            return None;
        },
        Some(q1) => q1,
    };
    proof {
        lemma_find_char_bounds(json@, '"', i as int + 16, q1 as int);
    }
    let q2 = match find_char_from(json, '"', q1 + 1) {
        None => {
            return None;
        },
        Some(q2) => q2,
    };
    proof {
        lemma_find_char_bounds(json@, '"', q1 as int + 1, q2 as int);
    }
    proof {
        reveal_strlit("Average");
        reveal_strlit("Partial");
        assert("Average"@ =~= name_average());
        assert("Partial"@ =~= name_partial());
    }
    if value_equals(json, q1 + 1, q2, "Average") {
        Some(ReflectionMode::Average)
    } else if value_equals(json, q1 + 1, q2, "Partial") {
        Some(ReflectionMode::Partial)
    } else {
        None
    }
}

/// The comma-separated decimal digits of the anchors.
pub open spec fn anchors_body(a: Seq<u8>) -> Seq<char>
    decreases a.len(),
{
    if a.len() == 0 {
        Seq::empty()
    } else if a.len() == 1 {
        dec_digits(a[0] as int)
    } else {
        anchors_body(a.drop_last()) + seq![','] + dec_digits(a.last() as int)
    }
}

/// The full payload: the anchors as a bracketed integer list, then the
/// segmentation and luma policy names, under stable keys and in stable
/// order.
pub open spec fn spec_encode_metadata(a: Seq<u8>, rm: ReflectionMode, gm: GrayscaleMode) -> Seq<
    char,
> {
    seq!['{'] + key_anchors() + seq![':', '['] + anchors_body(a) + seq![']', ','] + key_reflection()
        + seq![':', '"'] + reflection_name(rm) + seq!['"', ','] + key_grayscale() + seq![':', '"']
        + grayscale_name(gm) + seq!['"', '}']
}

/// Appends one decimal digit.
fn push_digit(s: &mut String, d: u8)
    requires
        d <= 9,
    ensures
        final(s)@ == old(s)@ + seq![digit_char(d as int)],
{
    if d == 0 {
        s.append("0");
        proof {
            reveal_strlit("0");
            assert(s@ =~= old(s)@ + seq![digit_char(0)]);
        }
    } else if d == 1 {
        s.append("1");
        proof {
            reveal_strlit("1");
            assert(s@ =~= old(s)@ + seq![digit_char(1)]);
        }
    } else if d == 2 {
        s.append("2");
        proof {
            reveal_strlit("2");
            assert(s@ =~= old(s)@ + seq![digit_char(2)]);
        }
    } else if d == 3 {
        s.append("3");
        proof {
            reveal_strlit("3");
            assert(s@ =~= old(s)@ + seq![digit_char(3)]);
        }
    } else if d == 4 {
        s.append("4");
        proof {
            reveal_strlit("4");
            assert(s@ =~= old(s)@ + seq![digit_char(4)]);
        }
    } else if d == 5 {
        s.append("5");
        proof {
            reveal_strlit("5");
            assert(s@ =~= old(s)@ + seq![digit_char(5)]);
        }
    } else if d == 6 {
        s.append("6");
        proof {
            reveal_strlit("6");
            assert(s@ =~= old(s)@ + seq![digit_char(6)]);
        }
    } else if d == 7 {
        s.append("7");
        proof {
            reveal_strlit("7");
            assert(s@ =~= old(s)@ + seq![digit_char(7)]);
        }
    } else if d == 8 {
        s.append("8");
        proof {
            reveal_strlit("8");
            assert(s@ =~= old(s)@ + seq![digit_char(8)]);
        }
    } else {
        s.append("9");
        proof {
            reveal_strlit("9");
            assert(s@ =~= old(s)@ + seq![digit_char(9)]);
        }
    }
}

/// Appends a byte's decimal digits, most significant first.
fn push_value(s: &mut String, n: u8)
    ensures
        final(s)@ == old(s)@ + dec_digits(n as int),
{
    if n >= 100 {
        push_digit(s, n / 100);
        push_digit(s, (n / 10) % 10);
        push_digit(s, n % 10);
        proof {
            reveal_with_fuel(dec_digits, 3);
            assert(n as int / 10 / 10 == n as int / 100);
            assert(dec_digits(n as int / 10) =~= seq![
                digit_char(n as int / 100),
                digit_char((n as int / 10) % 10),
            ]);
            assert(dec_digits(n as int) =~= seq![
                digit_char(n as int / 100),
                digit_char((n as int / 10) % 10),
                digit_char(n as int % 10),
            ]);
            assert(s@ =~= old(s)@ + dec_digits(n as int));
        }
    } else if n >= 10 {
        push_digit(s, n / 10);
        push_digit(s, n % 10);
        proof {
            reveal_with_fuel(dec_digits, 3);
            assert(dec_digits(n as int) =~= seq![digit_char(n as int / 10), digit_char(
                n as int % 10,
            )]);
            assert(s@ =~= old(s)@ + dec_digits(n as int));
        }
    } else {
        push_digit(s, n);
        proof {
            assert(s@ =~= old(s)@ + dec_digits(n as int));
        }
    }
}

/// Encodes the snapshot as the metadata payload, available only once a
/// transform has been applied this session.
pub fn build_anchors_metadata_json(meta: &AnchorMetadata) -> (r: Option<String>)
    ensures
        r is Some <==> meta.has_applied,
        r is Some ==> r->0@ == spec_encode_metadata(
            meta.anchors@,
            meta.reflection_mode,
            meta.grayscale_mode,
        ),
{
    if !meta.has_applied {
        return None;
    }
    let mut s = String::new();
    let ghost head = seq!['{'] + key_anchors() + seq![':', '['];
    s.append("{\"anchors\":[");
    proof {
        reveal_strlit("{\"anchors\":[");
        assert(s@ =~= head);
    }
    let mut i: usize = 0;
    while i < meta.anchors.len()
        invariant
            i <= meta.anchors@.len(),
            head == seq!['{'] + key_anchors() + seq![':', '['],
            s@ == head + anchors_body(meta.anchors@.take(i as int)),
        decreases meta.anchors@.len() - i,
    {
        if i > 0 {
            s.append(",");
            proof {
                reveal_strlit(",");
                assert(s@ =~= head + anchors_body(meta.anchors@.take(i as int)) + seq![',']);
            }
        }
        push_value(&mut s, meta.anchors[i]);
        proof {
            let a = meta.anchors@;
            assert(a.take(i + 1).drop_last() =~= a.take(i as int));
            assert(a.take(i + 1).last() == a[i as int]);
            if i == 0 {
                assert(anchors_body(a.take(1)) == dec_digits(a[0] as int));
                assert(s@ =~= head + anchors_body(a.take(i + 1)));
            } else {
                assert(anchors_body(a.take(i + 1)) == anchors_body(a.take(i as int)) + seq![',']
                    + dec_digits(a[i as int] as int));
                assert(s@ =~= head + anchors_body(a.take(i + 1)));
            }
        }
        i += 1;
    }
    proof {
        assert(meta.anchors@.take(meta.anchors@.len() as int) =~= meta.anchors@);
    }
    let ghost mid1 = head + anchors_body(meta.anchors@) + seq![']', ','] + key_reflection() + seq![
        ':',
        '"',
    ];
    s.append("],\"reflectionMode\":\"");
    proof {
        reveal_strlit("],\"reflectionMode\":\"");
        assert(s@ =~= mid1);
    }
    match meta.reflection_mode {
        ReflectionMode::Average => {
            s.append("Average");
            proof {
                reveal_strlit("Average");
                assert(s@ =~= mid1 + reflection_name(meta.reflection_mode));
            }
        },
        ReflectionMode::Partial => {
            s.append("Partial");
            proof {
                reveal_strlit("Partial");
                assert(s@ =~= mid1 + reflection_name(meta.reflection_mode));
            }
        },
    }
    let ghost mid2 = mid1 + reflection_name(meta.reflection_mode) + seq!['"', ','] + key_grayscale()
        + seq![':', '"'];
    s.append("\",\"grayscaleMode\":\"");
    proof {
        reveal_strlit("\",\"grayscaleMode\":\"");
        assert(s@ =~= mid2);
    }
    match meta.grayscale_mode {
        GrayscaleMode::Default => {
            s.append("Default");
            proof {
                reveal_strlit("Default");
                assert(s@ =~= mid2 + grayscale_name(meta.grayscale_mode));
            }
        },
        GrayscaleMode::Max => {
            s.append("Max");
            proof {
                reveal_strlit("Max");
                assert(s@ =~= mid2 + grayscale_name(meta.grayscale_mode));
            }
        },
        GrayscaleMode::Min => {
            s.append("Min");
            proof {
                reveal_strlit("Min");
                assert(s@ =~= mid2 + grayscale_name(meta.grayscale_mode));
            }
        },
    }
    s.append("\"}");
    proof {
        reveal_strlit("\"}");
        assert(s@ =~= spec_encode_metadata(
            meta.anchors@,
            meta.reflection_mode,
            meta.grayscale_mode,
        ));
    }
    Some(s)
}

} // verus!
