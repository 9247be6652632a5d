//! Structural checks on an SVG slide master: canvas size, shape count,
//! named groups, distinct fill colors and the smallest font size.
//! The checks scan the document's UTF-8 bytes.

use vstd::prelude::*;
use vstd::string::StringSliceAdditionalSpecFns;
use std::collections::BTreeSet;
use crate::text::{dec, debug_quoted, push_decimal, str_debug};

verus! {

/// The bytes of an ASCII character sequence.
pub open spec fn ascii(s: Seq<char>) -> Seq<u8> {
    s.map_values(|c: char| c as u8)
}

/// `pat` occurs in `b` at byte `i`.
pub open spec fn occurs_at(b: Seq<u8>, pat: Seq<u8>, i: int) -> bool {
    &&& 0 <= i
    &&& i + pat.len() <= b.len()
    &&& b.subrange(i, i + pat.len()) == pat
}

/// The first occurrence of `pat` in `b` at or after byte `i`.
pub open spec fn find_from(b: Seq<u8>, pat: Seq<u8>, i: int) -> Option<int>
    decreases b.len() + 1 - i,
{
    if i < 0 || i + pat.len() > b.len() {
        None
    } else if occurs_at(b, pat, i) {
        Some(i)
    } else {
        find_from(b, pat, i + 1)
    }
}

/// `pat` occurs inside bytes `lo..hi`.
pub open spec fn has_within(b: Seq<u8>, pat: Seq<u8>, lo: int, hi: int) -> bool {
    exists|p: int| lo <= p && p + pat.len() <= hi && #[trigger] occurs_at(b, pat, p)
}

/// A found occurrence is the first one at or after `i`.
pub proof fn lemma_find_from(b: Seq<u8>, pat: Seq<u8>, i: int)
    requires
        0 <= i,
    ensures
        find_from(b, pat, i) matches Some(k) ==> i <= k && occurs_at(b, pat, k) && forall|p: int|
            i <= p < k ==> !#[trigger] occurs_at(b, pat, p),
        find_from(b, pat, i) is None ==> forall|p: int| i <= p ==> !#[trigger] occurs_at(b, pat, p),
    decreases b.len() + 1 - i,
{
    if i + pat.len() <= b.len() && !occurs_at(b, pat, i) {
        lemma_find_from(b, pat, i + 1);
    }
}

/// Whether `pat` occurs in `b` at byte `i`.
fn matches_at(b: &[u8], pat: &[u8], i: usize) -> (r: bool)
    ensures
        r == occurs_at(b@, pat@, i as int),
{
    if i > b.len() || pat.len() > b.len() - i {
        return false;
    }
    let mut k: usize = 0;
    while k < pat.len()
        invariant
            k <= pat@.len(),
            i + pat@.len() <= b@.len(),
            b@.len() == b.len(),
            forall|q: int| 0 <= q < k ==> b@[i + q] == pat@[q],
        decreases pat@.len() - k,
    {
        if b[i + k] != pat[k] {
            proof {
                assert(b@.subrange(i as int, i + pat@.len())[k as int] == b@[i + k]);
            }
            return false;
        }
        k = k + 1;
    }
    assert(b@.subrange(i as int, i + pat@.len()) =~= pat@);
    true
}

/// The first occurrence of `pat` at or after byte `start`.
fn find_bytes(b: &[u8], pat: &[u8], start: usize) -> (r: Option<usize>)
    ensures
        match r {
            Some(k) => find_from(b@, pat@, start as int) == Some(k as int),
            None => find_from(b@, pat@, start as int) is None,
        },
{
    let mut i = start;
    while i <= b.len() && pat.len() <= b.len() - i
        invariant
            start <= i,
            find_from(b@, pat@, start as int) == find_from(b@, pat@, i as int),
        decreases b@.len() + 1 - i,
    {
        if matches_at(b, pat, i) {
            return Some(i);
        }
        assert(pat@.len() > 0) by {
            if pat@.len() == 0 {
                assert(b@.subrange(i as int, i as int) =~= pat@);
            }
        }
        i = i + 1;
    }
    None
}

/// Whether `pat` occurs inside bytes `lo..hi`.
fn contains_within(b: &[u8], pat: &[u8], lo: usize, hi: usize) -> (r: bool)
    requires
        lo <= hi <= b@.len(),
    ensures
        r == has_within(b@, pat@, lo as int, hi as int),
{
    let mut p = lo;
    while p <= hi && pat.len() <= hi - p
        invariant
            lo <= p,
            hi <= b@.len(),
            forall|q: int| lo <= q < p ==> !#[trigger] occurs_at(b@, pat@, q),
        decreases hi + 1 - p,
    {
        if matches_at(b, pat, p) {
            return true;
        }
        assert(pat@.len() > 0) by {
            if pat@.len() == 0 {
                assert(b@.subrange(p as int, p as int) =~= pat@);
            }
        }
        p = p + 1;
    }
    assert forall|q: int| lo <= q && q + pat@.len() <= hi implies !#[trigger] occurs_at(b@, pat@, q) by {}
    false
}

/// Number of non-overlapping occurrences of `pat`, leftmost first, from
/// byte `i` on.
pub open spec fn count_from(b: Seq<u8>, pat: Seq<u8>, i: int) -> nat
    decreases b.len() + 1 - i,
{
    if pat.len() == 0 || i < 0 {
        0
    } else {
        match find_from(b, pat, i) {
            None => 0,
            Some(k) => {
                proof {
                    lemma_find_from(b, pat, i);
                }
                1 + count_from(b, pat, k + pat.len())
            },
        }
    }
}

/// Occurrences each use up `pat.len()` bytes.
pub proof fn lemma_count_from_bound(b: Seq<u8>, pat: Seq<u8>, i: int)
    requires
        0 <= i <= b.len(),
        pat.len() > 0,
    ensures
        count_from(b, pat, i) * pat.len() <= b.len() - i,
    decreases b.len() + 1 - i,
{
    lemma_find_from(b, pat, i);
    match find_from(b, pat, i) {
        None => {
            assert(count_from(b, pat, i) == 0);
        },
        Some(k) => {
            let rest = count_from(b, pat, k + pat.len());
            assert(count_from(b, pat, i) == 1 + rest);
            lemma_count_from_bound(b, pat, k + pat.len());
            let l = pat.len();
            assert((1 + rest) * l == l + rest * l) by (nonlinear_arith);
        },
    }
}

/// Number of non-overlapping occurrences of `pat` in `b`.
fn count_matches(b: &[u8], pat: &[u8]) -> (r: usize)
    requires
        pat@.len() > 0,
    ensures
        r == count_from(b@, pat@, 0),
{
    let mut count: usize = 0;
    let mut start: usize = 0;
    proof {
        lemma_count_from_bound(b@, pat@, 0);
        let c = count_from(b@, pat@, 0);
        let l = pat@.len();
        assert(c <= c * l) by (nonlinear_arith)
            requires
                l >= 1,
        ;
    }
    loop
        invariant
            pat@.len() > 0,
            b@.len() == b.len(),
            start <= b@.len(),
            count + count_from(b@, pat@, start as int) == count_from(b@, pat@, 0),
            count_from(b@, pat@, 0) <= b@.len(),
        decreases b@.len() + 1 - start,
    {
        match find_bytes(b, pat, start) {
            None => {
                return count;
            },
            Some(k) => {
                proof {
                    lemma_find_from(b@, pat@, start as int);
                    assert(count_from(b@, pat@, start as int) == 1 + count_from(b@, pat@, k + pat@.len()));
                }
                count = count + 1;
                start = k + pat.len();
            },
        }
    }
}

/// Occurrences of `pat` as `count_from` scans them, counting only those
/// at positions that `keep` accepts.
pub open spec fn count_where(b: Seq<u8>, pat: Seq<u8>, i: int, keep: spec_fn(int) -> bool) -> nat
    decreases b.len() + 1 - i,
{
    if pat.len() == 0 || i < 0 {
        0
    } else {
        match find_from(b, pat, i) {
            None => 0,
            Some(k) => {
                proof {
                    lemma_find_from(b, pat, i);
                }
                (if keep(k) {
                    1nat
                } else {
                    0nat
                }) + count_where(b, pat, k + pat.len(), keep)
            },
        }
    }
}

/// The kept occurrences are at most all occurrences.
pub proof fn lemma_count_where_bound(b: Seq<u8>, pat: Seq<u8>, i: int, keep: spec_fn(int) -> bool)
    requires
        0 <= i <= b.len(),
        pat.len() > 0,
    ensures
        count_where(b, pat, i, keep) <= count_from(b, pat, i),
    decreases b.len() + 1 - i,
{
    lemma_find_from(b, pat, i);
    if let Some(k) = find_from(b, pat, i) {
        lemma_count_where_bound(b, pat, k + pat.len(), keep);
    }
}

/// In valid UTF-8, the position just after an ASCII byte starts a character.
proof fn lemma_boundary_after_ascii(bytes: Seq<u8>, i: int)
    requires
        vstd::utf8::valid_utf8(bytes),
        0 < i <= bytes.len(),
        bytes[i - 1] < 0x80,
    ensures
        vstd::utf8::is_char_boundary(bytes, i),
{
    vstd::utf8::is_char_boundary_iff_is_leading_byte(bytes, i - 1);
    vstd::utf8::valid_utf8_split(bytes, i - 1);
    let s = bytes.subrange(i - 1, bytes.len() as int);
    assert(s[0] == bytes[i - 1]);
    assert(vstd::utf8::pop_first_scalar(s) =~= bytes.subrange(i, bytes.len() as int));
    if i == bytes.len() {
        vstd::utf8::is_char_boundary_start_end_of_seq(bytes);
    } else {
        let t = bytes.subrange(i, bytes.len() as int);
        assert(vstd::utf8::valid_utf8(t));
        assert(t[0] == bytes[i]);
        vstd::utf8::is_char_boundary_iff_not_is_continuation_byte(bytes, i);
    }
}

/// In valid UTF-8, an ASCII byte starts a character.
proof fn lemma_boundary_at_ascii(bytes: Seq<u8>, i: int)
    requires
        vstd::utf8::valid_utf8(bytes),
        0 <= i < bytes.len(),
        bytes[i] < 0x80,
    ensures
        vstd::utf8::is_char_boundary(bytes, i),
{
    vstd::utf8::is_char_boundary_iff_is_leading_byte(bytes, i);
}

/// A string literal of ASCII characters has the bytes of its characters.
proof fn lemma_ascii_lit(s: &str)
    requires
        vstd::utf8::is_ascii_chars(s@),
    ensures
        s.spec_bytes() == ascii(s@),
{
    vstd::string::is_ascii_spec_bytes(s);
    assert(s.spec_bytes() =~= ascii(s@));
}

/// One structural rule of the layout contract.
#[derive(Debug, Clone, Copy, PartialEq, Eq, Hash, Structural)]
pub enum Check {
    /// The `viewBox` is exactly `"0 0 1920 1080"`.
    CanvasSize,
    /// At least 40 visual-shape elements.
    ShapeFloor,
    /// Between 5 and 20 named groups.
    NamedGroupBounds,
    /// At least 8 distinct hex fills.
    FillDiversity,
    /// The smallest `font-size` is 18 or more.
    FontSizeFloor,
}

/// The falsification-test id bound to each check, in `Check` order.
pub const FALSIFY_IDS: [(Check, &'static str); 5] = [
    (Check::CanvasSize, "FALSIFY-SVG-001"),
    (Check::ShapeFloor, "FALSIFY-SVG-002"),
    (Check::NamedGroupBounds, "FALSIFY-SVG-003"),
    (Check::FillDiversity, "FALSIFY-SVG-004"),
    (Check::FontSizeFloor, "FALSIFY-SVG-005"),
];

/// Why a check failed, with the offending value.
#[derive(Debug, Clone, PartialEq, Eq)]
pub enum LayoutFailure {
    /// The `viewBox` was not the canonical one (empty when absent).
    CanvasMismatch(String),
    /// Fewer than 40 shapes.
    ShapeBelowFloor(usize),
    /// Named-group count outside `[5, 20]`.
    NamedGroupOutOfBounds(usize),
    /// Fewer than 8 distinct hex fills.
    FillBelowFloor(usize),
    /// Some font size below 18.
    FontBelowFloor(u32),
}

/// The sentence that describes a failure.
pub open spec fn failure_message(f: LayoutFailure) -> Seq<char> {
    match f {
        LayoutFailure::CanvasMismatch(s) => "canvas size: expected viewBox \"0 0 1920 1080\", saw "@
            + str_debug(s@),
        LayoutFailure::ShapeBelowFloor(n) => "shape floor: counted "@ + dec(n as nat)
            + " shapes, need >= 40"@,
        LayoutFailure::NamedGroupOutOfBounds(n) => "named-group bounds: counted "@ + dec(n as nat)
            + " groups, need in [5, 20]"@,
        LayoutFailure::FillBelowFloor(n) => "fill diversity: counted "@ + dec(n as nat)
            + " distinct hex fills, need >= 8"@,
        LayoutFailure::FontBelowFloor(m) => "font-size floor: smallest font-size is "@ + dec(
            m as nat,
        ) + ", need >= 18"@,
    }
}

/// The sentence for a canvas mismatch, given the quoted `viewBox` value.
pub fn canvas_message(quoted: &str) -> (r: String)
    ensures
        r@ == "canvas size: expected viewBox \"0 0 1920 1080\", saw "@ + quoted@,
{
    let mut r = String::from_str("canvas size: expected viewBox \"0 0 1920 1080\", saw ");
    r.append(quoted);
    r
}

impl LayoutFailure {
    /// The failure as a sentence, with the offending value.
    pub fn message(&self) -> (r: String)
        ensures
            r@ == failure_message(*self),
    {
        match self {
            LayoutFailure::CanvasMismatch(s) => {
                let q = debug_quoted(s.as_str());
                canvas_message(q.as_str())
            },
            LayoutFailure::ShapeBelowFloor(n) => {
                let mut r = String::from_str("shape floor: counted ");
                push_decimal(&mut r, *n as u64);
                r.append(" shapes, need >= 40");
                r
            },
            LayoutFailure::NamedGroupOutOfBounds(n) => {
                let mut r = String::from_str("named-group bounds: counted ");
                push_decimal(&mut r, *n as u64);
                r.append(" groups, need in [5, 20]");
                r
            },
            LayoutFailure::FillBelowFloor(n) => {
                let mut r = String::from_str("fill diversity: counted ");
                push_decimal(&mut r, *n as u64);
                r.append(" distinct hex fills, need >= 8");
                r
            },
            LayoutFailure::FontBelowFloor(m) => {
                let mut r = String::from_str("font-size floor: smallest font-size is ");
                push_decimal(&mut r, *m as u64);
                r.append(", need >= 18");
                r
            },
        }
    }
}

/// One check's outcome.
#[derive(Debug, Clone, PartialEq, Eq)]
pub enum CheckResult {
    /// The rule held; `measured` is the measured value.
    Pass {
        /// Which check.
        check: Check,
        /// Measured value.
        measured: usize,
    },
    /// The rule failed.
    Fail(LayoutFailure),
}

impl CheckResult {
    /// Whether this is a passing result.
    pub fn is_pass(&self) -> (r: bool)
        ensures
            r == (self is Pass),
    {
        match self {
            CheckResult::Pass { .. } => true,
            CheckResult::Fail(_) => false,
        }
    }
}

/// The results of all five checks on one document.
#[derive(Debug, Clone, PartialEq, Eq)]
pub struct LayoutReport {
    /// One result per check, in `Check` order.
    pub results: Vec<CheckResult>,
}

/// The failures among `results`, in order.
pub open spec fn fail_list(results: Seq<CheckResult>) -> Seq<LayoutFailure>
    decreases results.len(),
{
    if results.len() == 0 {
        Seq::empty()
    } else {
        let rest = fail_list(results.drop_last());
        match results.last() {
            CheckResult::Fail(f) => rest.push(f),
            CheckResult::Pass { .. } => rest,
        }
    }
}

impl LayoutReport {
    /// Whether every check passed.
    pub fn all_pass(&self) -> (r: bool)
        ensures
            r == forall|i: int| 0 <= i < self.results@.len() ==> (#[trigger] self.results@[i]) is Pass,
    {
        let mut i: usize = 0;
        while i < self.results.len()
            invariant
                i <= self.results@.len(),
                forall|k: int| 0 <= k < i ==> (#[trigger] self.results@[k]) is Pass,
            decreases self.results@.len() - i,
        {
            if !self.results[i].is_pass() {
                return false;
            }
            i = i + 1;
        }
        true
    }

    /// The failed checks only, in order.
    pub fn failures(&self) -> (r: Vec<&LayoutFailure>)
        ensures
            r@.map_values(|f: &LayoutFailure| *f) == fail_list(self.results@),
    {
        let mut r: Vec<&LayoutFailure> = Vec::new();
        let mut i: usize = 0;
        while i < self.results.len()
            invariant
                i <= self.results@.len(),
                r@.map_values(|f: &LayoutFailure| *f) == fail_list(self.results@.take(i as int)),
            decreases self.results@.len() - i,
        {
            proof {
                assert(self.results@.take(i + 1).drop_last() =~= self.results@.take(i as int));
            }
            match &self.results[i] {
                CheckResult::Fail(f) => {
                    r.push(f);
                },
                CheckResult::Pass { .. } => {},
            }
            proof {
                assert(r@.map_values(|f: &LayoutFailure| *f) =~= fail_list(self.results@.take(i + 1)));
            }
            i = i + 1;
        }
        proof {
            assert(self.results@.take(self.results@.len() as int) =~= self.results@);
        }
        r
    }
}

/// Whether two byte sequences are equal.
fn bytes_equal(x: &[u8], y: &[u8]) -> (r: bool)
    ensures
        r == (x@ == y@),
{
    if x.len() != y.len() {
        return false;
    }
    let mut i: usize = 0;
    while i < x.len()
        invariant
            i <= x@.len(),
            x@.len() == y@.len(),
            forall|k: int| 0 <= k < i ==> x@[k] == y@[k],
        decreases x@.len() - i,
    {
        if x[i] != y[i] {
            return false;
        }
        i = i + 1;
    }
    assert(x@ =~= y@);
    true
}

/// The key that opens the `viewBox` attribute.
pub open spec fn viewbox_key() -> Seq<u8> {
    ascii("viewBox=\""@)
}

/// The bytes of the first `viewBox` attribute's value, if it has a closing
/// quote.
pub open spec fn viewbox_bytes(b: Seq<u8>) -> Option<Seq<u8>> {
    match find_from(b, viewbox_key(), 0) {
        None => None,
        Some(i) => match find_from(b, seq![34u8], i + viewbox_key().len()) {
            None => None,
            Some(e) => Some(b.subrange(i + viewbox_key().len(), e)),
        },
    }
}

/// The `viewBox` value as text, empty when there is none.
pub open spec fn viewbox_text(b: Seq<u8>) -> Seq<char> {
    match viewbox_bytes(b) {
        Some(v) => vstd::utf8::decode_utf8(v),
        None => Seq::empty(),
    }
}

/// The canvas is exactly 1920 by 1080.
pub open spec fn canvas_ok(b: Seq<u8>) -> bool {
    viewbox_bytes(b) == Some(ascii("0 0 1920 1080"@))
}

/// The value of the first `viewBox` attribute.
fn extract_viewbox(svg: &str) -> (r: Option<String>)
    ensures
        r is Some <==> viewbox_bytes(svg.spec_bytes()) is Some,
        r matches Some(t) ==> t@ == vstd::utf8::decode_utf8(viewbox_bytes(svg.spec_bytes())->0),
{
    let b = svg.as_bytes();
    let key = "viewBox=\"".as_bytes();
    let quote = "\"".as_bytes();
    proof {
        reveal_strlit("viewBox=\"");
        reveal_strlit("\"");
        lemma_ascii_lit("viewBox=\"");
        lemma_ascii_lit("\"");
        assert(quote@ =~= seq![34u8]);
        vstd::utf8::encode_utf8_valid_utf8(svg@);
    }
    let i = match find_bytes(b, key, 0) {
        None => return None,
        Some(i) => i,
    };
    proof {
        lemma_find_from(b@, key@, 0);
        assert(b@.len() == b.len());
    }
    let a = i + key.len();
    let e = match find_bytes(b, quote, a) {
        None => return None,
        Some(e) => e,
    };
    let ghost bs = b@;
    proof {
        lemma_find_from(bs, quote@, a as int);
        assert(bs.subrange(i as int, a as int)[8] == bs[a - 1]);
        lemma_boundary_after_ascii(bs, a as int);
        assert(bs.subrange(e as int, e + 1)[0] == bs[e as int]);
    }
    let (_, rest) = svg.split_at(a);
    let ghost rb = rest.spec_bytes();
    proof {
        vstd::utf8::valid_utf8_split(bs, a as int);
        assert(rb[e - a] == bs[e as int]);
        lemma_boundary_at_ascii(rb, e - a);
    }
    let (mid, _) = rest.split_at(e - a);
    proof {
        assert(mid.spec_bytes() =~= bs.subrange(a as int, e as int));
        vstd::utf8::encode_utf8_decode_utf8(mid@);
    }
    Some(mid.to_owned())
}

/// The canvas check.
pub open spec fn canvas_result_ok(b: Seq<u8>, r: CheckResult) -> bool {
    &&& canvas_ok(b) ==> r == CheckResult::Pass { check: Check::CanvasSize, measured: 0 }
    &&& !canvas_ok(b) ==> (r matches CheckResult::Fail(LayoutFailure::CanvasMismatch(t)) && t@
        == viewbox_text(b))
}

/// Law: in a document that opens with `<svg viewBox="`, then a value `v`
/// with no double quote, then `"` and anything at all, the canvas check
/// passes exactly when `v` is byte for byte `0 0 1920 1080`; otherwise it
/// fails, naming `v` as text.
pub proof fn lemma_canvas_passes_only_on_exact_value(v: Seq<u8>, rest: Seq<u8>, r: CheckResult)
    requires
        forall|j: int| 0 <= j < v.len() ==> v[j] != 34u8,
        canvas_result_ok(ascii("<svg viewBox=\""@) + v + seq![34u8] + rest, r),
    ensures
        (r == CheckResult::Pass { check: Check::CanvasSize, measured: 0 }) <==> v == ascii("0 0 1920 1080"@),
        !(v == ascii("0 0 1920 1080"@)) ==> (r matches CheckResult::Fail(LayoutFailure::CanvasMismatch(t))
            && t@ == vstd::utf8::decode_utf8(v)),
{
    reveal_strlit("<svg viewBox=\"");
    reveal_strlit("viewBox=\"");
    let pre = ascii("<svg viewBox=\""@);
    let key = viewbox_key();
    let b = pre + v + seq![34u8] + rest;
    assert(pre.len() == 14 && key.len() == 9);
    assert(b.subrange(5, 14) =~= key);
    assert(occurs_at(b, key, 5));
    assert forall|p: int| 0 <= p < 5 implies !#[trigger] occurs_at(b, key, p) by {
        if occurs_at(b, key, p) {
            assert(b.subrange(p, p + 9)[0] == key[0]);
            assert(b.subrange(p, p + 9)[1] == key[1]);
        }
    }
    lemma_find_first(b, key, 0, 5);
    let e: int = 14 + v.len() as int;
    assert(b.subrange(e, e + 1) =~= seq![34u8]);
    assert forall|p: int| 14 <= p < e implies !#[trigger] occurs_at(b, seq![34u8], p) by {
        if occurs_at(b, seq![34u8], p) {
            assert(b.subrange(p, p + 1)[0] == 34u8);
            assert(b[p] == v[p - 14]);
        }
    }
    lemma_find_first(b, seq![34u8], 14, e);
    assert(b.subrange(14, e) =~= v);
    assert(viewbox_bytes(b) == Some(v));
}

/// Law: the canvas result is determined by the bytes: two results that
/// both meet `canvas_result_ok` for the same bytes are equal when they pass,
/// and fail alike with the same viewBox text otherwise. With the report's
/// contract this makes the first entry of `check_layout` what
/// `check_canvas_size` returns, as the other four entries are by theirs.
pub proof fn lemma_canvas_result_determined(b: Seq<u8>, r1: CheckResult, r2: CheckResult)
    requires
        canvas_result_ok(b, r1),
        canvas_result_ok(b, r2),
    ensures
        r1 is Pass <==> r2 is Pass,
        r1 is Pass ==> r1 == r2,
        r1 matches CheckResult::Fail(LayoutFailure::CanvasMismatch(t1)) ==> (r2 matches CheckResult::Fail(
            LayoutFailure::CanvasMismatch(t2),
        ) && t1@ == t2@),
{
}

/// Checks that the `viewBox` is exactly `"0 0 1920 1080"`.
pub fn check_canvas_size(svg: &str) -> (r: CheckResult)
    ensures
        canvas_result_ok(svg.spec_bytes(), r),
{
    let actual = match extract_viewbox(svg) {
        Some(t) => t,
        None => String::new(),
    };
    let canon = "0 0 1920 1080".as_bytes();
    proof {
        reveal_strlit("0 0 1920 1080");
        lemma_ascii_lit("0 0 1920 1080");
        vstd::utf8::encode_utf8_valid_utf8(svg@);
        if let Some(v) = viewbox_bytes(svg.spec_bytes()) {
            // the value lies between two character boundaries of valid UTF-8
            let bs = svg.spec_bytes();
            let i = find_from(bs, viewbox_key(), 0)->0;
            reveal_strlit("viewBox=\"");
            lemma_ascii_lit("viewBox=\"");
            lemma_find_from(bs, viewbox_key(), 0);
            let a = i + viewbox_key().len();
            lemma_find_from(bs, seq![34u8], a);
            let e = find_from(bs, seq![34u8], a)->0;
            assert(bs.subrange(i, a)[8] == bs[a - 1]);
            lemma_boundary_after_ascii(bs, a);
            assert(bs.subrange(e, e + 1)[0] == bs[e]);
            lemma_boundary_at_ascii(bs, e);
            vstd::utf8::valid_utf8_split(bs, a);
            let rb = bs.subrange(a, bs.len() as int);
            assert(rb[e - a] == bs[e]);
            lemma_boundary_at_ascii(rb, e - a);
            vstd::utf8::valid_utf8_split(rb, e - a);
            assert(rb.subrange(0, e - a) =~= v);
            vstd::utf8::decode_utf8_encode_utf8(v);
        }
    }
    let actual_bytes = actual.as_str().as_bytes();
    if bytes_equal(actual_bytes, canon) {
        CheckResult::Pass { check: Check::CanvasSize, measured: 0 }
    } else {
        CheckResult::Fail(LayoutFailure::CanvasMismatch(actual))
    }
}

/// The first occurrence at or after `i` is the first position from `i` on
/// where `pat` occurs.
proof fn lemma_find_first(b: Seq<u8>, pat: Seq<u8>, i: int, d: int)
    requires
        0 <= i <= d,
        occurs_at(b, pat, d),
        forall|p: int| i <= p < d ==> !#[trigger] occurs_at(b, pat, p),
    ensures
        find_from(b, pat, i) == Some(d),
    decreases d - i,
{
    if i < d {
        lemma_find_first(b, pat, i + 1, d);
    }
}

/// Without occurrences from `i` on there is nothing to find.
proof fn lemma_find_none(b: Seq<u8>, pat: Seq<u8>, i: int)
    requires
        0 <= i,
        forall|p: int| i <= p ==> !#[trigger] occurs_at(b, pat, p),
    ensures
        find_from(b, pat, i) is None,
    decreases b.len() + 1 - i,
{
    if i + pat.len() <= b.len() {
        lemma_find_none(b, pat, i + 1);
    }
}

/// A byte that may end a tag name: whitespace, `/` or `>`.
pub open spec fn ends_tag_name(c: u8) -> bool {
    c == 32u8 || c == 9u8 || c == 10u8 || c == 13u8 || c == 47u8 || c == 62u8
}

/// The occurrence of a tag literal of length `len` at `k` is a whole tag
/// name: the byte right after it ends the name.
pub open spec fn whole_tag_at(b: Seq<u8>, len: int) -> spec_fn(int) -> bool {
    |k: int| k + len < b.len() && ends_tag_name(b[k + len])
}

/// Number of elements opened by `tag` (such as `<rect`): occurrences whose
/// tag name ends right after the literal, so `<line` does not count inside
/// `<linearGradient`.
pub open spec fn tag_count(b: Seq<u8>, tag: Seq<u8>) -> nat {
    count_where(b, tag, 0, whole_tag_at(b, tag.len() as int))
}

/// Number of visual-shape elements (`rect`, `circle`, `line`, `path`,
/// `polygon`, `ellipse` and `text` tags).
pub open spec fn shape_count(b: Seq<u8>) -> nat {
    tag_count(b, ascii("<rect"@)) + tag_count(b, ascii("<circle"@)) + tag_count(b, ascii("<line"@))
        + tag_count(b, ascii("<path"@)) + tag_count(b, ascii("<polygon"@)) + tag_count(
        b,
        ascii("<ellipse"@),
    ) + tag_count(b, ascii("<text"@))
}

/// Whether a byte ends a tag name.
fn is_tag_name_end(c: u8) -> (r: bool)
    ensures
        r == ends_tag_name(c),
{
    c == 32u8 || c == 9u8 || c == 10u8 || c == 13u8 || c == 47u8 || c == 62u8
}

/// Elements opened by one ASCII tag literal.
fn count_tag(b: &[u8], tag: &str) -> (r: usize)
    requires
        vstd::utf8::is_ascii_chars(tag@),
        tag@.len() >= 5,
    ensures
        r == tag_count(b@, ascii(tag@)),
        r * 5 <= b@.len(),
{
    let pat = tag.as_bytes();
    let ghost keep = whole_tag_at(b@, pat@.len() as int);
    proof {
        lemma_ascii_lit(tag);
        lemma_count_where_bound(b@, pat@, 0, keep);
        lemma_count_from_bound(b@, pat@, 0);
        let c = count_from(b@, pat@, 0);
        let l = pat@.len();
        assert(c * 5 <= c * l) by (nonlinear_arith)
            requires
                l >= 5,
        ;
    }
    let mut count: usize = 0;
    let mut start: usize = 0;
    loop
        invariant
            pat@.len() >= 5,
            pat@ == ascii(tag@),
            keep == whole_tag_at(b@, pat@.len() as int),
            b@.len() == b.len(),
            start <= b@.len(),
            count + count_where(b@, pat@, start as int, keep) == count_where(b@, pat@, 0, keep),
            count_where(b@, pat@, 0, keep) * 5 <= b@.len(),
        decreases b@.len() + 1 - start,
    {
        match find_bytes(b, pat, start) {
            None => {
                assert(count_where(b@, pat@, start as int, keep) == 0);
                return count;
            },
            Some(k) => {
                proof {
                    lemma_find_from(b@, pat@, start as int);
                }
                let j = k + pat.len();
                let whole = j < b.len() && is_tag_name_end(b[j]);
                assert(whole == keep(k as int));
                if whole {
                    count = count + 1;
                }
                start = j;
            },
        }
    }
}

/// Number of visual-shape elements.
fn count_shapes(svg: &str) -> (r: usize)
    requires
        svg.spec_bytes().len() <= isize::MAX,
    ensures
        r == shape_count(svg.spec_bytes()),
{
    let b = svg.as_bytes();
    proof {
        reveal_strlit("<rect");
        reveal_strlit("<circle");
        reveal_strlit("<line");
        reveal_strlit("<path");
        reveal_strlit("<polygon");
        reveal_strlit("<ellipse");
        reveal_strlit("<text");
    }
    let c1 = count_tag(b, "<rect");
    let c2 = count_tag(b, "<circle");
    let c3 = count_tag(b, "<line");
    let c4 = count_tag(b, "<path");
    let c5 = count_tag(b, "<polygon");
    let c6 = count_tag(b, "<ellipse");
    let c7 = count_tag(b, "<text");
    c1 + c2 + c3 + c4 + c5 + c6 + c7
}

/// The result of the shape check for `n` shapes.
pub open spec fn shape_result(n: nat) -> CheckResult {
    if n >= 40 {
        CheckResult::Pass { check: Check::ShapeFloor, measured: n as usize }
    } else {
        CheckResult::Fail(LayoutFailure::ShapeBelowFloor(n as usize))
    }
}

/// Checks that there are at least 40 visual-shape elements.
pub fn check_shape_floor(svg: &str) -> (r: CheckResult)
    requires
        svg.spec_bytes().len() <= isize::MAX,
    ensures
        r == shape_result(shape_count(svg.spec_bytes())),
{
    let n = count_shapes(svg);
    if n >= 40 {
        CheckResult::Pass { check: Check::ShapeFloor, measured: n }
    } else {
        CheckResult::Fail(LayoutFailure::ShapeBelowFloor(n))
    }
}

/// The `<g ` tag starting at `k` carries an `id=` before its closing `>`.
pub open spec fn group_named(b: Seq<u8>, k: int) -> bool {
    match find_from(b, seq![62u8], k) {
        None => false,
        Some(e) => has_within(b, ascii("id="@), k, e),
    }
}

/// Which `<g ` positions count as named groups.
pub open spec fn named_at(b: Seq<u8>) -> spec_fn(int) -> bool {
    |k: int| group_named(b, k)
}

/// Number of named groups: `<g ` tags with an `id=` attribute.
pub open spec fn named_group_count(b: Seq<u8>) -> nat {
    count_where(b, ascii("<g "@), 0, named_at(b))
}

/// Number of named groups.
fn count_named_groups(svg: &str) -> (r: usize)
    ensures
        r == named_group_count(svg.spec_bytes()),
{
    let b = svg.as_bytes();
    let open = "<g ".as_bytes();
    let close = ">".as_bytes();
    let id = "id=".as_bytes();
    proof {
        reveal_strlit("<g ");
        reveal_strlit(">");
        reveal_strlit("id=");
        lemma_ascii_lit("<g ");
        lemma_ascii_lit(">");
        lemma_ascii_lit("id=");
        assert(close@ =~= seq![62u8]);
        lemma_count_where_bound(b@, open@, 0, named_at(b@));
        lemma_count_from_bound(b@, open@, 0);
        let c = count_from(b@, open@, 0);
        assert(c <= c * 3) by (nonlinear_arith);
    }
    let ghost keep = named_at(b@);
    let mut count: usize = 0;
    let mut start: usize = 0;
    loop
        invariant
            open@.len() == 3,
            open@ == ascii("<g "@),
            close@ == seq![62u8],
            id@ == ascii("id="@),
            keep == named_at(b@),
            b@ == svg.spec_bytes(),
            b@.len() == b.len(),
            start <= b@.len(),
            count + count_where(b@, open@, start as int, keep) == count_where(b@, open@, 0, keep),
            count_where(b@, open@, 0, keep) <= b@.len(),
        decreases b@.len() + 1 - start,
    {
        match find_bytes(b, open, start) {
            None => {
                assert(count_where(b@, open@, start as int, keep) == 0);
                return count;
            },
            Some(k) => {
                proof {
                    lemma_find_from(b@, open@, start as int);
                }
                let named = match find_bytes(b, close, k) {
                    None => false,
                    Some(e) => {
                        proof {
                            lemma_find_from(b@, close@, k as int);
                        }
                        contains_within(b, id, k, e)
                    },
                };
                assert(named == keep(k as int));
                if named {
                    count = count + 1;
                }
                start = k + 3;
            },
        }
    }
}

/// The result of the named-group check for `n` groups.
pub open spec fn group_result(n: nat) -> CheckResult {
    if 5 <= n <= 20 {
        CheckResult::Pass { check: Check::NamedGroupBounds, measured: n as usize }
    } else {
        CheckResult::Fail(LayoutFailure::NamedGroupOutOfBounds(n as usize))
    }
}

/// Checks that there are between 5 and 20 named groups.
pub fn check_named_group_bounds(svg: &str) -> (r: CheckResult)
    ensures
        r == group_result(named_group_count(svg.spec_bytes())),
{
    let n = count_named_groups(svg);
    if 5 <= n && n <= 20 {
        CheckResult::Pass { check: Check::NamedGroupBounds, measured: n }
    } else {
        CheckResult::Fail(LayoutFailure::NamedGroupOutOfBounds(n))
    }
}


/// The key that opens a hex `fill` attribute.
pub open spec fn fill_key() -> Seq<u8> {
    ascii("fill=\"#"@)
}

/// An ASCII hex digit, either case.
pub open spec fn is_hex_byte(c: u8) -> bool {
    (48 <= c <= 57) || (97 <= c <= 102) || (65 <= c <= 70)
}

/// The value of a hex digit.
pub open spec fn hex_byte_value(c: u8) -> int {
    if 48 <= c <= 57 {
        c - 48
    } else if 97 <= c <= 102 {
        c - 87
    } else {
        c - 55
    }
}

/// Six hex digits.
pub open spec fn is_hex6(h: Seq<u8>) -> bool {
    h.len() == 6 && forall|j: int| 0 <= j < 6 ==> is_hex_byte(#[trigger] h[j])
}

/// The color that six hex digits name; the case of the digits does not
/// matter, so codes that differ only in case name one color.
pub open spec fn hex6_value(h: Seq<u8>) -> int {
    ((((hex_byte_value(h[0]) * 16 + hex_byte_value(h[1])) * 16 + hex_byte_value(h[2])) * 16
        + hex_byte_value(h[3])) * 16 + hex_byte_value(h[4])) * 16 + hex_byte_value(h[5])
}

/// The colors of the hex fills found scanning from byte `i`: after each
/// `fill="#` the next six bytes count when they are hex digits, and the scan
/// goes on after them; it stops at a key with fewer than six bytes after it.
pub open spec fn fills_from(b: Seq<u8>, i: int) -> Set<u32>
    decreases b.len() + 1 - i,
{
    if i < 0 {
        Set::empty()
    } else {
        match find_from(b, fill_key(), i) {
            None => Set::empty(),
            Some(k) => {
                let a = k + fill_key().len();
                if a + 6 > b.len() {
                    Set::empty()
                } else {
                    proof {
                        lemma_find_from(b, fill_key(), i);
                    }
                    let h = b.subrange(a, a + 6);
                    let rest = fills_from(b, a + 6);
                    if is_hex6(h) {
                        rest.insert(hex6_value(h) as u32)
                    } else {
                        rest
                    }
                }
            },
        }
    }
}

/// A `str` can be cut at byte `j`: `j` is its end or does not fall inside a
/// multi-byte character.
pub open spec fn cut_ok(b: Seq<u8>, j: int) -> bool {
    j == b.len() || (0 <= j < b.len() && !vstd::utf8::is_continuation_byte(b[j]))
}

/// Every six-byte fill code that the scan from `i` takes out of the text
/// ends where a `str` can be cut.
pub open spec fn fill_cuts_ok(b: Seq<u8>, i: int) -> bool
    decreases b.len() + 1 - i,
{
    if i < 0 {
        true
    } else {
        match find_from(b, fill_key(), i) {
            None => true,
            Some(k) => {
                let a = k + fill_key().len();
                if a + 6 > b.len() {
                    true
                } else {
                    proof {
                        lemma_find_from(b, fill_key(), i);
                    }
                    cut_ok(b, a + 6) && fill_cuts_ok(b, a + 6)
                }
            },
        }
    }
}

/// ASCII lower-casing of one byte.
pub open spec fn lower_byte(c: u8) -> u8 {
    if 65 <= c <= 90 {
        (c + 32) as u8
    } else {
        c
    }
}

/// A hex digit has a value below 16, and two hex digits have the same value
/// exactly when they are the same digit up to case.
proof fn lemma_hex_digit_pair(c: u8, d: u8)
    requires
        (48 <= c <= 57) || (97 <= c <= 102) || (65 <= c <= 70),
        (48 <= d <= 57) || (97 <= d <= 102) || (65 <= d <= 70),
    ensures
        0 <= hex_byte_value(c) < 16,
        hex_byte_value(c) == hex_byte_value(d) <==> lower_byte(c) == lower_byte(d),
{
}

/// A base-16 step is injective on digits below 16.
proof fn lemma_base16_step(a: int, b: int, c: int, d: int)
    requires
        0 <= a,
        0 <= c,
        0 <= b < 16,
        0 <= d < 16,
    ensures
        (a * 16 + b == c * 16 + d) <==> (a == c && b == d),
{
    if a * 16 + b == c * 16 + d {
        if a < c {
            assert(a * 16 + 16 <= c * 16) by (nonlinear_arith)
                requires
                    a < c,
            ;
        } else if c < a {
            assert(c * 16 + 16 <= a * 16) by (nonlinear_arith)
                requires
                    c < a,
            ;
        }
    }
}

/// A base-16 step keeps a value below a power of 16 below the next one.
proof fn lemma_base16_bound(a: int, b: int, m: int)
    requires
        0 <= a < m,
        0 <= b < 16,
    ensures
        0 <= a * 16 + b < m * 16,
{
    assert(0 <= a * 16 && a * 16 + 16 <= m * 16) by (nonlinear_arith)
        requires
            0 <= a < m,
    ;
}

/// Six hex digits of either case name a color below `16^6`, and two such
/// codes name the same color exactly when they agree up to case.
proof fn lemma_hex6_values(h1: Seq<u8>, h2: Seq<u8>)
    requires
        h1.len() == 6,
        h2.len() == 6,
        forall|j: int| 0 <= j < 6 ==> (48 <= #[trigger] h1[j] <= 57) || (97 <= h1[j] <= 102) || (65 <= h1[j] <= 70),
        forall|j: int| 0 <= j < 6 ==> (48 <= #[trigger] h2[j] <= 57) || (97 <= h2[j] <= 102) || (65 <= h2[j] <= 70),
    ensures
        0 <= hex6_value(h1) < 16777216,
        hex6_value(h1) == hex6_value(h2) <==> forall|j: int| 0 <= j < 6 ==> lower_byte(#[trigger] h1[j]) == lower_byte(h2[j]),
{
    let x = |j: int| hex_byte_value(h1[j]);
    let y = |j: int| hex_byte_value(h2[j]);
    assert forall|j: int| 0 <= j < 6 implies 0 <= #[trigger] x(j) < 16 && 0 <= y(j) < 16 && (x(j) == y(j) <==> lower_byte(h1[j]) == lower_byte(h2[j])) by {
        lemma_hex_digit_pair(h1[j], h2[j]);
        lemma_hex_digit_pair(h2[j], h1[j]);
    }
    let a1 = x(0);
    let a2 = a1 * 16 + x(1);
    let a3 = a2 * 16 + x(2);
    let a4 = a3 * 16 + x(3);
    let a5 = a4 * 16 + x(4);
    let a6 = a5 * 16 + x(5);
    let b1 = y(0);
    let b2 = b1 * 16 + y(1);
    let b3 = b2 * 16 + y(2);
    let b4 = b3 * 16 + y(3);
    let b5 = b4 * 16 + y(4);
    let b6 = b5 * 16 + y(5);
    assert(x(0) >= 0 && x(1) >= 0 && x(2) >= 0 && x(3) >= 0 && x(4) >= 0 && x(5) >= 0);
    assert(y(0) >= 0 && y(1) >= 0 && y(2) >= 0 && y(3) >= 0 && y(4) >= 0 && y(5) >= 0);
    lemma_base16_bound(a1, x(1), 16);
    lemma_base16_bound(a2, x(2), 256);
    lemma_base16_bound(a3, x(3), 4096);
    lemma_base16_bound(a4, x(4), 65536);
    lemma_base16_bound(a5, x(5), 1048576);
    lemma_base16_bound(b1, y(1), 16);
    lemma_base16_bound(b2, y(2), 256);
    lemma_base16_bound(b3, y(3), 4096);
    lemma_base16_bound(b4, y(4), 65536);
    lemma_base16_bound(b5, y(5), 1048576);
    assert(hex6_value(h1) == a6);
    assert(hex6_value(h2) == b6);
    lemma_base16_step(a5, x(5), b5, y(5));
    lemma_base16_step(a4, x(4), b4, y(4));
    lemma_base16_step(a3, x(3), b3, y(3));
    lemma_base16_step(a2, x(2), b2, y(2));
    lemma_base16_step(a1, x(1), b1, y(1));
    if forall|j: int| 0 <= j < 6 ==> lower_byte(#[trigger] h1[j]) == lower_byte(h2[j]) {
        assert(lower_byte(h1[0]) == lower_byte(h2[0]));
        assert(lower_byte(h1[1]) == lower_byte(h2[1]));
        assert(lower_byte(h1[2]) == lower_byte(h2[2]));
        assert(lower_byte(h1[3]) == lower_byte(h2[3]));
        assert(lower_byte(h1[4]) == lower_byte(h2[4]));
        assert(lower_byte(h1[5]) == lower_byte(h2[5]));
    }
    if a6 == b6 {
        assert forall|j: int| 0 <= j < 6 implies lower_byte(#[trigger] h1[j]) == lower_byte(h2[j]) by {
            assert(x(j) == y(j));
        }
    }
}

/// Law: a fill code counts as a color exactly when all six of its bytes are
/// hex digits, `0`-`9`, `a`-`f` or `A`-`F`: a document with the single code
/// `h` has one distinct fill then and none otherwise.
pub proof fn lemma_fill_code_counts_iff_hex(h: Seq<u8>)
    requires
        h.len() == 6,
    ensures
        distinct_fill_count(ascii("<rect fill=\"#"@) + h + ascii("\"/>"@)) == if forall|j: int|
            0 <= j < 6 ==> (48 <= #[trigger] h[j] <= 57) || (97 <= h[j] <= 102) || (65 <= h[j] <= 70) {
            1nat
        } else {
            0nat
        },
{
    broadcast use vstd::set::group_set_axioms;
    reveal_strlit("<rect fill=\"#");
    reveal_strlit("\"/>");
    reveal_strlit("fill=\"#");
    let p1 = ascii("<rect fill=\"#"@);
    let end = ascii("\"/>"@);
    let key = fill_key();
    let b = p1 + h + end;
    assert(p1.len() == 13 && end.len() == 3 && key.len() == 7);
    assert(b.subrange(6, 13) =~= key);
    assert forall|p: int| 0 <= p < 6 implies !#[trigger] occurs_at(b, key, p) by {
        if occurs_at(b, key, p) {
            assert(b.subrange(p, p + 7)[0] == key[0]);
        }
    }
    lemma_find_first(b, key, 0, 6);
    assert(b.subrange(13, 19) =~= h);
    assert(find_from(b, key, 19) is None);
    assert(fills_from(b, 19) == Set::<u32>::empty());
    if is_hex6(h) {
        assert(forall|j: int| 0 <= j < 6 ==> (48 <= #[trigger] h[j] <= 57) || (97 <= h[j] <= 102) || (65 <= h[j] <= 70));
        assert(fills_from(b, 0) == Set::<u32>::empty().insert(hex6_value(h) as u32));
    } else {
        assert(!forall|j: int| 0 <= j < 6 ==> (48 <= #[trigger] h[j] <= 57) || (97 <= h[j] <= 102) || (65 <= h[j] <= 70));
        assert(fills_from(b, 0) == Set::<u32>::empty());
    }
}

/// Law: hex fill codes are read in either case and counted once per color,
/// case folded: in a document with two `fill="#` codes `h1` and `h2`, each
/// six digits from `0`-`9`, `a`-`f` or `A`-`F`, the distinct-fill count is
/// 1 when the codes agree up to case and 2 otherwise.
pub proof fn lemma_fill_codes_count_case_blind(h1: Seq<u8>, h2: Seq<u8>)
    requires
        h1.len() == 6,
        h2.len() == 6,
        forall|j: int| 0 <= j < 6 ==> (48 <= #[trigger] h1[j] <= 57) || (97 <= h1[j] <= 102) || (65 <= h1[j] <= 70),
        forall|j: int| 0 <= j < 6 ==> (48 <= #[trigger] h2[j] <= 57) || (97 <= h2[j] <= 102) || (65 <= h2[j] <= 70),
    ensures
        distinct_fill_count(
            ascii("<rect fill=\"#"@) + h1 + ascii("\"/><rect fill=\"#"@) + h2 + ascii("\"/>"@),
        ) == if h1.map_values(|c: u8| lower_byte(c)) == h2.map_values(|c: u8| lower_byte(c)) {
            1nat
        } else {
            2nat
        },
{
    broadcast use vstd::set::group_set_axioms;
    reveal_strlit("<rect fill=\"#");
    reveal_strlit("\"/><rect fill=\"#");
    reveal_strlit("\"/>");
    reveal_strlit("fill=\"#");
    let p1 = ascii("<rect fill=\"#"@);
    let mid = ascii("\"/><rect fill=\"#"@);
    let end = ascii("\"/>"@);
    let key = fill_key();
    let b = p1 + h1 + mid + h2 + end;
    assert(p1.len() == 13 && mid.len() == 16 && end.len() == 3 && key.len() == 7);
    assert(b.len() == 44);
    // The first key opens at byte 6.
    assert(b.subrange(6, 13) =~= key);
    assert forall|p: int| 0 <= p < 6 implies !#[trigger] occurs_at(b, key, p) by {
        if occurs_at(b, key, p) {
            assert(b.subrange(p, p + 7)[0] == key[0]);
        }
    }
    lemma_find_first(b, key, 0, 6);
    assert(b.subrange(13, 19) =~= h1);
    // The second key opens at byte 28.
    assert(b.subrange(28, 35) =~= key);
    assert forall|p: int| 19 <= p < 28 implies !#[trigger] occurs_at(b, key, p) by {
        if occurs_at(b, key, p) {
            assert(b.subrange(p, p + 7)[0] == key[0]);
        }
    }
    lemma_find_first(b, key, 19, 28);
    assert(b.subrange(35, 41) =~= h2);
    assert(find_from(b, key, 41) is None);
    assert(fills_from(b, 41) == Set::<u32>::empty());
    lemma_hex6_values(h1, h2);
    lemma_hex6_values(h2, h1);
    assert(is_hex6(h1));
    assert(is_hex6(h2));
    let v1 = hex6_value(h1) as u32;
    let v2 = hex6_value(h2) as u32;
    assert(fills_from(b, 19) == Set::<u32>::empty().insert(v2));
    assert(fills_from(b, 0) == Set::<u32>::empty().insert(v2).insert(v1));
    let f1 = h1.map_values(|c: u8| lower_byte(c));
    let f2 = h2.map_values(|c: u8| lower_byte(c));
    if f1 == f2 {
        assert forall|j: int| 0 <= j < 6 implies lower_byte(#[trigger] h1[j]) == lower_byte(h2[j]) by {
            assert(f1[j] == f2[j]);
        }
        assert(v1 == v2);
        assert(Set::<u32>::empty().insert(v2).insert(v1) =~= Set::<u32>::empty().insert(v1));
    } else {
        if forall|j: int| 0 <= j < 6 ==> lower_byte(#[trigger] h1[j]) == lower_byte(h2[j]) {
            assert(f1 =~= f2);
        }
        assert(v1 != v2);
        assert(Set::<u32>::empty().insert(v2).len() == 1);
    }
}

/// Number of distinct hex fill colors.
pub open spec fn distinct_fill_count(b: Seq<u8>) -> nat {
    fills_from(b, 0).len()
}

/// The scanned colors form a finite set.
pub proof fn lemma_fills_finite(b: Seq<u8>, i: int)
    ensures
        fills_from(b, i).finite(),
    decreases b.len() + 1 - i,
{
    if i >= 0 {
        lemma_find_from(b, fill_key(), i);
        if let Some(k) = find_from(b, fill_key(), i) {
            let a = k + fill_key().len();
            if a + 6 <= b.len() {
                lemma_fills_finite(b, a + 6);
            }
        }
    }
}

/// The value of one hex digit, if it is one.
fn hex_digit(c: u8) -> (r: Option<u32>)
    ensures
        r is Some <==> is_hex_byte(c),
        r matches Some(v) ==> v == hex_byte_value(c) && v < 16,
{
    if 48 <= c && c <= 57 {
        Some((c - 48) as u32)
    } else if 97 <= c && c <= 102 {
        Some((c - 87) as u32)
    } else if 65 <= c && c <= 70 {
        Some((c - 55) as u32)
    } else {
        None
    }
}

/// The color of the six bytes at `a`, if they are hex digits.
#[verifier::spinoff_prover]
#[verifier::rlimit(50)]
fn hex6_at(b: &[u8], a: usize) -> (r: Option<u32>)
    requires
        a + 6 <= b@.len(),
    ensures
        r is Some <==> is_hex6(b@.subrange(a as int, a + 6)),
        r matches Some(v) ==> v == hex6_value(b@.subrange(a as int, a + 6)),
{
    let ghost h = b@.subrange(a as int, a + 6);
    proof {
        assert(h[0] == b@[a as int]);
        assert(h[1] == b@[a + 1]);
        assert(h[2] == b@[a + 2]);
        assert(h[3] == b@[a + 3]);
        assert(h[4] == b@[a + 4]);
        assert(h[5] == b@[a + 5]);
    }
    let d0 = match hex_digit(b[a]) {
        Some(d) => d,
        None => return None,
    };
    let d1 = match hex_digit(b[a + 1]) {
        Some(d) => d,
        None => return None,
    };
    let d2 = match hex_digit(b[a + 2]) {
        Some(d) => d,
        None => return None,
    };
    let d3 = match hex_digit(b[a + 3]) {
        Some(d) => d,
        None => return None,
    };
    let d4 = match hex_digit(b[a + 4]) {
        Some(d) => d,
        None => return None,
    };
    let d5 = match hex_digit(b[a + 5]) {
        Some(d) => d,
        None => return None,
    };
    proof {
        assert(is_hex_byte(h[0]) && is_hex_byte(h[1]) && is_hex_byte(h[2]));
        assert(is_hex_byte(h[3]) && is_hex_byte(h[4]) && is_hex_byte(h[5]));
        assert forall|j: int| 0 <= j < 6 implies is_hex_byte(#[trigger] h[j]) by {
            assert(j == 0 || j == 1 || j == 2 || j == 3 || j == 4 || j == 5);
        }
    }
    Some(((((d0 * 16 + d1) * 16 + d2) * 16 + d3) * 16 + d4) * 16 + d5)
}

/// Number of distinct hex fill colors.
fn count_distinct_hex_fills(svg: &str) -> (r: usize)
    ensures
        r == distinct_fill_count(svg.spec_bytes()),
{
    let b = svg.as_bytes();
    let key = "fill=\"#".as_bytes();
    proof {
        reveal_strlit("fill=\"#");
        lemma_ascii_lit("fill=\"#");
    }
    let mut set: BTreeSet<u32> = BTreeSet::new();
    let mut start: usize = 0;
    loop
        invariant
            b@ == svg.spec_bytes(),
            b@.len() == b.len(),
            key@ == fill_key(),
            key@.len() == 7,
            start <= b@.len(),
            fills_from(b@, 0) == set@.union(fills_from(b@, start as int)),
        decreases b@.len() + 1 - start,
    {
        let ghost before = set@;
        match find_bytes(b, key, start) {
            None => {
                proof {
                    assert(set@ =~= fills_from(b@, 0));
                }
                return set.len();
            },
            Some(k) => {
                proof {
                    lemma_find_from(b@, key@, start as int);
                }
                let a = k + 7;
                if b.len() - a < 6 {
                    proof {
                        assert(set@ =~= fills_from(b@, 0));
                    }
                    return set.len();
                }
                match hex6_at(b, a) {
                    Some(v) => {
                        set.insert(v);
                        proof {
                            let h = b@.subrange(a as int, a + 6);
                            assert(v == hex6_value(h) as u32);
                            assert(before.union(fills_from(b@, start as int)) =~= set@.union(
                                fills_from(b@, a + 6),
                            ));
                        }
                    },
                    None => {
                        proof {
                            assert(before.union(fills_from(b@, start as int)) =~= set@.union(
                                fills_from(b@, a + 6),
                            ));
                        }
                    },
                }
                start = a + 6;
            },
        }
    }
}

/// Whether every six-byte fill code falls on character boundaries, so that
/// cutting it out of the text is defined.
pub fn fill_codes_cut_cleanly(svg: &str) -> (r: bool)
    ensures
        r == fill_cuts_ok(svg.spec_bytes(), 0),
{
    let b = svg.as_bytes();
    let key = "fill=\"#".as_bytes();
    proof {
        reveal_strlit("fill=\"#");
        lemma_ascii_lit("fill=\"#");
    }
    let mut start: usize = 0;
    loop
        invariant
            b@ == svg.spec_bytes(),
            b@.len() == b.len(),
            key@ == fill_key(),
            key@.len() == 7,
            start <= b@.len(),
            fill_cuts_ok(b@, 0) == fill_cuts_ok(b@, start as int),
        decreases b@.len() + 1 - start,
    {
        match find_bytes(b, key, start) {
            None => {
                return true;
            },
            Some(k) => {
                proof {
                    lemma_find_from(b@, key@, start as int);
                }
                let a = k + 7;
                if b.len() - a < 6 {
                    return true;
                }
                let e = a + 6;
                if e < b.len() && 0x80 <= b[e] && b[e] <= 0xbf {
                    return false;
                }
                start = e;
            },
        }
    }
}

/// The result of the fill check for `n` distinct colors.
pub open spec fn fill_result(n: nat) -> CheckResult {
    if n >= 8 {
        CheckResult::Pass { check: Check::FillDiversity, measured: n as usize }
    } else {
        CheckResult::Fail(LayoutFailure::FillBelowFloor(n as usize))
    }
}

/// Checks that there are at least 8 distinct hex fill colors.
pub fn check_fill_diversity(svg: &str) -> (r: CheckResult)
    requires
        fill_cuts_ok(svg.spec_bytes(), 0),
    ensures
        r == fill_result(distinct_fill_count(svg.spec_bytes())),
{
    let n = count_distinct_hex_fills(svg);
    if n >= 8 {
        CheckResult::Pass { check: Check::FillDiversity, measured: n }
    } else {
        CheckResult::Fail(LayoutFailure::FillBelowFloor(n))
    }
}

/// The key that opens a `font-size` attribute.
pub open spec fn font_key() -> Seq<u8> {
    ascii("font-size=\""@)
}

/// An ASCII decimal digit.
pub open spec fn is_digit_byte(c: u8) -> bool {
    48 <= c <= 57
}

/// Every byte is a decimal digit.
pub open spec fn all_digits(s: Seq<u8>) -> bool {
    forall|j: int| 0 <= j < s.len() ==> is_digit_byte(#[trigger] s[j])
}

/// The number that decimal digits spell.
pub open spec fn digits_value(s: Seq<u8>) -> nat
    decreases s.len(),
{
    if s.len() == 0 {
        0
    } else {
        digits_value(s.drop_last()) * 10 + (s.last() - 48) as nat
    }
}

/// The text after one optional leading `+`.
pub open spec fn unsigned_part(s: Seq<u8>) -> Seq<u8> {
    if s.len() > 0 && s[0] == 43 {
        s.drop_first()
    } else {
        s
    }
}

/// `s` read as a `u32` as `str::parse::<u32>` reads it: an optional `+`,
/// then one or more decimal digits whose value fits in a `u32`.
pub open spec fn parse_u32(s: Seq<u8>) -> Option<u32> {
    let d = unsigned_part(s);
    if d.len() > 0 && all_digits(d) && digits_value(d) <= u32::MAX {
        Some(digits_value(d) as u32)
    } else {
        None
    }
}

/// Where the integer part of the value in bytes `a..e` ends: at its first
/// `.`, else at `e`.
pub open spec fn int_part_end(b: Seq<u8>, a: int, e: int) -> int {
    match find_from(b, seq![46u8], a) {
        Some(d) => if d < e {
            d
        } else {
            e
        },
        None => e,
    }
}

/// The font sizes found scanning from byte `i`, in order. After each
/// `font-size="` the value runs to the next `"`; its part before the first
/// `.` counts when it reads as a `u32`. The scan stops at a key with no
/// closing quote.
pub open spec fn font_sizes_from(b: Seq<u8>, i: int) -> Seq<u32>
    decreases b.len() + 1 - i,
{
    if i < 0 {
        Seq::empty()
    } else {
        match find_from(b, font_key(), i) {
            None => Seq::empty(),
            Some(k) => {
                let a = k + font_key().len();
                match find_from(b, seq![34u8], a) {
                    None => Seq::empty(),
                    Some(e) => {
                        proof {
                            lemma_find_from(b, font_key(), i);
                            lemma_find_from(b, seq![34u8], a);
                        }
                        let rest = font_sizes_from(b, e + 1);
                        match parse_u32(b.subrange(a, int_part_end(b, a, e))) {
                            Some(v) => seq![v] + rest,
                            None => rest,
                        }
                    },
                }
            },
        }
    }
}

/// The smallest element of `s`, `u32::MAX` when `s` is empty.
pub open spec fn seq_min(s: Seq<u32>) -> u32
    decreases s.len(),
{
    if s.len() == 0 {
        u32::MAX
    } else {
        let m = seq_min(s.drop_last());
        if s.last() < m {
            s.last()
        } else {
            m
        }
    }
}

/// The smallest font size of the document; 18 when it has none (a smallest
/// size of `u32::MAX` reads as none).
pub open spec fn min_font(b: Seq<u8>) -> u32 {
    let m = seq_min(font_sizes_from(b, 0));
    if m == u32::MAX {
        18
    } else {
        m
    }
}

/// Searching text with a prefix in front, from a position past the prefix,
/// finds what searching the text alone finds, moved by the prefix length.
proof fn lemma_find_shift(pre: Seq<u8>, b: Seq<u8>, pat: Seq<u8>, i: int)
    requires
        0 <= i,
    ensures
        find_from(b, pat, i) is None ==> find_from(pre + b, pat, pre.len() + i) is None,
        find_from(b, pat, i) matches Some(k) ==> find_from(pre + b, pat, pre.len() + i) == Some(k + pre.len()),
    decreases b.len() + 1 - i,
{
    let c = pre + b;
    let j = pre.len() + i;
    if i + pat.len() <= b.len() {
        assert(c.subrange(j, j + pat.len()) =~= b.subrange(i, i + pat.len()));
        if !occurs_at(b, pat, i) {
            lemma_find_shift(pre, b, pat, i + 1);
            assert(pre.len() + (i + 1) == j + 1);
        }
    }
}

/// The font sizes scanned from a position past a prefix are those of the
/// text alone.
proof fn lemma_font_sizes_shift(pre: Seq<u8>, b: Seq<u8>, i: int)
    requires
        0 <= i,
    ensures
        font_sizes_from(pre + b, pre.len() + i) == font_sizes_from(b, i),
    decreases b.len() + 1 - i,
{
    let c = pre + b;
    let n = pre.len() as int;
    lemma_find_shift(pre, b, font_key(), i);
    lemma_find_from(b, font_key(), i);
    if let Some(k) = find_from(b, font_key(), i) {
        let a = k + font_key().len();
        lemma_find_shift(pre, b, seq![34u8], a);
        lemma_find_from(b, seq![34u8], a);
        if let Some(e) = find_from(b, seq![34u8], a) {
            lemma_font_sizes_shift(pre, b, e + 1);
            assert(n + (e + 1) == (n + e) + 1);
            lemma_find_shift(pre, b, seq![46u8], a);
            assert(int_part_end(c, n + a, n + e) == n + int_part_end(b, a, e));
            lemma_find_from(b, seq![46u8], a);
            assert(c.subrange(n + a, n + int_part_end(b, a, e)) =~= b.subrange(a, int_part_end(b, a, e)));
        }
    }
}

/// The bytes of a closed `font-size` attribute with value `w`.
pub open spec fn font_attr(w: Seq<u8>) -> Seq<u8> {
    ascii(" font-size=\""@) + w + seq![34u8]
}

/// The scan of a document that opens with a closed `font-size` attribute
/// reads its value, then goes on with the rest as if alone.
proof fn lemma_font_sizes_after_attr(w: Seq<u8>, b: Seq<u8>)
    requires
        forall|j: int| 0 <= j < w.len() ==> w[j] != 34u8 && w[j] != 46u8,
    ensures
        font_sizes_from(font_attr(w) + b, 0) == match parse_u32(w) {
            Some(v) => seq![v] + font_sizes_from(b, 0),
            None => font_sizes_from(b, 0),
        },
{
    reveal_strlit(" font-size=\"");
    reveal_strlit("font-size=\"");
    let p = ascii(" font-size=\""@);
    let key = font_key();
    let c = font_attr(w) + b;
    assert(p.len() == 12 && key.len() == 11);
    let e: int = 12 + w.len() as int;
    assert(c.subrange(1, 12) =~= key);
    assert(!occurs_at(c, key, 0)) by {
        if occurs_at(c, key, 0) {
            assert(c.subrange(0, 11)[0] == key[0]);
        }
    }
    lemma_find_first(c, key, 0, 1);
    assert(c.subrange(e, e + 1) =~= seq![34u8]);
    assert forall|q: int| 12 <= q < e implies !#[trigger] occurs_at(c, seq![34u8], q) by {
        if occurs_at(c, seq![34u8], q) {
            assert(c.subrange(q, q + 1)[0] == 34u8);
            assert(c[q] == w[q - 12]);
        }
    }
    lemma_find_first(c, seq![34u8], 12, e);
    lemma_find_from(c, seq![46u8], 12);
    if let Some(d) = find_from(c, seq![46u8], 12) {
        if d < e {
            assert(c.subrange(d, d + 1)[0] == 46u8);
            assert(c[d] == w[d - 12]);
        }
    }
    assert(int_part_end(c, 12, e) == e);
    assert(c.subrange(12, e) =~= w);
    assert(font_attr(w) + b =~= font_attr(w) + b);
    lemma_font_sizes_shift(font_attr(w), b, 0);
    assert(font_attr(w).len() == e + 1);
}

/// The smallest element is no larger than any element.
proof fn lemma_seq_min_le(s: Seq<u32>, i: int)
    requires
        0 <= i < s.len(),
    ensures
        seq_min(s) <= s[i],
    decreases s.len(),
{
    if i < s.len() - 1 {
        lemma_seq_min_le(s.drop_last(), i);
    }
}

/// The digit bytes of a decimal rendering spell its number.
proof fn lemma_dec_digits(n: nat)
    ensures
        ascii(crate::text::dec(n)).len() > 0,
        all_digits(ascii(crate::text::dec(n))),
        digits_value(ascii(crate::text::dec(n))) == n,
    decreases n,
{
    let t = ascii(crate::text::dec(n));
    if n < 10 {
        assert(t.len() == 1);
        assert(t[0] == (48 + n) as u8);
        assert(t.drop_last() =~= Seq::<u8>::empty());
        assert(digits_value(t.drop_last()) == 0);
        assert(digits_value(t) == digits_value(t.drop_last()) * 10 + (t.last() - 48) as nat);
    } else {
        lemma_dec_digits(n / 10);
        let h = ascii(crate::text::dec(n / 10));
        assert(t =~= h + seq![(48 + n % 10) as u8]);
        assert(t.drop_last() =~= h);
        assert(t.last() == (48 + n % 10) as u8);
        assert(digits_value(t) == digits_value(h) * 10 + (t.last() - 48) as nat);
        assert((n / 10) * 10 + n % 10 == n);
    }
}

/// Law: a `font-size` value that is not a number hides nothing: putting a
/// closed attribute whose value holds a letter (and no `.`) in front of any
/// document leaves the smallest font size unchanged, so the scan goes on
/// past it.
pub proof fn lemma_unparsed_font_size_skipped(w: Seq<u8>, b: Seq<u8>)
    requires
        forall|j: int| 0 <= j < w.len() ==> w[j] != 34u8 && w[j] != 46u8,
        exists|j: int| 0 <= j < w.len() && ((65 <= #[trigger] w[j] <= 90) || (97 <= w[j] <= 122)),
    ensures
        min_font(font_attr(w) + b) == min_font(b),
{
    lemma_font_sizes_after_attr(w, b);
    let j = choose|j: int| 0 <= j < w.len() && ((65 <= #[trigger] w[j] <= 90) || (97 <= w[j] <= 122));
    let d = unsigned_part(w);
    if w.len() > 0 && w[0] == 43 {
        assert(d[j - 1] == w[j]);
    } else {
        assert(d[j] == w[j]);
    }
    assert(!all_digits(d));
    assert(parse_u32(w) is None);
}

/// Law: a `font-size` of `n` counts wherever it stands: putting a closed
/// attribute with value `n` in decimal in front of any document makes the
/// smallest font size at most `n`.
pub proof fn lemma_font_size_bounds_minimum(n: u32, b: Seq<u8>)
    ensures
        min_font(font_attr(ascii(crate::text::dec(n as nat))) + b) <= n,
{
    let w = ascii(crate::text::dec(n as nat));
    lemma_dec_digits(n as nat);
    assert forall|j: int| 0 <= j < w.len() implies w[j] != 34u8 && w[j] != 46u8 by {
        assert(is_digit_byte(w[j]));
    }
    lemma_font_sizes_after_attr(w, b);
    assert(is_digit_byte(w[0]));
    assert(unsigned_part(w) == w);
    assert(parse_u32(w) == Some(n));
    let sizes = seq![n] + font_sizes_from(b, 0);
    assert(sizes[0] == n);
    lemma_seq_min_le(sizes, 0);
}

/// The smallest element of a sequence with one element in front.
proof fn lemma_seq_min_front(x: u32, t: Seq<u32>)
    ensures
        seq_min(seq![x] + t) == if x < seq_min(t) {
            x
        } else {
            seq_min(t)
        },
    decreases t.len(),
{
    let s = seq![x] + t;
    if t.len() == 0 {
        assert(s.drop_last() =~= Seq::<u32>::empty());
        assert(seq_min(s.drop_last()) == u32::MAX);
        assert(s.last() == x);
        assert(seq_min(t) == u32::MAX);
    } else {
        lemma_seq_min_front(x, t.drop_last());
        assert(s.drop_last() =~= seq![x] + t.drop_last());
        assert(s.last() == t.last());
        assert(seq_min(s) == if s.last() < seq_min(s.drop_last()) {
            s.last()
        } else {
            seq_min(s.drop_last())
        });
        assert(seq_min(t) == if t.last() < seq_min(t.drop_last()) {
            t.last()
        } else {
            seq_min(t.drop_last())
        });
    }
}

/// The scan reads the value `n` of a leading decimal `font-size` attribute.
proof fn lemma_font_sizes_after_number(n: u32, b: Seq<u8>)
    ensures
        font_sizes_from(font_attr(ascii(crate::text::dec(n as nat))) + b, 0) == seq![n] + font_sizes_from(b, 0),
{
    let w = ascii(crate::text::dec(n as nat));
    lemma_dec_digits(n as nat);
    assert forall|j: int| 0 <= j < w.len() implies w[j] != 34u8 && w[j] != 46u8 by {
        assert(is_digit_byte(w[j]));
    }
    lemma_font_sizes_after_attr(w, b);
    assert(is_digit_byte(w[0]));
    assert(unsigned_part(w) == w);
    assert(parse_u32(w) == Some(n));
}

/// Law: the order of two `font-size` attributes does not matter: swapping
/// two leading attributes with values `n` and `k` leaves the smallest font
/// size of any document unchanged.
pub proof fn lemma_font_sizes_commute(n: u32, k: u32, b: Seq<u8>)
    ensures
        min_font(font_attr(ascii(crate::text::dec(n as nat))) + font_attr(ascii(crate::text::dec(k as nat))) + b)
            == min_font(font_attr(ascii(crate::text::dec(k as nat))) + font_attr(ascii(crate::text::dec(n as nat))) + b),
{
    let an = font_attr(ascii(crate::text::dec(n as nat)));
    let ak = font_attr(ascii(crate::text::dec(k as nat)));
    let rest = font_sizes_from(b, 0);
    lemma_font_sizes_after_number(k, b);
    lemma_font_sizes_after_number(n, b);
    lemma_font_sizes_after_number(n, ak + b);
    lemma_font_sizes_after_number(k, an + b);
    assert(an + ak + b =~= an + (ak + b));
    assert(ak + an + b =~= ak + (an + b));
    lemma_seq_min_front(k, rest);
    lemma_seq_min_front(n, rest);
    lemma_seq_min_front(n, seq![k] + rest);
    lemma_seq_min_front(k, seq![n] + rest);
}

/// A prefix of a digit string spells no larger a number.
proof fn lemma_digits_prefix(s: Seq<u8>, k: int)
    requires
        0 <= k <= s.len(),
        all_digits(s),
    ensures
        digits_value(s.subrange(0, k)) <= digits_value(s),
    decreases s.len(),
{
    if k < s.len() {
        let t = s.drop_last();
        assert(all_digits(t)) by {
            assert forall|j: int| 0 <= j < t.len() implies is_digit_byte(#[trigger] t[j]) by {
                assert(t[j] == s[j]);
            }
        }
        lemma_digits_prefix(t, k);
        assert(t.subrange(0, k) =~= s.subrange(0, k));
    } else {
        assert(s.subrange(0, k) =~= s);
    }
}

/// Reads bytes `lo..hi` as a `u32`.
fn parse_u32_in(b: &[u8], lo: usize, hi: usize) -> (r: Option<u32>)
    requires
        lo <= hi <= b@.len(),
    ensures
        r == parse_u32(b@.subrange(lo as int, hi as int)),
{
    let ghost s = b@.subrange(lo as int, hi as int);
    let mut p = lo;
    if lo < hi && b[lo] == 43 {
        p = lo + 1;
    }
    let start = p;
    let ghost d = b@.subrange(start as int, hi as int);
    proof {
        assert(unsigned_part(s) =~= d);
    }
    if start == hi {
        return None;
    }
    let mut acc: u64 = 0;
    while p < hi
        invariant
            lo <= start <= p <= hi <= b@.len(),
            b@.len() == b.len(),
            d == b@.subrange(start as int, hi as int),
            unsigned_part(s) == d,
            s == b@.subrange(lo as int, hi as int),
            d.len() > 0,
            acc == digits_value(b@.subrange(start as int, p as int)),
            acc <= u32::MAX,
            all_digits(b@.subrange(start as int, p as int)),
        decreases hi - p,
    {
        let c = b[p];
        if c < 48 || c > 57 {
            proof {
                assert(d[p - start] == c);
            }
            return None;
        }
        proof {
            let t = b@.subrange(start as int, p + 1);
            assert(t.drop_last() =~= b@.subrange(start as int, p as int));
            assert(t.last() == c);
            assert forall|j: int| 0 <= j < t.len() implies is_digit_byte(#[trigger] t[j]) by {
                if j < t.len() - 1 {
                    assert(t[j] == b@.subrange(start as int, p as int)[j]);
                }
            }
        }
        acc = acc * 10 + (c - 48) as u64;
        if acc > 0xffff_ffff {
            proof {
                if all_digits(d) {
                    lemma_digits_prefix(d, p + 1 - start);
                    assert(d.subrange(0, p + 1 - start) =~= b@.subrange(start as int, p + 1));
                }
            }
            return None;
        }
        p = p + 1;
    }
    proof {
        assert(b@.subrange(start as int, p as int) =~= d);
    }
    Some(acc as u32)
}

/// The smallest font size of the document.
fn min_font_size(svg: &str) -> (r: u32)
    ensures
        r == min_font(svg.spec_bytes()),
{
    let b = svg.as_bytes();
    let key = "font-size=\"".as_bytes();
    let quote = "\"".as_bytes();
    let dot = ".".as_bytes();
    proof {
        reveal_strlit("font-size=\"");
        reveal_strlit("\"");
        reveal_strlit(".");
        lemma_ascii_lit("font-size=\"");
        lemma_ascii_lit("\"");
        lemma_ascii_lit(".");
        assert(quote@ =~= seq![34u8]);
        assert(dot@ =~= seq![46u8]);
    }
    let mut start: usize = 0;
    let mut min: u32 = u32::MAX;
    let ghost mut done: Seq<u32> = Seq::empty();
    loop
        invariant
            b@ == svg.spec_bytes(),
            b@.len() == b.len(),
            key@ == font_key(),
            key@.len() == 11,
            quote@ == seq![34u8],
            dot@ == seq![46u8],
            start <= b@.len(),
            font_sizes_from(b@, 0) == done + font_sizes_from(b@, start as int),
            min == seq_min(done),
        decreases b@.len() + 1 - start,
    {
        match find_bytes(b, key, start) {
            None => {
                proof {
                    assert(done + font_sizes_from(b@, start as int) =~= done);
                }
                return if min == u32::MAX {
                    18
                } else {
                    min
                };
            },
            Some(k) => {
                proof {
                    lemma_find_from(b@, key@, start as int);
                }
                let a = k + 11;
                match find_bytes(b, quote, a) {
                    None => {
                        proof {
                            assert(done + font_sizes_from(b@, start as int) =~= done);
                        }
                        return if min == u32::MAX {
                            18
                        } else {
                            min
                        };
                    },
                    Some(e) => {
                        proof {
                            lemma_find_from(b@, quote@, a as int);
                            lemma_find_from(b@, dot@, a as int);
                        }
                        let stop = match find_bytes(b, dot, a) {
                            Some(d) => if d < e {
                                d
                            } else {
                                e
                            },
                            None => e,
                        };
                        match parse_u32_in(b, a, stop) {
                            Some(v) => {
                                if v < min {
                                    min = v;
                                }
                                proof {
                                    let old_done = done;
                                    done = done.push(v);
                                    assert(done.drop_last() =~= old_done);
                                    assert(old_done + font_sizes_from(b@, start as int) =~= done
                                        + font_sizes_from(b@, e + 1));
                                }
                            },
                            None => {},
                        }
                        start = e + 1;
                    },
                }
            },
        }
    }
}

/// The result of the font check for smallest size `m`.
pub open spec fn font_result(m: u32) -> CheckResult {
    if m >= 18 {
        CheckResult::Pass { check: Check::FontSizeFloor, measured: m as usize }
    } else {
        CheckResult::Fail(LayoutFailure::FontBelowFloor(m))
    }
}

/// Checks that the smallest font size is 18 or more.
pub fn check_font_size_floor(svg: &str) -> (r: CheckResult)
    ensures
        r == font_result(min_font(svg.spec_bytes())),
{
    let min = min_font_size(svg);
    if min >= 18 {
        CheckResult::Pass { check: Check::FontSizeFloor, measured: min as usize }
    } else {
        CheckResult::Fail(LayoutFailure::FontBelowFloor(min))
    }
}

/// Runs all five checks, in `Check` order; the report holds every result,
/// passing or failing.
pub fn check_layout(svg: &str) -> (r: LayoutReport)
    requires
        svg.spec_bytes().len() <= isize::MAX,
        fill_cuts_ok(svg.spec_bytes(), 0),
    ensures
        r.results@.len() == 5,
        canvas_result_ok(svg.spec_bytes(), r.results@[0]),
        r.results@[1] == shape_result(shape_count(svg.spec_bytes())),
        r.results@[2] == group_result(named_group_count(svg.spec_bytes())),
        r.results@[3] == fill_result(distinct_fill_count(svg.spec_bytes())),
        r.results@[4] == font_result(min_font(svg.spec_bytes())),
{
    LayoutReport {
        results: vec![
            check_canvas_size(svg),
            check_shape_floor(svg),
            check_named_group_bounds(svg),
            check_fill_diversity(svg),
            check_font_size_floor(svg),
        ],
    }
}

} // verus!
