//! A total ordering on version strings.
//!
//! A version string is read as a sequence of segments: maximal runs of
//! ASCII digits form numeric segments (compared by value), maximal runs of
//! ASCII letters form alphabetic segments (compared bytewise), and every
//! other byte separates segments. A numeric segment orders after an
//! alphabetic one, and a version that is a proper prefix of another orders
//! first. The comparison is proved total, antisymmetric and transitive, so
//! a comparator built on it can only ever answer less, equal or greater.

use vstd::prelude::*;
use vstd::string::StringSliceAdditionalSpecFns;

verus! {

pub open spec fn is_digit_byte(b: u8) -> bool {
    48 <= b && b <= 57
}

pub open spec fn is_letter_byte(b: u8) -> bool {
    (65 <= b && b <= 90) || (97 <= b && b <= 122)
}

fn digit_byte(b: u8) -> (r: bool)
    ensures
        r == is_digit_byte(b),
{
    48 <= b && b <= 57
}

fn letter_byte(b: u8) -> (r: bool)
    ensures
        r == is_letter_byte(b),
{
    (65 <= b && b <= 90) || (97 <= b && b <= 122)
}

/// One parsed segment of a version string.
pub enum VerSeg {
    /// A run of digits, kept with leading zeros stripped.
    Num(Seq<u8>),
    /// A run of letters.
    Alpha(Seq<u8>),
}

/// Length of the maximal digit run at the head of `s`.
pub open spec fn digit_run(s: Seq<u8>) -> int
    decreases s.len(),
{
    if s.len() == 0 || !is_digit_byte(s[0]) {
        0
    } else {
        1 + digit_run(s.drop_first())
    }
}

/// Length of the maximal letter run at the head of `s`.
pub open spec fn letter_run(s: Seq<u8>) -> int
    decreases s.len(),
{
    if s.len() == 0 || !is_letter_byte(s[0]) {
        0
    } else {
        1 + letter_run(s.drop_first())
    }
}

/// Drops every leading zero digit.
pub open spec fn strip_zeros(d: Seq<u8>) -> Seq<u8>
    decreases d.len(),
{
    if d.len() > 0 && d[0] == 48 {
        strip_zeros(d.drop_first())
    } else {
        d
    }
}

pub proof fn lemma_digit_run_bounds(s: Seq<u8>)
    ensures
        0 <= digit_run(s) <= s.len(),
        s.len() > 0 && is_digit_byte(s[0]) ==> 1 <= digit_run(s),
    decreases s.len(),
{
    if s.len() > 0 && is_digit_byte(s[0]) {
        lemma_digit_run_bounds(s.drop_first());
    }
}

pub proof fn lemma_letter_run_bounds(s: Seq<u8>)
    ensures
        0 <= letter_run(s) <= s.len(),
        s.len() > 0 && is_letter_byte(s[0]) ==> 1 <= letter_run(s),
    decreases s.len(),
{
    if s.len() > 0 && is_letter_byte(s[0]) {
        lemma_letter_run_bounds(s.drop_first());
    }
}

/// The segments of a version string.
pub open spec fn parse_segments(s: Seq<u8>) -> Seq<VerSeg>
    decreases s.len(),
        via parse_segments_decreases
{
    if s.len() == 0 {
        Seq::empty()
    } else if is_digit_byte(s[0]) {
        seq![VerSeg::Num(strip_zeros(s.take(digit_run(s))))] + parse_segments(s.skip(digit_run(s)))
    } else if is_letter_byte(s[0]) {
        seq![VerSeg::Alpha(s.take(letter_run(s)))] + parse_segments(s.skip(letter_run(s)))
    } else {
        parse_segments(s.drop_first())
    }
}

#[via_fn]
proof fn parse_segments_decreases(s: Seq<u8>) {
    if s.len() > 0 {
        if is_digit_byte(s[0]) {
            lemma_digit_run_bounds(s);
        } else if is_letter_byte(s[0]) {
            lemma_letter_run_bounds(s);
        }
    }
}

/// Bytewise lexicographic comparison: -1, 0 or 1.
pub open spec fn bytes_cmp(a: Seq<u8>, b: Seq<u8>) -> int
    decreases a.len(),
{
    if a.len() == 0 && b.len() == 0 {
        0
    } else if a.len() == 0 {
        -1
    } else if b.len() == 0 {
        1
    } else if a[0] < b[0] {
        -1
    } else if a[0] > b[0] {
        1
    } else {
        bytes_cmp(a.drop_first(), b.drop_first())
    }
}

/// Comparison of two digit runs with leading zeros stripped: the shorter
/// run names the smaller number; equal lengths compare bytewise.
pub open spec fn num_cmp(a: Seq<u8>, b: Seq<u8>) -> int {
    if a.len() < b.len() {
        -1
    } else if a.len() > b.len() {
        1
    } else {
        bytes_cmp(a, b)
    }
}

/// Comparison of two segments: numeric segments order after alphabetic ones.
pub open spec fn seg_cmp(x: VerSeg, y: VerSeg) -> int {
    match (x, y) {
        (VerSeg::Num(a), VerSeg::Num(b)) => num_cmp(a, b),
        (VerSeg::Num(_), VerSeg::Alpha(_)) => 1,
        (VerSeg::Alpha(_), VerSeg::Num(_)) => -1,
        (VerSeg::Alpha(a), VerSeg::Alpha(b)) => bytes_cmp(a, b),
    }
}

/// Lexicographic comparison of segment sequences.
pub open spec fn segs_cmp(u: Seq<VerSeg>, v: Seq<VerSeg>) -> int
    decreases u.len(),
{
    if u.len() == 0 && v.len() == 0 {
        0
    } else if u.len() == 0 {
        -1
    } else if v.len() == 0 {
        1
    } else if seg_cmp(u[0], v[0]) != 0 {
        seg_cmp(u[0], v[0])
    } else {
        segs_cmp(u.drop_first(), v.drop_first())
    }
}

/// The version ordering: compare the parsed segment sequences.
pub open spec fn spec_vercmp(a: Seq<u8>, b: Seq<u8>) -> int {
    segs_cmp(parse_segments(a), parse_segments(b))
}

pub proof fn lemma_bytes_cmp_range(a: Seq<u8>, b: Seq<u8>)
    ensures
        -1 <= bytes_cmp(a, b) <= 1,
    decreases a.len(),
{
    if a.len() > 0 && b.len() > 0 && a[0] == b[0] {
        lemma_bytes_cmp_range(a.drop_first(), b.drop_first());
    }
}

pub proof fn lemma_bytes_cmp_eq(a: Seq<u8>, b: Seq<u8>)
    ensures
        bytes_cmp(a, b) == 0 <==> a == b,
    decreases a.len(),
{
    if a.len() > 0 && b.len() > 0 && a[0] == b[0] {
        lemma_bytes_cmp_eq(a.drop_first(), b.drop_first());
        if bytes_cmp(a, b) == 0 {
            assert(a =~= seq![a[0]] + a.drop_first());
            assert(b =~= seq![b[0]] + b.drop_first());
        }
        if a == b {
            assert(a.drop_first() =~= b.drop_first());
        }
    } else if a.len() == 0 && b.len() == 0 {
        assert(a =~= b);
    }
}

pub proof fn lemma_bytes_cmp_antisym(a: Seq<u8>, b: Seq<u8>)
    ensures
        bytes_cmp(a, b) == -bytes_cmp(b, a),
    decreases a.len(),
{
    if a.len() > 0 && b.len() > 0 && a[0] == b[0] {
        lemma_bytes_cmp_antisym(a.drop_first(), b.drop_first());
    }
}

pub proof fn lemma_bytes_cmp_trans(a: Seq<u8>, b: Seq<u8>, c: Seq<u8>)
    requires
        bytes_cmp(a, b) <= 0,
        bytes_cmp(b, c) <= 0,
    ensures
        bytes_cmp(a, c) <= 0,
    decreases a.len(),
{
    if a.len() == 0 {
    } else {
        assert(b.len() > 0);
        assert(c.len() > 0);
        if a[0] == b[0] && b[0] == c[0] {
            lemma_bytes_cmp_trans(a.drop_first(), b.drop_first(), c.drop_first());
        }
    }
}

pub proof fn lemma_num_cmp_eq(a: Seq<u8>, b: Seq<u8>)
    ensures
        num_cmp(a, b) == 0 <==> a == b,
{
    if a.len() == b.len() {
        lemma_bytes_cmp_eq(a, b);
    }
}

pub proof fn lemma_num_cmp_antisym(a: Seq<u8>, b: Seq<u8>)
    ensures
        num_cmp(a, b) == -num_cmp(b, a),
{
    if a.len() == b.len() {
        lemma_bytes_cmp_antisym(a, b);
    }
}

pub proof fn lemma_num_cmp_trans(a: Seq<u8>, b: Seq<u8>, c: Seq<u8>)
    requires
        num_cmp(a, b) <= 0,
        num_cmp(b, c) <= 0,
    ensures
        num_cmp(a, c) <= 0,
{
    if a.len() == b.len() && b.len() == c.len() {
        lemma_bytes_cmp_trans(a, b, c);
    }
}

pub proof fn lemma_seg_cmp_range(x: VerSeg, y: VerSeg)
    ensures
        -1 <= seg_cmp(x, y) <= 1,
{
    match (x, y) {
        (VerSeg::Num(a), VerSeg::Num(b)) => {
            if a.len() == b.len() {
                lemma_bytes_cmp_range(a, b);
            }
        },
        (VerSeg::Alpha(a), VerSeg::Alpha(b)) => {
            lemma_bytes_cmp_range(a, b);
        },
        _ => {},
    }
}

pub proof fn lemma_seg_cmp_eq(x: VerSeg, y: VerSeg)
    ensures
        seg_cmp(x, y) == 0 <==> x == y,
{
    match (x, y) {
        (VerSeg::Num(a), VerSeg::Num(b)) => {
            lemma_num_cmp_eq(a, b);
        },
        (VerSeg::Alpha(a), VerSeg::Alpha(b)) => {
            lemma_bytes_cmp_eq(a, b);
        },
        _ => {},
    }
}

pub proof fn lemma_seg_cmp_antisym(x: VerSeg, y: VerSeg)
    ensures
        seg_cmp(x, y) == -seg_cmp(y, x),
{
    match (x, y) {
        (VerSeg::Num(a), VerSeg::Num(b)) => {
            lemma_num_cmp_antisym(a, b);
        },
        (VerSeg::Alpha(a), VerSeg::Alpha(b)) => {
            lemma_bytes_cmp_antisym(a, b);
        },
        _ => {},
    }
}

pub proof fn lemma_seg_cmp_trans(x: VerSeg, y: VerSeg, z: VerSeg)
    requires
        seg_cmp(x, y) <= 0,
        seg_cmp(y, z) <= 0,
    ensures
        seg_cmp(x, z) <= 0,
{
    match (x, y, z) {
        (VerSeg::Num(a), VerSeg::Num(b), VerSeg::Num(c)) => {
            lemma_num_cmp_trans(a, b, c);
        },
        (VerSeg::Alpha(a), VerSeg::Alpha(b), VerSeg::Alpha(c)) => {
            lemma_bytes_cmp_trans(a, b, c);
        },
        _ => {},
    }
}

pub proof fn lemma_segs_cmp_range(u: Seq<VerSeg>, v: Seq<VerSeg>)
    ensures
        -1 <= segs_cmp(u, v) <= 1,
    decreases u.len(),
{
    if u.len() > 0 && v.len() > 0 {
        lemma_seg_cmp_range(u[0], v[0]);
        if seg_cmp(u[0], v[0]) == 0 {
            lemma_segs_cmp_range(u.drop_first(), v.drop_first());
        }
    }
}

pub proof fn lemma_segs_cmp_eq(u: Seq<VerSeg>, v: Seq<VerSeg>)
    ensures
        segs_cmp(u, v) == 0 <==> u == v,
    decreases u.len(),
{
    if u.len() > 0 && v.len() > 0 {
        lemma_seg_cmp_eq(u[0], v[0]);
        lemma_segs_cmp_eq(u.drop_first(), v.drop_first());
        if segs_cmp(u, v) == 0 {
            assert(u =~= seq![u[0]] + u.drop_first());
            assert(v =~= seq![v[0]] + v.drop_first());
        }
        if u == v {
            assert(u.drop_first() =~= v.drop_first());
        }
    } else if u.len() == 0 && v.len() == 0 {
        assert(u =~= v);
    }
}

pub proof fn lemma_segs_cmp_antisym(u: Seq<VerSeg>, v: Seq<VerSeg>)
    ensures
        segs_cmp(u, v) == -segs_cmp(v, u),
    decreases u.len(),
{
    if u.len() > 0 && v.len() > 0 {
        lemma_seg_cmp_antisym(u[0], v[0]);
        if seg_cmp(u[0], v[0]) == 0 {
            lemma_segs_cmp_antisym(u.drop_first(), v.drop_first());
        }
    }
}

pub proof fn lemma_segs_cmp_trans(u: Seq<VerSeg>, v: Seq<VerSeg>, w: Seq<VerSeg>)
    requires
        segs_cmp(u, v) <= 0,
        segs_cmp(v, w) <= 0,
    ensures
        segs_cmp(u, w) <= 0,
    decreases u.len(),
{
    if u.len() == 0 {
    } else {
        assert(v.len() > 0);
        assert(w.len() > 0);
        let a = seg_cmp(u[0], v[0]);
        let b = seg_cmp(v[0], w[0]);
        lemma_seg_cmp_eq(u[0], v[0]);
        lemma_seg_cmp_eq(v[0], w[0]);
        lemma_seg_cmp_eq(u[0], w[0]);
        lemma_seg_cmp_antisym(u[0], v[0]);
        lemma_seg_cmp_antisym(v[0], w[0]);
        if a == 0 && b == 0 {
            lemma_segs_cmp_trans(u.drop_first(), v.drop_first(), w.drop_first());
        } else if a == 0 {
            assert(u[0] == v[0]);
            assert(seg_cmp(u[0], w[0]) == b);
        } else if b == 0 {
            assert(v[0] == w[0]);
            assert(seg_cmp(u[0], w[0]) == a);
        } else {
            // both strictly negative: the heads compare strictly
            lemma_seg_cmp_trans(u[0], v[0], w[0]);
            if seg_cmp(u[0], w[0]) == 0 {
                assert(u[0] == w[0]);
                assert(seg_cmp(v[0], u[0]) <= 0 && seg_cmp(u[0], v[0]) < 0);
                assert(false);
            }
        }
    }
}

/// The version ordering answers only less, equal or greater, and is
/// antisymmetric: no comparator built on it can return an out-of-range
/// answer.
pub proof fn lemma_vercmp_total(a: Seq<u8>, b: Seq<u8>)
    ensures
        -1 <= spec_vercmp(a, b) <= 1,
        spec_vercmp(a, b) == -spec_vercmp(b, a),
        spec_vercmp(a, a) == 0,
{
    lemma_segs_cmp_range(parse_segments(a), parse_segments(b));
    lemma_segs_cmp_antisym(parse_segments(a), parse_segments(b));
    lemma_segs_cmp_eq(parse_segments(a), parse_segments(a));
}

/// The version ordering is transitive.
pub proof fn lemma_vercmp_trans(a: Seq<u8>, b: Seq<u8>, c: Seq<u8>)
    requires
        spec_vercmp(a, b) <= 0,
        spec_vercmp(b, c) <= 0,
    ensures
        spec_vercmp(a, c) <= 0,
{
    lemma_segs_cmp_trans(parse_segments(a), parse_segments(b), parse_segments(c));
}

/// One parsed segment of a version string, as executable data.
pub struct Segment {
    pub is_num: bool,
    pub bytes: Vec<u8>,
}

impl View for Segment {
    type V = VerSeg;

    open spec fn view(&self) -> VerSeg {
        if self.is_num {
            VerSeg::Num(self.bytes@)
        } else {
            VerSeg::Alpha(self.bytes@)
        }
    }
}

pub open spec fn segs_view(v: Seq<Segment>) -> Seq<VerSeg> {
    v.map_values(|g: Segment| g@)
}

proof fn lemma_digit_run_is(s: Seq<u8>, n: int)
    requires
        0 <= n <= s.len(),
        forall|k: int| 0 <= k < n ==> is_digit_byte(s[k]),
        n == s.len() || !is_digit_byte(s[n]),
    ensures
        digit_run(s) == n,
    decreases s.len(),
{
    if n > 0 {
        let t = s.drop_first();
        assert(forall|k: int| 0 <= k < n - 1 ==> is_digit_byte(t[k]));
        lemma_digit_run_is(t, n - 1);
    }
}

proof fn lemma_letter_run_is(s: Seq<u8>, n: int)
    requires
        0 <= n <= s.len(),
        forall|k: int| 0 <= k < n ==> is_letter_byte(s[k]),
        n == s.len() || !is_letter_byte(s[n]),
    ensures
        letter_run(s) == n,
    decreases s.len(),
{
    if n > 0 {
        let t = s.drop_first();
        assert(forall|k: int| 0 <= k < n - 1 ==> is_letter_byte(t[k]));
        lemma_letter_run_is(t, n - 1);
    }
}

proof fn lemma_strip_zeros_is(d: Seq<u8>, z: int)
    requires
        0 <= z <= d.len(),
        forall|k: int| 0 <= k < z ==> d[k] == 48,
        z == d.len() || d[z] != 48,
    ensures
        strip_zeros(d) == d.skip(z),
    decreases d.len(),
{
    if z > 0 {
        let t = d.drop_first();
        assert(forall|k: int| 0 <= k < z - 1 ==> t[k] == 48);
        lemma_strip_zeros_is(t, z - 1);
        assert(t.skip(z - 1) =~= d.skip(z));
    } else {
        assert(d.skip(0) =~= d);
    }
}

/// Parses a version string's bytes into its segments.
pub fn parse_version_bytes(s: &[u8]) -> (r: Vec<Segment>)
    ensures
        segs_view(r@) == parse_segments(s@),
{
    let mut out: Vec<Segment> = Vec::new();
    let mut i: usize = 0;
    proof {
        assert(s@.skip(0) =~= s@);
        assert(segs_view(out@) =~= Seq::<VerSeg>::empty());
        assert(segs_view(out@) + parse_segments(s@) =~= parse_segments(s@));
    }
    while i < s.len()
        invariant
            i <= s.len(),
            parse_segments(s@) == segs_view(out@) + parse_segments(s@.skip(i as int)),
        decreases s.len() - i,
    {
        let ghost rest = s@.skip(i as int);
        if digit_byte(s[i]) {
            let mut j = i + 1;
            while j < s.len() && digit_byte(s[j])
                invariant
                    i < j <= s.len(),
                    forall|k: int| i <= k < j ==> is_digit_byte(s@[k]),
                decreases s.len() - j,
            {
                j += 1;
            }
            let mut z = i;
            while z < j && s[z] == 48
                invariant
                    i <= z <= j <= s.len(),
                    forall|k: int| i <= k < z ==> s@[k] == 48,
                decreases j - z,
            {
                z += 1;
            }
            let mut bytes: Vec<u8> = Vec::new();
            let mut k = z;
            while k < j
                invariant
                    z <= k <= j <= s.len(),
                    bytes@ == s@.subrange(z as int, k as int),
                decreases j - k,
            {
                bytes.push(s[k]);
                proof {
                    assert(bytes@ =~= s@.subrange(z as int, k + 1 as int));
                }
                k += 1;
            }
            proof {
                let run = s@.subrange(i as int, j as int);
                assert(rest.take(j - i) =~= run);
                lemma_digit_run_is(rest, j - i);
                lemma_strip_zeros_is(run, z - i);
                assert(run.skip(z - i) =~= s@.subrange(z as int, j as int));
                assert(rest.skip(j - i) =~= s@.skip(j as int));
            }
            let seg = Segment { is_num: true, bytes };
            proof {
                assert(seg@ == VerSeg::Num(strip_zeros(rest.take(digit_run(rest)))));
                assert(parse_segments(rest) == seq![seg@] + parse_segments(s@.skip(j as int)));
                assert(segs_view(out@.push(seg)) =~= segs_view(out@).push(seg@));
                assert(segs_view(out@).push(seg@) + parse_segments(s@.skip(j as int)) =~= segs_view(
                    out@,
                ) + parse_segments(rest));
            }
            out.push(seg);
            i = j;
        } else if letter_byte(s[i]) {
            let mut j = i + 1;
            while j < s.len() && letter_byte(s[j])
                invariant
                    i < j <= s.len(),
                    forall|k: int| i <= k < j ==> is_letter_byte(s@[k]),
                decreases s.len() - j,
            {
                j += 1;
            }
            let mut bytes: Vec<u8> = Vec::new();
            let mut k = i;
            while k < j
                invariant
                    i <= k <= j <= s.len(),
                    bytes@ == s@.subrange(i as int, k as int),
                decreases j - k,
            {
                bytes.push(s[k]);
                proof {
                    assert(bytes@ =~= s@.subrange(i as int, k + 1 as int));
                }
                k += 1;
            }
            proof {
                let run = s@.subrange(i as int, j as int);
                assert(rest.take(j - i) =~= run);
                lemma_letter_run_is(rest, j - i);
                assert(rest.skip(j - i) =~= s@.skip(j as int));
            }
            let seg = Segment { is_num: false, bytes };
            proof {
                assert(seg@ == VerSeg::Alpha(rest.take(letter_run(rest))));
                assert(parse_segments(rest) == seq![seg@] + parse_segments(s@.skip(j as int)));
                assert(segs_view(out@.push(seg)) =~= segs_view(out@).push(seg@));
                assert(segs_view(out@).push(seg@) + parse_segments(s@.skip(j as int)) =~= segs_view(
                    out@,
                ) + parse_segments(rest));
            }
            out.push(seg);
            i = j;
        } else {
            proof {
                assert(rest.drop_first() =~= s@.skip(i + 1 as int));
            }
            i += 1;
        }
    }
    proof {
        assert(s@.skip(s@.len() as int) =~= Seq::<u8>::empty());
        assert(segs_view(out@) + Seq::<VerSeg>::empty() =~= segs_view(out@));
    }
    out
}

proof fn lemma_bytes_cmp_common_prefix(a: Seq<u8>, b: Seq<u8>, i: int)
    requires
        0 <= i <= a.len(),
        i <= b.len(),
        forall|k: int| 0 <= k < i ==> a[k] == b[k],
    ensures
        bytes_cmp(a, b) == bytes_cmp(a.skip(i), b.skip(i)),
    decreases i,
{
    if i > 0 {
        let ta = a.drop_first();
        let tb = b.drop_first();
        assert(forall|k: int| 0 <= k < i - 1 ==> ta[k] == tb[k]);
        lemma_bytes_cmp_common_prefix(ta, tb, i - 1);
        assert(ta.skip(i - 1) =~= a.skip(i));
        assert(tb.skip(i - 1) =~= b.skip(i));
    } else {
        assert(a.skip(0) =~= a);
        assert(b.skip(0) =~= b);
    }
}

/// Bytewise lexicographic comparison.
fn cmp_bytes(a: &Vec<u8>, b: &Vec<u8>) -> (r: i32)
    ensures
        r as int == bytes_cmp(a@, b@),
{
    let mut i: usize = 0;
    loop
        invariant
            i <= a.len(),
            i <= b.len(),
            forall|k: int| 0 <= k < i ==> a@[k] == b@[k],
        decreases a.len() - i,
    {
        proof {
            lemma_bytes_cmp_common_prefix(a@, b@, i as int);
        }
        if i >= a.len() || i >= b.len() {
            if a.len() == b.len() {
                return 0;
            } else if a.len() < b.len() {
                return -1;
            } else {
                return 1;
            }
        }
        if a[i] < b[i] {
            return -1;
        }
        if a[i] > b[i] {
            return 1;
        }
        i += 1;
    }
}

/// Comparison of two executable segments.
fn cmp_segments(x: &Segment, y: &Segment) -> (r: i32)
    ensures
        r as int == seg_cmp(x@, y@),
{
    if x.is_num && !y.is_num {
        1
    } else if !x.is_num && y.is_num {
        -1
    } else if x.is_num {
        if x.bytes.len() < y.bytes.len() {
            -1
        } else if x.bytes.len() > y.bytes.len() {
            1
        } else {
            cmp_bytes(&x.bytes, &y.bytes)
        }
    } else {
        cmp_bytes(&x.bytes, &y.bytes)
    }
}

proof fn lemma_segs_cmp_common_prefix(u: Seq<VerSeg>, v: Seq<VerSeg>, i: int)
    requires
        0 <= i <= u.len(),
        i <= v.len(),
        forall|k: int| 0 <= k < i ==> seg_cmp(u[k], v[k]) == 0,
    ensures
        segs_cmp(u, v) == segs_cmp(u.skip(i), v.skip(i)),
    decreases i,
{
    if i > 0 {
        let tu = u.drop_first();
        let tv = v.drop_first();
        assert(forall|k: int| 0 <= k < i - 1 ==> seg_cmp(tu[k], tv[k]) == 0);
        lemma_segs_cmp_common_prefix(tu, tv, i - 1);
        assert(tu.skip(i - 1) =~= u.skip(i));
        assert(tv.skip(i - 1) =~= v.skip(i));
    } else {
        assert(u.skip(0) =~= u);
        assert(v.skip(0) =~= v);
    }
}

/// Comparison of two parsed versions.
fn cmp_segment_lists(u: &Vec<Segment>, v: &Vec<Segment>) -> (r: i32)
    ensures
        r as int == segs_cmp(segs_view(u@), segs_view(v@)),
{
    let mut i: usize = 0;
    loop
        invariant
            i <= u.len(),
            i <= v.len(),
            forall|k: int| 0 <= k < i ==> seg_cmp(#[trigger] segs_view(u@)[k], segs_view(v@)[k])
                == 0,
        decreases u.len() - i,
    {
        proof {
            lemma_segs_cmp_common_prefix(segs_view(u@), segs_view(v@), i as int);
        }
        if i >= u.len() || i >= v.len() {
            if u.len() == v.len() {
                return 0;
            } else if u.len() < v.len() {
                return -1;
            } else {
                return 1;
            }
        }
        let c = cmp_segments(&u[i], &v[i]);
        if c != 0 {
            return c;
        }
        i += 1;
    }
}

/// Compares two version strings under the library's total version
/// ordering. The result is always -1, 0 or 1.
pub fn vercmp(a: &str, b: &str) -> (r: i32)
    ensures
        r as int == spec_vercmp(a.spec_bytes(), b.spec_bytes()),
        -1 <= r <= 1,
{
    let av = parse_version_bytes(a.as_bytes());
    let bv = parse_version_bytes(b.as_bytes());
    proof {
        lemma_vercmp_total(a.spec_bytes(), b.spec_bytes());
    }
    cmp_segment_lists(&av, &bv)
}

} // verus!
