//! The collection-file fixup: a synced collection declares the generic
//! origin token, and the catalogue materializes it with the token rewritten
//! to the remote's own name. The rewrite is line-based and textual: only
//! lines carrying the collection header are touched, every other byte is
//! preserved exactly.

use vstd::prelude::*;
use vstd::string::StringSliceAdditionalSpecFns;
use vstd::utf8::encode_utf8;

verus! {

/// `pat` occurs in `h` at position `i`.
pub open spec fn match_at(h: Seq<u8>, pat: Seq<u8>, i: int) -> bool {
    0 <= i && i + pat.len() <= h.len() && h.subrange(i, i + pat.len()) == pat
}

/// Position of the first occurrence of `pat` in `h`, or -1.
pub open spec fn find_sub(h: Seq<u8>, pat: Seq<u8>) -> int
    decreases h.len(),
        via find_sub_decreases
{
    if h.len() < pat.len() {
        -1
    } else if h.subrange(0, pat.len() as int) == pat {
        0
    } else {
        let r = find_sub(h.drop_first(), pat);
        if r == -1 {
            -1
        } else {
            r + 1
        }
    }
}

#[via_fn]
proof fn find_sub_decreases(h: Seq<u8>, pat: Seq<u8>) {
    if h.len() >= pat.len() && h.subrange(0, pat.len() as int) != pat && h.len() == 0 {
        assert(h.subrange(0, pat.len() as int) =~= pat);
    }
}

pub open spec fn contains_sub(h: Seq<u8>, pat: Seq<u8>) -> bool {
    find_sub(h, pat) >= 0
}

pub proof fn lemma_find_sub_props(h: Seq<u8>, pat: Seq<u8>)
    ensures
        find_sub(h, pat) >= -1,
        find_sub(h, pat) >= 0 ==> match_at(h, pat, find_sub(h, pat)),
        find_sub(h, pat) >= 0 ==> forall|q: int| 0 <= q < find_sub(h, pat) ==> !match_at(h, pat, q),
        find_sub(h, pat) == -1 ==> forall|q: int| !match_at(h, pat, q),
    decreases h.len(),
{
    if h.len() < pat.len() {
        assert forall|q: int| !match_at(h, pat, q) by {}
    } else if h.subrange(0, pat.len() as int) == pat {
    } else {
        if h.len() == 0 {
            assert(h.subrange(0, pat.len() as int) =~= pat);
        }
        let t = h.drop_first();
        lemma_find_sub_props(t, pat);
        assert(!match_at(h, pat, 0));
        assert forall|q: int| 1 <= q implies match_at(h, pat, q) == match_at(t, pat, q - 1) by {
            if match_at(h, pat, q) {
                assert(t.subrange(q - 1, q - 1 + pat.len()) =~= h.subrange(q, q + pat.len()));
            }
            if match_at(t, pat, q - 1) {
                assert(h.subrange(q, q + pat.len()) =~= t.subrange(q - 1, q - 1 + pat.len()));
            }
        }
        if find_sub(t, pat) == -1 {
            assert forall|q: int| !match_at(h, pat, q) by {
                if q >= 1 {
                    assert(!match_at(t, pat, q - 1));
                }
            }
        }
    }
}

/// A found occurrence, with no occurrence before it, is where `find_sub`
/// points.
pub proof fn lemma_find_sub_first(h: Seq<u8>, pat: Seq<u8>, i: int)
    requires
        match_at(h, pat, i),
        forall|q: int| 0 <= q < i ==> !match_at(h, pat, q),
    ensures
        find_sub(h, pat) == i,
{
    lemma_find_sub_props(h, pat);
    if find_sub(h, pat) == -1 {
        assert(!match_at(h, pat, i));
    } else if find_sub(h, pat) < i {
        assert(!match_at(h, pat, find_sub(h, pat)));
    } else if find_sub(h, pat) > i {
        assert(!match_at(h, pat, i));
    }
}

/// Every occurrence of `pat` replaced, left to right, without overlap.
pub open spec fn replace_all(h: Seq<u8>, pat: Seq<u8>, sub: Seq<u8>) -> Seq<u8>
    decreases h.len(),
        via replace_all_decreases
{
    if pat.len() == 0 {
        h
    } else {
        let i = find_sub(h, pat);
        if i < 0 {
            h
        } else {
            h.take(i) + sub + replace_all(h.skip(i + pat.len()), pat, sub)
        }
    }
}

#[via_fn]
proof fn replace_all_decreases(h: Seq<u8>, pat: Seq<u8>, sub: Seq<u8>) {
    if pat.len() > 0 {
        lemma_find_sub_props(h, pat);
    }
}

/// Length of the first line of `c`, including its newline byte when the
/// line has one.
pub open spec fn first_line_end(c: Seq<u8>) -> int
    decreases c.len(),
{
    if c.len() == 0 {
        0
    } else if c[0] == 10 {
        1
    } else {
        1 + first_line_end(c.drop_first())
    }
}

pub proof fn lemma_first_line_end_bounds(c: Seq<u8>)
    ensures
        c.len() > 0 ==> 1 <= first_line_end(c) <= c.len(),
        c.len() == 0 ==> first_line_end(c) == 0,
    decreases c.len(),
{
    if c.len() > 0 && c[0] != 10 {
        lemma_first_line_end_bounds(c.drop_first());
    }
}

proof fn lemma_first_line_end_is(c: Seq<u8>, n: int)
    requires
        1 <= n <= c.len(),
        forall|q: int| 0 <= q < n - 1 ==> c[q] != 10,
        c[n - 1] == 10 || (n == c.len() && forall|q: int| 0 <= q < n ==> c[q] != 10),
    ensures
        first_line_end(c) == n,
    decreases c.len(),
{
    if n == 1 {
        if c[0] != 10 {
            assert(c.len() == 1);
            assert(first_line_end(c.drop_first()) == 0);
        }
    } else {
        let t = c.drop_first();
        assert(c[0] != 10);
        assert forall|q: int| 0 <= q < n - 2 implies #[trigger] t[q] != 10 by {
            assert(t[q] == c[q + 1]);
        }
        if c[n - 1] == 10 {
            assert(t[n - 2] == 10);
        } else {
            assert forall|q: int| 0 <= q < n - 1 implies #[trigger] t[q] != 10 by {
                assert(t[q] == c[q + 1]);
            }
        }
        lemma_first_line_end_is(t, n - 1);
    }
}

/// The collection header line that carries the generic origin token.
pub open spec fn marker_bytes() -> Seq<u8> {
    encode_utf8("<components version=\"0.8\" origin=\"flatpak\">"@)
}

/// The generic origin token itself.
pub open spec fn token_bytes() -> Seq<u8> {
    encode_utf8("flatpak"@)
}

/// The fixup over whole content: line by line, a line containing the
/// collection header has every origin token replaced by `name`; every
/// other line is kept byte for byte.
pub open spec fn spec_fixup(c: Seq<u8>, name: Seq<u8>) -> Seq<u8>
    decreases c.len(),
        via spec_fixup_decreases
{
    if c.len() == 0 {
        c
    } else {
        let n = first_line_end(c);
        let line = c.take(n);
        let fixed = if contains_sub(line, marker_bytes()) {
            replace_all(line, token_bytes(), name)
        } else {
            line
        };
        fixed + spec_fixup(c.skip(n), name)
    }
}

#[via_fn]
proof fn spec_fixup_decreases(c: Seq<u8>, name: Seq<u8>) {
    lemma_first_line_end_bounds(c);
}

/// Checks `pat` against `h` at position `j`.
fn bytes_match_at(h: &Vec<u8>, pat: &[u8], j: usize) -> (r: bool)
    requires
        j + pat@.len() <= h@.len(),
    ensures
        r == match_at(h@, pat@, j as int),
{
    let hl = h.len();
    let mut t: usize = 0;
    while t < pat.len()
        invariant
            t <= pat@.len(),
            j + pat@.len() <= h@.len(),
            hl == h@.len(),
            forall|q: int| 0 <= q < t ==> h@[j + q] == pat@[q],
        decreases pat.len() - t,
    {
        proof {
            assert(j + t < hl);
        }
        if h[j + t] != pat[t] {
            proof {
                assert(h@.subrange(j as int, j + pat@.len())[t as int] != pat@[t as int]);
            }
            return false;
        }
        t += 1;
    }
    proof {
        assert(h@.subrange(j as int, j + pat@.len()) =~= pat@);
    }
    true
}

/// First occurrence of `pat` in `h` at or after `from`.
fn find_from(h: &Vec<u8>, pat: &[u8], from: usize) -> (r: Option<usize>)
    requires
        from <= h@.len(),
        pat@.len() > 0,
    ensures
        match r {
            Some(j) => {
                &&& from <= j
                &&& j + pat@.len() <= h@.len()
                &&& find_sub(h@.skip(from as int), pat@) == j - from
            },
            None => find_sub(h@.skip(from as int), pat@) == -1,
        },
{
    let ghost tail = h@.skip(from as int);
    if pat.len() > h.len() {
        proof {
            assert(tail.len() < pat@.len());
        }
        return None;
    }
    let hl = h.len();
    let last = hl - pat.len();
    let mut j = from;
    while j <= last
        invariant
            from <= j,
            j <= h@.len(),
            hl == h@.len(),
            last + pat@.len() == h@.len(),
            pat@.len() > 0,
            from <= h@.len(),
            tail == h@.skip(from as int),
            forall|q: int| 0 <= q < j - from ==> !match_at(tail, pat@, q),
        decreases h@.len() - j,
    {
        let hit = bytes_match_at(h, pat, j);
        proof {
            assert(tail.subrange(j - from, j - from + pat@.len()) =~= h@.subrange(
                j as int,
                j + pat@.len(),
            ));
        }
        if hit {
            proof {
                assert(match_at(tail, pat@, j - from));
                lemma_find_sub_first(tail, pat@, j - from);
            }
            return Some(j);
        }
        proof {
            assert(!match_at(tail, pat@, j - from));
        }
        j += 1;
    }
    proof {
        lemma_find_sub_props(tail, pat@);
        assert forall|q: int| !match_at(tail, pat@, q) by {
            if 0 <= q && q + pat@.len() <= tail.len() {
                assert(q <= last - from);
                assert(q < j - from);
            }
        }
        if find_sub(tail, pat@) >= 0 {
            assert(match_at(tail, pat@, find_sub(tail, pat@)));
        }
    }
    None
}

/// Whether `pat` occurs anywhere in `h`.
fn contains_bytes(h: &Vec<u8>, pat: &[u8]) -> (r: bool)
    requires
        pat@.len() > 0,
    ensures
        r == contains_sub(h@, pat@),
{
    proof {
        assert(h@.skip(0) =~= h@);
    }
    match find_from(h, pat, 0) {
        Some(_) => true,
        None => false,
    }
}

/// Appends `h[a..b]` to `out`.
fn append_range(out: &mut Vec<u8>, h: &Vec<u8>, a: usize, b: usize)
    requires
        a <= b <= h@.len(),
    ensures
        final(out)@ == old(out)@ + h@.subrange(a as int, b as int),
{
    let mut q = a;
    while q < b
        invariant
            a <= q <= b <= h@.len(),
            out@ == old(out)@ + h@.subrange(a as int, q as int),
        decreases b - q,
    {
        out.push(h[q]);
        proof {
            assert(out@ =~= old(out)@ + h@.subrange(a as int, q + 1 as int));
        }
        q += 1;
    }
    proof {
        assert(out@ =~= old(out)@ + h@.subrange(a as int, b as int));
    }
}

/// Appends `s` to `out`.
fn append_slice(out: &mut Vec<u8>, s: &[u8])
    ensures
        final(out)@ == old(out)@ + s@,
{
    let mut q: usize = 0;
    while q < s.len()
        invariant
            q <= s@.len(),
            out@ == old(out)@ + s@.subrange(0, q as int),
        decreases s.len() - q,
    {
        out.push(s[q]);
        proof {
            assert(out@ =~= old(out)@ + s@.subrange(0, q + 1 as int));
        }
        q += 1;
    }
    proof {
        assert(s@.subrange(0, s@.len() as int) =~= s@);
    }
}

/// Replaces every occurrence of `pat` in `h` by `sub`, left to right,
/// without overlap.
fn replace_bytes(h: &Vec<u8>, pat: &[u8], sub: &[u8]) -> (r: Vec<u8>)
    requires
        pat@.len() > 0,
    ensures
        r@ == replace_all(h@, pat@, sub@),
{
    let mut out: Vec<u8> = Vec::new();
    let mut i: usize = 0;
    proof {
        assert(h@.skip(0) =~= h@);
        assert(out@ + replace_all(h@, pat@, sub@) =~= replace_all(h@, pat@, sub@));
    }
    while i < h.len()
        invariant
            i <= h@.len(),
            pat@.len() > 0,
            replace_all(h@, pat@, sub@) == out@ + replace_all(h@.skip(i as int), pat@, sub@),
        decreases h@.len() - i,
    {
        let ghost tail = h@.skip(i as int);
        let ghost out0 = out@;
        match find_from(h, pat, i) {
            Some(j) => {
                append_range(&mut out, h, i, j);
                append_slice(&mut out, sub);
                proof {
                    lemma_find_sub_props(tail, pat@);
                    assert(tail.take(j - i) =~= h@.subrange(i as int, j as int));
                    assert(tail.skip(j - i + pat@.len()) =~= h@.skip(j + pat@.len()));
                    assert(replace_all(tail, pat@, sub@) == tail.take(j - i) + sub@ + replace_all(
                        h@.skip(j + pat@.len()),
                        pat@,
                        sub@,
                    ));
                    assert(out0 + replace_all(tail, pat@, sub@) =~= out@ + replace_all(
                        h@.skip(j + pat@.len()),
                        pat@,
                        sub@,
                    ));
                }
                i = j + pat.len();
            },
            None => {
                append_range(&mut out, h, i, h.len());
                proof {
                    assert(replace_all(tail, pat@, sub@) == tail);
                    assert(h@.subrange(i as int, h@.len() as int) =~= tail);
                    assert(h@.skip(h@.len() as int) =~= Seq::<u8>::empty());
                    assert(replace_all(Seq::<u8>::empty(), pat@, sub@) == Seq::<u8>::empty());
                    assert(out0 + replace_all(tail, pat@, sub@) =~= out@ + replace_all(
                        h@.skip(h@.len() as int),
                        pat@,
                        sub@,
                    ));
                }
                i = h.len();
            },
        }
    }
    proof {
        assert(h@.skip(h@.len() as int) =~= Seq::<u8>::empty());
        assert(replace_all(Seq::<u8>::empty(), pat@, sub@) == Seq::<u8>::empty());
        assert(out@ + Seq::<u8>::empty() =~= out@);
    }
    out
}

/// Rewrites a synced collection for materialization: every line carrying
/// the collection header has the generic origin token replaced by
/// `origin`; all other content is preserved byte for byte.
pub fn fixup(content: &Vec<u8>, origin: &str) -> (r: Vec<u8>)
    ensures
        r@ == spec_fixup(content@, encode_utf8(origin@)),
{
    let name: &[u8] = origin.as_bytes();
    let marker: &[u8] = "<components version=\"0.8\" origin=\"flatpak\">".as_bytes();
    let token: &[u8] = "flatpak".as_bytes();
    proof {
        assert(marker@ == marker_bytes());
        assert(token@ == token_bytes());
        reveal_strlit("flatpak");
        assert(token_bytes().len() > 0) by {
            assert(vstd::utf8::is_ascii_chars("flatpak"@));
            vstd::utf8::is_ascii_chars_encode_utf8("flatpak"@);
        }
        reveal_strlit("<components version=\"0.8\" origin=\"flatpak\">");
        assert(marker_bytes().len() > 0) by {
            assert(vstd::utf8::is_ascii_chars(
                "<components version=\"0.8\" origin=\"flatpak\">"@,
            ));
            vstd::utf8::is_ascii_chars_encode_utf8(
                "<components version=\"0.8\" origin=\"flatpak\">"@,
            );
        }
    }
    let mut out: Vec<u8> = Vec::new();
    let mut pos: usize = 0;
    proof {
        assert(content@.skip(0) =~= content@);
        assert(out@ + spec_fixup(content@, name@) =~= spec_fixup(content@, name@));
    }
    while pos < content.len()
        invariant
            pos <= content@.len(),
            name@ == encode_utf8(origin@),
            marker@ == marker_bytes(),
            token@ == token_bytes(),
            token@.len() > 0,
            marker@.len() > 0,
            spec_fixup(content@, name@) == out@ + spec_fixup(content@.skip(pos as int), name@),
        decreases content@.len() - pos,
    {
        let ghost tail = content@.skip(pos as int);
        let mut e = pos;
        while e < content.len() && content[e] != 10
            invariant
                pos <= e <= content@.len(),
                forall|q: int| pos <= q < e ==> content@[q] != 10,
            decreases content@.len() - e,
        {
            e += 1;
        }
        let line_end = if e < content.len() {
            e + 1
        } else {
            e
        };
        proof {
            let n = line_end - pos;
            assert forall|q: int| 0 <= q < n - 1 implies tail[q] != 10 by {
                assert(tail[q] == content@[pos + q]);
            }
            if e < content@.len() {
                assert(tail[n - 1] == content@[e as int]);
            } else {
                assert forall|q: int| 0 <= q < n implies tail[q] != 10 by {
                    assert(tail[q] == content@[pos + q]);
                }
            }
            lemma_first_line_end_is(tail, n);
        }
        let mut line: Vec<u8> = Vec::new();
        append_range(&mut line, content, pos, line_end);
        proof {
            assert(line@ =~= tail.take(line_end - pos));
        }
        let marked = contains_bytes(&line, marker);
        let transformed: Vec<u8> = if marked {
            replace_bytes(&line, token, name)
        } else {
            line
        };
        let ghost out0 = out@;
        append_slice_owned(&mut out, &transformed);
        proof {
            assert(tail.skip(line_end - pos) =~= content@.skip(line_end as int));
            assert(spec_fixup(tail, name@) == transformed@ + spec_fixup(
                content@.skip(line_end as int),
                name@,
            ));
            assert(out0 + spec_fixup(tail, name@) =~= out@ + spec_fixup(
                content@.skip(line_end as int),
                name@,
            ));
        }
        pos = line_end;
    }
    proof {
        assert(content@.skip(content@.len() as int) =~= Seq::<u8>::empty());
        assert(spec_fixup(Seq::<u8>::empty(), name@) == Seq::<u8>::empty());
        assert(out@ + Seq::<u8>::empty() =~= out@);
    }
    out
}

/// Appends a byte vector to `out`.
fn append_slice_owned(out: &mut Vec<u8>, src: &Vec<u8>)
    ensures
        final(out)@ == old(out)@ + src@,
{
    let mut q: usize = 0;
    while q < src.len()
        invariant
            q <= src@.len(),
            out@ == old(out)@ + src@.subrange(0, q as int),
        decreases src.len() - q,
    {
        out.push(src[q]);
        proof {
            assert(out@ =~= old(out)@ + src@.subrange(0, q + 1 as int));
        }
        q += 1;
    }
    proof {
        assert(src@.subrange(0, src@.len() as int) =~= src@);
    }
}

proof fn lemma_match_in_take(c: Seq<u8>, pat: Seq<u8>, n: int, i: int)
    requires
        0 <= n <= c.len(),
        match_at(c.take(n), pat, i),
    ensures
        match_at(c, pat, i),
{
    assert(c.subrange(i, i + pat.len()) =~= c.take(n).subrange(i, i + pat.len()));
}

proof fn lemma_match_in_skip(c: Seq<u8>, pat: Seq<u8>, n: int, i: int)
    requires
        0 <= n <= c.len(),
        match_at(c.skip(n), pat, i),
    ensures
        match_at(c, pat, i + n),
{
    assert(c.subrange(i + n, i + n + pat.len()) =~= c.skip(n).subrange(i, i + pat.len()));
}

/// Content without the collection header anywhere is preserved byte for
/// byte: running the fixup over an already-materialized or unrelated file
/// changes nothing.
pub proof fn lemma_fixup_preserves_unmarked(c: Seq<u8>, name: Seq<u8>)
    requires
        !contains_sub(c, marker_bytes()),
    ensures
        spec_fixup(c, name) == c,
    decreases c.len(),
{
    lemma_find_sub_props(c, marker_bytes());
    if c.len() > 0 {
        lemma_first_line_end_bounds(c);
        let n = first_line_end(c);
        let line = c.take(n);
        let rest = c.skip(n);
        assert(!contains_sub(line, marker_bytes())) by {
            lemma_find_sub_props(line, marker_bytes());
            if find_sub(line, marker_bytes()) >= 0 {
                lemma_match_in_take(c, marker_bytes(), n, find_sub(line, marker_bytes()));
            }
        }
        assert(!contains_sub(rest, marker_bytes())) by {
            lemma_find_sub_props(rest, marker_bytes());
            if find_sub(rest, marker_bytes()) >= 0 {
                lemma_match_in_skip(c, marker_bytes(), n, find_sub(rest, marker_bytes()));
            }
        }
        lemma_fixup_preserves_unmarked(rest, name);
        assert(line + rest =~= c);
    }
}

} // verus!
