//! The manifest update algorithm.
//!
//! A manifest is plain text, one entry per line, each entry of the form
//! `<64 lowercase hex digits><two spaces><path>`. Updating for a path
//! replaces the digest of the first line whose shape and path match exactly,
//! and otherwise trims trailing ASCII whitespace and appends a fresh entry
//! line. Every other byte of the text is preserved verbatim.
//!
//! The text is modelled as a sequence of bytes; paths are compared as
//! literal byte strings, never as patterns.

use vstd::prelude::*;

use crate::hex::{is_hex_byte, valid_digest, hex_byte};

verus! {

/// True of a byte that ASCII whitespace trimming removes: space, tab,
/// line feed, form feed or carriage return.
pub open spec fn is_ws_byte(b: u8) -> bool {
    b == 32u8 || b == 9u8 || b == 10u8 || b == 12u8 || b == 13u8
}

/// Position `s` starts a line of `m`: the very start of the text, or the
/// position right after a line feed.
pub open spec fn is_line_start(m: Seq<u8>, s: int) -> bool
    recommends
        0 <= s <= m.len(),
{
    s == 0 || m[s - 1] == 10u8
}

/// The line of `m` starting at position `s` is exactly the entry for path
/// `p`: 64 lowercase hexadecimal bytes, two spaces, then `p` itself,
/// terminated by a line feed or by the end of the text. A path containing
/// a line feed can never be matched, since no line contains one.
pub open spec fn entry_at(m: Seq<u8>, p: Seq<u8>, s: int) -> bool {
    &&& 0 <= s
    &&& s + 66 + p.len() <= m.len()
    &&& (forall|i: int| s <= i < s + 64 ==> is_hex_byte(#[trigger] m[i]))
    &&& m[s + 64] == 32u8
    &&& m[s + 65] == 32u8
    &&& m.subrange(s + 66, s + 66 + p.len() as int) == p
    &&& !p.contains(10u8)
    &&& (s + 66 + p.len() == m.len() || m[s + 66 + p.len()] == 10u8)
}

/// Position `s` starts a line that is the entry for path `p`.
pub open spec fn match_at(m: Seq<u8>, p: Seq<u8>, s: int) -> bool {
    is_line_start(m, s) && entry_at(m, p, s)
}

/// The first position at or after `s` that starts the entry line for path
/// `p`, if any.
pub open spec fn first_match_from(m: Seq<u8>, p: Seq<u8>, s: int) -> Option<int>
    decreases m.len() - s + 1,
{
    if s < 0 || s > m.len() {
        None
    } else if match_at(m, p, s) {
        Some(s)
    } else {
        first_match_from(m, p, s + 1)
    }
}

/// The length of `m` once trailing ASCII whitespace is removed.
pub open spec fn trim_len(m: Seq<u8>) -> int
    decreases m.len(),
{
    if m.len() == 0 {
        0
    } else if is_ws_byte(m[m.len() - 1]) {
        trim_len(m.drop_last())
    } else {
        m.len() as int
    }
}

/// The text appended for a path with no existing entry: a line feed closing
/// whatever came before, then the entry line itself.
pub open spec fn new_entry(d: Seq<u8>, p: Seq<u8>) -> Seq<u8> {
    seq![10u8] + d + seq![32u8, 32u8] + p + seq![10u8]
}

/// The updated manifest text: the digest of the first matching entry line
/// is replaced in place, leaving all other bytes untouched; with no match,
/// trailing whitespace is trimmed and a fresh entry line is appended.
pub open spec fn spec_update(m: Seq<u8>, d: Seq<u8>, p: Seq<u8>) -> Seq<u8> {
    match first_match_from(m, p, 0) {
        Some(s) => m.take(s) + d + m.skip(s + 64),
        None => m.take(trim_len(m)) + new_entry(d, p),
    }
}

/// A found first match is a match, lies at or after the scan start, and
/// nothing before it matches.
pub proof fn lemma_first_match_some(m: Seq<u8>, p: Seq<u8>, s0: int, s: int)
    requires
        0 <= s0,
        first_match_from(m, p, s0) == Some(s),
    ensures
        s0 <= s <= m.len(),
        match_at(m, p, s),
        forall|t: int| s0 <= t < s ==> !match_at(m, p, t),
    decreases m.len() - s0 + 1,
{
    if s0 > m.len() {
    } else if match_at(m, p, s0) {
    } else {
        lemma_first_match_some(m, p, s0 + 1, s);
    }
}

/// A match with nothing matching before it is the first match.
pub proof fn lemma_first_match_found(m: Seq<u8>, p: Seq<u8>, s0: int, s: int)
    requires
        0 <= s0 <= s,
        match_at(m, p, s),
        forall|t: int| s0 <= t < s ==> !match_at(m, p, t),
    ensures
        first_match_from(m, p, s0) == Some(s),
    decreases s - s0,
{
    if s0 < s {
        lemma_first_match_found(m, p, s0 + 1, s);
    }
}

/// With no first match, nothing at or after the scan start matches.
pub proof fn lemma_first_match_none(m: Seq<u8>, p: Seq<u8>, s0: int)
    requires
        0 <= s0,
        first_match_from(m, p, s0) is None,
    ensures
        forall|t: int| s0 <= t ==> !match_at(m, p, t),
    decreases m.len() - s0 + 1,
{
    if s0 > m.len() {
        assert forall|t: int| s0 <= t implies !match_at(m, p, t) by {
            assert(t + 66 + p.len() > m.len());
        }
    } else {
        lemma_first_match_none(m, p, s0 + 1);
    }
}

/// Trimming removes exactly the trailing whitespace: what is kept is a
/// prefix ending in a non-whitespace byte, and all that is dropped is
/// whitespace.
pub proof fn lemma_trim_len(m: Seq<u8>)
    ensures
        0 <= trim_len(m) <= m.len(),
        forall|i: int| trim_len(m) <= i < m.len() ==> is_ws_byte(#[trigger] m[i]),
        trim_len(m) > 0 ==> !is_ws_byte(m[trim_len(m) - 1]),
    decreases m.len(),
{
    if m.len() == 0 {
    } else if is_ws_byte(m[m.len() - 1]) {
        lemma_trim_len(m.drop_last());
        assert forall|i: int| trim_len(m) <= i < m.len() implies is_ws_byte(#[trigger] m[i]) by {
            if i < m.len() - 1 {
                assert(m.drop_last()[i] == m[i]);
            }
        }
        if trim_len(m) > 0 {
            assert(m.drop_last()[trim_len(m) - 1] == m[trim_len(m) - 1]);
        }
    }
}

/// The bytes of the appended entry, position by position: a line feed,
/// the digest, two spaces, the path, and a closing line feed.
pub proof fn lemma_new_entry_index(d: Seq<u8>, p: Seq<u8>)
    ensures
        new_entry(d, p).len() == 4 + d.len() + p.len(),
        new_entry(d, p)[0] == 10u8,
        forall|i: int| 1 <= i < 1 + d.len() ==> new_entry(d, p)[i] == d[i - 1],
        new_entry(d, p)[1 + d.len() as int] == 32u8,
        new_entry(d, p)[2 + d.len() as int] == 32u8,
        forall|i: int|
            3 + d.len() <= i < 3 + d.len() + p.len() ==> new_entry(d, p)[i] == p[i - 3 - d.len()],
        new_entry(d, p)[3 + d.len() + p.len() as int] == 10u8,
{
}

/// Updating empty manifest text yields the appended entry alone: one
/// leading blank line, then the entry line for the path. An absent
/// manifest file, read as empty text, gets exactly the same.
pub proof fn lemma_update_empty(d: Seq<u8>, p: Seq<u8>)
    ensures
        spec_update(Seq::<u8>::empty(), d, p) == new_entry(d, p),
{
    let m = Seq::<u8>::empty();
    assert(!match_at(m, p, 0));
    assert(first_match_from(m, p, 1) is None);
    assert(first_match_from(m, p, 0) is None);
    assert(m.take(trim_len(m)) + new_entry(d, p) =~= new_entry(d, p));
}

/// Updating a path with no existing entry appends one entry line and
/// leaves every existing line unchanged, in its prior order: the
/// result extends a prefix of the old text, and only trailing whitespace
/// is dropped before the appended entry. With a well-formed digest and a
/// path free of line feeds, the appended text holds exactly one new line.
pub proof fn lemma_append_preserves(m: Seq<u8>, d: Seq<u8>, p: Seq<u8>)
    requires
        first_match_from(m, p, 0) is None,
    ensures
        spec_update(m, d, p) == m.take(trim_len(m)) + new_entry(d, p),
        spec_update(m, d, p).len() == trim_len(m) + 4 + d.len() + p.len(),
        forall|i: int| 0 <= i < trim_len(m) ==> spec_update(m, d, p)[i] == m[i],
        forall|i: int| trim_len(m) <= i < m.len() ==> is_ws_byte(#[trigger] m[i]),
        spec_update(m, d, p)[trim_len(m)] == 10u8,
        spec_update(m, d, p).last() == 10u8,
        (valid_digest(d) && !p.contains(10u8)) ==> (forall|i: int|
            trim_len(m) < i < spec_update(m, d, p).len() - 1 ==> spec_update(m, d, p)[i]
                != 10u8),
{
    lemma_trim_len(m);
    lemma_new_entry_index(d, p);
    let r = spec_update(m, d, p);
    let k = trim_len(m);
    assert(r == m.take(k) + new_entry(d, p));
    assert(r[k] == new_entry(d, p)[0]);
    assert(r.last() == new_entry(d, p)[3 + d.len() + p.len() as int]);
    if valid_digest(d) && !p.contains(10u8) {
        assert forall|i: int| k < i < r.len() - 1 implies r[i] != 10u8 by {
            let j = i - k;
            assert(r[i] == new_entry(d, p)[j]);
            if 1 <= j < 1 + d.len() {
                assert(is_hex_byte(d[j - 1]));
            } else if 3 + d.len() <= j < 3 + d.len() + p.len() {
                if new_entry(d, p)[j] == 10u8 {
                    assert(p[j - 3 - d.len()] == 10u8);
                    assert(p.contains(10u8));
                }
            }
        }
    }
}

/// Splicing the recorded digest over the first matching entry of a text
/// that already records it returns the text unchanged.
proof fn lemma_splice_recorded(r: Seq<u8>, d: Seq<u8>, p: Seq<u8>, s: int)
    requires
        first_match_from(r, p, 0) == Some(s),
        r.subrange(s, s + 64) == d,
    ensures
        spec_update(r, d, p) == r,
{
    lemma_first_match_some(r, p, 0, s);
    assert forall|i: int| s <= i < s + 64 implies (r.take(s) + d + r.skip(s + 64))[i] == r[i] by {
        assert(d[i - s] == r.subrange(s, s + 64)[i - s]);
    }
    assert(r.take(s) + d + r.skip(s + 64) =~= r);
}

/// After replacing the digest of the first matching entry, that entry is
/// still the first match, and it records the new digest.
proof fn lemma_replace_first_match(m: Seq<u8>, d: Seq<u8>, p: Seq<u8>, s: int)
    requires
        valid_digest(d),
        first_match_from(m, p, 0) == Some(s),
    ensures
        ({
            let r = m.take(s) + d + m.skip(s + 64);
            first_match_from(r, p, 0) == Some(s) && r.subrange(s, s + 64) == d
        }),
{
    lemma_first_match_some(m, p, 0, s);
    let r = m.take(s) + d + m.skip(s + 64);
    assert(r.len() == m.len());
    assert(forall|i: int| 0 <= i < s ==> #[trigger] r[i] == m[i]);
    assert(forall|i: int| s <= i < s + 64 ==> #[trigger] r[i] == d[i - s]);
    assert(forall|i: int| s + 64 <= i < m.len() ==> #[trigger] r[i] == m[i]);
    let e0 = s + 66 + p.len();
    assert(entry_at(r, p, s)) by {
        assert(r.subrange(s + 66, e0 as int) =~= p) by {
            assert forall|j: int| 0 <= j < p.len() implies r.subrange(s + 66, e0 as int)[j] == p[j]
                by {
                assert(r[s + 66 + j] == m[s + 66 + j]);
                assert(m.subrange(s + 66, e0 as int)[j] == p[j]);
            }
        }
    }
    assert(match_at(r, p, s));
    assert forall|t: int| 0 <= t < s implies !match_at(r, p, t) by {
        if match_at(r, p, t) {
            let e = t + 66 + p.len();
            assert(s > 0);
            assert(m[s - 1] == 10u8);
            if e < s {
                assert(entry_at(m, p, t)) by {
                    assert forall|i: int| t <= i < t + 64 implies is_hex_byte(#[trigger] m[i]) by {
                        assert(m[i] == r[i]);
                    }
                    assert(m[t + 64] == r[t + 64]);
                    assert(m[t + 65] == r[t + 65]);
                    assert(r[e as int] == 10u8);
                    assert(m[e as int] == r[e as int]);
                    assert(m.subrange(t + 66, e as int) =~= p) by {
                        assert forall|j: int| 0 <= j < p.len() implies m.subrange(
                            t + 66,
                            e as int,
                        )[j] == p[j] by {
                            assert(m[t + 66 + j] == r[t + 66 + j]);
                            assert(r.subrange(t + 66, e as int)[j] == p[j]);
                        }
                    }
                }
                assert(is_line_start(m, t));
                assert(match_at(m, p, t));
            } else if e == s {
                assert(is_hex_byte(r[s]));
                assert(e < r.len());
                assert(r[e] == 10u8);
            } else {
                let q = s - 1;
                assert(r[q] == 10u8);
                if q < t + 64 {
                    assert(is_hex_byte(r[q]));
                } else if q == t + 64 || q == t + 65 {
                    assert(r[q] == 32u8);
                } else {
                    let j = q - t - 66;
                    assert(r.subrange(t + 66, e as int)[j] == p[j]);
                    assert(p[j] == 10u8);
                    assert(p.contains(10u8));
                }
            }
        }
    }
    lemma_first_match_found(r, p, 0, s);
    assert(r.subrange(s, s + 64) =~= d);
}

/// After appending a fresh entry to text whose trimmed form holds no
/// match, the appended entry is the first match, and it records the
/// digest.
proof fn lemma_append_first_match(m: Seq<u8>, d: Seq<u8>, p: Seq<u8>)
    requires
        valid_digest(d),
        !p.contains(10u8),
        first_match_from(m.take(trim_len(m)), p, 0) is None,
    ensures
        ({
            let r = m.take(trim_len(m)) + new_entry(d, p);
            let s = trim_len(m) + 1;
            first_match_from(r, p, 0) == Some(s) && r.subrange(s, s + 64) == d
        }),
{
    lemma_trim_len(m);
    lemma_new_entry_index(d, p);
    let tm = m.take(trim_len(m));
    lemma_first_match_none(tm, p, 0);
    let r = tm + new_entry(d, p);
    let s = trim_len(m) + 1;
    assert(r.len() == trim_len(m) + 4 + d.len() + p.len());
    assert(forall|i: int| 0 <= i < tm.len() ==> #[trigger] r[i] == tm[i]);
    assert(forall|i: int|
        tm.len() <= i < r.len() ==> #[trigger] r[i] == new_entry(d, p)[i - tm.len()]);
    let e0 = s + 66 + p.len();
    assert(entry_at(r, p, s)) by {
        assert(forall|i: int| s <= i < s + 64 ==> #[trigger] r[i] == d[i - s]);
        assert(forall|i: int| s <= i < s + 64 ==> is_hex_byte(#[trigger] r[i]));
        assert(r[s + 64] == 32u8);
        assert(r[s + 65] == 32u8);
        assert(e0 == r.len() - 1);
        assert(r[e0 as int] == 10u8);
        assert(r.subrange(s + 66, e0 as int) =~= p) by {
            assert forall|j: int| 0 <= j < p.len() implies r.subrange(s + 66, e0 as int)[j] == p[j]
                by {
                assert(r[s + 66 + j] == new_entry(d, p)[67 + j]);
            }
        }
    }
    assert(r[s - 1] == new_entry(d, p)[0]);
    assert(match_at(r, p, s));
    assert forall|t: int| 0 <= t < s implies !match_at(r, p, t) by {
        if match_at(r, p, t) {
            if t == tm.len() {
                if t == 0 {
                    assert(is_hex_byte(r[0]));
                    assert(r[0] == 10u8);
                } else {
                    assert(r[t - 1] == tm[tm.len() - 1]);
                    assert(!is_ws_byte(m[trim_len(m) - 1]));
                    assert(is_line_start(r, t));
                }
            } else {
                let e = t + 66 + p.len();
                let q = tm.len() as int;
                if e <= q {
                    assert(entry_at(tm, p, t)) by {
                        assert forall|i: int| t <= i < t + 64 implies is_hex_byte(
                            #[trigger] tm[i],
                        ) by {
                            assert(tm[i] == r[i]);
                        }
                        assert(tm[t + 64] == r[t + 64]);
                        assert(tm[t + 65] == r[t + 65]);
                        if e < q {
                            assert(r[e as int] == 10u8);
                            assert(tm[e as int] == r[e as int]);
                        }
                        assert(tm.subrange(t + 66, e as int) =~= p) by {
                            assert forall|j: int| 0 <= j < p.len() implies tm.subrange(
                                t + 66,
                                e as int,
                            )[j] == p[j] by {
                                assert(tm[t + 66 + j] == r[t + 66 + j]);
                                assert(r.subrange(t + 66, e as int)[j] == p[j]);
                            }
                        }
                    }
                    assert(match_at(tm, p, t));
                } else {
                    assert(r[q] == new_entry(d, p)[0]);
                    assert(r[q] == 10u8);
                    if q < t + 64 {
                        assert(is_hex_byte(r[q]));
                    } else if q == t + 64 || q == t + 65 {
                        assert(r[q] == 32u8);
                    } else {
                        let j = q - t - 66;
                        assert(r.subrange(t + 66, e as int)[j] == p[j]);
                        assert(p[j] == 10u8);
                        assert(p.contains(10u8));
                    }
                }
            }
        }
    }
    lemma_first_match_found(r, p, 0, s);
    assert(r.subrange(s, s + 64) =~= d);
}

/// Applying the same update twice in succession yields the same manifest
/// text as applying it once. This holds whenever the path already has a
/// matching entry, or the trimmed text has none either; trimming that
/// uncovers a match for the path is the one excluded corner.
pub proof fn lemma_update_idempotent(m: Seq<u8>, d: Seq<u8>, p: Seq<u8>)
    requires
        valid_digest(d),
        !p.contains(10u8),
        first_match_from(m, p, 0) is Some || first_match_from(m.take(trim_len(m)), p, 0)
            is None,
    ensures
        spec_update(spec_update(m, d, p), d, p) == spec_update(m, d, p),
{
    match first_match_from(m, p, 0) {
        Some(s) => {
            lemma_replace_first_match(m, d, p, s);
            lemma_splice_recorded(spec_update(m, d, p), d, p, s);
        },
        None => {
            lemma_append_first_match(m, d, p);
            lemma_splice_recorded(spec_update(m, d, p), d, p, trim_len(m) + 1);
        },
    }
}

/// Appends `src[from..to]` to `out`.
fn append_range(out: &mut Vec<u8>, src: &[u8], from: usize, to: usize)
    requires
        from <= to <= src@.len(),
    ensures
        final(out)@ == old(out)@ + src@.subrange(from as int, to as int),
{
    let mut i: usize = from;
    while i < to
        invariant
            from <= i <= to <= src@.len(),
            out@ == old(out)@ + src@.subrange(from as int, i as int),
        decreases to - i,
    {
        out.push(src[i]);
        i = i + 1;
        proof {
            assert(out@ =~= old(out)@ + src@.subrange(from as int, i as int));
        }
    }
}

/// Appends all of `src` to `out`.
fn append_bytes(out: &mut Vec<u8>, src: &[u8])
    ensures
        final(out)@ == old(out)@ + src@,
{
    append_range(out, src, 0, src.len());
    proof {
        assert(old(out)@ + src@.subrange(0, src@.len() as int) =~= old(out)@ + src@);
    }
}

/// Decides whether a byte string is a well-formed digest rendering:
/// exactly 64 lowercase hexadecimal bytes.
pub fn is_valid_digest(d: &[u8]) -> (r: bool)
    ensures
        r == valid_digest(d@),
{
    if d.len() != 64 {
        return false;
    }
    let mut i: usize = 0;
    while i < 64
        invariant
            i <= 64,
            d@.len() == 64,
            forall|j: int| 0 <= j < i ==> is_hex_byte(#[trigger] d@[j]),
        decreases 64 - i,
    {
        if !hex_byte(d[i]) {
            return false;
        }
        i = i + 1;
    }
    true
}

/// Decides whether the line starting at `s` is exactly the entry for `p`.
fn check_entry_at(m: &[u8], p: &[u8], s: usize) -> (r: bool)
    requires
        s <= m@.len(),
    ensures
        r == entry_at(m@, p@, s as int),
{
    let n = m.len();
    if n - s < 66 {
        return false;
    }
    if n - s - 66 < p.len() {
        return false;
    }
    let mut i: usize = 0;
    while i < 64
        invariant
            i <= 64,
            s + 66 + p@.len() <= m@.len() <= usize::MAX,
            forall|j: int| s <= j < s + i ==> is_hex_byte(#[trigger] m@[j]),
        decreases 64 - i,
    {
        if !hex_byte(m[s + i]) {
            return false;
        }
        i = i + 1;
    }
    if m[s + 64] != 32 {
        return false;
    }
    if m[s + 65] != 32 {
        return false;
    }
    let mut j: usize = 0;
    while j < p.len()
        invariant
            j <= p@.len(),
            s + 66 + p@.len() <= m@.len() <= usize::MAX,
            forall|k: int| 0 <= k < j ==> m@[s + 66 + k] == p@[k] && p@[k] != 10u8,
        decreases p@.len() - j,
    {
        if p[j] == 10 {
            proof {
                assert(p@.contains(10u8));
            }
            return false;
        }
        if m[s + 66 + j] != p[j] {
            proof {
                if entry_at(m@, p@, s as int) {
                    assert(m@.subrange(s + 66, s + 66 + p@.len() as int)[j as int] == m@[s + 66 + j]);
                }
            }
            return false;
        }
        j = j + 1;
    }
    let end = s + 66 + p.len();
    proof {
        assert(m@.subrange(s + 66, s + 66 + p@.len() as int) =~= p@);
        if p@.contains(10u8) {
            let k = choose|k: int| 0 <= k < p@.len() && p@[k] == 10u8;
            assert(p@[k] != 10u8);
        }
    }
    if end == n {
        return true;
    }
    if m[end] == 10 {
        return true;
    }
    false
}

/// The position of the first entry line for `p` in `m`, if any.
pub fn find_entry(m: &[u8], p: &[u8]) -> (r: Option<usize>)
    ensures
        match r {
            Some(s) => first_match_from(m@, p@, 0) == Some(s as int),
            None => first_match_from(m@, p@, 0) is None,
        },
{
    let n = m.len();
    let mut i: usize = 0;
    while i < n
        invariant
            i <= n,
            n == m@.len(),
            first_match_from(m@, p@, 0) == first_match_from(m@, p@, i as int),
        decreases n - i,
    {
        let at_start = i == 0 || m[i - 1] == 10;
        if at_start {
            if check_entry_at(m, p, i) {
                return Some(i);
            }
        }
        proof {
            assert(!match_at(m@, p@, i as int));
        }
        i = i + 1;
    }
    proof {
        assert(!match_at(m@, p@, n as int));
        assert(first_match_from(m@, p@, n as int + 1) is None);
    }
    None
}

/// Whether `m` already holds an entry line for path `p`.
pub fn has_entry(m: &[u8], p: &[u8]) -> (r: bool)
    ensures
        r == (first_match_from(m@, p@, 0) is Some),
{
    match find_entry(m, p) {
        Some(_) => true,
        None => false,
    }
}

/// The length of `m` once trailing ASCII whitespace is removed.
pub fn trim_end_len(m: &[u8]) -> (k: usize)
    ensures
        k as int == trim_len(m@),
{
    let mut k: usize = m.len();
    proof {
        assert(m@.take(m@.len() as int) =~= m@);
    }
    while k > 0 && (m[k - 1] == 32 || m[k - 1] == 9 || m[k - 1] == 10 || m[k - 1] == 12 || m[k - 1]
        == 13)
        invariant
            k <= m@.len(),
            trim_len(m@) == trim_len(m@.take(k as int)),
        decreases k,
    {
        proof {
            assert(m@.take(k as int).drop_last() =~= m@.take(k as int - 1));
        }
        k = k - 1;
    }
    proof {
        if k == 0 {
            assert(m@.take(0) =~= Seq::<u8>::empty());
        }
    }
    k
}

/// The updated manifest text for a well-formed digest `d` and path `p`:
/// the first matching entry line, if any, gets its digest replaced in
/// place; otherwise trailing whitespace is trimmed and a fresh entry line
/// is appended. Every byte not belonging to the updated entry is kept
/// verbatim.
pub fn update_manifest(m: &[u8], d: &[u8], p: &[u8]) -> (r: Vec<u8>)
    requires
        valid_digest(d@),
    ensures
        r@ == spec_update(m@, d@, p@),
{
    match find_entry(m, p) {
        Some(s) => {
            let n = m.len();
            proof {
                lemma_first_match_some(m@, p@, 0, s as int);
                assert(s + 66 + p@.len() <= n);
            }
            let mut out: Vec<u8> = Vec::new();
            append_range(&mut out, m, 0, s);
            append_bytes(&mut out, d);
            append_range(&mut out, m, s + 64, n);
            proof {
                assert(out@ =~= m@.take(s as int) + d@ + m@.skip(s as int + 64));
            }
            out
        },
        None => {
            let k = trim_end_len(m);
            proof {
                lemma_trim_len(m@);
            }
            let mut out: Vec<u8> = Vec::new();
            append_range(&mut out, m, 0, k);
            out.push(10);
            append_bytes(&mut out, d);
            out.push(32);
            out.push(32);
            append_bytes(&mut out, p);
            out.push(10);
            proof {
                assert(out@ =~= m@.take(trim_len(m@)) + new_entry(d@, p@));
            }
            out
        },
    }
}

/// The boundary form of the update: a malformed digest (wrong length or
/// character set) is rejected outright instead of producing a malformed
/// manifest line.
pub fn update_manifest_checked(m: &[u8], d: &[u8], p: &[u8]) -> (r: Option<Vec<u8>>)
    ensures
        match r {
            Some(v) => valid_digest(d@) && v@ == spec_update(m@, d@, p@),
            None => !valid_digest(d@),
        },
{
    if is_valid_digest(d) {
        Some(update_manifest(m, d, p))
    } else {
        None
    }
}

/// The manifest text to update when the manifest file may be absent: an
/// absent file reads as empty text, so updating against it behaves exactly
/// as updating against an existing empty file.
pub fn manifest_or_empty(m: Option<Vec<u8>>) -> (r: Vec<u8>)
    ensures
        match m {
            Some(t) => r@ == t@,
            None => r@ == Seq::<u8>::empty(),
        },
{
    match m {
        Some(t) => t,
        None => Vec::new(),
    }
}

} // verus!
