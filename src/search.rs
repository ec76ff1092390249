//! Byte-level substring search over UTF-8 text: first occurrence,
//! non-overlapping occurrence counts, and the bounded context window around
//! a match.

use vstd::prelude::*;
use vstd::string::StringSliceAdditionalSpecFns;
use vstd::utf8::*;

verus! {

broadcast use group_utf8_lib;

/// Bytes of context kept on each side of a match.
pub const CONTEXT_RADIUS: usize = 300;

/// `needle` occurs in `hay` starting at byte `i`.
pub open spec fn occurs_at(hay: Seq<u8>, needle: Seq<u8>, i: int) -> bool {
    0 <= i && i + needle.len() <= hay.len() && hay.subrange(i, i + needle.len()) == needle
}

/// The first position at or after `i` where `needle` occurs.
pub open spec fn find_from(hay: Seq<u8>, needle: Seq<u8>, i: int) -> Option<int>
    decreases hay.len() + 1 - i,
{
    if i < 0 || i + needle.len() > hay.len() {
        None
    } else if occurs_at(hay, needle, i) {
        Some(i)
    } else {
        find_from(hay, needle, i + 1)
    }
}

/// The number of non-overlapping occurrences of a non-empty `needle` at or
/// after `i`, taken left to right.
pub open spec fn count_from(hay: Seq<u8>, needle: Seq<u8>, i: int) -> nat
    decreases hay.len() - i,
{
    if needle.len() == 0 || i < 0 || i + needle.len() > hay.len() {
        0
    } else if occurs_at(hay, needle, i) {
        1 + count_from(hay, needle, i + needle.len())
    } else {
        count_from(hay, needle, i + 1)
    }
}

pub(crate) proof fn lemma_find_from_occurs(hay: Seq<u8>, needle: Seq<u8>, i: int)
    ensures
        find_from(hay, needle, i) matches Some(p) ==> i <= p && occurs_at(hay, needle, p),
    decreases hay.len() + 1 - i,
{
    if !(i < 0 || i + needle.len() > hay.len()) && !occurs_at(hay, needle, i) {
        lemma_find_from_occurs(hay, needle, i + 1);
    }
}

fn matches_at(hay: &[u8], needle: &[u8], i: usize) -> (r: bool)
    requires
        i + needle@.len() <= hay@.len(),
    ensures
        r == occurs_at(hay@, needle@, i as int),
{
    let hl = hay.len();
    let mut j: usize = 0;
    while j < needle.len()
        invariant
            hl == hay@.len(),
            i + needle@.len() <= hay@.len(),
            j <= needle@.len(),
            forall|k: int| 0 <= k < j ==> hay@[i + k] == needle@[k],
        decreases needle@.len() - j,
    {
        if hay[i + j] != needle[j] {
            assert(hay@.subrange(i as int, i + needle@.len())[j as int] != needle@[j as int]);
            return false;
        }
        j = j + 1;
    }
    assert(hay@.subrange(i as int, i + needle@.len()) =~= needle@);
    true
}

/// The first byte position where `needle` occurs in `hay`.
pub fn find_bytes(hay: &[u8], needle: &[u8]) -> (r: Option<usize>)
    ensures
        r matches Some(p) ==> find_from(hay@, needle@, 0) == Some(p as int),
        r is None ==> find_from(hay@, needle@, 0) is None,
{
    if needle.len() > hay.len() {
        return None;
    }
    let last = hay.len() - needle.len();
    let mut i: usize = 0;
    while i <= last
        invariant
            last + needle@.len() == hay@.len(),
            i <= last + 1,
            find_from(hay@, needle@, 0) == find_from(hay@, needle@, i as int),
        decreases last + 1 - i,
    {
        if matches_at(hay, needle, i) {
            return Some(i);
        }
        if i == last {
            assert(find_from(hay@, needle@, i + 1) is None);
            return None;
        }
        i = i + 1;
    }
    None
}

/// The number of non-overlapping occurrences of a non-empty `needle` in `hay`.
pub fn count_bytes(hay: &[u8], needle: &[u8]) -> (r: usize)
    requires
        needle@.len() > 0,
    ensures
        r == count_from(hay@, needle@, 0),
{
    if needle.len() > hay.len() {
        return 0;
    }
    let hl = hay.len();
    let last = hl - needle.len();
    let mut i: usize = 0;
    let mut n: usize = 0;
    while i <= last
        invariant
            hl == hay@.len(),
            needle@.len() > 0,
            last + needle@.len() == hay@.len(),
            i <= hay@.len(),
            n + count_from(hay@, needle@, i as int) == count_from(hay@, needle@, 0),
            n <= i,
        decreases hay@.len() - i,
    {
        if matches_at(hay, needle, i) {
            n = n + 1;
            i = i + needle.len();
        } else {
            i = i + 1;
        }
    }
    n
}

/// Which keyword, from index `i` on, is the first to occur in `folded`, and
/// the byte position of its first occurrence.
pub open spec fn first_hit(folded: Seq<u8>, kws: Seq<Seq<u8>>, i: int) -> Option<(int, int)>
    decreases kws.len() - i,
{
    if i < 0 || i >= kws.len() {
        None
    } else {
        match find_from(folded, kws[i], 0) {
            Some(p) => Some((i, p)),
            None => first_hit(folded, kws, i + 1),
        }
    }
}

/// The largest character boundary of `b` at or below `i`.
pub open spec fn snap_down(b: Seq<u8>, i: int) -> int
    decreases i,
{
    if i <= 0 {
        0
    } else if is_char_boundary(b, i) {
        i
    } else {
        snap_down(b, i - 1)
    }
}

/// The smallest character boundary of `b` at or above `i`, or `hi`.
pub open spec fn snap_up(b: Seq<u8>, i: int, hi: int) -> int
    decreases hi - i,
{
    if i >= hi {
        hi
    } else if is_char_boundary(b, i) {
        i
    } else {
        snap_up(b, i + 1, hi)
    }
}

pub open spec fn min_int(a: int, b: int) -> int {
    if a <= b {
        a
    } else {
        b
    }
}

pub open spec fn max_int(a: int, b: int) -> int {
    if a >= b {
        a
    } else {
        b
    }
}

/// The byte range `[p - radius, p + k + radius]` around a match of length
/// `k` at `p`, clipped to the text, with each end moved inward to the
/// nearest character boundary.
pub open spec fn window(text: Seq<u8>, p: int, k: int) -> (int, int) {
    let e0 = min_int(text.len() as int, p + k + CONTEXT_RADIUS);
    let s0 = min_int(max_int(0, p - CONTEXT_RADIUS), e0);
    let e = snap_down(text, e0);
    (snap_up(text, min_int(s0, e), e), e)
}

/// The context for a list of keywords: the window of `text` around the first
/// occurrence, in `folded`, of the first keyword that occurs there at all;
/// empty when none does.
pub open spec fn context_of(text: Seq<u8>, folded: Seq<u8>, kws: Seq<Seq<u8>>) -> Seq<u8> {
    match first_hit(folded, kws, 0) {
        None => Seq::empty(),
        Some((i, p)) => {
            let (s, e) = window(text, p, kws[i].len() as int);
            text.subrange(s, e)
        },
    }
}

proof fn lemma_snap_down(b: Seq<u8>, i: int)
    requires
        valid_utf8(b),
        0 <= i <= b.len(),
    ensures
        0 <= snap_down(b, i) <= i,
        is_char_boundary(b, snap_down(b, i)),
    decreases i,
{
    if i > 0 && !is_char_boundary(b, i) {
        lemma_snap_down(b, i - 1);
    }
}

pub(crate) proof fn lemma_snap_up(b: Seq<u8>, i: int, hi: int)
    requires
        0 <= i <= hi,
    ensures
        i <= snap_up(b, i, hi) <= hi,
        snap_up(b, i, hi) == hi || is_char_boundary(b, snap_up(b, i, hi)),
    decreases hi - i,
{
    if i < hi && !is_char_boundary(b, i) {
        lemma_snap_up(b, i + 1, hi);
    }
}

/// The bytes of `text` in `[s, e)`, both of which are character boundaries.
fn slice_between(text: &str, s: usize, e: usize) -> (r: String)
    requires
        s <= e <= encode_utf8(text@).len(),
        is_char_boundary(encode_utf8(text@), s as int),
        is_char_boundary(encode_utf8(text@), e as int),
    ensures
        encode_utf8(r@) == encode_utf8(text@).subrange(s as int, e as int),
{
    let ghost t = encode_utf8(text@);
    let (pre, _) = text.split_at(e);
    let ghost pb = pre.spec_bytes();
    assert(pb =~= t.subrange(0, e as int));
    assert(valid_utf8(pb));
    if 0 < s && s < e {
        assert(pb[s as int] == t[s as int]);
        assert(is_char_boundary(t, s as int) <==> !is_continuation_byte(t[s as int]));
        assert(is_char_boundary(pb, s as int) <==> !is_continuation_byte(pb[s as int]));
    }
    assert(is_char_boundary(pb, s as int));
    let (_, mid) = pre.split_at(s);
    assert(mid.spec_bytes() =~= t.subrange(s as int, e as int));
    mid.to_owned()
}

/// The context window around the first keyword that occurs in `folded`.
/// `folded` is the text searched (the case-folded form of `text`); the window
/// is cut from `text` at the same byte positions.
pub fn locate_context(text: &str, folded: &str, keywords: &Vec<String>) -> (r: String)
    ensures
        encode_utf8(r@) == context_of(
            encode_utf8(text@),
            encode_utf8(folded@),
            keywords@.map_values(|w: String| encode_utf8(w@)),
        ),
{
    let ghost kws = keywords@.map_values(|w: String| encode_utf8(w@));
    let fb = folded.as_bytes();
    let mut i: usize = 0;
    while i < keywords.len()
        invariant
            i <= keywords@.len(),
            kws == keywords@.map_values(|w: String| encode_utf8(w@)),
            fb@ == encode_utf8(folded@),
            first_hit(fb@, kws, 0) == first_hit(fb@, kws, i as int),
        decreases keywords@.len() - i,
    {
        let kb = keywords[i].as_str().as_bytes();
        assert(kb@ == kws[i as int]);
        match find_bytes(fb, kb) {
            Some(p) => {
                proof {
                    lemma_find_from_occurs(fb@, kb@, 0);
                }
                assert(first_hit(fb@, kws, i as int) == Some((i as int, p as int)));
                return context_window(text, p, kb.len(), fb.len());
            },
            None => {},
        }
        i = i + 1;
    }
    String::new()
}

/// The window of `text` around a match of `k` bytes at byte `p` of a
/// searched text of `searched_len` bytes.
fn context_window(text: &str, p: usize, k: usize, searched_len: usize) -> (r: String)
    requires
        p + k <= searched_len,
    ensures
        encode_utf8(r@) == ({
            let (s, e) = window(encode_utf8(text@), p as int, k as int);
            encode_utf8(text@).subrange(s, e)
        }),
{
    let ghost t = encode_utf8(text@);
    let tl = text.as_bytes().len();
    let pk = p + k;
    let e0 = if pk >= tl {
        tl
    } else if tl - pk > CONTEXT_RADIUS {
        pk + CONTEXT_RADIUS
    } else {
        tl
    };
    let mut s0 = if p > CONTEXT_RADIUS {
        p - CONTEXT_RADIUS
    } else {
        0
    };
    if s0 > e0 {
        s0 = e0;
    }
    let mut e = e0;
    while e > 0 && !text.is_char_boundary(e)
        invariant
            t == encode_utf8(text@),
            e <= e0 <= t.len(),
            snap_down(t, e0 as int) == snap_down(t, e as int),
        decreases e,
    {
        e = e - 1;
    }
    proof {
        lemma_snap_down(t, e0 as int);
    }
    assert(e == snap_down(t, e as int));
    let mut s = if s0 < e {
        s0
    } else {
        e
    };
    let ghost s_start = s;
    while s < e && !text.is_char_boundary(s)
        invariant
            t == encode_utf8(text@),
            s_start <= s <= e,
            snap_up(t, s_start as int, e as int) == snap_up(t, s as int, e as int),
        decreases e - s,
    {
        s = s + 1;
    }
    proof {
        lemma_snap_up(t, s_start as int, e as int);
    }
    assert(s == snap_up(t, s as int, e as int));
    slice_between(text, s, e)
}

} // verus!
