//! Character-level text model: Unicode whitespace, run collapsing, trimming,
//! word splitting, and the normalization applied to every stored document.

use vstd::prelude::*;

verus! {

/// Unicode `White_Space`: the set that both `char::is_whitespace` and the
/// regex class `\s` use.
pub open spec fn is_ws(c: char) -> bool {
    let u = c as u32;
    (9 <= u && u <= 13) || u == 32 || u == 0x85 || u == 0xa0 || u == 0x1680
        || (0x2000 <= u && u <= 0x200a) || u == 0x2028 || u == 0x2029 || u == 0x202f
        || u == 0x205f || u == 0x3000
}

/// Every maximal run of whitespace replaced by one space.
pub open spec fn collapse_ws(s: Seq<char>) -> Seq<char>
    decreases s.len(),
{
    if s.len() == 0 {
        s
    } else {
        let init = s.drop_last();
        let c = s.last();
        if !is_ws(c) {
            collapse_ws(init).push(c)
        } else if init.len() > 0 && is_ws(init.last()) {
            collapse_ws(init)
        } else {
            collapse_ws(init).push(' ')
        }
    }
}

pub open spec fn trim_start_ws(s: Seq<char>) -> Seq<char>
    decreases s.len(),
{
    if s.len() > 0 && is_ws(s[0]) {
        trim_start_ws(s.drop_first())
    } else {
        s
    }
}

pub open spec fn trim_end_ws(s: Seq<char>) -> Seq<char>
    decreases s.len(),
{
    if s.len() > 0 && is_ws(s.last()) {
        trim_end_ws(s.drop_last())
    } else {
        s
    }
}

/// Leading and trailing whitespace removed.
pub open spec fn trim_ws(s: Seq<char>) -> Seq<char> {
    trim_end_ws(trim_start_ws(s))
}

/// The normalized form of a text: whitespace runs collapsed to one space,
/// then trimmed.
pub open spec fn normalized(s: Seq<char>) -> Seq<char> {
    trim_ws(collapse_ws(s))
}

/// Whitespace occurs only as a lone `' '`.
pub open spec fn single_spaced(t: Seq<char>) -> bool {
    forall|i: int|
        0 <= i < t.len() && #[trigger] is_ws(t[i]) ==> t[i] == ' ' && (i + 1 < t.len()
            ==> !is_ws(t[i + 1]))
}

/// Neither the first nor the last character is whitespace.
pub open spec fn trimmed(t: Seq<char>) -> bool {
    t.len() > 0 ==> !is_ws(t[0]) && !is_ws(t.last())
}

/// The words of a text, as `str::split_whitespace` yields them: the maximal
/// runs of non-whitespace characters, in order.
pub open spec fn words(s: Seq<char>) -> Seq<Seq<char>> {
    words_after(s, Seq::empty())
}

/// The words of `s`, where `cur` is a word already begun before `s`.
pub open spec fn words_after(s: Seq<char>, cur: Seq<char>) -> Seq<Seq<char>>
    decreases s.len(),
{
    let done: Seq<Seq<char>> = if cur.len() > 0 {
        seq![cur]
    } else {
        Seq::empty()
    };
    if s.len() == 0 {
        done
    } else if is_ws(s[0]) {
        done + words_after(s.drop_first(), Seq::empty())
    } else {
        words_after(s.drop_first(), cur.push(s[0]))
    }
}

/// What `str::to_lowercase` returns for a text.
pub uninterp spec fn lower_of(s: Seq<char>) -> Seq<char>;

/// Relies on `regex::Regex::replace_all` with the pattern `\s+` (Unicode
/// `White_Space`, greedy, leftmost): each maximal whitespace run becomes the
/// replacement. The pattern is valid, so `Regex::new` succeeds.
#[verifier::external_body]
fn replace_ws_runs(s: &str) -> (r: String)
    ensures
        r@ == collapse_ws(s@),
{
    regex::Regex::new(r"\s+").unwrap().replace_all(s, " ").into_owned()
}

/// Relies on `str::trim`: leading and trailing `White_Space` removed.
#[verifier::external_body]
fn trim_str(s: &str) -> (r: String)
    ensures
        r@ == trim_ws(s@),
{
    s.trim().to_string()
}

/// Relies on `str::split_whitespace`: the maximal non-whitespace runs, in order.
#[verifier::external_body]
pub(crate) fn split_words(s: &str) -> (r: Vec<String>)
    ensures
        r@.map_values(|w: String| w@) == words(s@),
{
    s.split_whitespace().map(|w| w.to_string()).collect()
}

/// Relies on `str::to_lowercase`, whose result depends on the characters alone.
#[verifier::external_body]
pub(crate) fn to_lower(s: &str) -> (r: String)
    ensures
        r@ == lower_of(s@),
{
    s.to_lowercase()
}

proof fn lemma_collapse_shape(s: Seq<char>)
    ensures
        single_spaced(collapse_ws(s)),
        collapse_ws(s).len() == 0 <==> s.len() == 0,
        s.len() > 0 ==> (is_ws(collapse_ws(s).last()) <==> is_ws(s.last())),
    decreases s.len(),
{
    if s.len() > 0 {
        let init = s.drop_last();
        lemma_collapse_shape(init);
        let ci = collapse_ws(init);
        let c = s.last();
        if !is_ws(c) {
            assert(single_spaced(ci.push(c))) by {
                assert forall|i: int| 0 <= i < ci.push(c).len() && #[trigger] is_ws(ci.push(c)[i]) implies ci.push(c)[i]
                    == ' ' && (i + 1 < ci.push(c).len() ==> !is_ws(ci.push(c)[i + 1])) by {
                    if i < ci.len() {
                        assert(ci.push(c)[i] == ci[i]);
                    }
                }
            }
        } else if !(init.len() > 0 && is_ws(init.last())) {
            let r = ci.push(' ');
            assert(is_ws(' '));
            assert(single_spaced(r)) by {
                assert forall|i: int| 0 <= i < r.len() && #[trigger] is_ws(r[i]) implies r[i] == ' ' && (i + 1
                    < r.len() ==> !is_ws(r[i + 1])) by {
                    if i < ci.len() {
                        assert(r[i] == ci[i]);
                        if i + 1 == ci.len() {
                            assert(ci.last() == ci[i]);
                        }
                    }
                }
            }
        }
    }
}

proof fn lemma_collapse_fixed(t: Seq<char>)
    requires
        single_spaced(t),
    ensures
        collapse_ws(t) == t,
    decreases t.len(),
{
    if t.len() > 0 {
        let init = t.drop_last();
        assert(single_spaced(init)) by {
            assert forall|i: int| 0 <= i < init.len() && #[trigger] is_ws(init[i]) implies init[i] == ' '
                && (i + 1 < init.len() ==> !is_ws(init[i + 1])) by {
                assert(init[i] == t[i]);
                assert(is_ws(t[i]));
                if i + 1 < init.len() {
                    assert(init[i + 1] == t[i + 1]);
                }
            }
        }
        lemma_collapse_fixed(init);
        let c = t.last();
        if is_ws(c) {
            assert(is_ws(t[t.len() - 1]));
            if init.len() > 0 {
                assert(is_ws(init[init.len() - 1]) ==> !is_ws(t[t.len() - 1]));
            }
        }
        assert(init.push(c) =~= t);
    }
}

proof fn lemma_trim_start(s: Seq<char>)
    ensures
        exists|k: int| 0 <= k <= s.len() && trim_start_ws(s) == s.subrange(k, s.len() as int),
        trim_start_ws(s).len() > 0 ==> !is_ws(trim_start_ws(s)[0]),
        s.len() > 0 && !is_ws(s[0]) ==> trim_start_ws(s) == s,
        s.len() > 0 && !is_ws(s.last()) && trim_start_ws(s).len() > 0 ==> !is_ws(trim_start_ws(s).last()),
    decreases s.len(),
{
    if s.len() > 0 && is_ws(s[0]) {
        let d = s.drop_first();
        lemma_trim_start(d);
        let k = choose|k: int| 0 <= k <= d.len() && trim_start_ws(d) == d.subrange(k, d.len() as int);
        assert(d.subrange(k, d.len() as int) =~= s.subrange(k + 1, s.len() as int));
        if s.len() > 1 {
            assert(d.last() == s.last());
        }
    } else {
        assert(s.subrange(0, s.len() as int) =~= s);
    }
}

proof fn lemma_trim_end(s: Seq<char>)
    ensures
        exists|k: int| 0 <= k <= s.len() && trim_end_ws(s) == s.subrange(0, k),
        trim_end_ws(s).len() > 0 ==> !is_ws(trim_end_ws(s).last()),
        s.len() > 0 && !is_ws(s.last()) ==> trim_end_ws(s) == s,
        s.len() > 0 && !is_ws(s[0]) && trim_end_ws(s).len() > 0 ==> !is_ws(trim_end_ws(s)[0]),
    decreases s.len(),
{
    if s.len() > 0 && is_ws(s.last()) {
        let d = s.drop_last();
        lemma_trim_end(d);
        let k = choose|k: int| 0 <= k <= d.len() && trim_end_ws(d) == d.subrange(0, k);
        assert(d.subrange(0, k) =~= s.subrange(0, k));
        if s.len() > 1 {
            assert(d[0] == s[0]);
        }
    } else {
        assert(s.subrange(0, s.len() as int) =~= s);
    }
}

proof fn lemma_single_spaced_subrange(t: Seq<char>, a: int, b: int)
    requires
        single_spaced(t),
        0 <= a <= b <= t.len(),
    ensures
        single_spaced(t.subrange(a, b)),
{
    let u = t.subrange(a, b);
    assert forall|i: int| 0 <= i < u.len() && #[trigger] is_ws(u[i]) implies u[i] == ' ' && (i + 1 < u.len()
        ==> !is_ws(u[i + 1])) by {
        assert(u[i] == t[a + i]);
        assert(is_ws(t[a + i]));
        if i + 1 < u.len() {
            assert(u[i + 1] == t[a + i + 1]);
        }
    }
}

/// A normalized text holds whitespace only as single spaces between
/// non-whitespace characters: no run of two, none at either end. This holds
/// for every input, the empty and the all-whitespace text included.
pub proof fn lemma_normalized_shape(s: Seq<char>)
    ensures
        single_spaced(normalized(s)),
        trimmed(normalized(s)),
{
    let c = collapse_ws(s);
    lemma_collapse_shape(s);
    lemma_trim_start(c);
    let ts = trim_start_ws(c);
    let k1 = choose|k: int| 0 <= k <= c.len() && ts == c.subrange(k, c.len() as int);
    lemma_single_spaced_subrange(c, k1, c.len() as int);
    lemma_trim_end(ts);
    let k2 = choose|k: int| 0 <= k <= ts.len() && trim_end_ws(ts) == ts.subrange(0, k);
    lemma_single_spaced_subrange(ts, 0, k2);
}

/// A text that is already single-spaced and trimmed is its own normal form.
pub proof fn lemma_normalized_fixed(t: Seq<char>)
    requires
        single_spaced(t),
        trimmed(t),
    ensures
        normalized(t) == t,
{
    lemma_collapse_fixed(t);
    lemma_trim_start(t);
    if t.len() > 0 {
        lemma_trim_end(t);
    }
}

/// Normalizing twice gives the same text as normalizing once.
pub proof fn lemma_normalize_idempotent(s: Seq<char>)
    ensures
        normalized(normalized(s)) == normalized(s),
{
    lemma_normalized_shape(s);
    lemma_normalized_fixed(normalized(s));
}

/// Collapses every whitespace run to a single space and trims the ends.
pub fn normalize(text: &str) -> (r: String)
    ensures
        r@ == normalized(text@),
        single_spaced(r@),
        trimmed(r@),
{
    proof {
        lemma_normalized_shape(text@);
    }
    let collapsed = replace_ws_runs(text);
    trim_str(collapsed.as_str())
}

} // verus!
