//! The document store: normalized documents by identifier, the most recently
//! ingested text, and the two retrieval modes over them.

use vstd::prelude::*;
use vstd::utf8::*;

use crate::pdf::{doc_images, extract_page_images, PageImage, PdfDocument};
use crate::rank::{is_ranking, rank_by_score};
use crate::search::{
    context_of, count_bytes, count_from, find_from, first_hit, locate_context, max_int, min_int,
    snap_down, snap_up, window, CONTEXT_RADIUS,
};
use crate::text::{lower_of, normalize, normalized, split_words, to_lower, words};

verus! {

broadcast use group_utf8_lib;

/// Why a document could not be ingested.
#[derive(Debug, Clone, Copy, PartialEq, Eq, Structural)]
pub enum ExtractionError {
    /// The source could not be opened or parsed at all.
    Unreadable,
}

/// Why a query could not be answered.
#[derive(Debug, Clone, Copy, PartialEq, Eq, Structural)]
pub enum RetrievalError {
    /// No document has been ingested successfully yet.
    NoProcessedDocument,
}

/// The context that single-document retrieval returns for `query` over the
/// stored text, as UTF-8 bytes.
pub open spec fn retrieval(stored: Seq<char>, query: Seq<char>) -> Seq<u8> {
    if stored.len() == 0 {
        Seq::empty()
    } else {
        context_of(
            encode_utf8(stored),
            encode_utf8(lower_of(stored)),
            words(lower_of(query)).map_values(|w: Seq<char>| encode_utf8(w)),
        )
    }
}

/// What `retrieve` answers when the last ingested text is `processed`.
pub open spec fn retrieve_result(processed: Option<Seq<char>>, query: Seq<char>) -> Result<
    Seq<u8>,
    RetrievalError,
> {
    match processed {
        None => Err(RetrievalError::NoProcessedDocument),
        Some(t) => Ok(retrieval(t, query)),
    }
}

/// The last ingested text after an ingestion whose extraction gave `extracted`.
pub open spec fn after_ingest(
    processed: Option<Seq<char>>,
    extracted: Result<Seq<char>, ExtractionError>,
) -> Option<Seq<char>> {
    match extracted {
        Ok(raw) => Some(normalized(raw)),
        Err(_) => processed,
    }
}

/// An extraction outcome with the text as characters.
pub open spec fn extracted_chars(extracted: Result<String, ExtractionError>) -> Result<
    Seq<char>,
    ExtractionError,
> {
    match extracted {
        Ok(raw) => Ok(raw@),
        Err(e) => Err(e),
    }
}

/// The score of a folded text for a folded query: the number of
/// non-overlapping occurrences of the query; an empty query occurs at every
/// character boundary.
pub open spec fn score(text: Seq<char>, query: Seq<char>) -> nat {
    if query.len() == 0 {
        if text.len() + 1 <= usize::MAX {
            (text.len() + 1) as nat
        } else {
            usize::MAX as nat
        }
    } else {
        count_from(encode_utf8(text), encode_utf8(query), 0)
    }
}

/// The score of each stored document for `query`, in store order.
pub open spec fn doc_scores(docs: Seq<(Seq<char>, Seq<char>)>, query: Seq<char>) -> Seq<usize> {
    Seq::new(docs.len(), |i: int| score(lower_of(docs[i].1), lower_of(query)) as usize)
}

/// The place of the document named `id`, searching from `i`.
pub open spec fn position_of(docs: Seq<(Seq<char>, Seq<char>)>, id: Seq<char>, i: int) -> Option<int>
    decreases docs.len() - i,
{
    if i < 0 || i >= docs.len() {
        None
    } else if docs[i].0 == id {
        Some(i)
    } else {
        position_of(docs, id, i + 1)
    }
}

/// The store after putting `text` under `id`: the entry of that name is
/// replaced where there is one, else the document is added at the end.
pub open spec fn store_put(docs: Seq<(Seq<char>, Seq<char>)>, id: Seq<char>, text: Seq<char>) -> Seq<
    (Seq<char>, Seq<char>),
> {
    match position_of(docs, id, 0) {
        Some(j) => docs.update(j, (id, text)),
        None => docs.push((id, text)),
    }
}

/// The number of non-overlapping occurrences of `folded_query` in
/// `folded_text`; both are already case-folded.
pub fn occurrence_score(folded_text: &str, folded_query: &str) -> (r: usize)
    ensures
        r == score(folded_text@, folded_query@),
{
    let qb = folded_query.as_bytes();
    if qb.len() == 0 {
        let n = folded_text.unicode_len();
        if n < usize::MAX {
            n + 1
        } else {
            n
        }
    } else {
        count_bytes(folded_text.as_bytes(), qb)
    }
}

/// Normalized documents by identifier, and the text of the last successful
/// ingestion. The documents are a vector of (identifier, text) pairs with
/// unique identifiers: it keeps store order for ranking ties, and lets the
/// contracts state each entry exactly.
pub struct RAGSystem {
    documents: Vec<(String, String)>,
    processed_text: Option<String>,
}

impl RAGSystem {
    /// The stored documents as (identifier, text) pairs, in store order.
    pub closed spec fn docs(&self) -> Seq<(Seq<char>, Seq<char>)> {
        self.documents@.map_values(|e: (String, String)| (e.0@, e.1@))
    }

    /// The text of the last successful ingestion, if any.
    pub closed spec fn processed(&self) -> Option<Seq<char>> {
        match self.processed_text {
            Some(t) => Some(t@),
            None => None,
        }
    }

    /// Identifiers are unique, and every stored text is in normal form.
    pub open spec fn wf(&self) -> bool {
        &&& forall|i: int, j: int|
            0 <= i < j < self.docs().len() ==> #[trigger] self.docs()[i].0 != #[trigger] self.docs()[j].0
        &&& forall|i: int|
            0 <= i < self.docs().len() ==> normalized(#[trigger] self.docs()[i].1) == self.docs()[i].1
        &&& self.processed() matches Some(t) ==> normalized(t) == t
    }

    /// An empty store with nothing ingested.
    pub fn new() -> (r: Self)
        ensures
            r.wf(),
            r.docs() == Seq::<(Seq<char>, Seq<char>)>::empty(),
            r.processed() is None,
    {
        let r = RAGSystem { documents: Vec::new(), processed_text: None };
        assert(r.docs() =~= Seq::<(Seq<char>, Seq<char>)>::empty());
        r
    }

    fn find_document(&self, doc_id: &String) -> (r: Option<usize>)
        ensures
            r matches Some(j) ==> position_of(self.docs(), doc_id@, 0) == Some(j as int),
            r is None ==> position_of(self.docs(), doc_id@, 0) is None,
    {
        let mut i: usize = 0;
        while i < self.documents.len()
            invariant
                i <= self.documents@.len(),
                position_of(self.docs(), doc_id@, 0) == position_of(self.docs(), doc_id@, i as int),
            decreases self.documents@.len() - i,
        {
            if self.documents[i].0 == *doc_id {
                return Some(i);
            }
            i = i + 1;
        }
        None
    }

    fn put_normalized(&mut self, doc_id: &str, text: String)
        requires
            old(self).wf(),
            normalized(text@) == text@,
        ensures
            final(self).wf(),
            final(self).docs() == store_put(old(self).docs(), doc_id@, text@),
            final(self).processed() == old(self).processed(),
    {
        let id = doc_id.to_owned();
        let ghost d = self.docs();
        match self.find_document(&id) {
            Some(j) => {
                proof {
                    lemma_position_found(d, doc_id@, 0);
                }
                self.documents.set(j, (id, text));
                assert(self.docs() =~= d.update(j as int, (doc_id@, text@)));
                assert forall|a: int, b: int| 0 <= a < b < self.docs().len() implies #[trigger] self.docs()[a].0
                    != #[trigger] self.docs()[b].0 by {
                    assert(d[j as int].0 == doc_id@);
                }
            },
            None => {
                self.documents.push((id, text));
                assert(self.docs() =~= d.push((doc_id@, text@)));
                assert forall|a: int, b: int| 0 <= a < b < self.docs().len() implies #[trigger] self.docs()[a].0
                    != #[trigger] self.docs()[b].0 by {
                    if b == d.len() {
                        lemma_position_absent(d, doc_id@, 0, a);
                    }
                }
            },
        }
    }

    /// Stores `content`, normalized, under `doc_id`, replacing any document
    /// of that name.
    pub fn add_document(&mut self, doc_id: &str, content: &str)
        requires
            old(self).wf(),
        ensures
            final(self).wf(),
            final(self).docs() == store_put(old(self).docs(), doc_id@, normalized(content@)),
            final(self).processed() == old(self).processed(),
    {
        let text = normalize(content);
        proof {
            crate::text::lemma_normalize_idempotent(content@);
        }
        self.put_normalized(doc_id, text);
    }

    /// Ingests the outcome of text extraction from the PDF at `pdf_path`.
    /// On success the normalized text is stored under that path, becomes the
    /// text that `retrieve` searches, and is returned; on failure the error
    /// is handed back and nothing changes.
    pub fn add_pdf_document(&mut self, pdf_path: &str, extracted: Result<String, ExtractionError>) -> (r:
        Result<String, ExtractionError>)
        requires
            old(self).wf(),
        ensures
            final(self).wf(),
            final(self).processed() == after_ingest(old(self).processed(), extracted_chars(extracted)),
            match extracted {
                Ok(raw) => {
                    &&& r matches Ok(t) && t@ == normalized(raw@)
                    &&& final(self).docs() == store_put(old(self).docs(), pdf_path@, normalized(raw@))
                    &&& final(self).processed() == Some(normalized(raw@))
                },
                Err(e) => r == Err::<String, ExtractionError>(e) && final(self).docs() == old(self).docs()
                    && final(self).processed() == old(self).processed(),
            },
    {
        match extracted {
            Ok(raw) => {
                let text = normalize(raw.as_str());
                proof {
                    crate::text::lemma_normalize_idempotent(raw@);
                }
                self.put_normalized(pdf_path, text.clone());
                self.processed_text = Some(text.clone());
                Ok(text)
            },
            Err(e) => Err(e),
        }
    }

    /// The context around the first query keyword found in the last ingested
    /// text: empty when that text is empty or holds no keyword.
    pub fn retrieve(&self, query: &str) -> (r: Result<String, RetrievalError>)
        ensures
            match self.processed() {
                None => r == Err::<String, RetrievalError>(RetrievalError::NoProcessedDocument),
                Some(t) => r matches Ok(c) && encode_utf8(c@) == retrieval(t, query@),
            },
            match r {
                Ok(c) => retrieve_result(self.processed(), query@) == Ok::<Seq<u8>, RetrievalError>(
                    encode_utf8(c@),
                ),
                Err(e) => retrieve_result(self.processed(), query@) == Err::<Seq<u8>, RetrievalError>(e),
            },
    {
        match &self.processed_text {
            None => Err(RetrievalError::NoProcessedDocument),
            Some(content) => {
                if content.as_str().is_empty() {
                    return Ok(String::new());
                }
                let query_lower = to_lower(query);
                let keywords = split_words(query_lower.as_str());
                let content_lower = to_lower(content.as_str());
                let c = locate_context(content.as_str(), content_lower.as_str(), &keywords);
                assert(keywords@.map_values(|w: String| encode_utf8(w@)) =~= words(
                    lower_of(query@),
                ).map_values(|w: Seq<char>| encode_utf8(w)));
                Ok(c)
            },
        }
    }

    /// The images of the document's pages, decoded from the XObjects that
    /// their resources name.
    pub fn retrieve_images(&self, doc: &PdfDocument) -> (r: Vec<PageImage>)
        ensures
            r@.map_values(|p: PageImage| p.record()) == doc_images(*doc, doc.pages@),
    {
        extract_page_images(doc)
    }

    /// The identifiers of the `top_k` documents in which the case-folded
    /// query occurs most often, best first, leaving out those where it does
    /// not occur; ties keep store order.
    pub fn retrieve_ranked(&self, query: &str, top_k: usize) -> (r: Vec<String>)
        ensures
            exists|ix: Seq<usize>|
                {
                    &&& is_ranking(doc_scores(self.docs(), query@), top_k, ix)
                    &&& r@.len() == ix.len()
                    &&& forall|j: int| 0 <= j < ix.len() ==> (#[trigger] r@[j])@ == self.docs()[ix[j] as int].0
                },
    {
        let q = to_lower(query);
        let mut scores: Vec<usize> = Vec::new();
        let mut i: usize = 0;
        while i < self.documents.len()
            invariant
                i <= self.documents@.len(),
                q@ == lower_of(query@),
                scores@.len() == i,
                forall|j: int| 0 <= j < i ==> #[trigger] scores@[j] == doc_scores(self.docs(), query@)[j],
            decreases self.documents@.len() - i,
        {
            let folded = to_lower(self.documents[i].1.as_str());
            let sc = occurrence_score(folded.as_str(), q.as_str());
            scores.push(sc);
            i = i + 1;
        }
        assert(scores@ =~= doc_scores(self.docs(), query@));
        let ix = rank_by_score(&scores, top_k);
        let mut out: Vec<String> = Vec::new();
        let mut j: usize = 0;
        while j < ix.len()
            invariant
                j <= ix@.len(),
                out@.len() == j,
                is_ranking(scores@, top_k, ix@),
                scores@.len() == self.documents@.len(),
                forall|l: int| 0 <= l < j ==> (#[trigger] out@[l])@ == self.docs()[ix@[l] as int].0,
            decreases ix@.len() - j,
        {
            let id = self.documents[ix[j]].0.clone();
            out.push(id);
            j = j + 1;
        }
        out
    }
}

proof fn lemma_first_hit_none(folded: Seq<u8>, kws: Seq<Seq<u8>>, i: int)
    requires
        forall|j: int| 0 <= j < kws.len() ==> find_from(folded, #[trigger] kws[j], 0) is None,
    ensures
        first_hit(folded, kws, i) is None,
    decreases kws.len() - i,
{
    if 0 <= i < kws.len() {
        lemma_first_hit_none(folded, kws, i + 1);
    }
}

/// When no word of the query occurs in the case-folded stored text,
/// retrieval gives the empty context, which `retrieve` returns as success.
pub proof fn lemma_no_keyword_no_context(stored: Seq<char>, query: Seq<char>)
    requires
        forall|j: int|
            0 <= j < words(lower_of(query)).len() ==> find_from(
                encode_utf8(lower_of(stored)),
                encode_utf8(#[trigger] words(lower_of(query))[j]),
                0,
            ) is None,
    ensures
        retrieval(stored, query) == Seq::<u8>::empty(),
        retrieve_result(Some(stored), query) == Ok::<Seq<u8>, RetrievalError>(Seq::empty()),
{
    let kws = words(lower_of(query)).map_values(|w: Seq<char>| encode_utf8(w));
    lemma_first_hit_none(encode_utf8(lower_of(stored)), kws, 0);
}

/// In valid UTF-8 a character boundary lies at most three bytes below any
/// position.
proof fn lemma_boundary_near(b: Seq<u8>, i: int)
    requires
        valid_utf8(b),
        0 <= i <= b.len(),
    ensures
        exists|j: int| i - 3 <= j <= i && 0 <= j && is_char_boundary(b, j),
    decreases b.len(),
{
    if i <= 3 {
        assert(is_char_boundary(b, 0));
    } else {
        let n = length_of_first_scalar(b);
        let rest = pop_first_scalar(b);
        assert(1 <= n <= 4 && n <= b.len());
        assert(rest.len() == b.len() - n);
        lemma_boundary_near(rest, i - n);
        let j2 = choose|j: int| i - n - 3 <= j <= i - n && 0 <= j && is_char_boundary(rest, j);
        assert(is_char_boundary(b, j2 + n));
    }
}

proof fn lemma_snap_down_above(b: Seq<u8>, i: int, j: int)
    requires
        0 <= j <= i,
        is_char_boundary(b, j),
    ensures
        j <= snap_down(b, i) <= i,
    decreases i,
{
    if i > 0 && !is_char_boundary(b, i) {
        lemma_snap_down_above(b, i - 1, j);
    }
}

proof fn lemma_snap_up_below(b: Seq<u8>, i: int, hi: int, j: int)
    requires
        i <= j <= hi,
        is_char_boundary(b, j),
    ensures
        i <= snap_up(b, i, hi) <= j,
    decreases hi - i,
{
    if i < hi && !is_char_boundary(b, i) {
        lemma_snap_up_below(b, i + 1, hi, j);
    }
}

/// The context around a keyword found at byte `p` of the folded text: it is
/// the stored text's bytes `[s, e)`, with `e <= min(L, p + k + radius)`.
/// Where the match ends inside the stored text, also `s >= max(0, p -
/// radius)`; where it lies there on character boundaries (as when folding
/// keeps byte positions), the context holds the stored text's bytes of the
/// match.
pub proof fn lemma_context_bounds(stored: Seq<char>, query: Seq<char>, i: int, p: int)
    requires
        stored.len() > 0,
        first_hit(
            encode_utf8(lower_of(stored)),
            words(lower_of(query)).map_values(|w: Seq<char>| encode_utf8(w)),
            0,
        ) == Some((i, p)),
    ensures
        ({
            let t = encode_utf8(stored);
            let k = encode_utf8(words(lower_of(query))[i]).len() as int;
            let (s, e) = window(t, p, k);
            &&& retrieval(stored, query) == t.subrange(s, e)
            &&& 0 <= s <= e <= min_int(t.len() as int, p + k + CONTEXT_RADIUS)
            &&& p + k <= t.len() ==> max_int(0, p - CONTEXT_RADIUS) <= s
            &&& (p + k <= t.len() && is_char_boundary(t, p) && is_char_boundary(t, p + k)) ==> {
                &&& s <= p
                &&& p + k <= e
                &&& retrieval(stored, query).subrange(p - s, p + k - s) == t.subrange(p, p + k)
            }
        }),
{
    let t = encode_utf8(stored);
    let kws = words(lower_of(query)).map_values(|w: Seq<char>| encode_utf8(w));
    lemma_first_hit_range(encode_utf8(lower_of(stored)), kws, 0);
    let k = kws[i].len() as int;
    assert(kws[i] == encode_utf8(words(lower_of(query))[i]));
    let e0 = min_int(t.len() as int, p + k + CONTEXT_RADIUS);
    let s0 = min_int(max_int(0, p - CONTEXT_RADIUS), e0);
    assert(is_char_boundary(t, 0));
    lemma_snap_down_above(t, e0, 0);
    let e = snap_down(t, e0);
    crate::search::lemma_snap_up(t, min_int(s0, e), e);
    if p + k <= t.len() {
        lemma_boundary_near(t, e0);
        let j = choose|j: int| e0 - 3 <= j <= e0 && 0 <= j && is_char_boundary(t, j);
        lemma_snap_down_above(t, e0, j);
    }
    if p + k <= t.len() && is_char_boundary(t, p) && is_char_boundary(t, p + k) {
        lemma_snap_down_above(t, e0, p + k);
        lemma_snap_up_below(t, min_int(s0, e), e, p);
        let (s, e) = window(t, p, k);
        assert(t.subrange(s, e).subrange(p - s, p + k - s) =~= t.subrange(p, p + k));
    }
}

proof fn lemma_first_hit_range(folded: Seq<u8>, kws: Seq<Seq<u8>>, i: int)
    ensures
        first_hit(folded, kws, i) matches Some((j, p)) ==> 0 <= j < kws.len() && 0 <= p,
    decreases kws.len() - i,
{
    if 0 <= i < kws.len() {
        crate::search::lemma_find_from_occurs(folded, kws[i], 0);
        lemma_first_hit_range(folded, kws, i + 1);
    }
}

/// Before any ingestion retrieval fails with `NoProcessedDocument`; after a
/// failed ingestion followed by a successful one, it answers from the
/// successful one's text alone.
pub proof fn lemma_retrieve_tracks_last_success(
    failure: ExtractionError,
    raw: Seq<char>,
    query: Seq<char>,
)
    ensures
        retrieve_result(None, query) == Err::<Seq<u8>, RetrievalError>(
            RetrievalError::NoProcessedDocument,
        ),
        retrieve_result(after_ingest(after_ingest(None, Err(failure)), Ok(raw)), query) == Ok::<
            Seq<u8>,
            RetrievalError,
        >(retrieval(normalized(raw), query)),
{
}

proof fn lemma_position_found(d: Seq<(Seq<char>, Seq<char>)>, id: Seq<char>, i: int)
    ensures
        position_of(d, id, i) matches Some(j) ==> i <= j < d.len() && d[j].0 == id,
    decreases d.len() - i,
{
    if 0 <= i < d.len() && d[i].0 != id {
        lemma_position_found(d, id, i + 1);
    }
}

proof fn lemma_position_absent(d: Seq<(Seq<char>, Seq<char>)>, id: Seq<char>, i: int, a: int)
    requires
        position_of(d, id, i) is None,
        0 <= i <= a < d.len(),
    ensures
        d[a].0 != id,
    decreases a - i,
{
    if i < a {
        lemma_position_absent(d, id, i + 1, a);
    }
}

} // verus!
