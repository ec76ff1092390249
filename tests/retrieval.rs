use decentralearn::pipeline::build_prompt;
use decentralearn::rank::rank_by_score;
use decentralearn::search::{count_bytes, find_bytes, locate_context};
use decentralearn::store::{occurrence_score, ExtractionError, RAGSystem, RetrievalError};
use decentralearn::text::normalize;

#[test]
fn normalize_collapses_and_trims() {
    assert_eq!(normalize("Hello   World\n\nFoo"), "Hello World Foo");
    assert_eq!(normalize("  \t a \r\n b  "), "a b");
    assert_eq!(normalize("a\u{00a0}\u{3000}b"), "a b");
}

#[test]
fn normalize_empty_and_blank() {
    assert_eq!(normalize(""), "");
    assert_eq!(normalize(" \n\t  "), "");
}

#[test]
fn normalize_is_idempotent_on_samples() {
    for s in ["", "   ", "x", " a  b\tc\n", "Hello   World\n\nFoo", "\u{2028}q\u{85}r "] {
        let once = normalize(s);
        assert_eq!(normalize(&once), once);
        assert!(!once.contains("  "));
        assert_eq!(once.trim(), once);
    }
}

#[test]
fn retrieve_before_ingestion_fails() {
    let rag = RAGSystem::new();
    assert_eq!(rag.retrieve("anything"), Err(RetrievalError::NoProcessedDocument));
}

#[test]
fn ingest_and_retrieve_whole_short_text() {
    let mut rag = RAGSystem::new();
    let stored = rag.add_pdf_document("doc.pdf", Ok("Hello   World\n\nFoo".to_string()));
    assert_eq!(stored, Ok("Hello World Foo".to_string()));
    assert_eq!(rag.retrieve("world"), Ok("Hello World Foo".to_string()));
}

#[test]
fn retrieve_is_case_insensitive() {
    let mut rag = RAGSystem::new();
    rag.add_pdf_document("doc.pdf", Ok("alpha beta gamma".to_string())).unwrap();
    assert_eq!(rag.retrieve("BETA"), Ok("alpha beta gamma".to_string()));
}

#[test]
fn retrieve_without_keyword_match_is_empty() {
    let mut rag = RAGSystem::new();
    rag.add_pdf_document("doc.pdf", Ok("abc".to_string())).unwrap();
    assert_eq!(rag.retrieve("xyz zzz"), Ok(String::new()));
}

#[test]
fn retrieve_on_empty_text_is_empty() {
    let mut rag = RAGSystem::new();
    rag.add_pdf_document("doc.pdf", Ok("  \n ".to_string())).unwrap();
    assert_eq!(rag.retrieve("anything"), Ok(String::new()));
}

#[test]
fn failed_ingestion_keeps_previous_state() {
    let mut rag = RAGSystem::new();
    let r = rag.add_pdf_document("bad.pdf", Err(ExtractionError::Unreadable));
    assert_eq!(r, Err(ExtractionError::Unreadable));
    assert_eq!(rag.retrieve("x"), Err(RetrievalError::NoProcessedDocument));
    rag.add_pdf_document("good.pdf", Ok("first text".to_string())).unwrap();
    assert_eq!(rag.retrieve("first"), Ok("first text".to_string()));
    let r = rag.add_pdf_document("bad.pdf", Err(ExtractionError::Unreadable));
    assert_eq!(r, Err(ExtractionError::Unreadable));
    assert_eq!(rag.retrieve("first"), Ok("first text".to_string()));
}

#[test]
fn retrieve_follows_last_successful_ingestion() {
    let mut rag = RAGSystem::new();
    rag.add_pdf_document("a.pdf", Ok("old content".to_string())).unwrap();
    rag.add_pdf_document("b.pdf", Err(ExtractionError::Unreadable)).unwrap_err();
    rag.add_pdf_document("c.pdf", Ok("new content".to_string())).unwrap();
    assert_eq!(rag.retrieve("old"), Ok(String::new()));
    assert_eq!(rag.retrieve("new"), Ok("new content".to_string()));
}

#[test]
fn context_window_is_clipped_to_radius() {
    let text = format!("{}needle{}", "a".repeat(500), "b".repeat(500));
    let mut rag = RAGSystem::new();
    rag.add_pdf_document("doc.pdf", Ok(text.clone())).unwrap();
    let c = rag.retrieve("needle").unwrap();
    assert_eq!(c, text[200..806].to_string());
    assert_eq!(c.len(), 606);
}

#[test]
fn context_window_near_start() {
    let text = format!("xy needle {}", "c".repeat(400));
    let mut rag = RAGSystem::new();
    rag.add_pdf_document("doc.pdf", Ok(text.clone())).unwrap();
    let c = rag.retrieve("needle").unwrap();
    assert_eq!(c, text[0..309].to_string());
}

#[test]
fn first_keyword_in_query_order_wins() {
    let text = format!("first {} second", "z".repeat(700));
    let mut rag = RAGSystem::new();
    rag.add_pdf_document("doc.pdf", Ok(text.clone())).unwrap();
    let c = rag.retrieve("missing second first").unwrap();
    let p = text.find("second").unwrap();
    assert_eq!(c, text[p - 300..].to_string());
}

#[test]
fn context_window_ends_on_char_boundaries() {
    let text = format!("{}é{}key{}é{}", "a".repeat(10), "b".repeat(290), "c".repeat(298), "d");
    let mut rag = RAGSystem::new();
    rag.add_pdf_document("doc.pdf", Ok(text.clone())).unwrap();
    let p = text.find("key").unwrap();
    let c = rag.retrieve("key").unwrap();
    assert!(c.contains("key"));
    assert!(c.len() <= 303 + 300 * 2);
    let start = text.find(&c).unwrap();
    assert!(start >= p - 300);
    assert!(start + c.len() <= p + 3 + 300);
}

#[test]
fn locate_context_takes_window_from_original_text() {
    let c = locate_context("Hello World", "hello world", &vec!["world".to_string()]);
    assert_eq!(c, "Hello World");
    let c = locate_context("Hello World", "hello world", &vec!["none".to_string()]);
    assert_eq!(c, "");
}

#[test]
fn find_and_count_bytes() {
    assert_eq!(find_bytes(b"hello world", b"world"), Some(6));
    assert_eq!(find_bytes(b"hello", b"xyz"), None);
    assert_eq!(find_bytes(b"ab", b"abc"), None);
    assert_eq!(count_bytes(b"aaaa", b"aa"), 2);
    assert_eq!(count_bytes(b"cat cat dog", b"dog"), 1);
    assert_eq!(count_bytes(b"dog dog dog", b"dog"), 3);
}

#[test]
fn occurrence_score_of_empty_query() {
    assert_eq!(occurrence_score("abc", ""), 4);
    assert_eq!(occurrence_score("dog dog", "dog"), 2);
}

#[test]
fn ranked_retrieval_picks_best_document() {
    let mut rag = RAGSystem::new();
    rag.add_document("a", "cat cat dog");
    rag.add_document("b", "dog dog dog");
    assert_eq!(rag.retrieve_ranked("dog", 1), vec!["b".to_string()]);
    assert_eq!(rag.retrieve_ranked("DOG", 5), vec!["b".to_string(), "a".to_string()]);
}

#[test]
fn ranked_retrieval_skips_zero_scores_and_bounds_count() {
    let mut rag = RAGSystem::new();
    rag.add_document("a", "one two");
    rag.add_document("b", "two two");
    rag.add_document("c", "three");
    rag.add_document("d", "two");
    let r = rag.retrieve_ranked("two", 10);
    assert_eq!(r, vec!["b".to_string(), "a".to_string(), "d".to_string()]);
    assert_eq!(rag.retrieve_ranked("two", 2), vec!["b".to_string(), "a".to_string()]);
    assert_eq!(rag.retrieve_ranked("two", 0), Vec::<String>::new());
    assert_eq!(rag.retrieve_ranked("four", 3), Vec::<String>::new());
}

#[test]
fn add_document_replaces_same_identifier() {
    let mut rag = RAGSystem::new();
    rag.add_document("a", "dog");
    rag.add_document("b", "dog dog");
    rag.add_document("a", "dog  dog   dog");
    assert_eq!(rag.retrieve_ranked("dog", 5), vec!["a".to_string(), "b".to_string()]);
    assert_eq!(rag.retrieve_ranked("dog dog", 5), vec!["a".to_string(), "b".to_string()]);
}

#[test]
fn ranking_is_stable_on_ties() {
    assert_eq!(rank_by_score(&vec![2, 2, 0, 3], 10), vec![3, 0, 1]);
    assert_eq!(rank_by_score(&vec![0, 0], 3), Vec::<usize>::new());
    assert_eq!(rank_by_score(&vec![1, 5, 5, 2], 2), vec![1, 2]);
}

#[test]
fn prompt_template() {
    assert_eq!(build_prompt("", "What is Rust?"), "What is Rust?");
    assert_eq!(build_prompt("ctx", "q?"), "Context: ctx\n\nQuestion: q?");
}
