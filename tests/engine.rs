use readany::{
    chunk_chapter, dot_product, extract_chapters, keyword_score_of, folded_words, parse_metadata, parse_mode, rank,
    retry_delay, search, state_name, Chunk, ChunkConfig, ChunkKey, Coordinator, EpubChapter, RagError, RunState,
    SearchMode, VectorStore, EMBED_UNIT, SCORE_UNIT,
};

fn doc() -> String {
    "book-1".to_string()
}

fn plain_chunk(ch: usize, seq: usize, content: &str, embedding: Option<Vec<i32>>) -> Chunk {
    Chunk {
        document_id: doc(),
        key: ChunkKey { chapter_index: ch, sequence_index: seq },
        chapter_title: format!("Chapter {}", ch),
        content: content.to_string(),
        token_count: content.split_whitespace().count(),
        start_anchor: None,
        end_anchor: None,
        embedding,
    }
}

fn unit(dim: usize, axis: usize) -> Vec<i32> {
    let mut v = vec![0; dim];
    v[axis] = EMBED_UNIT;
    v
}

#[test]
fn put_then_scan_is_ordered_without_duplicates() {
    let mut store = VectorStore::new(2);
    let batch = vec![
        plain_chunk(1, 0, "c", None),
        plain_chunk(0, 1, "b", None),
        plain_chunk(0, 0, "a", None),
        plain_chunk(0, 1, "b again", Some(unit(2, 0))),
    ];
    store.put_chunks(&doc(), &batch);
    let got = store.scan(&doc());
    let keys: Vec<(usize, usize)> = got.iter().map(|c| (c.key.chapter_index, c.key.sequence_index)).collect();
    assert_eq!(keys, vec![(0, 0), (0, 1), (1, 0)]);
    assert_eq!(got[1].content, "b again");
    assert_eq!(store.count(&doc()), (3, 1));
    // a later write without embedding keeps the stored one
    store.put_chunks(&doc(), &vec![plain_chunk(0, 1, "b again", None)]);
    assert_eq!(store.scan(&doc())[1].embedding, Some(unit(2, 0)));
    assert!(store.scan(&"other".to_string()).is_empty());
}

#[test]
fn delete_document_removes_all_chunks() {
    let mut store = VectorStore::new(2);
    store.put_chunks(&doc(), &vec![plain_chunk(0, 0, "a", None), plain_chunk(0, 1, "b", None)]);
    let other = "book-2".to_string();
    let mut o = plain_chunk(0, 0, "z", None);
    o.document_id = other.clone();
    store.put_chunks(&other, &vec![o]);
    store.delete_document(&doc());
    assert!(store.scan(&doc()).is_empty());
    assert_eq!(store.count(&doc()), (0, 0));
    assert_eq!(store.scan(&other).len(), 1);
}

#[test]
fn semantic_top_three_of_five_with_tie() {
    let mut store = VectorStore::new(2);
    let h = EMBED_UNIT / 2;
    let batch = vec![
        plain_chunk(0, 0, "zero", Some(vec![0, EMBED_UNIT])),
        plain_chunk(0, 1, "one", Some(vec![h, h])),
        plain_chunk(0, 2, "two", Some(vec![EMBED_UNIT, 0])),
        plain_chunk(1, 0, "three", Some(vec![h, h])),
        plain_chunk(1, 1, "four", Some(vec![-EMBED_UNIT, 0])),
    ];
    store.put_chunks(&doc(), &batch);
    let q = vec![EMBED_UNIT, 0];
    let res = search(&store, &doc(), "anything", "semantic", 3, &q).unwrap();
    assert_eq!(res.len(), 3);
    assert_eq!(res[0].content, "two");
    assert_eq!(res[0].score, SCORE_UNIT);
    assert_eq!(res[1].content, "one");
    assert_eq!(res[2].content, "three");
    assert_eq!(res[1].score, res[2].score);
    assert_eq!(res[1].chunk_id, ChunkKey { chapter_index: 0, sequence_index: 1 });
    assert_eq!(res[0].chapter_title, "Chapter 0");
}

#[test]
fn semantic_search_skips_chunks_without_embedding() {
    let mut store = VectorStore::new(2);
    store.put_chunks(&doc(), &vec![plain_chunk(0, 0, "a", None), plain_chunk(0, 1, "b", None)]);
    let res = search(&store, &doc(), "a", "semantic", 5, &vec![EMBED_UNIT, 0]).unwrap();
    assert!(res.is_empty());
    let none = search(&store, &"never".to_string(), "a", "keyword", 5, &vec![]).unwrap();
    assert!(none.is_empty());
}

#[test]
fn keyword_unique_word_ranks_first() {
    let mut store = VectorStore::new(2);
    let batch = vec![
        plain_chunk(0, 0, "the cat sat on the mat", None),
        plain_chunk(0, 1, "a Zebra grazes quietly", None),
        plain_chunk(0, 2, "the dog sat too", None),
    ];
    store.put_chunks(&doc(), &batch);
    let res = search(&store, &doc(), "zebra", "keyword", 3, &vec![]).unwrap();
    assert_eq!(res.len(), 3);
    assert_eq!(res[0].content, "a Zebra grazes quietly");
    assert_eq!(res[0].score, SCORE_UNIT);
    assert_eq!(res[1].score, 0);
    assert_eq!(res[1].chunk_id.sequence_index, 0);
}

#[test]
fn hybrid_weights_and_fallback() {
    let mut store = VectorStore::new(2);
    store.put_chunks(
        &doc(),
        &vec![plain_chunk(0, 0, "red apple", Some(vec![EMBED_UNIT, 0])), plain_chunk(0, 1, "red pear", None)],
    );
    let res = search(&store, &doc(), "red apple", "hybrid", 2, &vec![EMBED_UNIT, 0]).unwrap();
    assert_eq!(res[0].score, 7 * SCORE_UNIT + 3 * SCORE_UNIT);
    assert_eq!(res[1].score, 10 * (SCORE_UNIT / 2));
}

#[test]
fn unknown_mode_is_rejected() {
    let store = VectorStore::new(2);
    assert!(matches!(search(&store, &doc(), "q", "fuzzy", 1, &vec![]), Err(RagError::InvalidSearchMode)));
    assert!(matches!(parse_mode("Semantic"), Err(RagError::InvalidSearchMode)));
    assert_eq!(parse_mode("semantic"), Ok(SearchMode::Semantic));
    assert_eq!(parse_mode("keyword"), Ok(SearchMode::Keyword));
    assert_eq!(parse_mode("hybrid"), Ok(SearchMode::Hybrid));
}

#[test]
fn keyword_score_is_share_of_query_words() {
    let q = folded_words("Apple BANANA");
    assert_eq!(q.len(), 2);
    assert_eq!(q[0], vec!['a', 'p', 'p', 'l', 'e']);
    assert_eq!(keyword_score_of(&q, &"an apple a day".to_string()), SCORE_UNIT / 2);
    assert_eq!(keyword_score_of(&q, &"Banana apple".to_string()), SCORE_UNIT);
    assert_eq!(keyword_score_of(&vec![], &"x".to_string()), 0);
}

#[test]
fn dot_product_exact() {
    assert_eq!(dot_product(&vec![1, 2, 3], &vec![4, -5, 6]), 4 - 10 + 18);
    assert_eq!(dot_product(&vec![EMBED_UNIT], &vec![-EMBED_UNIT]), -SCORE_UNIT);
}

#[test]
fn rank_orders_by_score_then_place() {
    let r = rank(vec![(5, 0), (9, 1), (5, 2), (7, 3)], 3);
    assert_eq!(r, vec![(9, 1), (7, 3), (5, 0)]);
    assert_eq!(rank(vec![(1, 0)], 4), vec![(1, 0)]);
}

#[test]
fn retry_policy() {
    assert_eq!(retry_delay(RagError::EmbeddingRateLimited, 0, 3, 100), Some(100));
    assert_eq!(retry_delay(RagError::EmbeddingRateLimited, 1, 3, 100), Some(200));
    assert_eq!(retry_delay(RagError::EmbeddingRateLimited, 2, 3, 100), None);
    assert_eq!(retry_delay(RagError::EmbeddingUnavailable, 0, 3, 100), None);
    assert_eq!(retry_delay(RagError::EmbeddingRateLimited, 70, 100, 1), Some(u64::MAX));
}

fn thousand_words() -> String {
    (0..1000).map(|i| format!("w{}", i)).collect::<Vec<_>>().join(" ")
}

fn run_to_end(co: &mut Coordinator, store: &mut VectorStore, id: &String) {
    loop {
        let batch = co.next_batch(store, id);
        if batch.is_empty() {
            break;
        }
        let vectors: Vec<Vec<i32>> = batch.iter().map(|_| unit(4, 1)).collect();
        co.batch_embedded(store, id, &batch, &vectors);
        let run = co.run(id).unwrap();
        if run.state != RunState::Embedding {
            break;
        }
    }
}

#[test]
fn end_to_end_vectorization() {
    let id = doc();
    let mut store = VectorStore::new(4);
    let mut co = Coordinator::new(ChunkConfig::standard(), 16);
    assert_eq!(co.get_vectorize_status(&store, &id).status, "idle");
    co.start_vectorization(&id).unwrap();
    let chapters = vec![EpubChapter { index: 0, title: "Only".to_string(), content: thousand_words() }];
    co.chapters_read(&mut store, &id, Ok(chapters));
    assert_eq!(co.run(&id).unwrap().state, RunState::Embedding);
    assert_eq!(co.run(&id).unwrap().total_chunks, 3);
    run_to_end(&mut co, &mut store, &id);
    let st = co.get_vectorize_status(&store, &id);
    assert_eq!(st.status, "complete");
    assert_eq!(st.total_chunks, 3);
    assert_eq!(st.processed_chunks, 3);
    assert_eq!(st.book_id, id);
    for c in store.scan(&id) {
        assert_eq!(c.embedding.as_ref().map(|e| e.len()), Some(4));
    }
}

#[test]
fn second_start_is_already_running() {
    let id = doc();
    let mut co = Coordinator::new(ChunkConfig::standard(), 16);
    assert_eq!(co.start_vectorization(&id), Ok(()));
    let before = co.run(&id);
    assert_eq!(co.start_vectorization(&id), Err(RagError::AlreadyRunning));
    assert_eq!(co.run(&id), before);
    assert_eq!(co.run(&id).unwrap().state, RunState::Chunking);
}

#[test]
fn cancel_mid_embedding_keeps_chunks() {
    let id = doc();
    let mut store = VectorStore::new(4);
    let mut co = Coordinator::new(ChunkConfig { max_chunk_tokens: 10, overlap_tokens: 0 }, 2);
    co.start_vectorization(&id).unwrap();
    let text = (0..50).map(|i| format!("t{}", i)).collect::<Vec<_>>().join(" ");
    co.chapters_read(&mut store, &id, Ok(vec![EpubChapter { index: 0, title: String::new(), content: text }]));
    let batch = co.next_batch(&store, &id);
    assert_eq!(batch.len(), 2);
    co.batch_embedded(&mut store, &id, &batch, &vec![unit(4, 0), unit(4, 1)]);
    co.cancel_vectorization(&id);
    assert!(co.run(&id).unwrap().cancel_requested);
    let batch = co.next_batch(&store, &id);
    co.batch_embedded(&mut store, &id, &batch, &vec![unit(4, 2), unit(4, 3)]);
    let run = co.run(&id).unwrap();
    assert_eq!(run.state, RunState::Cancelled);
    assert_eq!(run.processed_chunks, 4);
    let all = store.scan(&id);
    assert_eq!(all.len(), 5);
    assert_eq!(all.iter().filter(|c| c.embedding.is_some()).count(), 4);
    assert!(all[4].embedding.is_none());
    assert_eq!(state_name(run.state), "cancelled");
    // a new run resumes at embedding with the stored chunks
    co.start_vectorization(&id).unwrap();
    let text = (0..50).map(|i| format!("t{}", i)).collect::<Vec<_>>().join(" ");
    co.chapters_read(&mut store, &id, Ok(vec![EpubChapter { index: 0, title: String::new(), content: text }]));
    let run = co.run(&id).unwrap();
    assert_eq!(run.state, RunState::Embedding);
    assert_eq!(run.processed_chunks, 4);
}

#[test]
fn unreadable_document_fails_the_run() {
    let id = doc();
    let mut store = VectorStore::new(4);
    let mut co = Coordinator::new(ChunkConfig::standard(), 16);
    co.start_vectorization(&id).unwrap();
    co.chapters_read(&mut store, &id, Err(RagError::DocumentUnreadable));
    let run = co.run(&id).unwrap();
    assert_eq!(run.state, RunState::Failed);
    assert_eq!(run.error, Some(RagError::DocumentUnreadable));
    assert_eq!(co.get_vectorize_status(&store, &id).status, "failed");
}

#[test]
fn wrong_embeddings_fail_the_run() {
    let id = doc();
    let mut store = VectorStore::new(4);
    let mut co = Coordinator::new(ChunkConfig::standard(), 16);
    co.start_vectorization(&id).unwrap();
    co.chapters_read(&mut store, &id, Ok(vec![EpubChapter { index: 0, title: String::new(), content: "a b c".to_string() }]));
    let batch = co.next_batch(&store, &id);
    co.batch_embedded(&mut store, &id, &batch, &vec![vec![1, 2]]);
    let run = co.run(&id).unwrap();
    assert_eq!(run.state, RunState::Failed);
    assert_eq!(run.error, Some(RagError::EmbeddingInvalidInput));
    co.start_vectorization(&id).unwrap();
    co.chapters_read(&mut store, &id, Ok(vec![]));
    assert_eq!(co.run(&id).unwrap().state, RunState::Complete);
    assert!(store.scan(&id).is_empty());
}

#[test]
fn embedding_failure_is_recorded() {
    let id = doc();
    let mut store = VectorStore::new(4);
    let mut co = Coordinator::new(ChunkConfig::standard(), 16);
    co.start_vectorization(&id).unwrap();
    co.chapters_read(&mut store, &id, Ok(vec![EpubChapter { index: 0, title: String::new(), content: "x y".to_string() }]));
    co.batch_failed(&id, RagError::EmbeddingUnavailable);
    assert_eq!(co.run(&id).unwrap().error, Some(RagError::EmbeddingUnavailable));
    co.cancel_vectorization(&id);
    assert!(!co.run(&id).unwrap().cancel_requested);
}

#[test]
fn metadata_and_chapters_stubs() {
    let m = parse_metadata("book.epub").unwrap();
    assert!(m.title.is_empty() && m.author.is_empty() && m.subjects.is_empty());
    assert!(extract_chapters("book.epub").unwrap().is_empty());
    let c = chunk_chapter(&doc(), 0, &String::new(), &"one".to_string(), ChunkConfig::standard());
    assert_eq!(c.len(), 1);
}
