use readany::{chunk, chunk_chapter, ChunkConfig, EpubChapter};

fn words_text(n: usize) -> String {
    let mut s = String::new();
    for i in 0..n {
        if i > 0 {
            s.push(' ');
        }
        s.push_str(&format!("w{}", i));
    }
    s
}

fn cfg(max: usize, overlap: usize) -> ChunkConfig {
    ChunkConfig { max_chunk_tokens: max, overlap_tokens: overlap }
}

#[test]
fn thousand_tokens_give_three_chunks() {
    let text = words_text(1000);
    let chunks = chunk_chapter(&"doc".to_string(), 0, &"One".to_string(), &text, ChunkConfig::standard());
    assert_eq!(chunks.len(), 3);
    assert_eq!(chunks[0].token_count, 512);
    assert_eq!(chunks[1].token_count, 512);
    assert_eq!(chunks[2].token_count, 104);
    assert!(chunks[0].content.starts_with("w0 "));
    assert!(chunks[1].content.starts_with("w448 "));
    assert!(chunks[2].content.starts_with("w896 "));
    assert!(chunks[2].content.ends_with("w999"));
    for (k, c) in chunks.iter().enumerate() {
        assert!(c.token_count <= 512);
        assert_eq!(c.key.sequence_index, k);
        assert_eq!(c.key.chapter_index, 0);
        assert!(c.embedding.is_none());
    }
}

#[test]
fn short_chapter_is_one_chunk() {
    let text = "  Hello there,\tworld!  ".to_string();
    let chunks = chunk_chapter(&"doc".to_string(), 2, &"T".to_string(), &text, cfg(10, 2));
    assert_eq!(chunks.len(), 1);
    assert_eq!(chunks[0].content, text);
    assert_eq!(chunks[0].token_count, 3);
    assert_eq!(chunks[0].chapter_title, "T");
    assert_eq!(chunks[0].key.chapter_index, 2);
}

#[test]
fn empty_chapter_gives_no_chunk() {
    let chunks = chunk_chapter(&"doc".to_string(), 0, &"T".to_string(), &String::new(), cfg(10, 2));
    assert!(chunks.is_empty());
}

#[test]
fn chunks_minus_overlaps_rebuild_the_text() {
    let text = "alpha beta  gamma\ndelta epsilon zeta eta theta iota kappa lambda".to_string();
    let chunks = chunk_chapter(&"doc".to_string(), 0, &String::new(), &text, cfg(4, 1));
    assert!(chunks.len() > 1);
    let mut rebuilt = chunks[0].content.clone();
    for c in &chunks {
        assert!(c.token_count >= 1 && c.token_count <= 4);
        assert!(!c.content.is_empty());
    }
    for w in chunks.windows(2) {
        let prev = &w[0].content;
        let next = &w[1].content;
        // the first token of the next chunk is the last token of the previous one
        let first_word_end = next.find(|ch: char| ch.is_whitespace()).unwrap();
        let mut overlap_len = first_word_end;
        while overlap_len < next.len() && next.as_bytes()[overlap_len].is_ascii_whitespace() {
            overlap_len += 1;
        }
        assert!(prev.ends_with(&next[..overlap_len]));
        rebuilt.push_str(&next[overlap_len..]);
    }
    assert_eq!(rebuilt, text);
}

#[test]
fn chunking_is_deterministic() {
    let chapters = vec![
        EpubChapter { index: 0, title: "A".to_string(), content: words_text(40) },
        EpubChapter { index: 1, title: "B".to_string(), content: words_text(7) },
    ];
    let a = chunk(&"doc".to_string(), &chapters, cfg(16, 4));
    let b = chunk(&"doc".to_string(), &chapters, cfg(16, 4));
    assert_eq!(a.len(), b.len());
    for (x, y) in a.iter().zip(b.iter()) {
        assert_eq!(x.content, y.content);
        assert_eq!(x.key, y.key);
        assert_eq!(x.token_count, y.token_count);
    }
    assert_eq!(a.last().unwrap().key.chapter_index, 1);
    assert_eq!(a.iter().filter(|c| c.key.chapter_index == 1).count(), 1);
}
