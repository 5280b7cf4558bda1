use unindent::Unindent;
use vector_store::{
    dot, EmbeddingProvider, CodeContextRetriever, Document, FakeEmbeddingProvider, ParseError, SearchError,
    SourceFile, VectorStore,
};

fn file(worktree_id: u64, path: &str, content: &str) -> SourceFile {
    SourceFile {
        worktree_id,
        path: path.as_bytes().to_vec(),
        content: content.as_bytes().to_vec(),
    }
}

fn file1_text() -> String {
    "
    fn aaa() {
        println!(\"aaaa!\");
    }

    fn zzzzzzzzz() {
        println!(\"SLEEPING\");
    }
    "
    .unindent()
}

fn file2_text() -> String {
    "
    fn bbb() {
        println!(\"bbbb!\");
    }
    "
    .unindent()
}

fn file2_changed_text() -> String {
    "
    fn dddd() { println!(\"ddddd!\"); }
    struct pqpqpqp {}
    "
    .unindent()
}

#[test]
fn test_vector_store() {
    let mut store = VectorStore::new(8);
    let mut embedding_provider = FakeEmbeddingProvider::new();
    let worktree_id: u64 = 7;
    let project: u64 = 1;

    let files = vec![
        file(worktree_id, "src/file1.rs", &file1_text()),
        file(worktree_id, "src/file2.rs", &file2_text()),
    ];
    let file_count = store.index_project(project, &files, &mut embedding_provider);
    assert_eq!(file_count, 2);
    assert_eq!(store.remaining_files_to_index_for_project(project), Some(0));

    let search_results = store
        .search_project(project, &b"aaaa".to_vec(), 5, &mut embedding_provider)
        .unwrap();
    assert_eq!(search_results[0].range_start, 0);
    assert_eq!(search_results[0].name, b"aaa".to_vec());
    assert_eq!(search_results[0].worktree_id, worktree_id);

    // Edit exactly one file: only that file is reselected, and only its
    // spans are embedded again.
    let files = vec![
        file(worktree_id, "src/file1.rs", &file1_text()),
        file(worktree_id, "src/file2.rs", &file2_changed_text()),
    ];
    let prev_embedding_count = embedding_provider.embedding_count();
    let file_count = store.index_project(project, &files, &mut embedding_provider);
    assert_eq!(file_count, 1);
    assert_eq!(store.remaining_files_to_index_for_project(project), Some(0));
    assert_eq!(embedding_provider.embedding_count() - prev_embedding_count, 2);
}

#[test]
fn test_code_context_retrieval() {
    let retriever = CodeContextRetriever::new();

    let text = "
        /// A doc comment
        /// that spans multiple lines
        fn a() {
            b
        }

        impl C for D {
        }
    "
    .unindent();

    let parsed_files = retriever
        .parse_file(&b"foo.rs".to_vec(), &text.as_bytes().to_vec())
        .unwrap();

    assert_eq!(
        parsed_files,
        vec![
            Document {
                name: b"a".to_vec(),
                range_start: 0,
                range_end: text.find('}').unwrap() + 1,
                content: "
                    The below code snippet is from file 'foo.rs'

                    ```rust
                    /// A doc comment
                    /// that spans multiple lines
                    fn a() {
                        b
                    }
                    ```"
                .unindent()
                .into_bytes(),
                embedding: vec![],
            },
            Document {
                name: b"C for D".to_vec(),
                range_start: text.find("impl C").unwrap(),
                range_end: text.rfind('}').unwrap() + 1,
                content: "
                    The below code snippet is from file 'foo.rs'

                    ```rust
                    impl C for D {
                    }
                    ```"
                .unindent()
                .into_bytes(),
                embedding: vec![],
            }
        ]
    );
}

#[test]
fn test_parse_file_rejects_unknown_language() {
    let retriever = CodeContextRetriever::new();
    let r = retriever.parse_file(&b"notes.txt".to_vec(), &b"fn a() {}".to_vec());
    assert_eq!(r, Err(ParseError::GrammarUnavailable));
}

#[test]
fn test_extraction_is_deterministic() {
    let retriever = CodeContextRetriever::new();
    let text = file1_text().into_bytes();
    let a = retriever.parse_file(&b"file1.rs".to_vec(), &text).unwrap();
    let b = retriever.parse_file(&b"file1.rs".to_vec(), &text).unwrap();
    assert_eq!(a, b);
    for w in a.windows(2) {
        assert!(w[0].range_start <= w[1].range_start);
    }
    for d in &a {
        assert!(d.range_start < d.range_end);
        assert!(d.range_end <= text.len());
        assert_eq!(&text[d.range_start..d.range_end], {
            let body = &d.content[d.content.len() - 4 - (d.range_end - d.range_start)
                ..d.content.len() - 4];
            body
        });
    }
}

#[test]
fn test_dot_product() {
    assert_eq!(dot(&vec![1, 0, 0, 0, 0], &vec![0, 1, 0, 0, 0]), 0);
    assert_eq!(dot(&vec![2, 0, 0, 0, 0], &vec![3, 1, 0, 0, 0]), 6);

    let mut seed: u64 = 12345;
    let mut next = || {
        seed = seed.wrapping_mul(6364136223846793005).wrapping_add(1442695040888963407);
        ((seed >> 33) % 2001) as i64 - 1000
    };
    for _ in 0..100 {
        let size = 1536;
        let mut a = vec![0i64; size];
        let mut b = vec![0i64; size];
        for i in 0..size {
            a[i] = next();
            b[i] = next();
        }
        let reference: i64 = a.iter().zip(b.iter()).map(|(x, y)| x * y).sum();
        assert_eq!(dot(&a, &b), reference);
    }
}

#[test]
fn test_dot_product_commutative_concrete() {
    let a = vec![3, -2, 7, 0];
    let b = vec![1, 5, -4, 9];
    assert_eq!(dot(&a, &b), dot(&b, &a));
    // Additivity in the first argument.
    let c: Vec<i64> = a.iter().zip(b.iter()).map(|(x, y)| x + y).collect();
    let q = vec![2, 2, 2, 2];
    assert_eq!(dot(&c, &q), dot(&a, &q) + dot(&b, &q));
    // Homogeneity in the first argument.
    let k = 3i64;
    let ka: Vec<i64> = a.iter().map(|x| k * x).collect();
    assert_eq!(dot(&ka, &b), k * dot(&a, &b));
    // A vector is never anti-similar to itself.
    assert!(dot(&a, &a) >= 0);
}

#[test]
fn test_fake_embedding_is_unit_length() {
    let mut provider = FakeEmbeddingProvider::new();
    let spans = vec![b"aaaa".to_vec()];
    let embs = provider.embed_batch(&spans).unwrap();
    assert_eq!(embs.len(), 1);
    assert_eq!(embs[0].len(), 26);
    // The embedding is normalized in fixed point: its self-similarity is
    // the square of the scale, within truncation error.
    let self_sim = dot(&embs[0], &embs[0]);
    assert!(self_sim > 900_000 && self_sim < 1_100_000, "{self_sim}");
    // Determinism: the same span embeds to the same vector.
    let again = provider.embed_batch(&spans).unwrap();
    assert_eq!(embs, again);
}

#[test]
fn test_search_ranking_two_projects() {
    let mut store = VectorStore::new(8);
    let mut provider = FakeEmbeddingProvider::new();
    store.index_project(1, &vec![file(1, "a.rs", &file1_text())], &mut provider);
    store.index_project(2, &vec![file(2, "b.rs", &file2_changed_text())], &mut provider);

    let r1 = store.search_project(1, &b"aaaa".to_vec(), 5, &mut provider).unwrap();
    assert_eq!(r1[0].name, b"aaa".to_vec());
    assert_eq!(r1[0].range_start, 0);
    let r2 = store.search_project(2, &b"aaaa".to_vec(), 5, &mut provider).unwrap();
    // Project 2 never returns project 1's documents.
    for r in &r2 {
        assert_eq!(r.worktree_id, 2);
    }
}

#[test]
fn test_deleted_file_not_searched() {
    let mut store = VectorStore::new(8);
    let mut provider = FakeEmbeddingProvider::new();
    let project: u64 = 3;
    let both = vec![
        file(9, "src/file1.rs", &file1_text()),
        file(9, "src/file2.rs", &file2_text()),
    ];
    assert_eq!(store.index_project(project, &both, &mut provider), 2);
    let hits = store.search_project(project, &b"bbbb".to_vec(), 10, &mut provider).unwrap();
    assert!(hits.iter().any(|r| r.name == b"bbb".to_vec()));

    // Remove file2 from the enumeration: its documents disappear.
    let only_first = vec![file(9, "src/file1.rs", &file1_text())];
    assert_eq!(store.index_project(project, &only_first, &mut provider), 0);
    let hits = store.search_project(project, &b"bbbb".to_vec(), 10, &mut provider).unwrap();
    assert!(hits.iter().all(|r| r.name != b"bbb".to_vec()));
}

#[test]
fn test_empty_index_returns_empty() {
    let mut store = VectorStore::new(8);
    let mut provider = FakeEmbeddingProvider::new();
    let project: u64 = 4;
    assert_eq!(store.index_project(project, &vec![], &mut provider), 0);
    assert_eq!(store.remaining_files_to_index_for_project(project), Some(0));
    let hits = store.search_project(project, &b"anything".to_vec(), 5, &mut provider).unwrap();
    assert_eq!(hits, vec![]);
    // A project never submitted at all is not even registered.
    assert_eq!(store.remaining_files_to_index_for_project(99), None);
}

#[test]
fn test_invalid_limit() {
    let store = VectorStore::new(8);
    let mut provider = FakeEmbeddingProvider::new();
    let r = store.search_project(1, &b"q".to_vec(), 0, &mut provider);
    assert_eq!(r, Err(SearchError::InvalidLimit));
}

#[test]
fn test_embedding_failure_surfaces_and_retries() {
    let mut store = VectorStore::new(8);
    let mut provider = FakeEmbeddingProvider::new();
    let project: u64 = 5;
    provider.set_fail(true);

    // The failed file is still counted as selected, stays pending, and its
    // record is untouched.
    let files = vec![file(2, "src/file1.rs", &file1_text())];
    assert_eq!(store.index_project(project, &files, &mut provider), 1);
    assert_eq!(store.remaining_files_to_index_for_project(project), Some(1));

    // Search surfaces the embedding failure.
    let r = store.search_project(project, &b"aaaa".to_vec(), 5, &mut provider);
    assert_eq!(r, Err(SearchError::EmbeddingFailed));

    // The next pass reselects and commits the file.
    provider.set_fail(false);
    assert_eq!(store.index_project(project, &files, &mut provider), 1);
    assert_eq!(store.remaining_files_to_index_for_project(project), Some(0));
    let hits = store.search_project(project, &b"aaaa".to_vec(), 5, &mut provider).unwrap();
    assert_eq!(hits[0].name, b"aaa".to_vec());
}

#[test]
fn test_non_rust_files_skipped() {
    let mut store = VectorStore::new(8);
    let mut provider = FakeEmbeddingProvider::new();
    let files = vec![file(1, "README.txt", "fn aaa() {}")];
    assert_eq!(store.index_project(6, &files, &mut provider), 0);
    assert_eq!(store.remaining_files_to_index_for_project(6), Some(0));
}

#[test]
fn test_restart_keeps_records_but_not_registrations() {
    let mut store = VectorStore::new(8);
    let mut provider = FakeEmbeddingProvider::new();
    let project: u64 = 11;
    let files = vec![
        file(3, "src/file1.rs", &file1_text()),
        file(3, "src/file2.rs", &file2_text()),
    ];
    assert_eq!(store.index_project(project, &files, &mut provider), 2);

    // A new store over the same database, as after a process restart: the
    // committed records survive, but no project is registered.
    let mut reopened = VectorStore::open(store.db, 8);
    assert_eq!(reopened.remaining_files_to_index_for_project(project), None);

    // Resubmitting the unchanged project re-registers it without selecting
    // (or re-embedding) anything.
    let before = provider.embedding_count();
    assert_eq!(reopened.index_project(project, &files, &mut provider), 0);
    assert_eq!(provider.embedding_count(), before);
    assert_eq!(reopened.remaining_files_to_index_for_project(project), Some(0));
    let hits = reopened.search_project(project, &b"aaaa".to_vec(), 5, &mut provider).unwrap();
    assert_eq!(hits[0].name, b"aaa".to_vec());
}

#[test]
fn test_search_limit_truncates() {
    let mut store = VectorStore::new(8);
    let mut provider = FakeEmbeddingProvider::new();
    let project: u64 = 12;
    let files = vec![
        file(4, "src/file1.rs", &file1_text()),
        file(4, "src/file2.rs", &file2_text()),
    ];
    store.index_project(project, &files, &mut provider);

    let all = store.search_project(project, &b"aaaa".to_vec(), 10, &mut provider).unwrap();
    assert_eq!(all.len(), 3);
    // Ranked by descending similarity; ties by ascending range start.
    for w in all.windows(2) {
        assert!(w[0].score > w[1].score
            || (w[0].score == w[1].score && w[0].range_start <= w[1].range_start));
    }
    let top = store.search_project(project, &b"aaaa".to_vec(), 1, &mut provider).unwrap();
    assert_eq!(top.len(), 1);
    assert_eq!(top[0], all[0]);
}

#[test]
fn test_embed_empty_span_uniform() {
    let mut provider = FakeEmbeddingProvider::new();
    let embs = provider.embed_batch(&vec![Vec::new()]).unwrap();
    assert_eq!(embs.len(), 1);
    assert_eq!(embs[0].len(), 26);
    // With no letters all base weights are equal, so the normalized
    // components are all equal too.
    for c in &embs[0] {
        assert_eq!(*c, embs[0][0]);
    }
    assert_eq!(provider.embedding_count(), 1);
}

#[test]
fn test_search_with_embedding_matches_search() {
    let mut store = VectorStore::new(8);
    let mut provider = FakeEmbeddingProvider::new();
    store.index_project(1, &vec![file(1, "a.rs", &file1_text())], &mut provider);
    let q = provider.embed_batch(&vec![b"aaaa".to_vec()]).unwrap().remove(0);
    let via_embedding = store.search_with_embedding(1, &q, 5).unwrap();
    let via_query = store.search_project(1, &b"aaaa".to_vec(), 5, &mut provider).unwrap();
    assert_eq!(via_embedding, via_query);
}
