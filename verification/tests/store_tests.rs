use wiki_rag::store::VectorDatabase;
use wiki_rag::record::VectorDocument;
use wiki_rag::EMBED_DIM;

fn doc(id: &str, content: &str, url: &str, title: &str, head: [i64; 3]) -> VectorDocument {
    let mut embedding = vec![0i64; EMBED_DIM];
    embedding[0] = head[0];
    embedding[1] = head[1];
    embedding[2] = head[2];
    VectorDocument {
        id: id.to_string(),
        content: content.to_string(),
        source_url: url.to_string(),
        source_title: title.to_string(),
        embedding,
        metadata: vec![("source_type".to_string(), "wiki".to_string())],
    }
}

fn query(head: [i64; 3]) -> Vec<i64> {
    let mut q = vec![0i64; EMBED_DIM];
    q[0] = head[0];
    q[1] = head[1];
    q[2] = head[2];
    q
}

#[test]
fn fresh_fallback_store_is_empty() {
    let db = VectorDatabase::new_fallback().unwrap();
    db.initialize().unwrap();
    assert_eq!(db.count_documents().unwrap(), 0);
}

#[test]
fn inserting_a_batch_grows_the_count_by_its_size() {
    let mut db = VectorDatabase::new_fallback().unwrap();
    let docs = vec![
        doc("a0", "first", "test://1", "One", [1000, 0, 0]),
        doc("a1", "second", "test://1", "One", [0, 1000, 0]),
        doc("a2", "third", "test://2", "Two", [0, 0, 1000]),
    ];
    db.insert_documents(docs).unwrap();
    assert_eq!(db.count_documents().unwrap(), 3);

    // An empty batch is a no-op success.
    db.insert_documents(Vec::new()).unwrap();
    assert_eq!(db.count_documents().unwrap(), 3);

    // Re-inserting an existing id replaces, not duplicates.
    db.insert_documents(vec![doc("a1", "second again", "test://1", "One", [0, 900, 0])]).unwrap();
    assert_eq!(db.count_documents().unwrap(), 3);
}

#[test]
fn delete_by_source_removes_exactly_that_source() {
    let mut db = VectorDatabase::new_fallback().unwrap();
    db.insert_documents(vec![
        doc("b0", "first", "test://keep", "Keep", [1000, 0, 0]),
        doc("b1", "second", "test://drop", "Drop", [0, 1000, 0]),
        doc("b2", "third", "test://drop", "Drop", [0, 0, 1000]),
        doc("b3", "fourth", "test://keep", "Keep", [500, 500, 0]),
    ]).unwrap();
    assert_eq!(db.count_documents().unwrap(), 4);

    db.delete_by_source("test://drop").unwrap();
    assert_eq!(db.count_documents().unwrap(), 2);

    let remaining = db.search_similar(query([1000, 0, 0]), 10).unwrap();
    assert_eq!(remaining.len(), 2);
    for (d, _) in &remaining {
        assert_eq!(d.source_url, "test://keep");
    }
}

#[test]
fn three_records_ranked_by_similarity() {
    // Records with embeddings like [1,0,0], [0.8,0.6,0] and [0,0,1]; the
    // query [0.9,0.1,0] with limit 2 must return the first two, in that
    // order, both scoring far above the third.
    let mut db = VectorDatabase::new_fallback().unwrap();
    db.insert_documents(vec![
        doc("doc1", "How to craft a pickaxe", "test://wiki/crafting", "Crafting Guide", [1000, 0, 0]),
        doc("doc2", "Mining copper ore requires a pickaxe", "test://wiki/mining", "Mining Guide", [800, 600, 0]),
        doc("doc3", "Food preservation", "test://wiki/food", "Food Guide", [0, 0, 1000]),
    ]).unwrap();

    let results = db.search_similar(query([900, 100, 0]), 2).unwrap();
    assert_eq!(results.len(), 2);
    assert_eq!(results[0].0.id, "doc1");
    assert_eq!(results[1].0.id, "doc2");
    assert!(results[0].1 > results[1].1);
    assert!(results[0].1 > 800);
    assert!(results[1].1 > 800);

    let all = db.search_similar(query([900, 100, 0]), 10).unwrap();
    assert_eq!(all.len(), 3);
    assert_eq!(all[2].0.id, "doc3");
    assert!(results[1].1 > all[2].1);
    assert_eq!(all[2].1, 0);
}

#[test]
fn search_is_sorted_and_truncated() {
    let mut db = VectorDatabase::new_fallback().unwrap();
    let mut docs = Vec::new();
    for i in 0..6 {
        docs.push(doc(
            &format!("s{}", i),
            "text",
            "test://s",
            "S",
            [1000 - 100 * i as i64, 100 * i as i64, 0],
        ));
    }
    db.insert_documents(docs).unwrap();

    let results = db.search_similar(query([1000, 0, 0]), 4).unwrap();
    assert_eq!(results.len(), 4);
    for w in results.windows(2) {
        assert!(w[0].1 >= w[1].1);
    }

    let everything = db.search_similar(query([1000, 0, 0]), 100).unwrap();
    assert_eq!(everything.len(), 6);
}

#[test]
fn records_round_trip_through_the_store() {
    let mut db = VectorDatabase::new_fallback().unwrap();
    let source_doc = doc("rt", "round trip content", "test://rt", "Round Trip", [123, 456, 789]);
    db.insert_documents(vec![source_doc.clone()]).unwrap();
    let results = db.search_similar(query([123, 456, 789]), 1).unwrap();
    assert_eq!(results.len(), 1);
    let got = &results[0].0;
    assert_eq!(got.id, "rt");
    assert_eq!(got.content, "round trip content");
    assert_eq!(got.source_url, "test://rt");
    assert_eq!(got.source_title, "Round Trip");
    assert_eq!(got.embedding[0], 123);
    assert_eq!(got.embedding[1], 456);
    assert_eq!(got.embedding[2], 789);
    assert_eq!(got.metadata, vec![("source_type".to_string(), "wiki".to_string())]);
}
