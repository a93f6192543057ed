use dirsearch::{Index, IndexBuilder, SearchEngine, StopWords};

fn built_index(dir: &tempfile::TempDir, pages: &[(&str, &str, usize)]) -> Index {
    let index = Index::new(dir.path().to_str().unwrap()).unwrap();
    let mut b = IndexBuilder::new(
        dir.path().to_str().unwrap().to_string(),
        StopWords::new(Vec::new()),
        index,
        false,
    );
    for (f, t, p) in pages {
        b.add_page(&f.to_string(), &t.to_string(), *p).unwrap();
    }
    b.into_index()
}

#[test]
fn single_token_score_is_occurrence_ratio() {
    // "Cats chase cats.": querying "cat" scores 2/2, querying "chase" 1/1
    let tmp = tempfile::tempdir().unwrap();
    let index = built_index(&tmp, &[("doc.pdf", "Cats chase cats.", 1)]);
    let engine = SearchEngine::new(&index);

    let results = engine.search("cat").unwrap();
    assert_eq!(results.len(), 1);
    assert_eq!(results[0].0.file_name, "doc.pdf");
    assert_eq!(results[0].0.page_number, 1);
    let s = results[0].1;
    assert_eq!(s.num, s.den);

    let results = engine.search("chase").unwrap();
    assert_eq!(results.len(), 1);
    let s = results[0].1;
    assert_eq!(s.num, s.den);
}

#[test]
fn scores_add_across_tokens() {
    // querying "cat chase" scores 2/2 + 1/1 = 2 for the only page
    let tmp = tempfile::tempdir().unwrap();
    let index = built_index(&tmp, &[("doc.pdf", "Cats chase cats.", 1)]);
    let engine = SearchEngine::new(&index);
    let results = engine.search("cat chase").unwrap();
    assert_eq!(results.len(), 1);
    let s = results[0].1;
    assert_eq!(s.num, 2 * s.den);
}

#[test]
fn unknown_keyword_gives_empty_list() {
    let tmp = tempfile::tempdir().unwrap();
    let index = built_index(&tmp, &[("doc.pdf", "Cats chase cats.", 1)]);
    let engine = SearchEngine::new(&index);
    let results = engine.search("walrus").unwrap();
    assert!(results.is_empty());
}

#[test]
fn results_are_ranked_best_first() {
    let tmp = tempfile::tempdir().unwrap();
    let index = built_index(
        &tmp,
        &[("strong.pdf", "cat cat cat dog", 1), ("weak.pdf", "cat dog dog dog", 1)],
    );
    let engine = SearchEngine::new(&index);
    let results = engine.search("cat").unwrap();
    assert_eq!(results.len(), 2);
    assert_eq!(results[0].0.file_name, "strong.pdf");
    assert_eq!(results[1].0.file_name, "weak.pdf");
    // 3/4 then 1/4
    let a = results[0].1;
    let b = results[1].1;
    assert_eq!(4 * a.num, 3 * a.den);
    assert_eq!(4 * b.num, b.den);
}

#[test]
fn repeated_query_token_counts_twice() {
    // each occurrence of a query token contributes independently
    let tmp = tempfile::tempdir().unwrap();
    let index = built_index(&tmp, &[("doc.pdf", "cat", 1)]);
    let engine = SearchEngine::new(&index);
    let results = engine.search("cat cat").unwrap();
    assert_eq!(results.len(), 1);
    let s = results[0].1;
    assert_eq!(s.num, 2 * s.den);
}

#[test]
fn stop_words_match_nothing_in_queries() {
    // the builder dropped the stop word, so the query token finds nothing
    let tmp = tempfile::tempdir().unwrap();
    let the = dirsearch::keywords::get_query_keywords("the").remove(0);
    let index = Index::new(tmp.path().to_str().unwrap()).unwrap();
    let mut b = IndexBuilder::new(
        tmp.path().to_str().unwrap().to_string(),
        StopWords::new(vec![the]),
        index,
        false,
    );
    b.add_page(&"d.pdf".to_string(), &"the cat".to_string(), 1).unwrap();
    let index = b.into_index();
    let engine = SearchEngine::new(&index);
    assert!(engine.search("the").unwrap().is_empty());
    assert_eq!(engine.search("cat").unwrap().len(), 1);
}

#[test]
fn query_over_multiple_pages_aggregates_per_page() {
    let tmp = tempfile::tempdir().unwrap();
    let index = built_index(
        &tmp,
        &[("a.pdf", "red fish", 1), ("a.pdf", "red red fish fish fish", 2)],
    );
    let engine = SearchEngine::new(&index);
    let results = engine.search("red fish").unwrap();
    assert_eq!(results.len(), 2);
    // page 2: red 2/3 + fish 3/4 = 17/12; page 1: red 1/3 + fish 1/4 = 7/12
    let best = results[0].1;
    let worst = results[1].1;
    assert_eq!(results[0].0.page_number, 2);
    assert_eq!(12 * best.num, 17 * best.den);
    assert_eq!(12 * worst.num, 7 * worst.den);
}

#[test]
fn empty_query_gives_empty_list() {
    let tmp = tempfile::tempdir().unwrap();
    let index = built_index(&tmp, &[("doc.pdf", "cat", 1)]);
    let engine = SearchEngine::new(&index);
    assert!(engine.search("").unwrap().is_empty());
    assert!(engine.search("   \t  ").unwrap().is_empty());
}

#[test]
fn diverged_store_is_a_consistency_error() {
    // postings that score a page with no page record are a fatal
    // consistency violation, not a silent miss
    let tmp = tempfile::tempdir().unwrap();
    let mut index = Index::new(tmp.path().to_str().unwrap()).unwrap();
    index
        .add_rev_index(&"CAT".to_string(), dirsearch::RevIndexRecord::new(1, vec![(42, 1)]))
        .unwrap();
    let engine = SearchEngine::new(&index);
    assert_eq!(engine.search("cat").unwrap_err(), dirsearch::Error::Consistency);
}

#[test]
fn zero_total_posting_is_a_consistency_error() {
    // a record that lists pages under a zero total cannot be scored; no
    // build writes one, so meeting it means the store has diverged
    let tmp = tempfile::tempdir().unwrap();
    let mut index = Index::new(tmp.path().to_str().unwrap()).unwrap();
    index
        .add_rev_index(&"CAT".to_string(), dirsearch::RevIndexRecord::new(0, vec![(7, 2)]))
        .unwrap();
    let engine = SearchEngine::new(&index);
    assert_eq!(engine.search("cat").unwrap_err(), dirsearch::Error::Consistency);
}
