use dirsearch::{Index, IndexBuilder, StopWords};
use dirsearch::keywords::get_query_keywords;

fn builder_for(dir: &tempfile::TempDir, stops: Vec<String>) -> IndexBuilder {
    let index = Index::new(dir.path().to_str().unwrap()).unwrap();
    IndexBuilder::new(
        dir.path().to_str().unwrap().to_string(),
        StopWords::new(stops),
        index,
        false,
    )
}

#[test]
fn one_page_postings() {
    // a single one-page document reading "Cats chase cats."
    let tmp = tempfile::tempdir().unwrap();
    let mut b = builder_for(&tmp, Vec::new());
    b.add_page(&"doc.pdf".to_string(), &"Cats chase cats.".to_string(), 1).unwrap();

    let cat = get_query_keywords("cats").remove(0);
    assert_eq!(cat, "CAT");
    let chase = get_query_keywords("chase").remove(0);

    let index = b.into_index();
    let cat_rec = index.get_rev_index(&cat).unwrap().unwrap();
    assert_eq!(cat_rec.freq, 2);
    assert_eq!(cat_rec.sources.len(), 1);
    assert_eq!(cat_rec.sources[0].1, 2);

    let chase_rec = index.get_rev_index(&chase).unwrap().unwrap();
    assert_eq!(chase_rec.freq, 1);
    assert_eq!(chase_rec.sources.len(), 1);
    assert_eq!(chase_rec.sources[0].1, 1);
}

#[test]
fn page_record_written_per_extracted_page() {
    let tmp = tempfile::tempdir().unwrap();
    let mut b = builder_for(&tmp, Vec::new());
    b.add_page(&"a.pdf".to_string(), &"alpha".to_string(), 1).unwrap();
    b.add_page(&"a.pdf".to_string(), &"beta".to_string(), 2).unwrap();
    b.add_page(&"b.pdf".to_string(), &"gamma".to_string(), 1).unwrap();
    let dir = tmp.path().to_str().unwrap().to_string();
    let index = b.into_index();
    for (file, page) in [("a.pdf", 1), ("a.pdf", 2), ("b.pdf", 1)] {
        let src = dirsearch::Source::new(dir.clone(), file.to_string(), page);
        let got = index.get_source(&src.get_hash()).unwrap();
        assert_eq!(got, src);
    }
}

#[test]
fn empty_page_still_writes_page_record() {
    let tmp = tempfile::tempdir().unwrap();
    let mut b = builder_for(&tmp, Vec::new());
    b.add_page(&"e.pdf".to_string(), &"".to_string(), 1).unwrap();
    let dir = tmp.path().to_str().unwrap().to_string();
    let index = b.into_index();
    let src = dirsearch::Source::new(dir, "e.pdf".to_string(), 1);
    assert!(index.get_source(&src.get_hash()).is_ok());
}

#[test]
fn stop_words_are_not_indexed() {
    let tmp = tempfile::tempdir().unwrap();
    let the = get_query_keywords("the").remove(0);
    let mut b = builder_for(&tmp, vec![the.clone()]);
    b.add_page(&"d.pdf".to_string(), &"the cat".to_string(), 1).unwrap();
    let index = b.into_index();
    assert!(index.get_rev_index(&the).unwrap().is_none());
    assert!(index.get_rev_index("CAT").unwrap().is_some());
}

#[test]
fn multiple_pages_accumulate_counts() {
    let tmp = tempfile::tempdir().unwrap();
    let mut b = builder_for(&tmp, Vec::new());
    b.add_page(&"x.pdf".to_string(), &"cat cat".to_string(), 1).unwrap();
    b.add_page(&"x.pdf".to_string(), &"cat".to_string(), 2).unwrap();
    let index = b.into_index();
    let rec = index.get_rev_index("CAT").unwrap().unwrap();
    assert_eq!(rec.freq, 3);
    assert_eq!(rec.sources.len(), 2);
    let counts: Vec<usize> = rec.sources.iter().map(|p| p.1).collect();
    assert_eq!(counts, vec![2, 1]);
}

#[test]
fn rebuild_is_idempotent() {
    // indexing the same pages after a clear reproduces the records exactly
    let tmp = tempfile::tempdir().unwrap();
    let mut b = builder_for(&tmp, Vec::new());
    let pages = [("a.pdf", "cats chase cats", 1usize), ("b.pdf", "dogs chase cats", 1usize)];
    for (f, t, p) in pages {
        b.add_page(&f.to_string(), &t.to_string(), p).unwrap();
    }
    let mut first: Vec<(usize, Vec<(u64, usize)>)> = Vec::new();
    let keywords = ["CAT", "DOG", "CHASE"];
    {
        let index = &b.index;
        for kw in keywords {
            if let Some(rec) = index.get_rev_index(kw).unwrap() {
                first.push((rec.freq, rec.sources));
            }
        }
    }
    b.clear_index().unwrap();
    for (f, t, p) in pages {
        b.add_page(&f.to_string(), &t.to_string(), p).unwrap();
    }
    let mut second: Vec<(usize, Vec<(u64, usize)>)> = Vec::new();
    {
        let index = &b.index;
        for kw in keywords {
            if let Some(rec) = index.get_rev_index(kw).unwrap() {
                second.push((rec.freq, rec.sources));
            }
        }
    }
    assert!(!first.is_empty());
    assert_eq!(first, second);
}

#[test]
fn rebuild_clears_old_postings() {
    // after a clear and re-population, a keyword that only the dropped
    // document held returns no results
    let tmp = tempfile::tempdir().unwrap();
    let mut b = builder_for(&tmp, Vec::new());
    b.add_page(&"old.pdf".to_string(), &"zebra".to_string(), 1).unwrap();
    assert!(b.index.get_rev_index("ZEBRA").unwrap().is_some());
    b.clear_index().unwrap();
    b.add_page(&"new.pdf".to_string(), &"cat".to_string(), 1).unwrap();
    let index = b.into_index();
    assert!(index.get_rev_index("ZEBRA").unwrap().is_none());
    assert!(index.get_rev_index("CAT").unwrap().is_some());
}
