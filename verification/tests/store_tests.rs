use dirsearch::{Error, Index, RevIndexRecord, Source};

fn open_store(dir: &tempfile::TempDir) -> Index {
    Index::new(dir.path().to_str().unwrap()).unwrap()
}

#[test]
fn page_record_round_trip() {
    let tmp = tempfile::tempdir().unwrap();
    let mut index = open_store(&tmp);
    let src = Source::new("docs".to_string(), "report.pdf".to_string(), 3);
    let hash = src.get_hash();
    index.add_source(&src).unwrap();
    let back = index.get_source(&hash).unwrap();
    assert_eq!(back.dir, "docs");
    assert_eq!(back.file_name, "report.pdf");
    assert_eq!(back.page_number, 3);
    assert_eq!(back, src);
}

#[test]
fn page_record_unicode_round_trip() {
    let tmp = tempfile::tempdir().unwrap();
    let mut index = open_store(&tmp);
    let src = Source::new("b\u{00fc}cher".to_string(), "caf\u{00e9} \u{1F600}.pdf".to_string(), 12);
    let hash = src.get_hash();
    index.add_source(&src).unwrap();
    let back = index.get_source(&hash).unwrap();
    assert_eq!(back, src);
}

#[test]
fn missing_page_record_is_not_found() {
    let tmp = tempfile::tempdir().unwrap();
    let index = open_store(&tmp);
    assert_eq!(index.get_source(&12345).unwrap_err(), Error::NotFound);
}

#[test]
fn postings_round_trip() {
    let tmp = tempfile::tempdir().unwrap();
    let mut index = open_store(&tmp);
    let rec = RevIndexRecord::new(5, vec![(10, 2), (11, 3)]);
    index.add_rev_index(&"CAT".to_string(), rec).unwrap();
    let back = index.get_rev_index("CAT").unwrap().unwrap();
    assert_eq!(back.freq, 5);
    assert_eq!(back.sources, vec![(10, 2), (11, 3)]);
}

#[test]
fn unknown_keyword_has_no_postings() {
    let tmp = tempfile::tempdir().unwrap();
    let index = open_store(&tmp);
    assert!(index.get_rev_index("NEVERSEEN").unwrap().is_none());
}

#[test]
fn postings_overwrite_is_complete() {
    let tmp = tempfile::tempdir().unwrap();
    let mut index = open_store(&tmp);
    index.add_rev_index(&"DOG".to_string(), RevIndexRecord::new(1, vec![(7, 1)])).unwrap();
    index.add_rev_index(&"DOG".to_string(), RevIndexRecord::new(3, vec![(8, 3)])).unwrap();
    let back = index.get_rev_index("DOG").unwrap().unwrap();
    assert_eq!(back.freq, 3);
    assert_eq!(back.sources, vec![(8, 3)]);
}

#[test]
fn delete_empties_both_tables() {
    let tmp = tempfile::tempdir().unwrap();
    let mut index = open_store(&tmp);
    let src = Source::new("d".to_string(), "f.pdf".to_string(), 1);
    let hash = src.get_hash();
    index.add_source(&src).unwrap();
    index.add_rev_index(&"CAT".to_string(), RevIndexRecord::new(1, vec![(hash, 1)])).unwrap();
    index.delete().unwrap();
    assert_eq!(index.get_source(&hash).unwrap_err(), Error::NotFound);
    assert!(index.get_rev_index("CAT").unwrap().is_none());
}

#[test]
fn store_persists_across_reopen() {
    let tmp = tempfile::tempdir().unwrap();
    let src = Source::new("d".to_string(), "f.pdf".to_string(), 2);
    let hash = src.get_hash();
    {
        let mut index = open_store(&tmp);
        index.add_source(&src).unwrap();
    }
    let index = open_store(&tmp);
    assert_eq!(index.get_source(&hash).unwrap(), src);
}

#[test]
fn postings_read_back_as_written() {
    let tmp = tempfile::tempdir().unwrap();
    let mut index = open_store(&tmp);
    // the store keeps bytes, not the builder's invariants: a record whose
    // total disagrees with its counts still reads back exactly as written
    index.add_rev_index(&"ODD".to_string(), RevIndexRecord::new(5, vec![(1, 1)])).unwrap();
    let back = index.get_rev_index("ODD").unwrap().unwrap();
    assert_eq!(back.freq, 5);
    assert_eq!(back.sources, vec![(1, 1)]);
}
