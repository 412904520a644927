use moshiki::columns::{parse_columns, zstd_decompress};
use moshiki::search::search_and_retrieve;
use moshiki::writer::IndexWriter;

fn index_lines(lines: &[&str]) -> moshiki::writer::IndexArtifacts {
    let owned: Vec<String> = lines.iter().map(|l| l.to_string()).collect();
    let writer = IndexWriter::new();
    writer.index(&owned).expect("indexing should succeed")
}

#[test]
fn integration_test_variable_search() {
    let artifacts = index_lines(&["hello world", "hello there", "nice line"]);

    let results = search_and_retrieve(&artifacts, "hello").unwrap();
    assert_eq!(results.len(), 2);
    assert_eq!(results[0], "hello world");
    assert_eq!(results[1], "hello there");
}

#[test]
fn integration_test_constant_search() {
    let artifacts = index_lines(&["hello world", "hello there", "cool nice line"]);

    let results = search_and_retrieve(&artifacts, "hello").unwrap();
    assert_eq!(results.len(), 2);
    assert_eq!(results[0], "hello world");
    assert_eq!(results[1], "hello there");

    let cool = search_and_retrieve(&artifacts, "cool").unwrap();
    assert_eq!(cool.len(), 1);
    assert_eq!(cool[0], "cool nice line");
}

#[test]
fn test_mini_index() {
    // Two lines of the same shape make one template with one variable
    // column of length two.
    let artifacts = index_lines(&["aaa ccc", "aaa bbb"]);

    assert_eq!(artifacts.templates.len(), 1, "Should have one template");
    assert_eq!(artifacts.templates[0].num_docs, 2, "Should have two documents");

    // The dictionary holds the three variable-relevant terms in sorted
    // order; "aaa" stays constant-only, so only the variable terms get
    // entries.
    let dict_terms: Vec<&[u8]> = artifacts
        .dictionary
        .iter()
        .map(|e| e.term.as_slice())
        .collect();
    assert_eq!(dict_terms, vec![b"bbb".as_slice(), b"ccc".as_slice()]);

    // The column stream after remap holds the new ids of [ccc, bbb] in
    // insertion order.
    let blob = &artifacts.column_blobs[0];
    let data = zstd_decompress(blob).expect("column blob should decode");
    let columns = parse_columns(&data, 2);
    assert_eq!(columns.data.len(), 1, "Should have one column");
    assert_eq!(columns.data[0].data.len(), 2, "Column should have two entries");
    assert_eq!(columns.data[0].data, vec![1, 0], "Term IDs should match");
}

#[test]
fn test_remap() {
    let artifacts = index_lines(&["hello world", "hello there", "goodbye world"]);
    // Columns hold remapped new ids; every stored id points inside the
    // dictionary.
    for blob in &artifacts.column_blobs {
        let data = zstd_decompress(blob).expect("column blob should decode");
        for chunk in data.chunks(4) {
            let id = u32::from_le_bytes(chunk.try_into().unwrap());
            assert!((id as usize) < artifacts.dictionary.len());
        }
    }
}

#[test]
fn dictionary_entries_are_strictly_sorted() {
    let artifacts = index_lines(&[
        "zulu one",
        "zulu two",
        "alpha three",
        "alpha four",
        "mike five",
    ]);
    let terms: Vec<&Vec<u8>> = artifacts.dictionary.iter().map(|e| &e.term).collect();
    for w in terms.windows(2) {
        assert!(w[0] < w[1], "dictionary must be strictly increasing");
    }
}

#[test]
fn index_preserves_document_count() {
    let lines = ["a b", "a c", "x y z", "x q z", "lonely"];
    let artifacts = index_lines(&lines);
    let total: usize = artifacts.templates.iter().map(|t| t.num_docs).sum();
    assert_eq!(total, lines.len());
}

#[test]
fn split_preserves_document_count() {
    let owned: Vec<String> = (0..20)
        .map(|i| {
            if i % 2 == 0 {
                format!("req common {}", i)
            } else {
                format!("req other {}", i)
            }
        })
        .collect();
    let writer = moshiki::writer::IndexWriter::with_split_threshold(3);
    let artifacts = writer.index(&owned).expect("indexing should succeed");
    let total: usize = artifacts.templates.iter().map(|t| t.num_docs).sum();
    assert_eq!(total, owned.len());
}

#[test]
fn search_missing_term_finds_nothing() {
    let artifacts = index_lines(&["hello world", "hello there"]);
    let results = search_and_retrieve(&artifacts, "absent").unwrap();
    assert_eq!(results.len(), 0);
}

#[test]
fn full_match_constant_returns_all_docs() {
    let artifacts = index_lines(&["GET /a 200", "GET /b 404", "GET /c 200"]);
    // "GET" stays a constant of the single template, so searching it
    // returns every document.
    let results = search_and_retrieve(&artifacts, "GET").unwrap();
    assert_eq!(results.len(), 3);
    for r in &results {
        assert!(r.contains("GET"));
    }
}

#[test]
fn template_path_names_follow_the_id() {
    let name = moshiki::columns::get_template_path(moshiki::TemplateId(7));
    assert_eq!(name, "template_7.col");
    let name2 = moshiki::columns::get_template_path(moshiki::TemplateId(120));
    assert_eq!(name2, "template_120.col");
}

#[test]
fn template_ser_readable_shape() {
    let t = moshiki::templates::Template {
        parts: vec![
            moshiki::templates::TemplateToken::Constant(b"error".to_vec()),
            moshiki::templates::TemplateToken::Whitespace(2),
            moshiki::templates::TemplateToken::Variable,
            moshiki::templates::TemplateToken::Constant(b"!".to_vec()),
        ],
    };
    assert_eq!(t.ser_readable(), "error  ?!");
}
