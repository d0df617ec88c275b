use docfind::index::{build_index, Document};

fn doc(title: &str, category: &str, href: &str, body: &str, kws: &[&str]) -> Document {
    Document {
        title: title.to_string(),
        category: category.to_string(),
        href: href.to_string(),
        body: body.to_string(),
        keywords: Some(kws.iter().map(|s| s.to_string()).collect()),
    }
}

#[test]
fn test_build_index_simple() {
    // Test building a simple index with a few documents
    let documents = vec![
        doc(
            "Rust Programming",
            "Documentation",
            "/docs/rust",
            "Learn Rust programming language",
            &["rust", "programming"],
        ),
        doc(
            "Python Guide",
            "Documentation",
            "/docs/python",
            "Python is a versatile programming language",
            &["python", "guide"],
        ),
    ];

    let index = build_index(documents);
    assert!(index.is_ok());

    let index = index.unwrap();
    assert_eq!(index.document_strings.len(), 8); // 4 strings per document * 2 documents
}

#[test]
fn test_build_index_empty() {
    // Test building an index with no documents
    let documents: Vec<Document> = vec![];
    let index = build_index(documents);
    assert!(index.is_ok());

    let index = index.unwrap();
    assert_eq!(index.document_strings.len(), 0);
}

#[test]
fn test_build_index_single_document() {
    // Test building an index with a single document
    let documents = vec![doc(
        "Single Document",
        "Test",
        "/single",
        "This is the only document",
        &["single", "document"],
    )];

    let index = build_index(documents);
    assert!(index.is_ok());

    let index = index.unwrap();
    assert_eq!(index.document_strings.len(), 4); // title, category, href, body
}

#[test]
fn test_build_index_duplicate_titles() {
    // Test with documents that have similar or duplicate titles
    let documents = vec![
        doc(
            "Getting Started",
            "Guide",
            "/guide1",
            "First guide",
            &["getting", "started"],
        ),
        doc(
            "Getting Started",
            "Tutorial",
            "/tutorial1",
            "First tutorial",
            &["getting", "started"],
        ),
    ];

    let index = build_index(documents);
    assert!(index.is_ok());
}

#[test]
fn test_build_column_holds_document_fields() {
    // The column holds the four strings of each document, in order
    let documents = vec![
        doc("T0", "C0", "/h0", "B0", &["k0"]),
        doc("T1", "C1", "/h1", "B1", &["k1"]),
    ];
    let index = build_index(documents).unwrap();
    assert_eq!(index.document_strings.get(0), Some("T0".to_string()));
    assert_eq!(index.document_strings.get(1), Some("C0".to_string()));
    assert_eq!(index.document_strings.get(2), Some("/h0".to_string()));
    assert_eq!(index.document_strings.get(3), Some("B0".to_string()));
    assert_eq!(index.document_strings.get(4), Some("T1".to_string()));
    assert_eq!(index.document_strings.get(5), Some("C1".to_string()));
    assert_eq!(index.document_strings.get(6), Some("/h1".to_string()));
    assert_eq!(index.document_strings.get(7), Some("B1".to_string()));
}

#[test]
fn test_build_posting_lists_sorted() {
    // Posting lists are non-empty and sorted by score descending, ties by
    // document index ascending
    let documents = vec![
        doc("Shared Word", "C", "/a", "", &["shared"]),
        doc("Other Title", "C", "/b", "", &["shared"]),
    ];
    let index = build_index(documents).unwrap();
    for list in &index.keyword_to_documents {
        assert!(!list.is_empty());
        for w in list.windows(2) {
            assert!(w[0].1 > w[1].1 || (w[0].1 == w[1].1 && w[0].0 <= w[1].0));
        }
    }
    // "shared" scores 100 in both documents: the tie is broken by input order
    let shared = index
        .keyword_to_documents
        .iter()
        .find(|l| l.len() == 2)
        .expect("a keyword shared by both documents");
    assert_eq!(shared[0], (0, 100));
    assert_eq!(shared[1], (1, 100));
}
