use docfind::fst_map::SearchError;
use docfind::index::{build_index, Document, Index};
use docfind::search::search;

fn doc(title: &str, category: &str, href: &str, body: &str, kws: &[&str]) -> Document {
    Document {
        title: title.to_string(),
        category: category.to_string(),
        href: href.to_string(),
        body: body.to_string(),
        keywords: Some(kws.iter().map(|s| s.to_string()).collect()),
    }
}

#[test]
fn test_index_serialization() {
    // Test that we can serialize and deserialize an index
    let documents = vec![doc(
        "Test Document",
        "Test",
        "/test",
        "This is a test document",
        &["test", "document"],
    )];

    let index = build_index(documents).unwrap();

    // Create a buffer to serialize to
    let buffer = index.to_bytes().unwrap();
    assert!(!buffer.is_empty());

    // Try to deserialize from the buffer
    let deserialized = Index::from_bytes(&buffer);
    assert!(deserialized.is_ok());

    let deserialized_index = deserialized.unwrap();
    assert_eq!(
        deserialized_index.document_strings.len(),
        index.document_strings.len()
    );
}

#[test]
fn test_index_serialization_roundtrip() {
    // Test that we can serialize and deserialize multiple times
    let documents = vec![
        doc(
            "Document One",
            "Category A",
            "/doc1",
            "Content for document one",
            &["document", "one"],
        ),
        doc(
            "Document Two",
            "Category B",
            "/doc2",
            "Content for document two",
            &["document", "two"],
        ),
    ];

    let original_index = build_index(documents).unwrap();

    // First roundtrip
    let buffer1 = original_index.to_bytes().unwrap();
    let index1 = Index::from_bytes(&buffer1).unwrap();

    // Second roundtrip
    let buffer2 = index1.to_bytes().unwrap();
    let index2 = Index::from_bytes(&buffer2).unwrap();

    // Verify the data is consistent
    assert_eq!(
        index2.document_strings.len(),
        original_index.document_strings.len()
    );
}

#[test]
fn test_roundtrip_structural_identity() {
    // Decoding an encoded index restores every stored part exactly
    let documents = vec![
        doc("Alpha", "CatA", "/a", "alpha body text", &["alpha"]),
        doc("Beta", "CatB", "/b", "beta body text", &["beta"]),
    ];
    let a = build_index(documents).unwrap();
    let b = Index::from_bytes(&a.to_bytes().unwrap()).unwrap();
    assert_eq!(a.fst, b.fst);
    assert_eq!(a.keyword_to_documents, b.keyword_to_documents);
    assert_eq!(a.document_strings.len(), b.document_strings.len());
    for i in 0..a.document_strings.len() {
        assert_eq!(a.document_strings.get(i), b.document_strings.get(i));
    }
    // Encoding is deterministic: byte-equal output for byte-equal input
    assert_eq!(a.to_bytes().unwrap(), b.to_bytes().unwrap());
}

#[test]
fn test_roundtrip_preserves_search() {
    // A decoded index answers every query exactly as the original
    let documents = vec![
        doc("Python Tutorial", "T", "/py", "Learn programming", &["python"]),
        doc("Getting Started", "T", "/gs", "Covers Python basics", &["getting"]),
    ];
    let a = build_index(documents).unwrap();
    let b = Index::from_bytes(&a.to_bytes().unwrap()).unwrap();
    for q in ["Python", "getting", "tutorial", "", "zzz"] {
        for k in [0usize, 1, 10] {
            let ra = search(&a, q, k).unwrap();
            let rb = search(&b, q, k).unwrap();
            assert_eq!(ra.len(), rb.len());
            for (x, y) in ra.iter().zip(rb.iter()) {
                assert_eq!(x.href, y.href);
                assert_eq!(x.title, y.title);
                assert_eq!(x.category, y.category);
                assert_eq!(x.body, y.body);
            }
        }
    }
}

#[test]
fn test_from_bytes_rejects_garbage() {
    // Bytes that are not a serialized index fail with a corrupt-index error
    let r = Index::from_bytes(&[1, 2, 3]);
    assert_eq!(r.unwrap_err(), SearchError::CorruptIndex);
    let r = Index::from_bytes(&[]);
    assert!(r.is_err());
    // Trailing garbage after a valid index is rejected
    let idx = build_index(vec![]).unwrap();
    let mut buf = idx.to_bytes().unwrap();
    buf.push(0);
    assert!(Index::from_bytes(&buf).is_err());
}
