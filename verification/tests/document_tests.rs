use docfind::index::Document;

#[test]
fn test_document_creation() {
    // Test that we can create Document structs
    let doc = Document {
        title: "Test Document".to_string(),
        category: "Test".to_string(),
        href: "/test".to_string(),
        body: "This is a test document body".to_string(),
        keywords: Some(vec!["test".to_string(), "document".to_string()]),
    };

    assert_eq!(doc.title, "Test Document");
    assert_eq!(doc.category, "Test");
    assert_eq!(doc.href, "/test");
    assert_eq!(doc.body, "This is a test document body");
    assert_eq!(
        doc.keywords,
        Some(vec!["test".to_string(), "document".to_string()])
    );
}
