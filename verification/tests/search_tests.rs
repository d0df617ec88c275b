use docfind::index::{build_index, Document};
use docfind::search::search;

fn doc(title: &str, category: &str, href: &str, body: &str, kws: &[&str]) -> Document {
    Document {
        title: title.to_string(),
        category: category.to_string(),
        href: href.to_string(),
        body: body.to_string(),
        keywords: Some(kws.iter().map(|s| s.to_string()).collect()),
    }
}

#[test]
fn test_search_single_word() {
    // Test searching for a single word
    let documents = vec![
        doc(
            "Rust Programming",
            "Documentation",
            "/docs/rust",
            "Learn Rust programming language",
            &["rust", "programming"],
        ),
        doc(
            "Python Guide",
            "Documentation",
            "/docs/python",
            "Python is a versatile programming language",
            &["python", "guide"],
        ),
    ];

    let index = build_index(documents).unwrap();
    let results = search(&index, "Rust", 10).unwrap();

    assert!(!results.is_empty());
    assert_eq!(results[0].title, "Rust Programming");
    assert_eq!(results[0].href, "/docs/rust");
}

#[test]
fn test_search_case_insensitive() {
    // Test that search is case-insensitive
    let documents = vec![doc(
        "JavaScript Tutorial",
        "Tutorials",
        "/tutorials/javascript",
        "Learn JavaScript programming",
        &["javascript", "tutorial"],
    )];

    let index = build_index(documents).unwrap();

    let results_lower = search(&index, "javascript", 10).unwrap();
    let results_upper = search(&index, "JAVASCRIPT", 10).unwrap();
    let results_mixed = search(&index, "JavaScript", 10).unwrap();

    assert!(!results_lower.is_empty());
    assert!(!results_upper.is_empty());
    assert!(!results_mixed.is_empty());

    // All should find the same document
    assert_eq!(results_lower[0].href, "/tutorials/javascript");
    assert_eq!(results_upper[0].href, "/tutorials/javascript");
    assert_eq!(results_mixed[0].href, "/tutorials/javascript");
}

#[test]
fn test_search_no_results() {
    // Test searching for something that doesn't exist
    let documents = vec![doc(
        "Rust Programming",
        "Documentation",
        "/docs/rust",
        "Learn Rust programming language",
        &["rust", "programming"],
    )];

    let index = build_index(documents).unwrap();
    let results = search(&index, "NonexistentKeyword", 10).unwrap();

    assert!(results.is_empty());
}

#[test]
fn test_search_empty_query() {
    // Test searching with an empty query
    let documents = vec![doc(
        "Test Document",
        "Test",
        "/test",
        "Test content",
        &["test", "document"],
    )];

    let index = build_index(documents).unwrap();
    let results = search(&index, "", 10).unwrap();

    // Empty query should return no results (or possibly all results depending on implementation)
    // Just verify it doesn't crash
    assert!(results.len() <= 1);
}

#[test]
fn test_search_multiple_words() {
    // Test searching for multiple words
    let documents = vec![
        doc(
            "VS Code Extensions",
            "Documentation",
            "/docs/extensions",
            "Learn how to create VS Code extensions with comprehensive guides",
            &["vs", "code", "extensions"],
        ),
        doc(
            "VS Code Settings",
            "Documentation",
            "/docs/settings",
            "Configure your VS Code settings for optimal development experience",
            &["vs", "code", "settings"],
        ),
        doc(
            "Python Guide",
            "Documentation",
            "/docs/python",
            "Python is a versatile programming language",
            &["python", "guide"],
        ),
    ];

    let index = build_index(documents).unwrap();
    let results = search(&index, "VS Code", 10).unwrap();

    // Should find both VS Code documents
    assert!(results.len() >= 2);
    assert!(results.iter().any(|d| d.href == "/docs/extensions"));
    assert!(results.iter().any(|d| d.href == "/docs/settings"));
}

#[test]
fn test_search_partial_word_match() {
    // Test that partial word matches work
    let documents = vec![doc(
        "Debugging in VS Code",
        "Documentation",
        "/docs/debugging",
        "Debug your applications with powerful debugging tools",
        &["debugging", "vs", "code"],
    )];

    let index = build_index(documents).unwrap();
    let results = search(&index, "debug", 10).unwrap();

    // Should find documents with "debugging" and "debug"
    assert!(!results.is_empty());
}

#[test]
fn test_search_title_match_ranks_higher() {
    // Test that title matches rank higher than body matches
    let documents = vec![
        doc(
            "Python Tutorial",
            "Tutorials",
            "/tutorials/python",
            "Learn programming with this tutorial",
            &["python", "tutorial"],
        ),
        doc(
            "Getting Started",
            "Documentation",
            "/docs/start",
            "This guide covers Python basics and advanced features",
            &["getting", "started"],
        ),
    ];

    let index = build_index(documents).unwrap();
    let results = search(&index, "Python", 10).unwrap();

    // Document with "Python" in title should rank first
    assert!(!results.is_empty());
    assert_eq!(results[0].href, "/tutorials/python");
}

#[test]
fn test_search_multiple_keyword_matches() {
    // Test that documents matching multiple keywords rank higher
    let documents = vec![
        doc(
            "VS Code Debugging",
            "Documentation",
            "/docs/debugging",
            "Debug VS Code extensions",
            &["vs", "code", "debugging"],
        ),
        doc(
            "VS Code Overview",
            "Documentation",
            "/docs/overview",
            "Introduction to the editor",
            &["vs", "code", "overview"],
        ),
        doc(
            "Debugging Guide",
            "Tutorials",
            "/tutorials/debug",
            "General debugging techniques",
            &["debugging", "guide"],
        ),
    ];

    let index = build_index(documents).unwrap();
    let results = search(&index, "VS Code debugging", 10).unwrap();

    // Document with all three keywords should rank first
    assert!(!results.is_empty());
    assert_eq!(results[0].href, "/docs/debugging");
}

#[test]
fn test_search_max_results_limit() {
    // Test that max_results parameter limits results correctly
    let documents = vec![
        doc("Guide One", "Guides", "/guide1", "First guide about programming", &["guide", "one"]),
        doc("Guide Two", "Guides", "/guide2", "Second guide about programming", &["guide", "two"]),
        doc(
            "Guide Three",
            "Guides",
            "/guide3",
            "Third guide about programming",
            &["guide", "three"],
        ),
        doc(
            "Guide Four",
            "Guides",
            "/guide4",
            "Fourth guide about programming",
            &["guide", "four"],
        ),
    ];

    let index = build_index(documents).unwrap();

    let results_2 = search(&index, "guide", 2).unwrap();
    let results_3 = search(&index, "guide", 3).unwrap();
    let results_10 = search(&index, "guide", 10).unwrap();

    assert!(results_2.len() <= 2);
    assert!(results_3.len() <= 3);
    assert!(results_10.len() <= 10);
}

#[test]
fn test_search_technical_terms() {
    // Test searching for technical terms and acronyms
    let documents = vec![
        doc(
            "TypeScript Configuration",
            "Documentation",
            "/docs/typescript",
            "Configure TypeScript with tsconfig.json for your project",
            &["typescript", "configuration"],
        ),
        doc(
            "JavaScript Basics",
            "Tutorials",
            "/tutorials/javascript",
            "Learn JavaScript fundamentals",
            &["javascript", "basics"],
        ),
        doc(
            "Language Support",
            "Documentation",
            "/docs/languages",
            "VS Code supports TypeScript, JavaScript, and many other languages",
            &["language", "support"],
        ),
    ];

    let index = build_index(documents).unwrap();
    let results = search(&index, "TypeScript", 10).unwrap();

    assert!(!results.is_empty());
    assert!(results.iter().any(|d| d.href == "/docs/typescript"));
}

#[test]
fn test_search_with_special_characters() {
    // Test searching with special characters
    let documents = vec![
        doc(
            "C++ Programming",
            "Documentation",
            "/docs/cpp",
            "Learn C++ programming language",
            &["c++", "programming"],
        ),
        doc("C# Guide", "Documentation", "/docs/csharp", "C# development with .NET", &["c#", "guide"]),
    ];

    let index = build_index(documents).unwrap();
    let results_cpp = search(&index, "C++", 10);
    let results_csharp = search(&index, "C#", 10);

    // Should handle special characters gracefully
    assert!(results_cpp.is_ok() as bool);
    assert!(results_csharp.is_ok() as bool);
}

#[test]
fn test_search_compound_keywords() {
    // Test searching for compound keywords and multi-word phrases
    let documents = vec![
        doc(
            "Remote Development Setup",
            "Tutorials",
            "/tutorials/remote-dev",
            "Set up remote development environment for distributed teams",
            &["remote", "development", "setup"],
        ),
        doc(
            "Development Environment",
            "Documentation",
            "/docs/environment",
            "Configure your local development environment",
            &["development", "environment"],
        ),
        doc(
            "Remote Connections",
            "Documentation",
            "/docs/remote",
            "Connect to remote servers and containers",
            &["remote", "connections"],
        ),
    ];

    let index = build_index(documents).unwrap();
    let results = search(&index, "remote development", 10).unwrap();

    // Should find the document that has both keywords together
    assert!(!results.is_empty());
    assert_eq!(results[0].href, "/tutorials/remote-dev");
}

#[test]
fn test_search_with_stopwords() {
    // Test that common stop words don't interfere with search
    let documents = vec![doc(
        "Getting Started with VS Code",
        "Tutorials",
        "/tutorials/start",
        "This is a guide to help you get started with the editor",
        &["getting", "started", "vs", "code"],
    )];

    let index = build_index(documents).unwrap();
    let results = search(&index, "getting started with vscode", 10).unwrap();

    // Should find results despite stop words like "with", "the", "a"
    assert!(!results.is_empty());
}

#[test]
fn test_search_with_numbers() {
    // Test searching with version numbers and numeric values
    let documents = vec![
        doc(
            "Node.js 18 Features",
            "Updates",
            "/updates/nodejs18",
            "New features in Node.js version 18 release",
            &["node.js", "18", "features"],
        ),
        doc(
            "Node.js 16 Support",
            "Updates",
            "/updates/nodejs16",
            "Long-term support for Node.js 16",
            &["node.js", "16", "support"],
        ),
    ];

    let index = build_index(documents).unwrap();
    let results = search(&index, "nodejs 18", 10).unwrap();

    assert!(!results.is_empty());
    // Should find the Node.js 18 document
    assert!(results.iter().any(|d| d.href.contains("nodejs18")));
}

#[test]
fn test_search_long_query() {
    // Test with a longer, more natural language query
    let documents = vec![
        doc(
            "Remote SSH Extension",
            "Extensions",
            "/extensions/remote-ssh",
            "Connect to remote servers via SSH and develop directly on remote machines",
            &["remote", "ssh", "extension"],
        ),
        doc(
            "SSH Key Setup",
            "Documentation",
            "/docs/ssh-keys",
            "Configure SSH keys for secure remote connections",
            &["ssh", "key", "setup"],
        ),
    ];

    let index = build_index(documents).unwrap();
    let results = search(&index, "how do i connect to a remote server using ssh", 10).unwrap();

    // Should extract relevant keywords and find documents
    assert!(!results.is_empty());
}

#[test]
fn test_search_many_documents() {
    // Test with a larger number of documents
    let mut documents = Vec::new();
    for i in 0..100 {
        documents.push(Document {
            title: format!("Document {}", i).to_string(),
            category: format!("Category {}", i % 10).to_string(),
            href: format!("/doc{}", i).to_string(),
            body: format!("This is document number {} with some content", i).to_string(),
            keywords: Some(vec![format!("document{}", i).to_string()]),
        });
    }

    // Add a special document to search for
    documents.push(doc(
        "Special Search Target",
        "Test",
        "/special",
        "This document should be easy to find",
        &["special", "target"],
    ));

    let index = build_index(documents).unwrap();
    let results = search(&index, "special target", 10).unwrap();

    assert!(!results.is_empty());
    assert_eq!(results[0].href, "/special");
}

#[test]
fn test_search_empty_fields() {
    // Test with documents that have empty fields
    let documents = vec![
        doc("", "Empty Title", "/empty1", "This document has no title", &["empty"]),
        doc("Empty Body", "Test", "/empty2", "", &["empty", "body"]),
    ];

    let index = build_index(documents);
    assert!(index.is_ok());

    let results = search(&index.unwrap(), "empty", 10).unwrap();
    // Should handle empty fields gracefully
    assert!(!results.is_empty());
}

#[test]
fn test_search_whitespace_handling() {
    // Test that extra whitespace doesn't break search
    let documents = vec![doc(
        "Whitespace   Test",
        "Test",
        "/whitespace",
        "Multiple   spaces   between   words",
        &["whitespace", "test"],
    )];

    let index = build_index(documents).unwrap();
    let results = search(&index, "  whitespace  test  ", 10).unwrap();

    assert!(!results.is_empty());
}

#[test]
fn test_search_with_typo() -> Result<(), Box<dyn std::error::Error>> {
    let document_strings = docfind::column::FsstStrVec::from_strings(&vec![
        "Document 1".to_string(),
        "Docs".to_string(),
        "/doc1".to_string(),
        "This is the first document.".to_string(),
        "Document 2".to_string(),
        "Docs".to_string(),
        "/doc2".to_string(),
        "This is the second document.".to_string(),
        "Document 3".to_string(),
        "Docs".to_string(),
        "/doc3".to_string(),
        "This is the third document.".to_string(),
    ]);

    let keyword_to_documents: Vec<Vec<(usize, u8)>> = vec![
        vec![(1, 1)],          // "language" appears in doc 1
        vec![(0, 10), (2, 4)], // "programming" appears in doc 0 and 2
        vec![(0, 5), (1, 3)],  // "rust" appears in doc 0 and 1
    ];

    let mut fst_builder = fst::MapBuilder::memory();
    fst_builder.insert("language", 0).unwrap();
    fst_builder.insert("programming", 1).unwrap();
    fst_builder.insert("rust", 2).unwrap();
    let fst = fst_builder.into_inner()?;

    let index = docfind::index::Index {
        fst,
        document_strings,
        keyword_to_documents,
    };

    let results = search(&index, "lamguage", 10).map_err(|e| format!("{:?}", e))?;
    assert_eq!(results.len(), 1, "Expected 1 result for 'lamguage'");

    Ok(())
}

#[test]
fn test_exact_title_match_wins() {
    // The document carrying the query word in its title outranks one that
    // only mentions it in the body
    let documents = vec![
        Document {
            title: "Python Tutorial".to_string(),
            category: "".to_string(),
            href: "/py".to_string(),
            body: "Learn programming".to_string(),
            keywords: None,
        },
        Document {
            title: "Getting Started".to_string(),
            category: "".to_string(),
            href: "/gs".to_string(),
            body: "Covers Python basics".to_string(),
            keywords: None,
        },
    ];
    let index = build_index(documents).unwrap();
    let results = search(&index, "Python", 10).unwrap();
    assert!(!results.is_empty());
    assert_eq!(results[0].href, "/py");
}
