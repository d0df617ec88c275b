use docfind::column::FsstStrVec;

fn strs(items: &[&str]) -> Vec<String> {
    items.iter().map(|s| s.to_string()).collect()
}

#[test]
fn test_fsst_str_vec_basic() {
    // Simple sanity test for FsstStrVec
    let strings = strs(&["hello", "world", "rust", "search"]);
    let vec = FsstStrVec::from_strings(&strings);

    assert_eq!(vec.len(), 4);

    assert_eq!(vec.get(0), Some("hello".to_string()));
    assert_eq!(vec.get(1), Some("world".to_string()));
    assert_eq!(vec.get(2), Some("rust".to_string()));
    assert_eq!(vec.get(3), Some("search".to_string()));
}

#[test]
fn test_fsst_str_vec_out_of_bounds() {
    // Test that getting an out-of-bounds index returns None
    let strings = strs(&["hello", "world"]);
    let vec = FsstStrVec::from_strings(&strings);

    assert_eq!(vec.get(5), None);
    assert_eq!(vec.get(100), None);
}

#[test]
fn test_fsst_str_vec_empty() {
    // Test behavior with empty vector
    let strings: Vec<String> = Vec::new();
    let vec = FsstStrVec::from_strings(&strings);

    assert_eq!(vec.len(), 0);
    assert_eq!(vec.get(0), None);
}

#[test]
fn test_fsst_str_vec_single_item() {
    // Test with a single string
    let strings = strs(&["solo"]);
    let vec = FsstStrVec::from_strings(&strings);

    assert_eq!(vec.len(), 1);
    assert_eq!(vec.get(0), Some("solo".to_string()));
    assert_eq!(vec.get(1), None);
}

#[test]
fn test_fsst_str_vec_long_strings() {
    // Test with longer strings to verify compression works
    let strings = strs(&[
        "This is a much longer string that should compress well with FSST",
        "Another long string with similar patterns and repeated words",
        "The third long string continues the pattern with more text",
    ]);
    let vec = FsstStrVec::from_strings(&strings);

    assert_eq!(vec.len(), 3);
    assert_eq!(vec.get(0), Some(strings[0].to_string()));
    assert_eq!(vec.get(1), Some(strings[1].to_string()));
    assert_eq!(vec.get(2), Some(strings[2].to_string()));
}

#[test]
fn test_fsst_str_vec_unicode() {
    // Test with Unicode strings
    let strings = strs(&["Hello 世界", "Rust 🦀", "Café ☕"]);
    let vec = FsstStrVec::from_strings(&strings);

    assert_eq!(vec.len(), 3);
    assert_eq!(vec.get(0), Some("Hello 世界".to_string()));
    assert_eq!(vec.get(1), Some("Rust 🦀".to_string()));
    assert_eq!(vec.get(2), Some("Café ☕".to_string()));
}

#[test]
fn test_fsst_get_is_repeatable() {
    // get is a pure function of the index: repeated calls agree
    let strings = strs(&["alpha", "beta", "alpha"]);
    let vec = FsstStrVec::from_strings(&strings);
    for i in 0..3 {
        assert_eq!(vec.get(i), vec.get(i));
    }
    assert_eq!(vec.get(0), vec.get(2));
    assert_eq!(vec.get(3), None);
    assert_eq!(vec.get(3), vec.get(3));
}

#[test]
fn test_fsst_from_parts_rejects_bad_dictionary() {
    // A dictionary with a symbol length of zero is rejected
    let r = FsstStrVec::from_parts(vec![0u64], vec![0u8], vec![0usize], vec![1u8, 2, 3]);
    assert!(r.is_none());
    // A mismatched symbol/length table is rejected
    let r = FsstStrVec::from_parts(vec![0u64], vec![], vec![], vec![]);
    assert!(r.is_none());
    // A dangling escape byte at the end of an entry is rejected
    let r = FsstStrVec::from_parts(vec![], vec![], vec![0usize], vec![255u8]);
    assert!(r.is_none());
}
