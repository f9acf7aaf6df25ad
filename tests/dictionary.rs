use cndl::sorted_symbols;

#[test]
fn symbols_sort_by_utf8_bytes() {
    let input: Vec<String> = ["MSFT", "AAPL", "GOOGL", "AAP", "aapl", "Ärger", "AAPL"].iter().map(|s| s.to_string()).collect();
    let sorted = sorted_symbols(&input);
    let expected: Vec<String> = ["AAP", "AAPL", "AAPL", "GOOGL", "MSFT", "aapl", "Ärger"].iter().map(|s| s.to_string()).collect();
    assert_eq!(sorted, expected);
}

#[test]
fn sorting_matches_std_order() {
    let input: Vec<String> = ["b", "", "ab", "a", "ba", "日本", "z", "aa"].iter().map(|s| s.to_string()).collect();
    let mut expected = input.clone();
    expected.sort();
    assert_eq!(sorted_symbols(&input), expected);
}

#[test]
fn sorting_empty_dictionary() {
    assert!(sorted_symbols(&Vec::new()).is_empty());
}
