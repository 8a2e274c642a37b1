use kmp::prepare;
use kmp::search;

#[test]
fn test_search() {
    let needle = b"ABCABABC";
    let prefix_table = vec![None, None, None, None, Some(1), Some(2), Some(1), Some(2)];

    assert_eq!(search(needle, &prefix_table, b"ABCABCABABC"), Some(3));
    assert_eq!(search(needle, &prefix_table, b"ABXABCABABC"), Some(3));
    assert_eq!(search(needle, &prefix_table, b"XABABCABABC"), Some(3));
}

#[test]
fn search_empty_needle() {
    assert_eq!(search(b"", &prepare(b""), b""), Some(0));
    assert_eq!(search(b"", &prepare(b""), b"ABC"), Some(0));
}

#[test]
fn search_no_match() {
    assert_eq!(search(b"XYZ", &prepare(b"XYZ"), b"ABC"), None);
}

#[test]
fn search_needle_longer_than_haystack() {
    assert_eq!(search(b"ABCD", &prepare(b"ABCD"), b"ABC"), None);
}

#[test]
fn search_empty_haystack() {
    assert_eq!(search(b"A", &prepare(b"A"), b""), None);
}

#[test]
fn search_match_at_start_and_end() {
    assert_eq!(search(b"AB", &prepare(b"AB"), b"ABXX"), Some(0));
    assert_eq!(search(b"AB", &prepare(b"AB"), b"XXAB"), Some(2));
}

#[test]
fn search_first_of_several_occurrences() {
    assert_eq!(search(b"ABA", &prepare(b"ABA"), b"XABABABA"), Some(1));
}

#[test]
fn search_periodic_pattern() {
    let needle = b"ABABC";
    let table = prepare(needle);
    assert_eq!(search(needle, &table, b"ABABABABC"), Some(4));
    assert_eq!(search(needle, &table, b"ABABABABAB"), None);
}

#[test]
fn search_is_deterministic() {
    let needle = b"ABCABABC";
    let table = prepare(needle);
    let haystack = b"ABXABCABABC";
    assert_eq!(
        search(needle, &table, haystack),
        search(needle, &table, haystack)
    );
}

// The borders of this needle's prefixes nest three deep (AABAABAA has
// borders AABAA, AA and A), so the builder must walk the whole fallback
// chain to record the longest border at every position; a shallower walk
// would under-record the last entry and make the scanner advance past the
// occurrence at offset 7.
#[test]
fn search_follows_nested_border_fallbacks() {
    let needle = b"AABAABAAAX";
    let table = prepare(needle);
    assert_eq!(
        table,
        vec![None, None, Some(1), None, Some(1), Some(2), Some(3), Some(4), Some(5), Some(2)]
    );
    let haystack = b"AABAABAAABAABAAAX";
    assert_eq!(haystack[7..], needle[..]);
    assert_eq!(search(needle, &table, haystack), Some(7));
}
