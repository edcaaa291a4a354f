use reduct_kernels::error::KernelError;
use reduct_kernels::strings::{
    chars_of, find_all, find_all_boyer_moore, levenshtein_distance, matches_at, shift_table,
    string_find_all, string_find_all_boyer_moore, string_levenshtein_distance,
};

#[test]
fn find_all_finds_overlapping_places() {
    assert_eq!(string_find_all("abababa", "aba"), Ok(vec![0, 2, 4]));
    assert_eq!(string_find_all("aaaa", "a"), Ok(vec![0, 1, 2, 3]));
    assert_eq!(string_find_all("hello", "l"), Ok(vec![2, 3]));
    assert_eq!(string_find_all("hello", "xyz"), Ok(vec![]));
    assert_eq!(string_find_all("hi", "hello"), Ok(vec![]));
    assert_eq!(string_find_all("", "a"), Ok(vec![]));
    assert_eq!(string_find_all("hello", "hello"), Ok(vec![0]));
}

#[test]
fn find_all_counts_bytes() {
    assert_eq!(string_find_all("né né", "né"), Ok(vec![0, 4]));
}

#[test]
fn empty_pattern_is_an_error() {
    assert_eq!(string_find_all("abc", ""), Err(KernelError::PatternEmpty));
    assert_eq!(string_find_all_boyer_moore("abc", ""), Err(KernelError::PatternEmpty));
    assert_eq!(find_all(&[1, 2], &[]), Err(KernelError::PatternEmpty));
}

#[test]
fn both_searches_agree() {
    let texts = ["abababa", "aaaa", "the cat sat on the mat", "mississippi", "", "xyzxyzxy"];
    let patterns = ["aba", "a", "at", "ssi", "issi", "the", "xyz", "zx", "q", "mississippi!"];
    for text in texts {
        for pattern in patterns {
            assert_eq!(
                string_find_all_boyer_moore(text, pattern),
                string_find_all(text, pattern)
            );
        }
    }
    assert_eq!(find_all_boyer_moore(b"mississippi", b"issi"), Ok(vec![1, 4]));
}

#[test]
fn shift_table_entries() {
    let table = shift_table(b"abcab");
    assert_eq!(table.len(), 256);
    assert_eq!(table[b'a' as usize], 1);
    assert_eq!(table[b'b' as usize], 3);
    assert_eq!(table[b'c' as usize], 2);
    assert_eq!(table[b'z' as usize], 5);
    assert!(matches_at(b"xxabc", b"abc", 2));
    assert!(!matches_at(b"xxabc", b"abc", 3));
    assert!(!matches_at(b"xxabc", b"abc", 1));
}

#[test]
fn edit_distances() {
    assert_eq!(string_levenshtein_distance("kitten", "sitting"), 3);
    assert_eq!(string_levenshtein_distance("", "abc"), 3);
    assert_eq!(string_levenshtein_distance("abc", ""), 3);
    assert_eq!(string_levenshtein_distance("", ""), 0);
    assert_eq!(string_levenshtein_distance("same", "same"), 0);
    assert_eq!(string_levenshtein_distance("flaw", "lawn"), 2);
    assert_eq!(string_levenshtein_distance("né", "ne"), 1);
    assert_eq!(levenshtein_distance(&vec!['a', 'b'], &vec!['b', 'a']), 2);
    assert_eq!(chars_of("né"), vec!['n', 'é']);
}
