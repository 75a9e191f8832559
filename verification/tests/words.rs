use katas::anagrams::{find_anagrams_by_hash, find_anagrams_by_sort, make_key, make_keys};
use katas::subwords::{
    find_subwords_ext, find_subwords_fast, find_subwords_readable, is_two_words,
    is_two_words_fast, words_with_len,
};

fn owned(words: &[&str]) -> Vec<String> {
    words.iter().map(|w| w.to_string()).collect()
}

#[test]
fn anagram_keys_are_sorted_bytes() {
    assert_eq!(make_key("cab"), vec![b'a', b'b', b'c']);
    assert_eq!(make_key(""), Vec::<u8>::new());
    assert_eq!(make_key("listen"), make_key("silent"));
    let keys = make_keys(&owned(&["cat", "act"]));
    assert_eq!(keys.len(), 2);
    assert_eq!(keys[0].origin, "cat");
    assert_eq!(keys[0].key, keys[1].key);
}

#[test]
fn anagram_stats_on_small_collection() {
    let words = owned(&[
        "listen", "cat", "silent", "dog", "act", "enlist", "tac",
    ]);
    let expected = (2, 6, 3, 6);
    assert_eq!(expected, find_anagrams_by_sort(&words));
    assert_eq!(expected, find_anagrams_by_hash(&words));
}

#[test]
fn anagram_variants_agree() {
    let words = owned(&["ab", "ba", "abc", "cab", "bca", "x", "xy"]);
    let by_sort = find_anagrams_by_sort(&words);
    let by_hash = find_anagrams_by_hash(&words);
    assert_eq!(by_sort, by_hash);
    assert_eq!(by_sort, (2, 5, 3, 3));
}

#[test]
fn subword_scan_and_search_agree() {
    // Sorted lexicographically, as the binary-search variants require.
    let words = owned(&["ab", "abcdef", "cd", "cdef", "efcdab", "fab", "xyz"]);
    assert_eq!(1, is_two_words(&words, "abcdef"));
    assert_eq!(0, is_two_words(&words, "efcdab"));
    assert_eq!(1, is_two_words_fast(&words, "abcdef"));
    assert_eq!(0, is_two_words_fast(&words, "efcdab"));
    assert_eq!(1, find_subwords_readable(&words));
    assert_eq!(1, find_subwords_fast(&words));
    assert_eq!(1, find_subwords_ext(&words, 6, 2));
}

#[test]
fn subword_ext_lengths() {
    let words = owned(&["ab", "abab", "abcd", "cd"]);
    assert_eq!(2, find_subwords_ext(&words, 4, 2));
    assert_eq!(0, find_subwords_ext(&words, 6, 2));
}

#[test]
fn words_with_len_filters() {
    let words = owned(&["ab", "abc", "de", "fgh"]);
    assert_eq!(owned(&["ab", "de"]), words_with_len(&words, 2));
    assert_eq!(owned(&["abc", "fgh"]), words_with_len(&words, 3));
    let empty: Vec<String> = Vec::new();
    assert_eq!(empty, words_with_len(&words, 4));
}
