use std::collections::HashSet;

use inverted_index::{
    document_lines, index_document_for_thread, line_ranges, normalize, IndexError, InvertedIndex,
};

const SAMPLE: &str =
    "Hello its an inverted index test file. Just to see how it works and indexes this file.";

fn key_set(index: &InvertedIndex) -> HashSet<String> {
    index.keys().into_iter().collect()
}

fn posting_set(index: &InvertedIndex, key: &str) -> Option<HashSet<String>> {
    index.postings(key).map(|docs| docs.into_iter().collect())
}

#[test]
fn inverted_index_indexes_document() {
    let file_path = "./inverted_index_indexes_document_1.txt";

    let mut inverted_index = InvertedIndex::new();
    let result = inverted_index.index(file_path, SAMPLE, 1);

    assert!(result.is_ok());
    assert_eq!(inverted_index.len(), 16);
}

#[test]
fn inverted_index_doesnt_add_same_words() {
    let file_path = "./inverted_index_doesnt_add_same_words_1.txt";
    let file_path_2 = "./inverted_index_doesnt_add_same_words_2.txt";

    let mut inverted_index = InvertedIndex::new();
    let result_1: Result<(), IndexError> = inverted_index.index(file_path, SAMPLE, 1);
    let result_2 = inverted_index.index(file_path_2, "Hello", 1);

    assert!(result_1.is_ok());
    assert!(result_2.is_ok());
    assert_eq!(inverted_index.len(), 16);

    let token = posting_set(&inverted_index, "hello");

    assert_eq!(
        token,
        Some(HashSet::from([
            file_path.to_owned(),
            file_path_2.to_owned()
        ]))
    );
}

#[test]
fn inverted_index_adds_unique() {
    let file_path_1 = "./inverted_index_adds_unique_1.txt";
    let file_path_2 = "./inverted_index_adds_unique_2.txt";
    let file_path_3 = "./inverted_index_adds_unique_3.txt";

    let mut inverted_index = InvertedIndex::new();
    let result_1 = inverted_index.index(file_path_1, SAMPLE, 1);
    let result_2 = inverted_index.index(file_path_2, "boss.", 1);
    let result_3 = inverted_index.index(file_path_3, "jOker", 1);

    assert!(result_1.is_ok());
    assert!(result_2.is_ok());
    assert!(result_3.is_ok());
    assert_eq!(inverted_index.len(), 18);
}

#[test]
fn single_character_words_are_upper_cased() {
    assert_eq!(normalize("a"), "A");
    assert_eq!(normalize("Z"), "Z");
    assert_eq!(normalize("é"), "É");
    assert_eq!(normalize("7"), "7");
}

#[test]
fn longer_words_are_lower_cased() {
    assert_eq!(normalize("jOker"), "joker");
    assert_eq!(normalize("Hello"), "hello");
    assert_eq!(normalize("boss."), "boss.");
    assert_eq!(normalize("ÉCOLE"), "école");
    assert_eq!(normalize("ab"), "ab");
}

#[test]
fn sample_keys_keep_punctuation() {
    let mut index = InvertedIndex::new();
    index.index("doc", SAMPLE, 1).unwrap();
    let keys = key_set(&index);
    assert!(keys.contains("file."));
    assert!(!keys.contains("file"));
    assert!(keys.contains("hello"));
    assert!(!keys.contains("Hello"));
}

#[test]
fn ranges_spread_the_leftover_on_the_last_worker() {
    assert_eq!(line_ranges(10, 3), Ok(vec![(0, 3), (3, 6), (6, 10)]));
    assert_eq!(line_ranges(7, 1), Ok(vec![(0, 7)]));
    assert_eq!(line_ranges(8, 4), Ok(vec![(0, 2), (2, 4), (4, 6), (6, 8)]));
}

#[test]
fn ranges_never_outnumber_lines() {
    assert_eq!(line_ranges(2, 5), Ok(vec![(0, 1), (1, 2)]));
    assert_eq!(line_ranges(1, 100), Ok(vec![(0, 1)]));
}

#[test]
fn ranges_of_an_empty_document() {
    assert_eq!(line_ranges(0, 3), Ok(vec![(0, 0), (0, 0), (0, 0)]));
}

#[test]
fn ranges_refuse_zero_workers() {
    assert_eq!(line_ranges(5, 0), Err(IndexError::ZeroThreads));
    assert_eq!(line_ranges(0, 0), Err(IndexError::ZeroThreads));
}

#[test]
fn zero_threads_is_refused_and_changes_nothing() {
    let mut index = InvertedIndex::new();
    index.index("a", "one two", 1).unwrap();
    assert_eq!(index.index("b", SAMPLE, 0), Err(IndexError::ZeroThreads));
    assert_eq!(index.index("c", "", 0), Err(IndexError::ZeroThreads));
    assert_eq!(index.len(), 2);
    assert_eq!(posting_set(&index, "one"), Some(HashSet::from(["a".to_owned()])));
}

#[test]
fn worker_count_does_not_change_the_index() {
    let text = "alpha beta\ngamma Alpha\r\n\n  delta\tbeta x\nlast line here\nY";
    let mut one = InvertedIndex::new();
    let mut many = InvertedIndex::new();
    let mut three = InvertedIndex::new();
    one.index("d", text, 1).unwrap();
    many.index("d", text, 100).unwrap();
    three.index("d", text, 3).unwrap();
    assert_eq!(one.len(), many.len());
    assert_eq!(one.len(), three.len());
    assert_eq!(key_set(&one), key_set(&many));
    assert_eq!(key_set(&one), key_set(&three));
    assert_eq!(one.len(), 9);
}

#[test]
fn sample_with_many_workers() {
    let mut index = InvertedIndex::new();
    index.index("doc", SAMPLE, 100).unwrap();
    assert_eq!(index.len(), 16);
}

#[test]
fn shared_token_lists_both_documents() {
    let mut index = InvertedIndex::new();
    index.index("first", "shared one", 2).unwrap();
    index.index("second", "two shared", 2).unwrap();
    assert_eq!(
        posting_set(&index, "shared"),
        Some(HashSet::from(["first".to_owned(), "second".to_owned()]))
    );
    assert_eq!(posting_set(&index, "one"), Some(HashSet::from(["first".to_owned()])));
    assert_eq!(index.postings("missing"), None);
}

#[test]
fn same_document_twice_is_listed_once() {
    let mut index = InvertedIndex::new();
    index.index("doc", "word word\nword", 2).unwrap();
    index.index("doc", "word", 1).unwrap();
    assert_eq!(index.postings("word"), Some(vec!["doc".to_owned()]));
    assert_eq!(index.len(), 1);
}

#[test]
fn length_never_decreases() {
    let mut index = InvertedIndex::new();
    let mut last = index.len();
    for (doc, text) in [("a", SAMPLE), ("b", "Hello"), ("c", ""), ("d", "new words")] {
        index.index(doc, text, 4).unwrap();
        assert!(index.len() >= last);
        last = index.len();
    }
    assert_eq!(last, 18);
}

#[test]
fn empty_document_adds_nothing() {
    let mut index = InvertedIndex::new();
    assert_eq!(index.index("empty", "", 4), Ok(()));
    assert_eq!(index.index("blank", " \n\t\n", 4), Ok(()));
    assert_eq!(index.len(), 0);
}

#[test]
fn partial_index_of_one_worker() {
    let part = index_document_for_thread("doc", &["a b", "A c", "b  B"]);
    let keys: Vec<&str> = part.iter().map(|(k, _)| k.as_str()).collect();
    assert_eq!(keys, vec!["A", "B", "C"]);
    for (_, docs) in &part {
        assert_eq!(docs, &vec!["doc".to_owned()]);
    }
    assert!(index_document_for_thread("doc", &[]).is_empty());
}

#[test]
fn merge_unions_documents() {
    let mut index = InvertedIndex::new();
    index.merge(&vec![("k".to_owned(), vec!["x".to_owned(), "x".to_owned()])]);
    index.merge(&vec![
        ("k".to_owned(), vec!["y".to_owned()]),
        ("empty".to_owned(), vec![]),
    ]);
    assert_eq!(posting_set(&index, "k"), Some(HashSet::from(["x".to_owned(), "y".to_owned()])));
    assert_eq!(index.postings("k").map(|d| d.len()), Some(2));
    assert_eq!(index.postings("empty"), Some(vec![]));
    assert_eq!(index.len(), 2);
}

#[test]
fn summary_reports_the_count() {
    let mut index = InvertedIndex::new();
    assert_eq!(index.to_string(), "0 inverted indexes in memory");
    index.index("doc", SAMPLE, 1).unwrap();
    assert_eq!(index.to_string(), "16 inverted indexes in memory");
}

#[test]
fn lines_end_at_line_feeds() {
    assert_eq!(document_lines("a b\r\nc\n\nd\n"), vec!["a b", "c", "", "d"]);
    assert_eq!(document_lines("x\r"), vec!["x\r"]);
    assert!(document_lines("").is_empty());
}
