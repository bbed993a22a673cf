use typst_diff::similarity::{
    edit_distance_with_limit, similarity, split_words, word_overlap_similarity,
    Similarity,
};

fn value(s: Similarity) -> f64 {
    s.num as f64 / s.den as f64
}

#[test]
fn edit_distance_respects_limit() {
    assert_eq!(edit_distance_with_limit("kitten", "sitting", 3), Some(3));
    assert_eq!(edit_distance_with_limit("kitten", "sitting", 2), None);
}

#[test]
fn similarity_handles_large_dissimilar_texts() {
    let a = "a".repeat(10_000);
    let b = "b".repeat(10_000);
    assert_eq!(value(similarity(&a, &b)), 0.0);
}

#[test]
fn similarity_handles_large_insertions() {
    let old = "alpha beta gamma ".repeat(1_000);
    let new = format!("Foo {old}");
    assert!(value(similarity(&old, &new)) > 0.99);
}

#[test]
fn similarity_is_normalized_levenshtein_for_short_texts() {
    assert_eq!(similarity("abcd", "aefg"), Similarity { num: 1, den: 4 });
    assert_eq!(similarity("kitten", "sitting"), Similarity { num: 4, den: 7 });
    assert_eq!(similarity("abc", "xyz"), Similarity { num: 0, den: 3 });
}

#[test]
fn similarity_of_empty_texts_is_one() {
    assert_eq!(similarity("", ""), Similarity { num: 1, den: 1 });
}

#[test]
fn similarity_is_one_minus_normalized_distance() {
    assert_eq!(similarity("kitten", "sitting"), Similarity { num: 4, den: 7 });
}

#[test]
fn similarity_is_symmetric_on_examples() {
    assert_eq!(similarity("flaw", "lawn"), similarity("lawn", "flaw"));
    let a = "one two three ".repeat(200);
    let b = "three four ".repeat(300);
    assert_eq!(similarity(&a, &b), similarity(&b, &a));
}

#[test]
fn word_overlap_counts_each_word_once() {
    assert_eq!(
        word_overlap_similarity("a a b", "a c"),
        Similarity { num: 2, den: 5 }
    );
    assert_eq!(word_overlap_similarity("", "  "), Similarity { num: 1, den: 1 });
    assert_eq!(word_overlap_similarity("x", ""), Similarity { num: 0, den: 1 });
}

#[test]
fn split_words_matches_split_whitespace() {
    let text = "  Hello,\tworld \u{00A0}again\n";
    let ours = split_words(text);
    let std_words: Vec<String> = text.split_whitespace().map(str::to_string).collect();
    assert_eq!(ours, std_words);
}

#[test]
fn threshold_comparison_is_exact() {
    let s = Similarity { num: 3, den: 10 };
    assert!(s.reaches_threshold());
    assert!(!Similarity { num: 29, den: 100 }.reaches_threshold());
    assert!(Similarity { num: 1, den: 3 }.not_above(&Similarity { num: 2, den: 6 }));
    assert!(!Similarity { num: 1, den: 2 }.not_above(&Similarity { num: 1, den: 3 }));
}
