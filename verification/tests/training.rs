use bpe_tokenizer::rewrite::{rewrite_parallel, rewrite_tokens, CHUNK_SIZE};
use bpe_tokenizer::select::select_pair;
use bpe_tokenizer::Tokenizer;

fn strings(items: &[&str]) -> Vec<String> {
    items.iter().map(|s| s.to_string()).collect()
}

fn symbols(text: &str) -> Vec<String> {
    text.chars().map(|c| c.to_string()).collect()
}

fn rewrite_whole(corpus: &[String], first: &str, second: &str) -> Vec<String> {
    let merged = format!("{}{}", first, second);
    rewrite_tokens(corpus, &first.to_string(), &second.to_string(), &merged)
}

fn rewrite_in_chunks(corpus: &[String], size: usize, first: &str, second: &str) -> Vec<String> {
    let merged = format!("{}{}", first, second);
    rewrite_parallel(&corpus.to_vec(), size, &first.to_string(), &second.to_string(), &merged)
}

#[test]
fn new_flattens_sequences_into_symbols() {
    let t = Tokenizer::new(strings(&["ABAB", "AB"]), strings(&["A", "B"]));
    assert_eq!(t.training_data(), &strings(&["A", "B", "A", "B", "A", "B"]));
    assert_eq!(t.dict(), &strings(&["A", "B"]));
}

#[test]
fn new_keeps_no_mark_between_sequences() {
    let t = Tokenizer::new(strings(&["AB", "", "C"]), strings(&["A"]));
    assert_eq!(t.training_data(), &strings(&["A", "B", "C"]));
}

#[test]
fn new_cuts_by_characters_not_bytes() {
    let t = Tokenizer::new(strings(&["aé€𝄞"]), strings(&["a"]));
    assert_eq!(t.training_data(), &strings(&["a", "é", "€", "𝄞"]));
}

#[test]
fn train_merges_the_most_frequent_pair() {
    let mut t = Tokenizer::new(strings(&["ABAB", "AB"]), strings(&["A", "B"]));
    t.train(3);
    assert_eq!(t.dict(), &strings(&["A", "B", "AB"]));
    assert_eq!(t.training_data(), &strings(&["AB", "AB", "AB"]));
}

#[test]
fn train_continues_on_merged_tokens() {
    let mut t = Tokenizer::new(strings(&["ABAB", "AB"]), strings(&["A", "B"]));
    t.train(4);
    assert_eq!(t.dict(), &strings(&["A", "B", "AB", "ABAB"]));
    assert_eq!(t.training_data(), &strings(&["ABAB", "AB"]));
}

#[test]
fn train_stops_when_the_corpus_holds_no_pair() {
    let mut t = Tokenizer::new(strings(&["ABAB", "AB"]), strings(&["A", "B"]));
    t.train(100);
    assert_eq!(t.dict(), &strings(&["A", "B", "AB", "ABAB", "ABABAB"]));
    assert_eq!(t.training_data(), &strings(&["ABABAB"]));
}

#[test]
fn train_reaches_the_target_size_exactly() {
    let mut t = Tokenizer::new(strings(&["ACGTACGTAC"]), strings(&["A", "C", "G", "T"]));
    t.train(6);
    assert_eq!(t.dict().len(), 6);
}

#[test]
fn train_to_a_smaller_size_changes_nothing() {
    let mut t = Tokenizer::new(strings(&["ABAB"]), strings(&["A", "B", "C"]));
    t.train(2);
    assert_eq!(t.dict(), &strings(&["A", "B", "C"]));
    assert_eq!(t.training_data(), &strings(&["A", "B", "A", "B"]));
    t.train(3);
    assert_eq!(t.dict(), &strings(&["A", "B", "C"]));
    t.train(0);
    assert_eq!(t.dict(), &strings(&["A", "B", "C"]));
}

#[test]
fn train_never_shrinks_and_only_appends() {
    let start = strings(&["A", "C", "G", "T"]);
    let mut t = Tokenizer::new(strings(&["ACGTTGCAACGT", "GATTACA"]), start.clone());
    let mut before = t.dict().clone();
    for target in 0..12 {
        t.train(target);
        let after = t.dict().clone();
        assert!(after.len() >= before.len());
        assert_eq!(&after[..before.len()], &before[..]);
        assert_eq!(&after[..start.len()], &start[..]);
        before = after;
    }
}

#[test]
fn train_keeps_the_text_of_the_corpus() {
    let mut t = Tokenizer::new(strings(&["ACGTTGCAACGT", "GATTACA"]), strings(&["A"]));
    t.train(9);
    assert_eq!(t.training_data().concat(), "ACGTTGCAACGTGATTACA");
}

#[test]
fn train_on_a_single_symbol_adds_nothing() {
    let mut t = Tokenizer::new(strings(&["A"]), strings(&["A"]));
    t.train(5);
    assert_eq!(t.dict(), &strings(&["A"]));
    assert_eq!(t.training_data(), &strings(&["A"]));
}

#[test]
fn merge_step_reports_whether_it_merged() {
    let mut t = Tokenizer::new(strings(&["AB"]), strings(&["A", "B"]));
    assert!(t.merge_step());
    assert_eq!(t.dict(), &strings(&["A", "B", "AB"]));
    assert_eq!(t.training_data(), &strings(&["AB"]));
    assert!(!t.merge_step());
    assert_eq!(t.dict(), &strings(&["A", "B", "AB"]));
    assert_eq!(t.training_data(), &strings(&["AB"]));
}

#[test]
fn merge_step_does_not_check_for_a_known_token() {
    let mut t = Tokenizer::from_parts(strings(&["A", "B"]), strings(&["AB"]));
    assert!(t.merge_step());
    assert_eq!(t.dict(), &strings(&["AB", "AB"]));
}

#[test]
fn parts_go_in_and_out_unchanged() {
    let corpus = strings(&["AB", "", "C"]);
    let dict = strings(&["C", "AB", "C"]);
    let t = Tokenizer::from_parts(corpus.clone(), dict.clone());
    assert_eq!(t.training_data(), &corpus);
    assert_eq!(t.dict(), &dict);
    let (corpus_out, dict_out) = t.into_parts();
    assert_eq!(corpus_out, corpus);
    assert_eq!(dict_out, dict);
}

#[test]
fn select_pair_needs_two_tokens() {
    assert_eq!(select_pair(&strings(&[])), None);
    assert_eq!(select_pair(&strings(&["A"])), None);
    assert_eq!(select_pair(&strings(&["A", "B"])), Some(0));
}

#[test]
fn select_pair_takes_the_maximal_count() {
    // (B, C) occurs three times, every other pair less often.
    assert_eq!(select_pair(&symbols("ABCBCBCA")), Some(1));
    // (A, B) occurs three times.
    assert_eq!(select_pair(&symbols("ABABAB")), Some(0));
}

#[test]
fn select_pair_breaks_ties_by_first_occurrence() {
    assert_eq!(select_pair(&symbols("ABCD")), Some(0));
    // (C, D) and (A, B) both occur twice; (C, D) occurs first.
    assert_eq!(select_pair(&symbols("XCDABCDAB")), Some(1));
}

#[test]
fn select_pair_counts_overlapping_occurrences() {
    // (A, A) stands at 1 and 2; (B, A) and (A, C) once each.
    assert_eq!(select_pair(&symbols("BAAAC")), Some(1));
}

#[test]
fn select_pair_tells_pairs_of_longer_tokens_apart() {
    // ("A", "BC") and ("AB", "C") spell the same text but are two pairs.
    let corpus = strings(&["X", "A", "BC", "AB", "C", "AB", "C"]);
    assert_eq!(select_pair(&corpus), Some(3));
}

#[test]
fn rewrite_resumes_behind_the_replacement() {
    assert_eq!(rewrite_whole(&symbols("AAA"), "A", "A"), strings(&["AA", "A"]));
    assert_eq!(rewrite_whole(&symbols("AAAA"), "A", "A"), strings(&["AA", "AA"]));
}

#[test]
fn rewrite_replaces_every_occurrence() {
    assert_eq!(rewrite_whole(&symbols("ABAB"), "A", "B"), strings(&["AB", "AB"]));
    assert_eq!(rewrite_whole(&symbols("BABA"), "A", "B"), strings(&["B", "AB", "A"]));
    assert_eq!(rewrite_whole(&symbols("BBAA"), "A", "B"), symbols("BBAA"));
    assert_eq!(rewrite_whole(&[], "A", "B"), strings(&[]));
}

#[test]
fn rewrite_parallel_collapses_a_pair_across_a_boundary() {
    // chunks A | B
    assert_eq!(rewrite_in_chunks(&symbols("AB"), 1, "A", "B"), strings(&["AB"]));
    // chunks X A | B Y
    assert_eq!(rewrite_in_chunks(&symbols("XABY"), 2, "A", "B"), strings(&["X", "AB", "Y"]));
    // chunks A B A | B A B | A B
    assert_eq!(
        rewrite_in_chunks(&symbols("ABABABAB"), 3, "A", "B"),
        strings(&["AB", "AB", "AB", "AB"])
    );
}

#[test]
fn rewrite_parallel_equals_rewrite_for_every_chunk_size() {
    let corpora = ["", "A", "B", "AB", "BA", "ABABAB", "AABBAABB", "BABABABAB", "XAYBXABYAB"];
    for text in corpora {
        let corpus = symbols(text);
        let expected = rewrite_whole(&corpus, "A", "B");
        for size in 1..=corpus.len() + 2 {
            assert_eq!(rewrite_in_chunks(&corpus, size, "A", "B"), expected);
        }
        assert_eq!(rewrite_in_chunks(&corpus, CHUNK_SIZE, "A", "B"), expected);
    }
}

#[test]
fn rewrite_parallel_equals_rewrite_on_longer_tokens() {
    let corpus = strings(&["AB", "C", "AB", "AB", "C", "C", "AB", "C"]);
    let expected = strings(&["ABC", "AB", "ABC", "C", "ABC"]);
    assert_eq!(rewrite_whole(&corpus, "AB", "C"), expected);
    for size in 1..=10 {
        assert_eq!(rewrite_in_chunks(&corpus, size, "AB", "C"), expected);
    }
}

#[test]
fn rewrite_parallel_joins_chunks_from_the_left() {
    // chunks A | A | A: the first two collapse, the third stays.
    assert_eq!(rewrite_in_chunks(&symbols("AAA"), 1, "A", "A"), strings(&["AA", "A"]));
    // chunks X A | A A: the right chunk is rewritten before the join.
    assert_eq!(rewrite_in_chunks(&symbols("XAAA"), 2, "A", "A"), strings(&["X", "A", "AA"]));
    assert_eq!(rewrite_in_chunks(&symbols("XAAA"), 4, "A", "A"), strings(&["X", "AA", "A"]));
}
