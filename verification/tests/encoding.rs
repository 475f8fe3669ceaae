use bpe_tokenizer::{EncodeError, Tokenizer};

fn strings(items: &[&str]) -> Vec<String> {
    items.iter().map(|s| s.to_string()).collect()
}

fn with_vocabulary(items: &[&str]) -> Tokenizer {
    Tokenizer::from_parts(Vec::new(), strings(items))
}

#[test]
fn string_to_tokens_takes_the_longest_match() {
    let vocabulary = strings(&["A", "B", "AB"]);
    assert_eq!(Tokenizer::string_to_tokens(&vocabulary, "AB"), Ok(strings(&["AB"])));
}

#[test]
fn string_to_tokens_falls_back_to_shorter_entries() {
    let vocabulary = strings(&["A", "B", "AB", "ABA"]);
    assert_eq!(
        Tokenizer::string_to_tokens(&vocabulary, "ABABB"),
        Ok(strings(&["ABA", "B", "B"]))
    );
    assert_eq!(Tokenizer::string_to_tokens(&vocabulary, "BAAB"), Ok(strings(&["B", "A", "AB"])));
}

#[test]
fn string_to_tokens_of_empty_text_is_empty() {
    assert_eq!(Tokenizer::string_to_tokens(&strings(&["A"]), ""), Ok(strings(&[])));
    assert_eq!(Tokenizer::string_to_tokens(&strings(&[]), ""), Ok(strings(&[])));
}

#[test]
fn string_to_tokens_fails_on_an_unknown_character() {
    let vocabulary = strings(&["A", "B"]);
    assert_eq!(
        Tokenizer::string_to_tokens(&vocabulary, "Z"),
        Err(EncodeError::UnknownToken { position: 0, character: 'Z' })
    );
    assert_eq!(
        Tokenizer::string_to_tokens(&vocabulary, "ABZA"),
        Err(EncodeError::UnknownToken { position: 2, character: 'Z' })
    );
}

#[test]
fn string_to_tokens_does_not_go_back_on_a_match() {
    // "AB" is taken first; that "A" and "BC" would cover the text does not help.
    let vocabulary = strings(&["A", "AB", "BC"]);
    assert_eq!(
        Tokenizer::string_to_tokens(&vocabulary, "ABC"),
        Err(EncodeError::UnknownToken { position: 2, character: 'C' })
    );
}

#[test]
fn string_to_tokens_counts_characters() {
    let vocabulary = strings(&["é", "€a", "a"]);
    assert_eq!(
        Tokenizer::string_to_tokens(&vocabulary, "é€aa"),
        Ok(strings(&["é", "€a", "a"]))
    );
    assert_eq!(
        Tokenizer::string_to_tokens(&vocabulary, "éé€"),
        Err(EncodeError::UnknownToken { position: 2, character: '€' })
    );
}

#[test]
fn tokenize_maps_tokens_to_ids() {
    let t = with_vocabulary(&["A", "B", "AB"]);
    assert_eq!(t.tokenize("AB".to_string()), Ok(vec![2]));
    assert_eq!(t.tokenize("BAABB".to_string()), Ok(vec![1, 0, 2, 1]));
    assert_eq!(t.tokenize(String::new()), Ok(vec![]));
}

#[test]
fn tokenize_fails_on_an_unknown_character() {
    let t = with_vocabulary(&["A", "B"]);
    assert_eq!(
        t.tokenize("Z".to_string()),
        Err(EncodeError::UnknownToken { position: 0, character: 'Z' })
    );
    assert_eq!(
        t.tokenize("AAZ".to_string()),
        Err(EncodeError::UnknownToken { position: 2, character: 'Z' })
    );
}

#[test]
fn tokenize_takes_the_first_of_equal_entries() {
    let t = with_vocabulary(&["B", "A", "B", "A"]);
    assert_eq!(t.tokenize("AB".to_string()), Ok(vec![1, 0]));
}

#[test]
fn tokenize_after_training_uses_the_merged_entries() {
    let mut t = Tokenizer::new(strings(&["ABAB", "AB"]), strings(&["A", "B"]));
    t.train(4);
    assert_eq!(t.tokenize("ABABABB".to_string()), Ok(vec![3, 2, 1]));
}

#[test]
fn token_to_id_finds_the_first_occurrence() {
    let t = with_vocabulary(&["A", "B", "AB", "B"]);
    assert_eq!(t.token_to_id(&"A".to_string()), Ok(0));
    assert_eq!(t.token_to_id(&"B".to_string()), Ok(1));
    assert_eq!(t.token_to_id(&"AB".to_string()), Ok(2));
}

#[test]
fn token_to_id_fails_on_a_token_that_is_no_entry() {
    let t = with_vocabulary(&["A", "B"]);
    assert_eq!(
        t.token_to_id(&"Z".to_string()),
        Err(EncodeError::TokenNotFound { token: "Z".to_string() })
    );
    assert_eq!(
        t.token_to_id(&"AB".to_string()),
        Err(EncodeError::TokenNotFound { token: "AB".to_string() })
    );
}

#[test]
fn ids_to_tokens_names_the_entries() {
    let t = with_vocabulary(&["A", "B", "AB"]);
    assert_eq!(t.ids_to_tokens(&vec![2, 0, 1, 2]), Some(strings(&["AB", "A", "B", "AB"])));
    assert_eq!(t.ids_to_tokens(&vec![]), Some(strings(&[])));
    assert_eq!(t.ids_to_tokens(&vec![0, 3]), None);
}

#[test]
fn decode_puts_the_entries_end_to_end() {
    let t = with_vocabulary(&["A", "B", "AB"]);
    assert_eq!(t.decode(&vec![2, 0, 1, 2]), Some("ABABAB".to_string()));
    assert_eq!(t.decode(&vec![]), Some(String::new()));
    assert_eq!(t.decode(&vec![3]), None);
}

#[test]
fn decode_undoes_tokenize() {
    let mut t = Tokenizer::new(
        strings(&["ACGTTGCAACGT", "GATTACA", "ACACACGT"]),
        strings(&["A", "C", "G", "T"]),
    );
    t.train(12);
    for text in ["", "A", "GATTACA", "ACGTACGTACGT", "TTTTGGGGCCCCAAAA", "ACACACACAC"] {
        let ids = t.tokenize(text.to_string()).unwrap();
        assert!(ids.iter().all(|&id| id < t.dict().len()));
        assert_eq!(t.decode(&ids), Some(text.to_string()));
        assert_eq!(t.ids_to_tokens(&ids).unwrap().concat(), text);
    }
}

#[test]
fn every_text_over_the_alphabet_can_be_encoded() {
    let mut t = Tokenizer::new(strings(&["ABBABAAB"]), strings(&["A", "B"]));
    t.train(6);
    for text in ["A", "B", "BBBB", "ABBA", "BABABABAAAB"] {
        assert!(t.tokenize(text.to_string()).is_ok());
    }
}

#[test]
fn ids_survive_a_json_record() {
    let mut t = Tokenizer::new(
        strings(&["ACGTTGCAACGT", "GATTACA", "ACACACGT"]),
        strings(&["A", "C", "G", "T"]),
    );
    t.train(10);
    let text = "GATTACAACGT";
    let ids = t.tokenize(text.to_string());
    let (corpus, dict) = t.into_parts();

    let mut record = serde_json::Map::new();
    record.insert("training_data".to_string(), serde_json::Value::from(corpus.clone()));
    record.insert("dict".to_string(), serde_json::Value::from(dict.clone()));
    let json = serde_json::to_string_pretty(&serde_json::Value::Object(record)).unwrap();
    let loaded: serde_json::Value = serde_json::from_str(&json).unwrap();
    let strings_in = |field: &str| -> Vec<String> {
        loaded[field].as_array().unwrap().iter().map(|s| s.as_str().unwrap().to_string()).collect()
    };

    let reloaded = Tokenizer::from_parts(strings_in("training_data"), strings_in("dict"));
    assert_eq!(reloaded.dict(), &dict);
    assert_eq!(reloaded.training_data(), &corpus);
    assert_eq!(reloaded.tokenize(text.to_string()), ids);
}
