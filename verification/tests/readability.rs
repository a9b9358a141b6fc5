use readability::DictError;
use readability::PipelineError;
use readability::build_weight_table;
use readability::compute_readability;
use readability::load_frequency_dict;
use readability::run_readability;
use readability::score_entries;
use readability::tokenize_english_words;

fn words(ts: &[&str]) -> Vec<String> {
    ts.iter().map(|t| t.to_string()).collect()
}

fn entries(es: &[(&str, u64)]) -> Vec<(String, u64)> {
    es.iter().map(|(w, c)| (w.to_string(), *c)).collect()
}

fn rendered(r: Result<Vec<char>, PipelineError>) -> String {
    r.expect("expected a score").into_iter().collect()
}

#[test]
fn tokenize_mixed_sentence() {
    let toks = tokenize_english_words("Hello, World! Isn't it nice?");
    assert_eq!(toks, words(&["hello", "world", "isn't", "it", "nice"]));
}

#[test]
fn tokenize_no_letters_is_empty() {
    let toks = tokenize_english_words("123 !!! ---");
    assert!(toks.is_empty());
}

#[test]
fn tokenize_contractions_and_apostrophes() {
    assert_eq!(tokenize_english_words("don't've"), words(&["don't", "ve"]));
    assert_eq!(tokenize_english_words("can''t"), words(&["can", "t"]));
    assert_eq!(tokenize_english_words("cats'"), words(&["cats"]));
    assert_eq!(tokenize_english_words("'em"), words(&["em"]));
    assert_eq!(tokenize_english_words("AbC DEF"), words(&["abc", "def"]));
    assert_eq!(tokenize_english_words(""), words(&[]));
}

#[test]
fn tokenize_is_ascii_only() {
    // Non-ASCII letters separate tokens just as punctuation does.
    assert_eq!(tokenize_english_words("caf\u{e9} na\u{ef}ve"), words(&["caf", "na", "ve"]));
}

#[test]
fn weights_follow_counts() {
    let t = build_weight_table(&entries(&[("the", 100), ("cat", 50)]), None).unwrap();
    assert_eq!(t.max_count(), 100);
    assert_eq!(t.count_of(&"the".to_string()), Some(100));
    assert_eq!(t.count_of(&"cat".to_string()), Some(50));
    assert_eq!(t.count_of(&"dog".to_string()), None);
    // Dictionary keys are not case-folded: only text tokens are.
    assert_eq!(t.count_of(&"The".to_string()), None);
}

#[test]
fn truncation_keeps_only_the_prefix() {
    let es = entries(&[("the", 100), ("cat", 50)]);
    let t = build_weight_table(&es, Some(1)).unwrap();
    assert_eq!(t.count_of(&"the".to_string()), Some(100));
    assert_eq!(t.count_of(&"cat".to_string()), None);
    // A limit beyond the length keeps everything.
    let t = build_weight_table(&es, Some(10)).unwrap();
    assert_eq!(t.count_of(&"cat".to_string()), Some(50));
}

#[test]
fn duplicate_word_last_write_wins() {
    let t = build_weight_table(&entries(&[("a", 5), ("b", 3), ("a", 2)]), None).unwrap();
    assert_eq!(t.count_of(&"a".to_string()), Some(2));
    assert_eq!(t.count_of(&"b".to_string()), Some(3));
    // The divisor is the maximum over the kept entries before dedup.
    assert_eq!(t.max_count(), 5);
}

#[test]
fn zero_count_dictionary_divides_by_one() {
    let t = build_weight_table(&entries(&[("a", 0)]), None).unwrap();
    assert_eq!(t.max_count(), 1);
    assert_eq!(t.count_of(&"a".to_string()), Some(0));
}

#[test]
fn empty_dictionary_is_an_error() {
    assert_eq!(
        build_weight_table(&entries(&[]), None).unwrap_err(),
        DictError::EmptyDict
    );
    assert_eq!(
        build_weight_table(&entries(&[("the", 100)]), Some(0)).unwrap_err(),
        DictError::EmptyDict
    );
    assert_eq!(
        score_entries(&entries(&[("the", 100)]), "the cat", Some(0), None).unwrap_err(),
        PipelineError::Dict(DictError::EmptyDict)
    );
}

#[test]
fn mean_weight_over_all_tokens() {
    let r = score_entries(&entries(&[("the", 100), ("cat", 50)]), "The cat the", None, None);
    assert_eq!(rendered(r), "0.833333");
}

#[test]
fn top_text_words_limits_scoring() {
    let es = entries(&[("the", 100), ("cat", 50)]);
    let r = score_entries(&es, "The cat the", None, Some(1));
    assert_eq!(rendered(r), "1.000000");
    let r = score_entries(&es, "The cat the", None, Some(2));
    assert_eq!(rendered(r), "0.750000");
}

#[test]
fn unknown_token_counts_toward_denominator() {
    let r = score_entries(&entries(&[("the", 100)]), "the zzz", None, None);
    assert_eq!(rendered(r), "0.500000");
}

#[test]
fn no_scoreable_words_is_an_error() {
    let es = entries(&[("the", 100)]);
    assert_eq!(
        score_entries(&es, "123 !!! ---", None, None).unwrap_err(),
        PipelineError::NoWords
    );
    assert_eq!(
        score_entries(&es, "the cat", None, Some(0)).unwrap_err(),
        PipelineError::NoWords
    );
    let toks = tokenize_english_words("123 !!! ---");
    let t = build_weight_table(&es, None).unwrap();
    assert!(compute_readability(&toks, &t, None).is_none());
}

#[test]
fn rounding_is_half_up_on_the_seventh_digit() {
    // 4 / 6 = 0.666666... rounds up on the sixth digit.
    let r = score_entries(&entries(&[("a", 1), ("b", 3)]), "a b", None, None);
    assert_eq!(rendered(r), "0.666667");
    // 1 / 3 = 0.333333... stays down.
    let r = score_entries(&entries(&[("a", 1), ("b", 3)]), "a", None, None);
    assert_eq!(rendered(r), "0.333333");
}

#[test]
fn near_one_rounds_to_one() {
    let r = score_entries(&entries(&[("a", 2999999), ("b", 3000000)]), "a", None, None);
    assert_eq!(rendered(r), "1.000000");
}

#[test]
fn score_is_exact_rational_not_float() {
    // 1 / 10^7 of the maximum: small but not lost.
    let r = score_entries(&entries(&[("a", 1), ("b", 10000000)]), "a", None, None);
    assert_eq!(rendered(r), "0.000000");
    let r = score_entries(&entries(&[("a", 5), ("b", 10000000)]), "a", None, None);
    assert_eq!(rendered(r), "0.000001");
}

#[test]
fn duplicate_overwrite_affects_the_score() {
    // "a" weighs 2/5 after the overwrite: the divisor still comes from
    // the entries before dedup.
    let r = score_entries(&entries(&[("a", 5), ("b", 3), ("a", 2)]), "a", None, None);
    assert_eq!(rendered(r), "0.400000");
}

#[test]
fn largest_counts_do_not_overflow() {
    let r = score_entries(&entries(&[("a", u64::MAX)]), "a a a", None, None);
    assert_eq!(rendered(r), "1.000000");
    let r = score_entries(&entries(&[("a", u64::MAX), ("b", 1)]), "a b", None, None);
    assert_eq!(rendered(r), "0.500000");
}

#[test]
fn score_holds_the_exact_rational() {
    let t = build_weight_table(&entries(&[("the", 100), ("cat", 50)]), None).unwrap();
    let toks = tokenize_english_words("The cat the");
    let sc = compute_readability(&toks, &t, None).unwrap();
    assert_eq!(sc.numer(), 250);
    assert_eq!(sc.denom(), 300);
}

#[test]
fn dictionary_casing_is_not_folded() {
    // Only text tokens are lowercased, so an uppercase dictionary key
    // never matches.
    let r = score_entries(&entries(&[("The", 100)]), "The", None, None);
    assert_eq!(rendered(r), "0.000000");
    let r = score_entries(&entries(&[("the", 100)]), "THE", None, None);
    assert_eq!(rendered(r), "1.000000");
}

#[test]
fn load_dictionary_from_json() {
    let t = load_frequency_dict("[[\"the\", 100], [\"cat\", 50]]", None).unwrap();
    assert_eq!(t.max_count(), 100);
    assert_eq!(t.count_of(&"the".to_string()), Some(100));
    assert_eq!(t.count_of(&"cat".to_string()), Some(50));
}

#[test]
fn load_dictionary_entry_must_have_exactly_two_elements() {
    assert_eq!(
        load_frequency_dict("[[\"the\", 100, \"extra\", null]]", None).unwrap_err(),
        DictError::EntryNotPair
    );
}

#[test]
fn load_dictionary_error_taxonomy() {
    let cases: &[(&str, DictError)] = &[
        ("not json", DictError::InvalidJson),
        ("{\"a\": 1}", DictError::NotArray),
        ("\"the\"", DictError::NotArray),
        ("[1]", DictError::EntryNotArray),
        ("[[\"the\", 100], 1]", DictError::EntryNotArray),
        ("[[\"the\"]]", DictError::EntryNotPair),
        ("[[]]", DictError::EntryNotPair),
        ("[[\"the\", 100, \"extra\"]]", DictError::EntryNotPair),
        ("[[1, 2]]", DictError::WordNotString),
        ("[[\"the\", \"many\"]]", DictError::CountNotInteger),
        ("[[\"the\", -1]]", DictError::CountNotInteger),
        ("[[\"the\", 1.5]]", DictError::CountNotInteger),
        ("[]", DictError::EmptyDict),
    ];
    for (content, expected) in cases {
        assert_eq!(load_frequency_dict(content, None).unwrap_err(), *expected);
    }
}

#[test]
fn run_whole_pipeline() {
    let dict = "[[\"the\", 100], [\"cat\", 50]]";
    let r = run_readability(dict, "The cat the", None, None);
    assert_eq!(rendered(r), "0.833333");
    let r = run_readability(dict, "The cat the", None, Some(1));
    assert_eq!(rendered(r), "1.000000");
    assert_eq!(
        run_readability(dict, "123", None, None).unwrap_err(),
        PipelineError::NoWords
    );
    assert_eq!(
        run_readability("oops", "The cat", None, None).unwrap_err(),
        PipelineError::Dict(DictError::InvalidJson)
    );
    assert_eq!(
        run_readability(dict, "The cat", Some(0), None).unwrap_err(),
        PipelineError::Dict(DictError::EmptyDict)
    );
}

#[test]
fn run_pipeline_truncates_dictionary_before_weighting() {
    // With only the first entry kept, "cat" is unknown: (1.0 + 0.0) / 2.
    let dict = "[[\"the\", 100], [\"cat\", 50]]";
    let r = run_readability(dict, "The cat", Some(1), None);
    assert_eq!(rendered(r), "0.500000");
}
