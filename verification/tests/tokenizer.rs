use bpe_tokenizer::counter::count_pairs;
use bpe_tokenizer::rewrite::merge_tokenized_corpus;
use bpe_tokenizer::segment::character_level_tokenize;
use bpe_tokenizer::segment::tokenize;
use bpe_tokenizer::selector::select_best;
use bpe_tokenizer::split::split_with_separators;
use bpe_tokenizer::split::split_with_separators_old;
use bpe_tokenizer::train::build_bpe_vocabulary;
use bpe_tokenizer::train::seed_vocabulary;
use bpe_tokenizer::train::train;
use bpe_tokenizer::train::TrainError;
use bpe_tokenizer::vocab::Vocabulary;
use bpe_tokenizer::vocab::VocabularyError;

fn toks(xs: &[&str]) -> Vec<String> {
    xs.iter().map(|x| x.to_string()).collect()
}

fn entries(xs: &[(&str, usize)]) -> Vec<(String, usize)> {
    xs.iter().map(|(k, v)| (k.to_string(), *v)).collect()
}

fn vocab_of(xs: &[(&str, usize)]) -> Vocabulary {
    Vocabulary::from_entries(entries(xs)).unwrap()
}

fn table_entries(t: &bpe_tokenizer::table::CandidatePairTable) -> Vec<(String, usize)> {
    let mut out = Vec::new();
    let mut i = 0;
    while i < t.num_entries() {
        let e = t.entry_at(i);
        out.push((e.0.clone(), e.1));
        i += 1;
    }
    out
}

fn vocab_entries(v: &Vocabulary) -> Vec<(String, usize)> {
    let mut out = Vec::new();
    let mut i = 0;
    while i < v.len() {
        let e = v.entry_at(i);
        out.push((e.0.clone(), e.1));
        i += 1;
    }
    out
}

#[test]
fn counts_adjacent_pairs() {
    let table = count_pairs(&toks(&["a", "a", "a", "b"]), false);
    assert_eq!(table_entries(&table), entries(&[("aa", 2), ("ab", 1)]));
}

#[test]
fn counting_ignores_short_sequences() {
    let table = count_pairs(&toks(&["ab"]), false);
    assert_eq!(table.num_entries(), 0);
    let empty = count_pairs(&toks(&[]), false);
    assert_eq!(empty.num_entries(), 0);
}

#[test]
fn selects_highest_frequency() {
    let table = count_pairs(&toks(&["a", "a", "a", "b"]), false);
    let (token, freq) = select_best(&table);
    assert_eq!(token, "aa".to_string());
    assert_eq!(freq, 2);
}

#[test]
fn empty_table_yields_zero_sentinel() {
    let table = count_pairs(&toks(&["ab"]), false);
    let (token, freq) = select_best(&table);
    assert_eq!(token, "".to_string());
    assert_eq!(freq, 0);
}

#[test]
fn tie_break_picks_lexicographically_smallest() {
    // All three candidates occur once: the smallest key wins.
    let table = count_pairs(&toks(&["a", "b", "c", "d"]), false);
    let (token, freq) = select_best(&table);
    assert_eq!(token, "ab".to_string());
    assert_eq!(freq, 1);

    // Three candidates of count two; "ab" is the smallest of the maxima.
    let table = count_pairs(&toks(&["c", "d", "a", "b", "c", "d", "a", "b"]), false);
    let (token, freq) = select_best(&table);
    assert_eq!(token, "ab".to_string());
    assert_eq!(freq, 2);
}

#[test]
fn whitespace_filter_suppresses_pairs() {
    let with_filter = count_pairs(&toks(&["a", " ", "b"]), true);
    assert_eq!(table_entries(&with_filter), entries(&[(" b", 1)]));

    let without_filter = count_pairs(&toks(&["a", " ", "b"]), false);
    assert_eq!(
        table_entries(&without_filter),
        entries(&[(" b", 1), ("a ", 1)])
    );
}

#[test]
fn rewrite_merges_left_to_right_without_overlap() {
    let merged = merge_tokenized_corpus(&toks(&["a", "a", "a", "b"]), "aa".to_string());
    assert_eq!(merged, toks(&["aa", "a", "b"]));
}

#[test]
fn rewrite_on_absent_target_is_identity() {
    let merged = merge_tokenized_corpus(&toks(&["a", "b", "c"]), "zz".to_string());
    assert_eq!(merged, toks(&["a", "b", "c"]));
}

#[test]
fn rewrite_handles_multibyte_characters() {
    let merged = merge_tokenized_corpus(&toks(&["\u{e9}", "\u{df}"]), "\u{e9}\u{df}".to_string());
    assert_eq!(merged, toks(&["\u{e9}\u{df}"]));
}

#[test]
fn segment_scenario_longest_first() {
    let vocabulary = vocab_of(&[("aa", 2), ("b", 1)]);
    let result = tokenize("aab", &vocabulary);
    assert_eq!(result, toks(&["aa", "b"]));
}

#[test]
fn segment_keeps_unknown_spans() {
    let vocabulary = vocab_of(&[("aa", 2), ("b", 1)]);
    let result = tokenize("xaabz", &vocabulary);
    assert_eq!(result, toks(&["x", "aa", "b", "z"]));
    assert_eq!(result.concat(), "xaabz".to_string());
}

#[test]
fn segment_round_trip_reconstructs_input() {
    let vocabulary = vocab_of(&[("ab", 2), ("a", 1), ("b", 1), ("c", 1)]);
    for text in ["", "a", "ab", "ba", "abcabc", "zzz", "cabba"] {
        let pieces = tokenize(text, &vocabulary);
        assert_eq!(pieces.concat(), text.to_string());
        for p in &pieces {
            assert!(!p.is_empty());
        }
    }
}

#[test]
fn segment_empty_input_yields_nothing() {
    let vocabulary = vocab_of(&[("a", 1)]);
    let result = tokenize("", &vocabulary);
    assert_eq!(result, toks(&[]));
}

#[test]
fn segment_with_empty_vocabulary_keeps_whole_input() {
    let vocabulary = Vocabulary::new();
    let result = tokenize("ab", &vocabulary);
    assert_eq!(result, toks(&["ab"]));
}

#[test]
fn split_keeps_separators_as_pieces() {
    assert_eq!(
        split_with_separators("xaabz", "aa".to_string()),
        toks(&["x", "aa", "bz"])
    );
    assert_eq!(
        split_with_separators("abc", "zz".to_string()),
        toks(&["abc"])
    );
    assert_eq!(split_with_separators("aa", "aa".to_string()), toks(&["aa"]));
    assert_eq!(
        split_with_separators("aaa", "aa".to_string()),
        toks(&["aa", "a"])
    );
    assert_eq!(
        split_with_separators("aaaa", "aa".to_string()),
        toks(&["aa", "aa"])
    );
    assert_eq!(split_with_separators("", "x".to_string()), toks(&[]));
}

#[test]
fn split_old_form_matches_new_form() {
    assert_eq!(
        split_with_separators_old("xaabz".to_string(), "aa".to_string()),
        toks(&["x", "aa", "bz"])
    );
    assert_eq!(
        split_with_separators_old("banana".to_string(), "an".to_string()),
        toks(&["b", "an", "an", "a"])
    );
}

#[test]
fn character_level_tokenize_splits_code_points() {
    assert_eq!(character_level_tokenize("abc"), toks(&["a", "b", "c"]));
    assert_eq!(
        character_level_tokenize("h\u{e9}\u{df}"),
        toks(&["h", "\u{e9}", "\u{df}"])
    );
    assert_eq!(character_level_tokenize(""), toks(&[]));
}

#[test]
fn vocabulary_load_accepts_valid_entries() {
    let v = Vocabulary::from_entries(entries(&[("aa", 2), ("b", 1)])).unwrap();
    assert_eq!(v.len(), 2);
    assert!(v.contains_token(&"aa".to_string()));
    assert!(!v.contains_token(&"ab".to_string()));
}

#[test]
fn vocabulary_load_counts_characters_not_bytes() {
    // A two-byte character is one code point, so its stored length is one.
    let v = Vocabulary::from_entries(entries(&[("\u{e9}", 1)])).unwrap();
    assert_eq!(v.len(), 1);
}

#[test]
fn vocabulary_load_rejects_malformed_entries() {
    assert_eq!(
        Vocabulary::from_entries(entries(&[("aa", 1)])).unwrap_err(),
        VocabularyError::MalformedVocabularyData
    );
    assert_eq!(
        Vocabulary::from_entries(entries(&[("", 0)])).unwrap_err(),
        VocabularyError::MalformedVocabularyData
    );
    assert_eq!(
        Vocabulary::from_entries(entries(&[("a", 1), ("a", 1)])).unwrap_err(),
        VocabularyError::MalformedVocabularyData
    );
}

#[test]
fn seed_contains_each_distinct_character_once() {
    let v = seed_vocabulary(&toks(&["a", "a", "a", "b"]));
    assert_eq!(vocab_entries(&v), entries(&[("a", 1), ("b", 1)]));
}

#[test]
fn single_training_iteration() {
    let corpus = toks(&["a", "a", "a", "b"]);
    let mut vocabulary = seed_vocabulary(&corpus);
    let (freq, merged) = build_bpe_vocabulary(&corpus, &mut vocabulary, 2, false);
    assert_eq!(freq, 2);
    assert_eq!(merged, toks(&["aa", "a", "b"]));
    assert_eq!(
        vocab_entries(&vocabulary),
        entries(&[("a", 1), ("b", 1), ("aa", 2)])
    );
}

#[test]
fn below_threshold_iteration_changes_nothing() {
    // The best candidate "ab" occurs once, below the threshold: the
    // candidate is not added and the sequence is not rewritten.
    let corpus = toks(&["a", "b"]);
    let mut vocabulary = seed_vocabulary(&corpus);
    let (freq, sequence) = build_bpe_vocabulary(&corpus, &mut vocabulary, 2, false);
    assert_eq!(freq, 1);
    assert_eq!(sequence, toks(&["a", "b"]));
    assert_eq!(vocab_entries(&vocabulary), entries(&[("a", 1), ("b", 1)]));
}

#[test]
fn empty_table_iteration_changes_nothing() {
    // A single token gives an empty candidate table and the zero-count
    // sentinel; the iteration leaves vocabulary and sequence untouched.
    let corpus = toks(&["ab"]);
    let mut vocabulary = seed_vocabulary(&corpus);
    let (freq, sequence) = build_bpe_vocabulary(&corpus, &mut vocabulary, 2, false);
    assert_eq!(freq, 0);
    assert_eq!(sequence, toks(&["ab"]));
    assert_eq!(vocab_entries(&vocabulary), entries(&[("a", 1), ("b", 1)]));
}

#[test]
fn train_full_run_grows_vocabulary_monotonically() {
    let corpus = toks(&["a", "a", "a", "b"]);
    let seed = vocab_entries(&seed_vocabulary(&corpus));
    let (vocabulary, sequence) = train(&corpus, 2, false).unwrap();
    let grown = vocab_entries(&vocabulary);
    assert_eq!(grown, entries(&[("a", 1), ("b", 1), ("aa", 2)]));
    // Every seed entry survives unchanged, at its position.
    assert_eq!(&grown[..seed.len()], &seed[..]);
    assert_eq!(sequence, toks(&["aa", "a", "b"]));
}

#[test]
fn train_terminates_immediately_on_single_token() {
    // One multi-character token: no window, an empty candidate table, and a
    // zero-count sentinel, so training stops with the seed vocabulary.
    let (vocabulary, sequence) = train(&toks(&["ab"]), 2, false).unwrap();
    assert_eq!(vocab_entries(&vocabulary), entries(&[("a", 1), ("b", 1)]));
    assert_eq!(sequence, toks(&["ab"]));
}

#[test]
fn train_rejects_corpora_of_fewer_than_two_characters() {
    assert_eq!(
        train(&toks(&["a"]), 2, false).unwrap_err(),
        TrainError::PreconditionViolation
    );
    assert_eq!(
        train(&toks(&[]), 2, false).unwrap_err(),
        TrainError::PreconditionViolation
    );
}

#[test]
fn train_repeated_merges() {
    // "abab": seed {a, b}; "ab" occurs twice and is merged; then "abab"
    // occurs once, which is below the threshold.
    let corpus = character_level_tokenize("abab");
    let (vocabulary, sequence) = train(&corpus, 2, false).unwrap();
    assert_eq!(
        vocab_entries(&vocabulary),
        entries(&[("a", 1), ("b", 1), ("ab", 2)])
    );
    assert_eq!(sequence, toks(&["ab", "ab"]));
}
