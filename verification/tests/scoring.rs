use fuzzline::{score, LineInfo, SearchBase, normalize_query};

fn q(pattern: &str) -> Vec<char> {
    normalize_query(pattern)
}

#[test]
fn empty_inputs_never_match() {
    assert_eq!(score("", "abc"), None);
    assert_eq!(score("abc", ""), None);
    assert_eq!(score("", ""), None);
}

#[test]
fn empty_query_or_zero_limit_yields_empty_result() {
    let mut base = SearchBase::new();
    base.add_line("alpha", 0);
    base.add_line("beta", 0);
    assert!(base.query("", 10).is_empty());
    assert!(base.query("alpha", 0).is_empty());
}

#[test]
fn absent_character_never_matches() {
    assert_eq!(score("hello", "xz"), None);
    assert_eq!(score("hello", "hx"), None);
    assert_eq!(score("abcabc", "d"), None);
}

#[test]
fn exact_match_value() {
    // heat 60 at both positions, gap one, exact boost of ten million
    // weighted by ten.
    assert_eq!(score("ab", "ab"), Some(100_000_800));
}

#[test]
fn single_character_match_value() {
    // heat 60 at position one, no gap, no boost.
    assert_eq!(score("ab", "b"), Some(600));
}

#[test]
fn exact_self_match_ranks_at_or_above_subsequences() {
    let line = "hello_world";
    let full = score(line, line).expect("self match");
    for sub in ["hw", "hello", "hld", "h", "eo", "world"] {
        let partial = score(line, sub).expect("subsequence match");
        assert!(full >= partial, "{sub} outranked the exact match");
    }
}

#[test]
fn case_insensitive_query_both_directions_of_case() {
    let lower_query = score("Hello", "he").expect("lowercase query");
    let upper_query = score("Hello", "HE").expect("uppercase query");
    assert_eq!(lower_query, upper_query);
}

#[test]
fn tighter_alignment_wins_within_one_line() {
    // "aab" offers alignments at positions (0,2) and (1,2); equal heat would
    // favor neither, but the tighter pair has both less span and the engine
    // must return the maximum: 60 and 30 of heat, one gap.
    assert_eq!(score("aab", "ab"), Some(500));
}

#[test]
fn compactness_beats_wide_gap() {
    let tight = score("xxab", "ab").expect("tight");
    let wide = score("xaxxxxxxxb", "ab").expect("wide");
    assert!(tight > wide);
}

#[test]
fn ranking_orders_exact_first() {
    let mut base = SearchBase::new();
    base.add_line("foobar", 0);
    base.add_line("foo_bar", 0);
    base.add_line("fb", 0);
    let all = base.query("fb", 3);
    assert_eq!(all, vec!["fb".to_string(), "foo_bar".to_string(), "foobar".to_string()]);
    let top = base.query("fb", 1);
    assert_eq!(top, vec!["fb".to_string()]);
}

#[test]
fn bounded_limit_returns_top_scores_in_order() {
    let mut base = SearchBase::new();
    let mut expected: Vec<String> = Vec::new();
    for k in 0..10 {
        let mut line = String::new();
        for _ in 0..k {
            line.push('x');
        }
        line.push_str("qa");
        if k < 5 {
            expected.push(line.clone());
        }
        base.add_line(&line, 0);
    }
    for _ in 0..90 {
        base.add_line("zzz", 0);
    }
    let got = base.query("qa", 5);
    assert_eq!(got, expected);
    // the full list continues in the same strictly descending order
    let all = base.query("qa", 100);
    assert_eq!(all.len(), 10);
    assert_eq!(&all[..5], &expected[..]);
}

#[test]
fn repeated_queries_are_identical() {
    let mut base = SearchBase::new();
    base.add_line("alpha beta", 3);
    base.add_line("alphabet", 0);
    base.add_line("a_l_p_h_a", -7);
    let first = base.query("alp", 10);
    let second = base.query("alp", 10);
    let third = base.query("alp", 10);
    assert_eq!(first, second);
    assert_eq!(second, third);
}

#[test]
fn factor_biases_score_and_can_be_updated() {
    let pattern = q("ab");
    let plain = LineInfo::new("ab", 0);
    let mut boosted = LineInfo::new("ab", 100);
    assert_eq!(plain.get_factor(), 0);
    assert_eq!(boosted.get_factor(), 100);
    let base_score = plain.score(&pattern).expect("match");
    let boosted_score = boosted.score(&pattern).expect("match");
    // the factor enters the score weighted by ten
    assert_eq!(boosted_score, base_score + 1000);
    boosted.set_factor(-50);
    assert_eq!(boosted.get_factor(), -50);
    let lowered = boosted.score(&pattern).expect("match");
    assert_eq!(lowered, base_score - 500);
}

#[test]
fn normalization_folds_compatibility_forms() {
    // U+FB01 is the "fi" ligature; NFKC decomposes it, so a plain query
    // finds it even though the raw characters differ.
    let ligature = "\u{FB01}le";
    assert!(score(ligature, "file").is_some());
    assert!(score(ligature, "fil").is_some());
}

#[test]
fn whitespace_is_stripped_from_queries() {
    let spaced = score("abc", "a c").expect("stripped query matches");
    let plain = score("abc", "ac").expect("plain query matches");
    assert_eq!(spaced, plain);
}

#[test]
fn numeric_class_transition_adds_heat() {
    let digit = score("vv2", "2").expect("digit");
    let letter = score("vvx", "x").expect("letter");
    assert!(digit > letter);
}

#[test]
fn position_after_separator_is_hot() {
    let after_sep = score("ax_b", "b").expect("after separator");
    let inside_word = score("axxb", "b").expect("inside word");
    assert!(after_sep > inside_word);
}

#[test]
fn separator_classification() {
    for c in [' ', '\t', '-', '_', ':', '.', '/', '\\'] {
        assert!(fuzzline::is_separator(c), "{c:?} should separate");
        assert!(matches!(fuzzline::char_class(c), fuzzline::CharClass::Separator));
    }
    assert!(!fuzzline::is_separator('a'));
    assert!(matches!(fuzzline::char_class('a'), fuzzline::CharClass::Alphabetic));
    assert!(matches!(fuzzline::char_class('7'), fuzzline::CharClass::Numeric));
    assert!(matches!(fuzzline::char_class('!'), fuzzline::CharClass::Other));
}

#[test]
fn higher_factor_wins_ties() {
    let mut base = SearchBase::new();
    base.add_line("abx", 0);
    base.add_line("aby", 500);
    // both lines score identically on "ab"; the larger factor must win
    let got = base.query("ab", 2);
    assert_eq!(got, vec!["aby".to_string(), "abx".to_string()]);
}

#[test]
fn order_within_equal_keys_is_stable() {
    let mut base = SearchBase::new();
    base.add_line("abu", 0);
    base.add_line("abv", 0);
    base.add_line("abw", 0);
    let got = base.query("ab", 3);
    assert_eq!(got, vec!["abu".to_string(), "abv".to_string(), "abw".to_string()]);
}

#[test]
fn long_lines_are_capped() {
    // characters beyond the cap of eighty positions are not indexed
    let mut line = String::new();
    for _ in 0..85 {
        line.push('x');
    }
    line.push('k');
    assert_eq!(score(&line, "k"), None);
}

#[test]
fn ranking_scores_exact_values() {
    // the three corpus lines of the ranking test, scored directly:
    // "fb"      heat 60 + 60, span 1 over 1 gap  -> 1200 - 400
    // "foo_bar" heat 60 + 162, span 4 over 1 gap -> 2220 - 1600
    // "foobar"  heat 60 + 15, span 3 over 1 gap  ->  750 - 1200
    let pattern = q("fb");
    assert_eq!(LineInfo::new("fb", 0).score(&pattern), Some(800));
    assert_eq!(LineInfo::new("foo_bar", 0).score(&pattern), Some(620));
    assert_eq!(LineInfo::new("foobar", 0).score(&pattern), Some(-450));
}
