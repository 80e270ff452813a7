use regex_synthesis::ast::{Expression, Quantifier, Substring};
use regex_synthesis::config::RegExpConfig;
use regex_synthesis::dfa::{Dfa, Edge};
use regex_synthesis::grapheme::{Grapheme, GraphemeCluster};

fn cluster_of(text: &str) -> GraphemeCluster {
    GraphemeCluster::from_graphemes(text.chars().map(Grapheme::from_char).collect())
}

fn graphemes_of(text: &str) -> Vec<Grapheme> {
    text.chars().map(Grapheme::from_char).collect()
}

fn literal_of(text: &str, config: &RegExpConfig) -> Expression {
    Expression::new_literal(cluster_of(text), config)
}

fn dfa_of(accepting: Vec<bool>, edge_list: Vec<Vec<(usize, char)>>) -> Dfa {
    Dfa {
        accepting,
        edges: edge_list
            .into_iter()
            .map(|row| {
                row.into_iter()
                    .map(|(target, c)| Edge { target, label: Grapheme::from_char(c) })
                    .collect()
            })
            .collect(),
    }
}

fn as_text(v: &[char]) -> String {
    v.iter().collect()
}

#[test]
fn ensure_correct_string_representation_of_character_class_1() {
    let config = RegExpConfig::new();
    let char_class = Expression::new_character_class(vec!['a'], vec!['b'], &config);
    assert_eq!(as_text(&char_class.class_text()), "[ab]");
}

#[test]
fn ensure_correct_string_representation_of_character_class_2() {
    let config = RegExpConfig::new();
    let char_class = Expression::new_character_class(vec!['a', 'b'], vec!['c'], &config);
    assert_eq!(as_text(&char_class.class_text()), "[a-c]");
}

#[test]
fn ensure_correct_removal_of_prefix_in_literal() {
    let config = RegExpConfig::new();
    let mut literal = literal_of("abcdef", &config);
    assert_eq!(literal.value(None), Some(graphemes_of("abcdef")));

    literal.remove_substring(&Substring::Prefix, 2);
    assert_eq!(literal.value(None), Some(graphemes_of("cdef")));
}

#[test]
fn ensure_correct_removal_of_suffix_in_literal() {
    let config = RegExpConfig::new();
    let mut literal = literal_of("abcdef", &config);
    assert_eq!(literal.value(None), Some(graphemes_of("abcdef")));

    literal.remove_substring(&Substring::Suffix, 2);
    assert_eq!(literal.value(None), Some(graphemes_of("abcd")));
}

#[test]
fn empty_dfa_yields_epsilon() {
    let config = RegExpConfig::new();
    let dfa = dfa_of(vec![], vec![]);
    let expression = Expression::from(&dfa, &config);
    assert!(expression.is_empty());
}

#[test]
fn single_accepting_state_without_edges_yields_epsilon() {
    let config = RegExpConfig::new();
    let dfa = dfa_of(vec![true], vec![vec![]]);
    let expression = Expression::from(&dfa, &config);
    assert!(expression.is_empty());
}

#[test]
fn dfa_for_one_word_yields_its_literal() {
    let config = RegExpConfig::new();
    let dfa = dfa_of(vec![false, true], vec![vec![(1, 'a')], vec![]]);
    let expression = Expression::from(&dfa, &config);
    assert_eq!(expression, literal_of("a", &config));
}

#[test]
fn dfa_for_two_letters_yields_a_character_class() {
    let config = RegExpConfig::new();
    let dfa = dfa_of(vec![false, true], vec![vec![(1, 'a'), (1, 'b')], vec![]]);
    let expression = Expression::from(&dfa, &config);
    let expected = Expression::new_character_class(vec!['a'], vec!['b'], &config);
    assert_eq!(expression, expected);
}

#[test]
fn dfa_for_optional_letter_yields_question_mark_repetition() {
    let config = RegExpConfig::new();
    let dfa = dfa_of(vec![true, true], vec![vec![(1, 'a')], vec![]]);
    let expression = Expression::from(&dfa, &config);
    let expected =
        Expression::new_repetition(literal_of("a", &config), Quantifier::QuestionMark, &config);
    assert_eq!(expression, expected);
}

#[test]
fn dfa_for_one_longer_word_yields_one_literal() {
    let config = RegExpConfig::new();
    let dfa = dfa_of(
        vec![false, false, false, true],
        vec![vec![(1, 'a')], vec![(2, 'b')], vec![(3, 'c')], vec![]],
    );
    let expression = Expression::from(&dfa, &config);
    assert_eq!(expression, literal_of("abc", &config));
}

#[test]
fn dfa_with_common_prefix_factors_it_out() {
    let config = RegExpConfig::new();
    let dfa = dfa_of(
        vec![false, false, false, true],
        vec![vec![(1, 'a')], vec![(2, 'b')], vec![(3, 'c'), (3, 'd')], vec![]],
    );
    let expression = Expression::from(&dfa, &config);
    let expected = Expression::new_concatenation(
        literal_of("ab", &config),
        Expression::new_character_class(vec!['c'], vec!['d'], &config),
        &config,
    );
    assert_eq!(expression, expected);
}

#[test]
fn dfa_with_common_suffix_factors_it_out() {
    let config = RegExpConfig::new();
    let dfa = dfa_of(
        vec![false, false, false, true],
        vec![vec![(1, 'a'), (1, 'x')], vec![(2, 'b')], vec![(3, 'c')], vec![]],
    );
    let expression = Expression::from(&dfa, &config);
    let expected = Expression::new_concatenation(
        Expression::new_character_class(vec!['a'], vec!['x'], &config),
        literal_of("bc", &config),
        &config,
    );
    assert_eq!(expression, expected);
}

#[test]
fn dfa_for_nested_optional_words_absorbs_repetitions() {
    let config = RegExpConfig::new();
    let dfa = dfa_of(
        vec![false, true, true, true],
        vec![vec![(1, 'a')], vec![(2, 'b')], vec![(3, 'c')], vec![]],
    );
    let expression = Expression::from(&dfa, &config);
    let inner =
        Expression::new_repetition(literal_of("c", &config), Quantifier::QuestionMark, &config);
    let middle = Expression::new_repetition(
        Expression::new_concatenation(literal_of("b", &config), inner, &config),
        Quantifier::QuestionMark,
        &config,
    );
    let expected =
        Expression::new_concatenation(literal_of("a", &config), middle, &config);
    assert_eq!(expression, expected);
}

#[test]
fn dfa_for_three_letters_merges_them_into_one_class() {
    let config = RegExpConfig::new();
    let dfa = dfa_of(
        vec![false, true],
        vec![vec![(1, 'a'), (1, 'b'), (1, 'c')], vec![]],
    );
    let expression = Expression::from(&dfa, &config);
    let expected = Expression::new_character_class(vec!['a', 'b'], vec!['c'], &config);
    assert_eq!(expression, expected);
    assert_eq!(as_text(&expression.class_text()), "[a-c]");
}

#[test]
fn alternation_is_flat_and_sorted_by_decreasing_length() {
    let config = RegExpConfig::new();
    let alternation1 = Expression::new_alternation(
        literal_of("a", &config),
        literal_of("ab", &config),
        &config,
    );
    let alternation2 =
        Expression::new_alternation(alternation1, literal_of("abc", &config), &config);
    match &alternation2 {
        Expression::Alternation(children) => {
            assert_eq!(children.len(), 3);
            assert_eq!(children[0], literal_of("abc", &config));
            assert_eq!(children[1], literal_of("ab", &config));
            assert_eq!(children[2], literal_of("a", &config));
            for child in children {
                assert!(!matches!(child, Expression::Alternation(_)));
            }
        }
        _ => panic!("expected an alternation"),
    }
}

#[test]
fn union_of_two_letters_builds_a_two_member_class() {
    let config = RegExpConfig::new();
    let a = Some(literal_of("a", &config));
    let b = Some(literal_of("b", &config));
    let union = Expression::union(&a, &b, &config).unwrap();
    match &union {
        Expression::CharacterClass(chars) => {
            assert_eq!(chars.as_slice(), &['a', 'b']);
        }
        _ => panic!("expected a character class"),
    }
}

#[test]
fn union_of_equal_operands_returns_the_operand() {
    let config = RegExpConfig::new();
    let a = Some(literal_of("a", &config));
    let b = Some(literal_of("a", &config));
    let union = Expression::union(&a, &b, &config).unwrap();
    assert_eq!(union, literal_of("a", &config));
}

#[test]
fn union_with_epsilon_wraps_in_question_mark() {
    let config = RegExpConfig::new();
    let eps = Some(literal_of("", &config));
    let a = Some(literal_of("a", &config));
    let union = Expression::union(&eps, &a, &config).unwrap();
    let expected =
        Expression::new_repetition(literal_of("a", &config), Quantifier::QuestionMark, &config);
    assert_eq!(union, expected);
}

#[test]
fn union_with_absent_operand_returns_the_other() {
    let config = RegExpConfig::new();
    let a = Some(literal_of("a", &config));
    let none: Option<Expression> = None;
    assert_eq!(Expression::union(&a, &none, &config), a);
    assert_eq!(Expression::union(&none, &a, &config), a);
    assert_eq!(Expression::union(&none, &none, &config), None);
}

#[test]
fn concatenation_merges_adjacent_literals() {
    let config = RegExpConfig::new();
    let a = Some(literal_of("abc", &config));
    let b = Some(literal_of("def", &config));
    let joined = Expression::concatenate(&a, &b, &config).unwrap();
    assert_eq!(joined, literal_of("abcdef", &config));
}

#[test]
fn concatenation_keeps_no_literal_next_to_an_inner_literal() {
    let config = RegExpConfig::new();
    let class = Expression::new_character_class(vec!['x'], vec!['y'], &config);
    let right = Some(Expression::new_concatenation(
        literal_of("c", &config),
        class.clone(),
        &config,
    ));
    let left = Some(literal_of("ab", &config));
    let joined = Expression::concatenate(&left, &right, &config).unwrap();
    let expected = Expression::new_concatenation(
        literal_of("abc", &config),
        class,
        &config,
    );
    assert_eq!(joined, expected);
}

#[test]
fn concatenation_absorbs_epsilon() {
    let config = RegExpConfig::new();
    let eps = Some(literal_of("", &config));
    let a = Some(literal_of("a", &config));
    assert_eq!(Expression::concatenate(&eps, &a, &config), a);
    assert_eq!(Expression::concatenate(&a, &eps, &config), a);
    assert_eq!(Expression::concatenate(&a, &None, &config), None);
    assert_eq!(Expression::concatenate(&None, &a, &config), None);
}

#[test]
fn removal_on_concatenation_touches_only_the_left_literal() {
    let config = RegExpConfig::new();
    let class = Expression::new_character_class(vec!['x'], vec!['y'], &config);
    let mut concatenation = Expression::new_concatenation(
        literal_of("ab", &config),
        class.clone(),
        &config,
    );
    concatenation.remove_substring(&Substring::Prefix, 1);
    let expected = Expression::new_concatenation(literal_of("b", &config), class, &config);
    assert_eq!(concatenation, expected);
}

#[test]
fn removal_on_non_literal_shapes_is_a_no_op() {
    let config = RegExpConfig::new();
    let mut class = Expression::new_character_class(vec!['x'], vec!['y'], &config);
    let expected = class.clone();
    class.remove_substring(&Substring::Prefix, 1);
    assert_eq!(class, expected);
    let mut repetition = Expression::new_repetition(
        literal_of("ab", &config),
        Quantifier::KleeneStar,
        &config,
    );
    let expected_repetition = repetition.clone();
    repetition.remove_substring(&Substring::Suffix, 1);
    assert_eq!(repetition, expected_repetition);
}

#[test]
fn precedence_follows_the_variant() {
    let config = RegExpConfig::new();
    let literal = literal_of("ab", &config);
    let class = Expression::new_character_class(vec!['a'], vec!['b'], &config);
    let alternation = Expression::new_alternation(
        literal_of("a", &config),
        literal_of("bc", &config),
        &config,
    );
    let concatenation = Expression::new_concatenation(
        literal_of("a", &config),
        class.clone(),
        &config,
    );
    let repetition = Expression::new_repetition(
        literal_of("a", &config),
        Quantifier::KleeneStar,
        &config,
    );
    assert_eq!(literal.precedence(), 2);
    assert_eq!(class.precedence(), 1);
    assert_eq!(alternation.precedence(), 1);
    assert_eq!(concatenation.precedence(), 2);
    assert_eq!(repetition.precedence(), 3);
}

#[test]
fn length_is_the_minimum_grapheme_count_of_the_first_alternative() {
    let config = RegExpConfig::new();
    assert_eq!(literal_of("abc", &config).len(), 3);
    let class = Expression::new_character_class(vec!['a'], vec!['b'], &config);
    assert_eq!(class.len(), 1);
    let concatenation = Expression::new_concatenation(
        literal_of("ab", &config),
        literal_of("c", &config),
        &config,
    );
    assert_eq!(concatenation.len(), 3);
    let alternation = Expression::new_alternation(
        literal_of("a", &config),
        literal_of("xy", &config),
        &config,
    );
    assert_eq!(alternation.len(), 2);
}

#[test]
fn single_codepoint_check_heeds_the_escaping_mode() {
    let ascii_config = RegExpConfig::new();
    let escaping_config = RegExpConfig { is_non_ascii_char_escaped: true };
    let plain = literal_of("a", &ascii_config);
    assert!(plain.is_single_codepoint(&ascii_config));
    assert!(!literal_of("ab", &ascii_config).is_single_codepoint(&ascii_config));
    let accented = literal_of("\u{e9}", &ascii_config);
    assert!(accented.is_single_codepoint(&ascii_config));
    assert!(!accented.is_single_codepoint(&escaping_config));
}

#[test]
fn char_count_weighs_escaped_non_ascii_scalars_double() {
    let cluster = cluster_of("a\u{e9}");
    assert_eq!(cluster.char_count(false), 2);
    assert_eq!(cluster.char_count(true), 3);
}

#[test]
fn repeated_synthesis_is_deterministic() {
    let config = RegExpConfig::new();
    let first = Expression::from(
        &dfa_of(
            vec![false, false, false, true],
            vec![vec![(1, 'a')], vec![(2, 'b')], vec![(3, 'c'), (3, 'd')], vec![]],
        ),
        &config,
    );
    let second = Expression::from(
        &dfa_of(
            vec![false, false, false, true],
            vec![vec![(1, 'a')], vec![(2, 'b')], vec![(3, 'c'), (3, 'd')], vec![]],
        ),
        &config,
    );
    assert_eq!(first, second);
}

#[test]
fn class_text_mixes_single_scalars_and_ranges() {
    let config = RegExpConfig::new();
    let char_class =
        Expression::new_character_class(vec!['a', 'c', 'd'], vec!['e'], &config);
    assert_eq!(as_text(&char_class.class_text()), "[ac-e]");
}

#[test]
fn union_reuses_repetition_with_question_mark() {
    let config = RegExpConfig::new();
    let optional = Some(Expression::new_repetition(
        literal_of("ab", &config),
        Quantifier::QuestionMark,
        &config,
    ));
    let other = Some(literal_of("c", &config));
    let union = Expression::union(&optional, &other, &config).unwrap();
    let expected = Expression::new_repetition(
        Expression::new_alternation(
            literal_of("ab", &config),
            literal_of("c", &config),
            &config,
        ),
        Quantifier::QuestionMark,
        &config,
    );
    assert_eq!(union, expected);
}
