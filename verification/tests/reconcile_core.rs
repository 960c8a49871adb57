use std::collections::BTreeMap;

use reconcile::diffs::lcs::{diff, make_table};
use reconcile::diffs::raw_operation::RawOperation;
use reconcile::operation_transformation::cursor::{CursorPosition, TextWithCursors};
use reconcile::operation_transformation::edited_text::EditedText;
use reconcile::operation_transformation::elongate_operations::elongate_operations;
use reconcile::operation_transformation::{reconcile, reconcile_with_cursors, reconcile_with_tokenizer};
use reconcile::operation_transformation::operation::Operation;
use reconcile::tokenizer::token::Token;
use reconcile::tokenizer::word_tokenizer::word_tokenizer;
use reconcile::utils::common_prefix_len::common_prefix_len;
use reconcile::utils::common_suffix_len::common_suffix_len;
use reconcile::utils::find_common_overlap::find_common_overlap;
use reconcile::utils::string_builder::StringBuilder;

fn token(text: &str) -> Token {
    Token::new(text.to_string(), text.to_string(), true, true)
}

#[test]
fn test_table() {
    let table = make_table(&vec![2, 3], 0..2, &vec![0, 1, 2], 0..3).unwrap();
    let expected = {
        let mut m = BTreeMap::new();
        m.insert((1, 0), 1);
        m.insert((0, 0), 1);
        m.insert((2, 0), 1);
        m
    };
    assert_eq!(table, expected);
}

#[test]
fn test_empty_examples() {
    assert_eq!(diff(&[], &[]), vec![]);
    assert_eq!(
        diff(&[token("a")], &[]),
        vec![RawOperation::Delete(vec![token("a")])]
    );
    assert_eq!(
        diff(&[], &[token("a")]),
        vec![RawOperation::Insert(vec![token("a")])]
    );
}

#[test]
fn test_common_prefix_len() {
    assert_eq!(common_prefix_len("".as_bytes(), 0..0, "".as_bytes(), 0..0), 0);
    assert_eq!(
        common_prefix_len("foobarbaz".as_bytes(), 0..9, "foobarblah".as_bytes(), 0..10),
        7
    );
    assert_eq!(
        common_prefix_len("foobarbaz".as_bytes(), 0..9, "blablabla".as_bytes(), 0..9),
        0
    );
    assert_eq!(
        common_prefix_len("foobarbaz".as_bytes(), 3..9, "foobarblah".as_bytes(), 3..10),
        4
    );
}

#[test]
fn test_common_suffix_len() {
    assert_eq!(common_suffix_len("".as_bytes(), 0..0, "".as_bytes(), 0..0), 0);
    assert_eq!(
        common_suffix_len("1234".as_bytes(), 0..4, "X0001234".as_bytes(), 0..8),
        4
    );
    assert_eq!(
        common_suffix_len("1234".as_bytes(), 0..4, "Xxxx".as_bytes(), 0..4),
        0
    );
    assert_eq!(
        common_suffix_len("1234".as_bytes(), 2..4, "01234".as_bytes(), 2..5),
        2
    );
}

#[test]
fn test_common_overlap() {
    assert_eq!(find_common_overlap(&["".into()], &["".into()]), 0);
    assert_eq!(
        find_common_overlap(
            &["a".into(), "b".into(), "c".into()],
            &["b".into(), "c".into(), "a".into()]
        ),
        1
    );
    assert_eq!(
        find_common_overlap(
            &["a".into(), "a".into(), "a".into()],
            &["a".into(), "b".into(), "c".into()]
        ),
        2
    );
    assert_eq!(
        find_common_overlap(
            &["a".into(), "b".into(), "c".into()],
            &["d".into(), "e".into(), "a".into()]
        ),
        3
    );
    assert_eq!(find_common_overlap(&["a".into(), "a".into()], &["a".into()]), 1);
}

#[test]
fn test_string_builder() {
    let original = "aaa bbb ccc";
    let mut builder = StringBuilder::new(original);

    builder.insert(0, "ddd ");
    builder.delete(4..8);
    builder.insert(11, " eee");

    assert_eq!(builder.build(), "ddd bbb ccc eee");
}

#[test]
fn test_string_builder2() {
    let original = "abcde";
    let mut builder = StringBuilder::new(original);

    builder.delete(1..4);

    assert_eq!(builder.build(), "ae");
}

fn originals(tokens: &[Token]) -> Vec<String> {
    tokens.iter().map(|t| t.original().to_string()).collect()
}

fn normalised(tokens: &[Token]) -> Vec<String> {
    tokens.iter().map(|t| t.normalised().clone()).collect()
}

#[test]
fn test_with_snapshots() {
    let tokens = word_tokenizer("Hi there!");
    assert_eq!(originals(&tokens), vec!["Hi", " ", "there!"]);
    assert_eq!(normalised(&tokens), vec!["Hi", " there!", "there!"]);

    assert!(word_tokenizer("").is_empty());

    let tokens = word_tokenizer(" what? ");
    assert_eq!(originals(&tokens), vec![" ", "what?", " "]);
    assert_eq!(normalised(&tokens), vec![" what?", "what?", " "]);

    let tokens = word_tokenizer(" hello, \nwhere are you?");
    assert_eq!(
        originals(&tokens),
        vec![" ", "hello,", " \n", "where", " ", "are", " ", "you?"]
    );
}

#[test]
fn edited_text_test_calculate_operations() {
    let left = "hello world! How are you?  Adam";
    let right = "Hello, my friend! How are you doing? Albert";

    let operations = EditedText::from_strings(left, right.into());

    let new_right = operations.apply();
    assert_eq!(new_right.to_string(), right);
}

#[test]
fn edited_text_test_calculate_operations_with_no_diff() {
    let text = "hello world!";

    let operations = EditedText::from_strings(text, text.into());

    let new_right = operations.apply();
    assert_eq!(new_right.to_string(), text);
}

#[test]
fn test_calculate_operations_with_insert() {
    let original = "hello world! ...";
    let left = "Hello world! I'm Andras.";
    let right = "Hello world! How are you?";
    let expected = "Hello world! How are you? I'm Andras.";

    let operations_1 = EditedText::from_strings(original, left.into());
    let operations_2 = EditedText::from_strings(original, right.into());

    let operations = operations_1.merge(operations_2);
    assert_eq!(operations.apply(), expected);
}

#[test]
fn test_cursor_complex() {
    let original = "this is some complex text to test cursor positions";
    let left = TextWithCursors::new(
        "this is really complex text for testing cursor positions",
        vec![
            CursorPosition { id: 0, char_index: 8 },
            CursorPosition { id: 1, char_index: 22 },
        ],
    );
    let right = TextWithCursors::new(
        "that was some complex sample to test cursor movements",
        vec![
            CursorPosition { id: 2, char_index: 5 },
            CursorPosition { id: 3, char_index: 29 },
        ],
    );

    let merged = reconcile_with_cursors(original, left, right);

    assert_eq!(
        merged,
        TextWithCursors::new(
            "that was really complex sample for testing cursor movements",
            vec![
                CursorPosition { id: 2, char_index: 5 },
                CursorPosition { id: 0, char_index: 9 },
                CursorPosition { id: 1, char_index: 23 },
                CursorPosition { id: 3, char_index: 31 },
            ]
        )
    );
}

#[test]
fn test_merge() {}

#[test]
fn reconcile_keeps_changes_of_one_side() {
    let original = "the quick brown fox";
    let edited = "the slow brown dog jumps";
    assert_eq!(reconcile(original, original, edited), edited);
    assert_eq!(reconcile(original, edited, original), edited);
}

#[test]
fn reconcile_merges_both_sides() {
    assert_eq!(
        reconcile("Hello world", "Hello beautiful world", "Hi world"),
        "Hi beautiful world"
    );
}

#[test]
fn reconcile_with_word_tokenizer_as_closure() {
    let merged = reconcile_with_tokenizer(
        "Hello world",
        "Hello beautiful world".into(),
        "Hi world".into(),
        &|text: &str| word_tokenizer(text),
    );
    assert_eq!(merged.text, "Hi beautiful world");
    assert!(merged.cursors.is_empty());
}

fn kept_tokens(script: &[RawOperation]) -> usize {
    script
        .iter()
        .map(|op| match op {
            RawOperation::Equal(tokens) => tokens.len(),
            _ => 0,
        })
        .sum()
}

#[test]
fn diff_keeps_a_longest_common_subsequence() {
    let old: Vec<Token> = ["a", "b", "c", "d"].iter().map(|t| token(t)).collect();
    let new: Vec<Token> = ["a", "x", "c", "d", "y"].iter().map(|t| token(t)).collect();
    assert_eq!(kept_tokens(&diff(&old, &new)), 3);

    let old: Vec<Token> = ["p", "a", "b", "c", "s"].iter().map(|t| token(t)).collect();
    let new: Vec<Token> = ["p", "c", "a", "b", "s"].iter().map(|t| token(t)).collect();
    assert_eq!(kept_tokens(&diff(&old, &new)), 4);
}

#[test]
fn elongate_joins_interleaved_inserts_and_deletes() {
    let script = vec![
        RawOperation::Insert(vec![token("x")]),
        RawOperation::Delete(vec![token("a")]),
        RawOperation::Insert(vec![token("y")]),
        RawOperation::Delete(vec![token("b")]),
        RawOperation::Equal(vec![token("c")]),
    ];
    assert_eq!(
        elongate_operations(script),
        vec![
            RawOperation::Insert(vec![token("x"), token("y")]),
            RawOperation::Delete(vec![token("a"), token("b")]),
            RawOperation::Equal(vec![token("c")]),
        ]
    );
}

#[test]
fn elongate_keeps_steps_that_do_not_join() {
    let stiff = |text: &str| Token::new(text.to_string(), text.to_string(), false, false);
    let script = vec![
        RawOperation::Insert(vec![stiff("x")]),
        RawOperation::Delete(vec![stiff("a")]),
        RawOperation::Insert(vec![stiff("y")]),
        RawOperation::Delete(vec![stiff("b")]),
        RawOperation::Equal(vec![stiff("c")]),
    ];
    assert_eq!(elongate_operations(script.clone()), script);
}

#[test]
fn reconcile_orders_inserts_at_one_place_by_side() {
    assert_eq!(reconcile("x", "a x", "b x"), "b a x");
    assert_eq!(reconcile("x", "b x", "a x"), "a b x");
}

#[test]
fn reconcile_with_case_insensitive_tokenizer_keeps_the_original_casing() {
    let tokenizer = |text: &str| -> Vec<Token> {
        word_tokenizer(text)
            .into_iter()
            .map(|token| {
                Token::new(
                    token.original().to_lowercase(),
                    token.original().to_string(),
                    token.get_is_left_joinable(),
                    token.get_is_right_joinable(),
                )
            })
            .collect()
    };
    let merged = reconcile_with_tokenizer(
        "Hello world",
        "hello world".into(),
        "Hello world".into(),
        &tokenizer,
    );
    assert_eq!(merged.text, "Hello world");
}

#[test]
fn create_insert_of_tokens_without_characters_is_none() {
    let empty = Token::new(String::new(), String::new(), true, true);
    assert!(Operation::create_insert(3, vec![empty.clone(), empty]).is_none());
    assert!(Operation::create_insert(3, Vec::new()).is_none());
    let op = Operation::create_insert(3, vec![Token::new(String::new(), String::new(), true, true), "hi".into()])
        .unwrap();
    assert_eq!(op.len(), 2);
}

#[test]
fn reconcile_keeps_changes_that_lie_apart() {
    assert_eq!(
        reconcile("one two three four five", "one 2 three four five", "one two three four 5"),
        "one 2 three four 5"
    );
    assert_eq!(
        reconcile("alpha beta gamma delta", "alpha gamma delta", "alpha beta gamma delta epsilon"),
        "alpha gamma delta epsilon"
    );
}
