use reconcile::errors::SyncLibError;
use reconcile::sync_lib::operations::operation::Operation;
use reconcile::sync_lib::operations::operation_sequence::{tokenize, DiffTag, OperationSequence};
use ropey::Rope;
use similar::{utils::TextDiffRemapper, Algorithm, ChangeTag, TextDiff};

fn diff_operations(left: &str, right: &str) -> OperationSequence {
    let left_tokens = tokenize(left);
    let right_tokens = tokenize(right);
    let left_slices: Vec<&str> = left_tokens.iter().map(String::as_str).collect();
    let right_slices: Vec<&str> = right_tokens.iter().map(String::as_str).collect();
    let diff = TextDiff::configure()
        .algorithm(Algorithm::Patience)
        .diff_slices(&left_slices, &right_slices);
    let remapper = TextDiffRemapper::from_text_diff(&diff, left, right);
    let pieces: Vec<(DiffTag, String)> = diff
        .ops()
        .iter()
        .flat_map(|x| remapper.iter_slices(x))
        .map(|(tag, text)| {
            let tag = match tag {
                ChangeTag::Equal => DiffTag::Equal,
                ChangeTag::Insert => DiffTag::Insert,
                ChangeTag::Delete => DiffTag::Delete,
            };
            (tag, text.to_string())
        })
        .collect();
    OperationSequence::from_diff_pieces(&pieces)
}

fn applied(operations: &OperationSequence, text: &str) -> String {
    let mut rope = Rope::from_str(text);
    operations.apply(&mut rope).unwrap();
    rope.to_string()
}

fn sync_merge(original: &str, edit_1: &str, edit_2: &str) -> String {
    let operations_1 = diff_operations(original, edit_1);
    let operations_2 = diff_operations(original, edit_2);
    assert_eq!(applied(&operations_1, original), edit_1);
    assert_eq!(applied(&operations_2, original), edit_2);
    let merged = operations_1.merge(&operations_2).unwrap();
    applied(&merged, original)
}

fn sync_merge_both_ways(original: &str, edit_1: &str, edit_2: &str, expected: &str) {
    assert_eq!(sync_merge(original, edit_1, edit_2), expected);
    assert_eq!(sync_merge(original, edit_2, edit_1), expected);
}

#[test]
fn sync_lib_operation_sequence_merges() {
    sync_merge_both_ways(
        "original_1 original_2 original_3",
        "original_1 edit_1 original_3",
        "original_1 original_2 edit_2",
        "original_1 edit_1 edit_2",
    );
    sync_merge_both_ways(
        "original_1 original_2 original_3",
        "original_1 edit_1 original_3",
        "original_1 edit_1 original_3",
        "original_1 edit_1 edit_1 original_3",
    );
    sync_merge_both_ways(
        "original_1 original_2 original_3 original_4 original_5",
        "original_1 original_5",
        "original_1 edit_1 original_3 edit_2 original_5",
        "original_1 edit_1 edit_2 original_5",
    );
    sync_merge_both_ways(
        "original_1 original_2 original_3 original_4 original_5",
        "original_1 original_5",
        "original_1 edit_1 original_3 edit_2",
        "original_1 edit_1 edit_2",
    );
    sync_merge_both_ways("a b ", "c d ", "a b c d ", "c d c d ");
    sync_merge_both_ways("a b c d e", "a e", "a c e", "a e");
    sync_merge_both_ways("a 0 1 2 b", "a b", "a E 1 F b", "a E F b");
    sync_merge_both_ways(
        "a this one delete b",
        "a b",
        "a my one change b",
        "a my change b",
    );
    sync_merge_both_ways(
        "this stays, this is one big delete, don't touch this",
        "this stays, don't touch this",
        "this stays, my one change, don't touch this",
        "this stays, my change, don't touch this",
    );
    sync_merge_both_ways("1 2 3 4 5 6", "1 6", "1 2 4 ", "1 ");
    sync_merge_both_ways(
        "hello world",
        "hi, world",
        "hello my friend!",
        "hi, my friend!",
    );
    sync_merge_both_ways("hello world", "world !", "hi hello world", "hi world !");
    sync_merge_both_ways(
        "both delete the same word",
        "both the same word",
        "both the same word",
        "both the same word",
    );
    sync_merge_both_ways(
        "both delete the same word but one a bit more",
        "both the same word",
        "both same word",
        "both same wordword",
    );
    sync_merge_both_ways(
        "long text with one big delete and many small",
        "long small",
        "long with big and small",
        "long small",
    );
}

#[test]
fn sync_merge_with_an_unchanged_side_keeps_the_other() {
    let left = OperationSequence::new(vec![
        Operation::create_delete(2, 3).unwrap().unwrap(),
        Operation::create_insert(4, "xy").unwrap().unwrap(),
    ]);
    let right = OperationSequence::new(Vec::new());
    assert_eq!(left.merge(&right).unwrap(), left);
    assert_eq!(right.merge(&left).unwrap(), left);
}

#[test]
fn sync_merge_moves_an_insert_into_a_deleted_range_to_its_start() {
    // The left side deletes all of "abcde"; the right side inserts "X"
    // before "c".
    let left = OperationSequence::new(vec![Operation::create_delete(0, 5).unwrap().unwrap()]);
    let right = OperationSequence::new(vec![Operation::create_insert(2, "X").unwrap().unwrap()]);
    let merged = left.merge(&right).unwrap();
    assert_eq!(
        merged,
        OperationSequence::new(vec![
            Operation::Delete { index: 0, deleted_character_count: 5 },
            Operation::Insert { index: 0, text: "X".to_string() },
        ])
    );
    assert_eq!(applied(&merged, "abcde"), "X");
}

#[test]
fn sync_merge_drops_passed_deletes_from_the_shift() {
    // "abcdef": the left side deletes "ab" twice, the right side inserts
    // "Y" before "f".
    let left = OperationSequence::new(vec![
        Operation::create_delete(0, 2).unwrap().unwrap(),
        Operation::create_delete(0, 2).unwrap().unwrap(),
    ]);
    let right = OperationSequence::new(vec![Operation::create_insert(5, "Y").unwrap().unwrap()]);
    let merged = left.merge(&right).unwrap();
    assert_eq!(applied(&merged, "abcdef"), "eYf");
}

#[test]
fn sync_merge_reports_a_negative_shifted_index() {
    let left = OperationSequence::new(vec![
        Operation::create_delete(0, 2).unwrap().unwrap(),
        Operation::create_delete(0, 2).unwrap().unwrap(),
    ]);
    let right = OperationSequence::new(vec![
        Operation::create_insert(5, "Y").unwrap().unwrap(),
        Operation::create_insert(0, "Z").unwrap().unwrap(),
    ]);
    match left.merge(&right) {
        Err(SyncLibError::NegativeOperationIndexError(message)) => assert_eq!(
            message,
            "Index -4 is negative but operations must have a non-negative index"
        ),
        other => panic!("unexpected {:?}", other),
    }
}

#[test]
fn sync_diff_pieces_become_inserts_and_deletes_at_new_text_indices() {
    let pieces = vec![
        (DiffTag::Equal, "hello ".to_string()),
        (DiffTag::Delete, "world".to_string()),
        (DiffTag::Insert, "there".to_string()),
        (DiffTag::Insert, String::new()),
        (DiffTag::Equal, "! ".to_string()),
        (DiffTag::Insert, "bye".to_string()),
    ];
    let operations = OperationSequence::from_diff_pieces(&pieces);
    assert_eq!(
        operations,
        OperationSequence::new(vec![
            Operation::Delete { index: 6, deleted_character_count: 5 },
            Operation::Insert { index: 6, text: "there".to_string() },
            Operation::Insert { index: 13, text: "bye".to_string() },
        ])
    );
    assert_eq!(applied(&operations, "hello world! "), "hello there! bye");
}

#[test]
fn sync_diff_pieces_of_equal_texts_give_no_operations() {
    let pieces = vec![(DiffTag::Equal, "same text".to_string())];
    let operations = OperationSequence::from_diff_pieces(&pieces);
    assert_eq!(operations, OperationSequence::new(Vec::new()));
    assert_eq!(applied(&operations, "same text"), "same text");
}

#[test]
fn sync_merge_keeps_changes_that_lie_apart() {
    assert_eq!(
        sync_merge("one two three four five", "one 2 three four five", "one two three four 5"),
        "one 2 three four 5"
    );
    assert_eq!(
        sync_merge("one two three four five", "one two three four 5", "one 2 three four five"),
        "one 2 three four 5"
    );
}
