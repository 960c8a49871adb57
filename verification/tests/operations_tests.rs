use reconcile::errors::SyncLibError;
use reconcile::operations::operation::Operation;
use reconcile::operations::operation_sequence::OperationSequence;
use ropey::Rope;

#[test]
fn operation_test_shifting_error() {
    let shifted = Operation::create_insert(1, "hi".to_string())
        .unwrap()
        .with_shifted_index(-2);
    match shifted {
        Err(SyncLibError::NegativeOperationIndexError(message)) => assert_eq!(
            message,
            "Index -1 is negative but operations must have a non-negative index"
        ),
        other => panic!("unexpected {:?}", other),
    }
}

#[test]
fn operation_test_apply_delete_with_create() -> Result<(), SyncLibError> {
    let mut rope = Rope::from_str("hello world");
    let operation = Operation::create_delete_with_text(5, " world".to_string()).unwrap();

    operation.apply(&mut rope)?;

    assert_eq!(rope.to_string(), "hello");

    Ok(())
}

#[test]
fn operation_test_apply_insert() -> Result<(), SyncLibError> {
    let mut rope = Rope::from_str("hello");
    let operation = Operation::create_insert(5, " my friend".to_string()).unwrap();

    operation.apply(&mut rope)?;

    assert_eq!(rope.to_string(), "hello my friend");

    Ok(())
}

#[test]
fn operation_apply_out_of_bounds_is_an_error() {
    let mut rope = Rope::from_str("hello");
    let operation = Operation::create_insert(6, "!".to_string()).unwrap();
    assert!(matches!(
        operation.apply(&mut rope),
        Err(SyncLibError::OperationApplicationError(_))
    ));
    assert_eq!(rope.to_string(), "hello");

    let operation = Operation::create_delete(3, 5).unwrap();
    assert!(matches!(
        operation.apply(&mut rope),
        Err(SyncLibError::OperationApplicationError(_))
    ));
    assert_eq!(rope.to_string(), "hello");
}

#[test]
fn operation_indices_and_lengths() {
    let operation = Operation::create_insert(3, "añb".to_string()).unwrap();
    assert_eq!(operation.start_index(), 3);
    assert_eq!(operation.len(), 3);
    assert_eq!(operation.end_index(), 5);
    assert_eq!(operation.range(), 3..=5);
    assert!(!operation.is_empty());
    assert_eq!(operation.with_index(7).start_index(), 7);
    assert_eq!(operation.with_shifted_index(-3).unwrap().start_index(), 0);
    assert!(Operation::create_insert(3, String::new()).is_none());
    assert!(Operation::create_delete(3, 0).is_none());
}

#[test]
fn operation_sequence_test_calculate_operations() {
    let left = "hello world! How are you?  Adam";
    let right = "Hello, my friend! How are you doing? Albert";

    let operations = OperationSequence::from_strings(left, right);

    let mut left = Rope::from_str(left);
    operations.apply(&mut left).unwrap();

    assert_eq!(left.to_string(), right);
}

#[test]
fn operation_sequence_test_calculate_operations_with_no_diff() {
    let left = "hello world!";
    let right = "hello world!";

    let operations = OperationSequence::from_strings(left, right);

    assert_eq!(operations.operation_count(), 0);

    let mut left = Rope::from_str(left);
    operations.apply(&mut left).unwrap();

    assert_eq!(left.to_string(), right);
}

fn merge_of(original: &str, edit_1: &str, edit_2: &str) -> String {
    let original = Rope::from_str(original);

    let operations_1 = OperationSequence::from_strings(&original.to_string(), edit_1);
    let operations_2 = OperationSequence::from_strings(&original.to_string(), edit_2);

    let mut copy = original.clone();
    operations_1.apply(&mut copy).unwrap();
    assert_eq!(copy.to_string(), edit_1);
    let mut copy = original.clone();
    operations_2.apply(&mut copy).unwrap();
    assert_eq!(copy.to_string(), edit_2);

    let merged = operations_1.merge(&operations_2).unwrap();

    let mut result = original.clone();
    merged.apply(&mut result).unwrap();
    result.to_string()
}

fn test_merge_both_ways(original: &str, edit_1: &str, edit_2: &str, expected: &str) {
    assert_eq!(merge_of(original, edit_1, edit_2), expected);
    assert_eq!(merge_of(original, edit_2, edit_1), expected);
}

#[test]
fn operation_sequence_test_merges() {
    // Both replaced one token but different
    test_merge_both_ways(
        "original_1 original_2 original_3",
        "original_1 edit_1 original_3",
        "original_1 original_2 edit_2",
        "original_1 edit_1 edit_2",
    );

    // Both replaced the same one token
    test_merge_both_ways(
        "original_1 original_2 original_3",
        "original_1 edit_1 original_3",
        "original_1 edit_1 original_3",
        "original_1 edit_1 edit_1 original_3",
    );

    // One deleted a large range, the other deleted subranges and inserted as well
    test_merge_both_ways(
        "original_1 original_2 original_3 original_4 original_5",
        "original_1 original_5",
        "original_1 edit_1 original_3 edit_2 original_5",
        "original_1 edit_1 edit_2 original_5",
    );

    // One deleted a large range, the other inserted and deleted a partially overlapping range
    test_merge_both_ways(
        "original_1 original_2 original_3 original_4 original_5",
        "original_1 original_5",
        "original_1 edit_1 original_3 edit_2",
        "original_1 edit_1 edit_2",
    );

    // Merge a replace and an append
    test_merge_both_ways("a b ", "c d ", "a b c d ", "c d c d ");

    test_merge_both_ways("a b c d e", "a e", "a c e", "a e");

    test_merge_both_ways("a 0 1 2 b", "a b", "a E 1 F b", "a E F b");

    test_merge_both_ways(
        "a this one delete b",
        "a b",
        "a my one change b",
        "a my change b",
    );

    test_merge_both_ways(
        "this stays, this is one big delete, don't touch this",
        "this stays, don't touch this",
        "this stays, my one change, don't touch this",
        "this stays, my change, don't touch this",
    );

    test_merge_both_ways("1 2 3 4 5 6", "1 6", "1 2 4 ", "1 ");

    test_merge_both_ways(
        "hello world",
        "hi, world",
        "hello my friend!",
        "hi, my friend!",
    );

    test_merge_both_ways(
        "both delete the same word",
        "both the same word",
        "both the same word",
        "both the same word",
    );

    test_merge_both_ways("    ", "it’s utf-8!", "   ", "it’s utf-8!");

    test_merge_both_ways(
        "both delete the same word but one a bit more",
        "both the same word",
        "both same word",
        "both same wordword",
    );

    test_merge_both_ways(
        "long text with one big delete and many small",
        "long small",
        "long with big and small",
        "long small",
    );
}

#[test]
fn merge_with_an_unchanged_side_keeps_the_other_edit() {
    let original = "the quick brown fox";
    let edited = "the slow brown dog";
    let unchanged = OperationSequence::from_strings(original, original);
    let changed = OperationSequence::from_strings(original, edited);
    for merged in [
        unchanged.merge(&changed).unwrap(),
        changed.merge(&unchanged).unwrap(),
    ] {
        let mut rope = Rope::from_str(original);
        merged.apply(&mut rope).unwrap();
        assert_eq!(rope.to_string(), edited);
    }
}

#[test]
fn operations_read_in_messages() {
    let insert = Operation::create_insert(3, "hi".to_string()).unwrap();
    assert_eq!(insert.describe(), "<insert 'hi' from index 3>");
    let delete = Operation::create_delete(12, 4).unwrap();
    assert_eq!(delete.describe(), "<delete 4 characters () from index 12>");
}

#[test]
fn operation_sequence_merge_keeps_changes_that_lie_apart() {
    test_merge_both_ways(
        "one two three four five",
        "one 2 three four five",
        "one two three four 5",
        "one 2 three four 5",
    );
}
