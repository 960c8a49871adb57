use reconcile::errors::SyncLibError as OperationError;
use reconcile::sync_lib::errors::SyncLibError;
use reconcile::sync_lib::operations::operation::Operation;
use reconcile::sync_lib::operations::operation_sequence::{tokenize, OperationSequence};
use reconcile::sync_lib::{base64_to_bytes, bytes_to_base64, is_binary, merge, merge_text};
use ropey::Rope;

#[test]
fn test_base64_to_bytes_error() {
    let input = "===";
    assert!(matches!(
        base64_to_bytes(input),
        Err(SyncLibError::DecodingError { .. })
    ));
}

#[test]
fn bytes_to_base64_encodes_without_padding() {
    assert_eq!(bytes_to_base64(b"hello"), "aGVsbG8");
    assert_eq!(base64_to_bytes("aGVsbG8").unwrap(), b"hello".to_vec());
}

#[test]
fn base64_round_trip() {
    let data: Vec<u8> = (0..=255u8).collect();
    assert_eq!(base64_to_bytes(&bytes_to_base64(&data)).unwrap(), data);
}

#[test]
fn binary_detection() {
    assert!(is_binary(&[0, 159, 146, 150]));
    assert!(is_binary(&[0, 12]));
    assert!(is_binary(&[159, 146, 150]));
    assert!(!is_binary(b"hello"));
    assert!(!is_binary("it’s utf-8!".as_bytes()));
}

#[test]
fn merge_binary_keeps_right() {
    let left = [0, 1, 2];
    let right = [3, 4, 5];
    assert_eq!(merge(b"", &left, &right), right.to_vec());
}

#[test]
fn merge_text_keeps_the_only_edit() {
    assert_eq!(merge(b"hello", b"hello", b"hello world"), b"hello world".to_vec());
    assert_eq!(merge_text("a b c", "a x c", "a b c"), "a x c");
}

#[test]
fn tokenize_splits_after_whitespace() {
    assert_eq!(tokenize("a b  c\n"), vec!["a ", "b ", " ", "c\n"]);
    assert_eq!(tokenize("hello"), vec!["hello"]);
    assert!(tokenize("").is_empty());
}

#[test]
fn test_apply_delete() -> Result<(), OperationError> {
    let mut rope = Rope::from_str("hello world");
    let operation = Operation::Delete {
        index: 5,
        deleted_character_count: 6,
    };

    operation.apply(&mut rope)?;

    assert_eq!(rope.to_string(), "hello");

    Ok(())
}

#[test]
fn test_apply_insert_with_create() -> Result<(), OperationError> {
    let mut rope = Rope::from_str("hello");
    let operation = Operation::create_insert(5, " my friend")?.unwrap();

    operation.apply(&mut rope)?;

    assert_eq!(rope.to_string(), "hello my friend");

    Ok(())
}

#[test]
fn sequence_applies_operations_in_order() {
    let mut rope = Rope::from_str("hello world");
    let sequence = OperationSequence::new(vec![
        Operation::create_delete(0, 5).unwrap().unwrap(),
        Operation::create_insert(0, "goodbye").unwrap().unwrap(),
    ]);
    sequence.apply(&mut rope).unwrap();
    assert_eq!(rope.to_string(), "goodbye world");
}

#[test]
fn sync_operations_read_in_messages() {
    let insert = Operation::create_insert(3, "hi").unwrap().unwrap();
    assert_eq!(insert.describe(), "Insert 'hi' from index 3");
    let delete = Operation::create_delete(12, 4).unwrap().unwrap();
    assert_eq!(delete.describe(), "Delete 4 characters index 12");
}
