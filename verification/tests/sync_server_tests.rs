use reconcile::sync_server::auth::auth;
use reconcile::sync_server::config::{
    default_users, get_random_token, AllowListedVaults, ServerConfig, User, UserConfig,
    VaultAccess,
};
use reconcile::sync_server::errors::{client_error, message_error, SyncServerError};
use reconcile::sync_lib::merge;
use reconcile::sync_server::server::create_document::{create_outcome, CreateOutcome};
use reconcile::sync_server::server::delete_document::delete_outcome;
use reconcile::sync_server::server::update_document::{update_outcome, UpdateOutcome};
use reconcile::sync_server::server::websocket::forwards_update;
use reconcile::sync_server::utils::{
    deduped_file_paths, parse_u32, paths_from_parts, sanitize_path, FreePathStep,
};

#[test]
fn test_sanitize_path() {
    assert_eq!(sanitize_path("/my/path/what?"), "/my/path/what");
    assert_eq!(sanitize_path("/my/path/\\\\:?"), "/my/path/_");
}

#[test]
fn test_deduped_file_paths() {
    let mut deduped = deduped_file_paths("file.txt");
    assert_eq!(deduped.next(), Some("file.txt".to_owned()));
    assert_eq!(deduped.next(), Some("file (1).txt".to_owned()));
    assert_eq!(deduped.next(), Some("file (2).txt".to_owned()));

    let mut deduped = deduped_file_paths("file");
    assert_eq!(deduped.next(), Some("file".to_owned()));
    assert_eq!(deduped.next(), Some("file (1)".to_owned()));
    assert_eq!(deduped.next(), Some("file (2)".to_owned()));

    let mut deduped = deduped_file_paths("file (51).md");
    assert_eq!(deduped.next(), Some("file (51).md".to_owned()));
    assert_eq!(deduped.next(), Some("file (52).md".to_owned()));
    assert_eq!(deduped.next(), Some("file (53).md".to_owned()));

    let mut deduped = deduped_file_paths("file (5)");
    assert_eq!(deduped.next(), Some("file (5)".to_owned()));
    assert_eq!(deduped.next(), Some("file (6)".to_owned()));
    assert_eq!(deduped.next(), Some("file (7)".to_owned()));

    let mut deduped = deduped_file_paths("my/path.with.dots/file (5).md");
    assert_eq!(
        deduped.next(),
        Some("my/path.with.dots/file (5).md".to_owned())
    );
    assert_eq!(
        deduped.next(),
        Some("my/path.with.dots/file (6).md".to_owned())
    );

    let mut deduped = deduped_file_paths("my/path.with.dots/file (5)");
    assert_eq!(
        deduped.next(),
        Some("my/path.with.dots/file (5)".to_owned())
    );
    assert_eq!(
        deduped.next(),
        Some("my/path.with.dots/file (6)".to_owned())
    );
}

#[test]
fn deduped_file_paths_stop_at_the_largest_number() {
    let mut deduped = deduped_file_paths("file (4294967295)");
    assert_eq!(deduped.next(), Some("file (4294967295)".to_owned()));
    assert_eq!(deduped.next(), None);
}

#[test]
fn parse_u32_follows_std() {
    for text in ["0", "42", "+7", "4294967295", "4294967296", "", "+", "-1", "1a", "٣"] {
        assert_eq!(parse_u32(text), text.parse::<u32>().ok(), "{text}");
    }
}

fn user(name: &str, token: &str, vault_access: VaultAccess) -> User {
    User {
        name: name.to_string(),
        token: token.to_string(),
        vault_access,
    }
}

#[test]
fn auth_checks_token_and_vault() {
    let users = UserConfig {
        user_tokens: vec![
            user("all", "a", VaultAccess::AllowAccessToAll),
            user(
                "some",
                "s",
                VaultAccess::AllowList(AllowListedVaults {
                    allowed: vec!["notes".to_string()],
                }),
            ),
        ],
    };

    assert_eq!(auth(&users, "a", "anything").unwrap().name, "all");
    assert_eq!(auth(&users, "s", "notes").unwrap().name, "some");
    match auth(&users, "s", "work") {
        Err(SyncServerError::PermissionDeniedError(e)) => {
            assert_eq!(e.message, "Permission denied for vault `work`")
        }
        other => panic!("unexpected {:?}", other.map(|u| u.name)),
    }
    match auth(&users, "x", "notes") {
        Err(SyncServerError::Unauthorized(e)) => assert_eq!(e.message, "Invalid token"),
        other => panic!("unexpected {:?}", other.map(|u| u.name)),
    }
    assert_eq!(users.get_user("s").unwrap().name, "some");
    assert!(users.get_user("none").is_none());
}

#[test]
fn default_user_has_a_random_token() {
    let users = default_users();
    assert_eq!(users.len(), 1);
    assert_eq!(users[0].name, "admin");
    assert_eq!(users[0].token.chars().count(), 64);
    assert!(users[0].token.chars().all(|c| c.is_ascii_alphanumeric()));
    assert_ne!(get_random_token(), get_random_token());
    assert_eq!(UserConfig::default().user_tokens.len(), 1);
}

#[test]
fn errors_serialize_their_report() {
    let error = client_error(message_error("bad request".to_string()));
    let report = error.serialize();
    assert_eq!(report.message, "bad request");
    assert!(report.causes.is_empty());
}

#[test]
fn create_outcome_decides_by_the_live_document() {
    assert!(matches!(
        create_outcome(None, false, 4, b"new"),
        CreateOutcome::Created { vault_update_id: 5 }
    ));
    assert!(matches!(
        create_outcome(Some(b"old"), true, 0, b"new"),
        CreateOutcome::Created { vault_update_id: 1 }
    ));
    assert!(matches!(create_outcome(Some(b"same"), false, 7, b"same"), CreateOutcome::Unchanged));
    match create_outcome(Some(b"hello world"), false, 9, b"hello there") {
        CreateOutcome::Merged { content, vault_update_id } => {
            assert_eq!(content, merge(b"", b"hello world", b"hello there"));
            assert_eq!(vault_update_id, 10);
        }
        _ => panic!("expected a merge"),
    }
    match create_outcome(Some(b"text"), false, 2, &[0, 1, 2]) {
        CreateOutcome::Merged { content, .. } => assert_eq!(content, vec![0, 1, 2]),
        _ => panic!("expected a merge"),
    }
}

#[test]
fn update_outcome_skips_unchanged_documents() {
    let outcome = update_outcome(b"a", "p.md", b"b", "p.md", false, 3, b"b", "p.md", true);
    assert!(matches!(outcome, UpdateOutcome::Unchanged));
}

#[test]
fn update_outcome_merges_mergeable_contents() {
    let outcome = update_outcome(
        b"Hello world",
        "p.md",
        b"Hello beautiful world",
        "p.md",
        false,
        41,
        b"Hi world",
        "p.md",
        true,
    );
    match outcome {
        UpdateOutcome::Stored { content, vault_update_id, is_deleted, takes_requested_path, merging } => {
            assert_eq!(content, b"Hi beautiful world".to_vec());
            assert_eq!(vault_update_id, 42);
            assert!(!is_deleted);
            assert!(takes_requested_path);
            assert!(merging);
        }
        _ => panic!("expected a stored version"),
    }
}

#[test]
fn update_outcome_replaces_other_contents_and_keeps_a_moved_path() {
    let outcome =
        update_outcome(b"a", "old.bin", b"b", "moved.bin", true, 0, b"c", "new.bin", false);
    match outcome {
        UpdateOutcome::Stored { content, vault_update_id, is_deleted, takes_requested_path, merging } => {
            assert_eq!(content, b"c".to_vec());
            assert_eq!(vault_update_id, 1);
            assert!(is_deleted);
            assert!(!takes_requested_path);
            assert!(!merging);
        }
        _ => panic!("expected a stored version"),
    }
}

#[test]
fn websocket_skips_own_updates() {
    assert!(!forwards_update("laptop", Some("laptop")));
    assert!(forwards_update("laptop", Some("phone")));
    assert!(forwards_update("laptop", None));
}

#[test]
fn max_body_size_is_counted_in_mebibytes() {
    let config = ServerConfig {
        host: "0.0.0.0".to_string(),
        port: 3030,
        max_body_size_mb: 5,
    };
    assert_eq!(config.max_body_size_bytes(), 5 * 1024 * 1024);
}

#[test]
fn errors_are_answered_with_their_status() {
    let report = || message_error("boom".to_string());
    assert_eq!(client_error(report()).status_code(), 400);
    assert_eq!(SyncServerError::InitError(report()).status_code(), 500);
    assert_eq!(SyncServerError::ServerError(report()).status_code(), 500);
    assert_eq!(SyncServerError::NotFound(report()).status_code(), 404);
    assert_eq!(SyncServerError::Unauthorized(report()).status_code(), 401);
    assert_eq!(SyncServerError::PermissionDeniedError(report()).status_code(), 403);
}

#[test]
fn free_path_step_asks_until_a_path_is_free() {
    let mut candidates = deduped_file_paths("notes/a.md");
    let first = match candidates.free_path_step(None, false) {
        FreePathStep::Ask(path) => path,
        _ => panic!("expected a question"),
    };
    assert_eq!(first, "notes/a.md");
    let second = match candidates.free_path_step(Some(first), true) {
        FreePathStep::Ask(path) => path,
        _ => panic!("expected a question"),
    };
    assert_eq!(second, "notes/a (1).md");
    match candidates.free_path_step(Some(second), false) {
        FreePathStep::Take(path) => assert_eq!(path, "notes/a (1).md"),
        _ => panic!("expected the free path"),
    }
}

#[test]
fn paths_from_parts_count_from_the_number_found() {
    let mut from_group = paths_from_parts(
        &"dir/".to_string(),
        Some("7".to_string()),
        &"name".to_string(),
        ".md".to_string(),
    );
    assert_eq!(from_group.next(), Some("dir/name (7).md".to_string()));
    let mut too_large = paths_from_parts(
        &String::new(),
        Some("99999999999".to_string()),
        &"name".to_string(),
        String::new(),
    );
    assert_eq!(too_large.next(), Some("name".to_string()));
    let mut without_group =
        paths_from_parts(&String::new(), None, &"x".to_string(), ".txt".to_string());
    assert_eq!(without_group.next(), Some("x.txt".to_string()));
}

#[test]
fn delete_outcome_keeps_the_latest_content_as_the_next_update() {
    let version = delete_outcome(Some(b"text"), 6, "notes/a.md");
    assert_eq!(version.content, b"text".to_vec());
    assert_eq!(version.vault_update_id, 7);
    assert_eq!(version.relative_path, "notes/a.md");
    assert!(version.is_deleted);
    let never_existed = delete_outcome(None, 0, "a.md");
    assert!(never_existed.content.is_empty());
    assert_eq!(never_existed.vault_update_id, 1);
    assert!(never_existed.is_deleted);
}
