use org_gh::sync::codec::{decode_snapshot, encode_snapshot};
use org_gh::sync::state::{hash_body, SyncState};

const TEST_REPO: &str = "test-owner/test-repo";

#[test]
fn test_sync_state_new() {
    let state = SyncState::new(TEST_REPO);
    assert_eq!(state.version, 1);
    assert_eq!(state.repo, TEST_REPO);
    assert!(state.last_sync.is_none());
    assert_eq!(state.items.len(), 0);
    assert!(state.pending_creates.is_empty());
}

#[test]
fn test_sync_state_remove() {
    let mut state = SyncState::new(TEST_REPO);
    state.record_sync(1, "heading-1", "Title", "Body", "open", &vec![], &vec![], 0, 0);
    assert!(state.items.contains_key(&1));
    state.remove(1);
    assert!(!state.items.contains_key(&1));
}

#[test]
fn test_sync_state_pending_creates() {
    let mut state = SyncState::new(TEST_REPO);
    state.add_pending_create("heading-1", "New Feature");
    state.add_pending_create("heading-2", "Another Feature");
    assert_eq!(state.pending_creates.len(), 2);
    state.remove_pending_create("heading-1");
    assert_eq!(state.pending_creates.len(), 1);
    assert_eq!(state.pending_creates[0].title, "Another Feature");
}

#[test]
fn test_hash_body() {
    let hash1 = hash_body("Hello world");
    let hash2 = hash_body("Hello world");
    let hash3 = hash_body("Different content");
    assert_eq!(hash1, hash2);
    assert_ne!(hash1, hash3);
    assert!(hash1.starts_with("sha256:"));
}

#[test]
fn test_body_hash_consistency() {
    let body = "This is test content with\nmultiple lines.";
    let hash1 = hash_body(body);
    let hash2 = hash_body(body);
    assert_eq!(hash1, hash2);
    assert!(hash1.starts_with("sha256:"));
}

#[test]
fn test_body_hash_different_content() {
    let hash1 = hash_body("Content A");
    let hash2 = hash_body("Content B");
    assert_ne!(hash1, hash2);
}

#[test]
fn test_state_path() {
    let state_path = SyncState::state_path("/home/user/notes/roadmap.org");
    assert_eq!(state_path, "/home/user/notes/roadmap.org.org-gh.json");
}

#[test]
fn test_sync_state_roundtrip() {
    let mut state = SyncState::new(TEST_REPO);
    state.record_sync(
        1,
        "heading-1",
        "Test Title",
        "Test body content",
        "open",
        &vec!["alice".to_string()],
        &vec!["bug".to_string(), "urgent".to_string()],
        1700000000,
        1700000100,
    );
    state.record_sync(
        7,
        "heading-2",
        "Second",
        "",
        "closed",
        &vec![],
        &vec![],
        -5,
        1700000100,
    );
    state.add_pending_create("heading-3", "Waiting one");

    let text = encode_snapshot(&state);
    let loaded = decode_snapshot(&text).expect("decoding an encoded snapshot must succeed");

    assert_eq!(loaded.version, state.version);
    assert_eq!(loaded.repo, state.repo);
    assert_eq!(loaded.last_sync, state.last_sync);
    assert_eq!(loaded.items.len(), state.items.len());
    assert!(loaded.items.contains_key(&1));
    assert!(loaded.items.contains_key(&7));
    let a = loaded.items.get(&1).unwrap();
    let b = state.items.get(&1).unwrap();
    assert_eq!(a.org_heading_id, b.org_heading_id);
    assert_eq!(a.title, b.title);
    assert_eq!(a.body_hash, b.body_hash);
    assert_eq!(a.state, b.state);
    assert_eq!(a.assignees, b.assignees);
    assert_eq!(a.labels, b.labels);
    assert_eq!(a.gh_updated_at, b.gh_updated_at);
    assert_eq!(a.org_updated_at, b.org_updated_at);
    let c = loaded.items.get(&7).unwrap();
    assert_eq!(c.gh_updated_at, -5);
    assert_eq!(loaded.pending_creates.len(), 1);
    assert_eq!(loaded.pending_creates[0].title, "Waiting one");
}

#[test]
fn test_decode_rejects_garbage() {
    assert!(decode_snapshot("not a snapshot").is_err());
    assert!(decode_snapshot("").is_err());
    assert!(decode_snapshot("1;0:n0;0;trailing").is_err());
}

#[test]
fn test_decode_rejects_tampering() {
    let state = SyncState::new(TEST_REPO);
    let mut text = encode_snapshot(&state);
    text.push('x');
    assert!(decode_snapshot(&text).is_err());
}

#[test]
fn test_record_sync_overwrites() {
    let mut state = SyncState::new(TEST_REPO);
    state.record_sync(1, "h", "Old", "b", "open", &vec![], &vec![], 0, 1);
    state.record_sync(1, "h", "New", "b", "closed", &vec![], &vec![], 2, 3);
    assert_eq!(state.items.len(), 1);
    let it = state.items.get(&1).unwrap();
    assert_eq!(it.title, "New");
    assert_eq!(it.state, "closed");
    assert_eq!(state.last_sync, Some(3));
}
