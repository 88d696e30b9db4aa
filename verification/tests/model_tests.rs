use org_gh::github::model::{parse_repo, GhIssueState};
use org_gh::org::model::{slugify, TodoState};
use org_gh::sync::engine::{OrgChanges, SyncAction};

#[test]
fn test_todo_state_keywords() {
    assert_eq!(TodoState::Todo.to_keyword(), "TODO");
    assert_eq!(TodoState::Doing.to_keyword(), "DOING");
    assert_eq!(TodoState::Blocked.to_keyword(), "BLOCKED");
    assert_eq!(TodoState::Waiting.to_keyword(), "WAITING");
    assert_eq!(TodoState::Done.to_keyword(), "DONE");
    assert_eq!(TodoState::Cancelled.to_keyword(), "CANCELLED");
}

#[test]
fn test_todo_state_from_keyword() {
    assert_eq!(TodoState::from_keyword("TODO"), Some(TodoState::Todo));
    assert_eq!(TodoState::from_keyword("todo"), Some(TodoState::Todo));
    assert_eq!(TodoState::from_keyword("DOING"), Some(TodoState::Doing));
    assert_eq!(TodoState::from_keyword("BLOCKED"), Some(TodoState::Blocked));
    assert_eq!(TodoState::from_keyword("WAITING"), Some(TodoState::Waiting));
    assert_eq!(TodoState::from_keyword("DONE"), Some(TodoState::Done));
    assert_eq!(TodoState::from_keyword("CANCELLED"), Some(TodoState::Cancelled));
    assert_eq!(TodoState::from_keyword("CANCELED"), Some(TodoState::Cancelled));
    assert_eq!(TodoState::from_keyword("WONTFIX"), Some(TodoState::Cancelled));
    assert_eq!(TodoState::from_keyword("INVALID"), None);
}

#[test]
fn test_gh_issue_state_is_open() {
    assert!(GhIssueState::Open.is_open());
    assert!(!GhIssueState::Closed.is_open());
}

#[test]
fn test_slugify() {
    assert_eq!(slugify("Hello World"), "hello-world");
    assert_eq!(slugify("Add user authentication!"), "add-user-authentication");
    assert_eq!(slugify("  Multiple   Spaces  "), "multiple-spaces");
}

#[test]
fn test_parse_repo_ok() {
    let (owner, name) = parse_repo("octo/website").unwrap();
    assert_eq!(owner, "octo");
    assert_eq!(name, "website");
}

#[test]
fn test_parse_repo_rejects_bad_shapes() {
    assert!(parse_repo("invalid-no-slash").is_err());
    assert!(parse_repo("a/b/c").is_err());
}

#[test]
fn test_sync_action_debug() {
    let action = SyncAction::NoOp { issue_number: 42 };
    let debug_str = format!("{:?}", action);
    assert!(debug_str.contains("NoOp"));
    assert!(debug_str.contains("42"));
}

#[test]
fn test_org_changes_default() {
    let changes = OrgChanges {
        state: None,
        assignees: None,
        labels: None,
        comments: vec![],
    };
    assert!(changes.state.is_none());
    assert!(changes.assignees.is_none());
    assert!(changes.labels.is_none());
    assert!(changes.comments.is_empty());
}
