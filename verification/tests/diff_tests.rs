use org_gh::github::model::{GhIssue, GhIssueState};
use org_gh::org::model::{OrgItem, TodoState};
use org_gh::sync::diff::{diff_string, merge_labels, three_way_diff, DiffResult, FieldChange};
use org_gh::sync::state::{hash_body, SyncedItem};

fn make_org(title: &str, body: &str, state: TodoState) -> OrgItem {
    OrgItem {
        id: "test".to_string(),
        title: title.to_string(),
        body: body.to_string(),
        state,
        gh_issue: Some(1),
        gh_url: None,
        assignees: vec![],
        labels: vec![],
        created: None,
        updated: None,
        span_start: 0,
        span_end: 10,
        properties_span: None,
    }
}

fn make_gh(title: &str, body: &str, state: GhIssueState) -> GhIssue {
    GhIssue {
        number: 1,
        title: title.to_string(),
        body: Some(body.to_string()),
        state,
        assignees: vec![],
        labels: vec![],
        created_at: 0,
        updated_at: 0,
        closed_at: None,
        html_url: "https://github.com/test/repo/issues/1".to_string(),
    }
}

fn make_base(title: &str, body: &str, state: &str) -> SyncedItem {
    SyncedItem {
        org_heading_id: "test".to_string(),
        title: title.to_string(),
        body_hash: hash_body(body),
        state: state.to_string(),
        assignees: vec![],
        labels: vec![],
        gh_updated_at: 0,
        org_updated_at: None,
    }
}

#[test]
fn test_diff_string_no_change() {
    assert_eq!(diff_string("hello", "hello", "hello"), FieldChange::Unchanged);
}

#[test]
fn test_diff_string_org_changed() {
    assert_eq!(diff_string("new", "hello", "hello"), FieldChange::OrgChanged);
}

#[test]
fn test_diff_string_gh_changed() {
    assert_eq!(diff_string("hello", "new", "hello"), FieldChange::GitHubChanged);
}

#[test]
fn test_diff_string_conflict() {
    assert_eq!(diff_string("org_new", "gh_new", "hello"), FieldChange::Conflict);
}

#[test]
fn test_diff_string_convergent_edit() {
    assert_eq!(diff_string("same_new", "same_new", "old"), FieldChange::OrgChanged);
}

#[test]
fn test_merge_labels() {
    let org = vec!["a".to_string(), "b".to_string()];
    let gh = vec!["b".to_string(), "c".to_string()];
    let merged = merge_labels(&org, &gh);
    assert_eq!(merged, vec!["a", "b", "c"]);
}

#[test]
fn test_merge_labels_deduplication() {
    let org = vec!["bug".to_string(), "feature".to_string()];
    let gh = vec!["feature".to_string(), "docs".to_string()];
    let merged = merge_labels(&org, &gh);
    assert_eq!(merged.len(), 3);
    assert!(merged.contains(&"bug".to_string()));
    assert!(merged.contains(&"docs".to_string()));
    assert!(merged.contains(&"feature".to_string()));
}

#[test]
fn test_merge_labels_order_independent() {
    let a = vec!["b".to_string(), "a".to_string()];
    let b = vec!["c".to_string(), "b".to_string()];
    assert_eq!(merge_labels(&a, &b), merge_labels(&b, &a));
    assert_eq!(merge_labels(&a, &b), vec!["a", "b", "c"]);
}

#[test]
fn test_three_way_diff_no_changes() {
    let org = make_org("Title", "Body", TodoState::Todo);
    let gh = make_gh("Title", "Body", GhIssueState::Open);
    let base = make_base("Title", "Body", "open");
    let diff = three_way_diff(&org, &gh, &base);
    assert!(!diff.has_changes());
    assert!(!diff.has_conflicts());
}

#[test]
fn test_three_way_diff_org_changed() {
    let org = make_org("New Title", "Body", TodoState::Todo);
    let gh = make_gh("Title", "Body", GhIssueState::Open);
    let base = make_base("Title", "Body", "open");
    let diff = three_way_diff(&org, &gh, &base);
    assert!(diff.has_changes());
    assert!(!diff.has_conflicts());
    assert_eq!(diff.title, FieldChange::OrgChanged);
}

#[test]
fn test_three_way_diff_conflict() {
    let org = make_org("Org Title", "Body", TodoState::Todo);
    let gh = make_gh("GH Title", "Body", GhIssueState::Open);
    let base = make_base("Original Title", "Body", "open");
    let diff = three_way_diff(&org, &gh, &base);
    assert!(diff.has_changes());
    assert!(diff.has_conflicts());
    assert_eq!(diff.title, FieldChange::Conflict);
}

#[test]
fn test_three_way_diff_body_digest() {
    let org = make_org("Title", "New body", TodoState::Todo);
    let gh = make_gh("Title", "Body", GhIssueState::Open);
    let base = make_base("Title", "Body", "open");
    let diff = three_way_diff(&org, &gh, &base);
    assert_eq!(diff.body, FieldChange::OrgChanged);
    assert_eq!(diff.title, FieldChange::Unchanged);
}

#[test]
fn test_three_way_diff_set_semantics() {
    let mut org = make_org("Title", "Body", TodoState::Todo);
    let mut gh = make_gh("Title", "Body", GhIssueState::Open);
    let mut base = make_base("Title", "Body", "open");
    org.labels = vec!["b".to_string(), "a".to_string()];
    gh.labels = vec!["a".to_string(), "b".to_string()];
    base.labels = vec!["a".to_string(), "b".to_string()];
    let diff = three_way_diff(&org, &gh, &base);
    assert_eq!(diff.labels, FieldChange::Unchanged);
}

#[test]
fn test_diff_result_conflict_fields() {
    let diff = DiffResult {
        title: FieldChange::Conflict,
        body: FieldChange::Unchanged,
        state: FieldChange::Conflict,
        assignees: FieldChange::GitHubChanged,
        labels: FieldChange::OrgChanged,
    };
    let fields = diff.conflict_fields();
    assert_eq!(fields.len(), 2);
    assert!(fields.contains(&"title"));
    assert!(fields.contains(&"state"));
}
