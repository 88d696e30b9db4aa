use org_gh::config::Config;
use org_gh::github::model::{GhIssue, GhIssueState};
use org_gh::org::model::{OrgFile, OrgItem, TodoState};
use org_gh::sync::engine::{SyncAction, SyncEngine};
use org_gh::sync::state::{hash_body, SyncState, SyncedItem};

fn make_org(title: &str, state: TodoState, linked: Option<u64>) -> OrgItem {
    OrgItem {
        id: "item-1".to_string(),
        title: title.to_string(),
        body: "Body".to_string(),
        state,
        gh_issue: linked,
        gh_url: None,
        assignees: vec![],
        labels: vec![],
        created: None,
        updated: None,
        span_start: 0,
        span_end: 10,
        properties_span: None,
    }
}

fn make_gh(number: u64, title: &str, state: GhIssueState) -> GhIssue {
    GhIssue {
        number,
        title: title.to_string(),
        body: Some("Body".to_string()),
        state,
        assignees: vec![],
        labels: vec![],
        created_at: 0,
        updated_at: 0,
        closed_at: None,
        html_url: "https://example.invalid/1".to_string(),
    }
}

fn make_base(title: &str, state: &str) -> SyncedItem {
    SyncedItem {
        org_heading_id: "item-1".to_string(),
        title: title.to_string(),
        body_hash: hash_body("Body"),
        state: state.to_string(),
        assignees: vec![],
        labels: vec![],
        gh_updated_at: 0,
        org_updated_at: None,
    }
}

fn engine() -> SyncEngine {
    SyncEngine::new(Config::default(), SyncState::new("o/r"), false, false)
}

#[test]
fn scenario_all_equal_is_noop() {
    let eng = engine();
    let org = make_org("A", TodoState::Todo, Some(1));
    let gh = make_gh(1, "A", GhIssueState::Open);
    let base = make_base("A", "open");
    match eng.reconcile(&org, &gh, &base) {
        SyncAction::NoOp { issue_number } => assert_eq!(issue_number, 1),
        other => panic!("expected NoOp, got {:?}", other),
    }
}

#[test]
fn scenario_local_close_is_pushed() {
    let eng = engine();
    let org = make_org("A", TodoState::Done, Some(1));
    let gh = make_gh(1, "A", GhIssueState::Open);
    let base = make_base("A", "open");
    match eng.reconcile(&org, &gh, &base) {
        SyncAction::UpdateGitHub { issue_number, request } => {
            assert_eq!(issue_number, 1);
            assert_eq!(request.state, Some(GhIssueState::Closed));
            assert!(request.title.is_none());
            assert!(request.body.is_none());
            assert!(request.assignees.is_none());
            assert!(request.labels.is_none());
        },
        other => panic!("expected UpdateGitHub, got {:?}", other),
    }
}

#[test]
fn scenario_title_conflict_blocks_item() {
    let eng = engine();
    let org = make_org("Local", TodoState::Todo, Some(1));
    let gh = make_gh(1, "Remote", GhIssueState::Open);
    let base = make_base("Old", "open");
    match eng.reconcile(&org, &gh, &base) {
        SyncAction::Conflict { issue_number, fields, .. } => {
            assert_eq!(issue_number, 1);
            assert_eq!(fields, vec!["title"]);
        },
        other => panic!("expected Conflict, got {:?}", other),
    }
}

#[test]
fn scenario_label_conflict_becomes_union() {
    let eng = engine();
    let mut org = make_org("A", TodoState::Todo, Some(1));
    let mut gh = make_gh(1, "A", GhIssueState::Open);
    let mut base = make_base("A", "open");
    org.labels = vec!["a".to_string(), "b".to_string()];
    gh.labels = vec!["a".to_string(), "c".to_string()];
    base.labels = vec!["a".to_string()];
    match eng.reconcile(&org, &gh, &base) {
        SyncAction::UpdateBoth { issue_number, gh_request, org_changes } => {
            assert_eq!(issue_number, 1);
            assert_eq!(gh_request.labels, Some(vec![
                "a".to_string(),
                "b".to_string(),
                "c".to_string(),
            ]));
            assert_eq!(org_changes.labels, Some(vec![
                "a".to_string(),
                "b".to_string(),
                "c".to_string(),
            ]));
        },
        other => panic!("expected UpdateBoth, got {:?}", other),
    }
}

#[test]
fn scenario_unlinked_item_links_by_title() {
    let eng = engine();
    let org_file = OrgFile {
        path: "test.org".to_string(),
        repo: Some("o/r".to_string()),
        content: String::new(),
        items: vec![make_org("Ship v2", TodoState::Todo, None)],
    };
    let issues = vec![make_gh(5, "Other", GhIssueState::Open), make_gh(
        9,
        "Ship v2",
        GhIssueState::Open,
    )];
    let actions = eng.plan(&org_file, &issues);
    assert_eq!(actions.len(), 1);
    match &actions[0] {
        SyncAction::UpdateOrg { issue_number, gh_issue } => {
            assert_eq!(*issue_number, 9);
            assert_eq!(gh_issue.title, "Ship v2");
        },
        other => panic!("expected UpdateOrg link, got {:?}", other),
    }
}

#[test]
fn scenario_unlinked_item_without_match_is_created() {
    let eng = engine();
    let org_file = OrgFile {
        path: "test.org".to_string(),
        repo: Some("o/r".to_string()),
        content: String::new(),
        items: vec![make_org("Brand new", TodoState::Todo, None)],
    };
    let actions = eng.plan(&org_file, &vec![]);
    assert_eq!(actions.len(), 1);
    match &actions[0] {
        SyncAction::CreateIssue { org_item } => assert_eq!(org_item.title, "Brand new"),
        other => panic!("expected CreateIssue, got {:?}", other),
    }
}

#[test]
fn plan_warns_about_orphan_entries() {
    let mut state = SyncState::new("o/r");
    state.record_sync(99, "gone", "Gone heading", "", "open", &vec![], &vec![], 0, 0);
    let eng = SyncEngine::new(Config::default(), state, false, false);
    let org_file = OrgFile {
        path: "test.org".to_string(),
        repo: Some("o/r".to_string()),
        content: String::new(),
        items: vec![],
    };
    let actions = eng.plan(&org_file, &vec![]);
    assert_eq!(actions.len(), 1);
    match &actions[0] {
        SyncAction::Warn { message } => {
            assert!(message.contains("99"));
            assert!(message.contains("Gone heading"));
        },
        other => panic!("expected Warn, got {:?}", other),
    }
}

#[test]
fn plan_warns_about_missing_remote() {
    let mut state = SyncState::new("o/r");
    state.record_sync(3, "item-1", "A", "Body", "open", &vec![], &vec![], 0, 0);
    let eng = SyncEngine::new(Config::default(), state, false, false);
    let org_file = OrgFile {
        path: "test.org".to_string(),
        repo: Some("o/r".to_string()),
        content: String::new(),
        items: vec![make_org("A", TodoState::Todo, Some(3))],
    };
    let actions = eng.plan(&org_file, &vec![]);
    assert_eq!(actions.len(), 1);
    match &actions[0] {
        SyncAction::Warn { message } => assert!(message.contains("#3")),
        other => panic!("expected Warn, got {:?}", other),
    }
}

#[test]
fn second_pass_is_noop() {
    let mut eng = engine();
    let org = make_org("A", TodoState::Done, Some(1));
    let gh = make_gh(1, "A", GhIssueState::Open);
    let base = make_base("A", "open");
    let req = match eng.reconcile(&org, &gh, &base) {
        SyncAction::UpdateGitHub { request, .. } => request,
        other => panic!("expected UpdateGitHub, got {:?}", other),
    };
    eng.record_merged(&org, &gh, &req, 100);
    // After execution the remote record carries the pushed state.
    let gh_after = make_gh(1, "A", GhIssueState::Closed);
    let base_after = eng.state.items.get(&1).unwrap().clone();
    match eng.reconcile(&org, &gh_after, &base_after) {
        SyncAction::NoOp { issue_number } => assert_eq!(issue_number, 1),
        other => panic!("expected NoOp on the second pass, got {:?}", other),
    }
}

#[test]
fn force_overrides_conflict() {
    let eng = SyncEngine::new(Config::default(), SyncState::new("o/r"), false, true);
    let org = make_org("Local", TodoState::Todo, Some(1));
    let gh = make_gh(1, "Remote", GhIssueState::Open);
    let base = make_base("Old", "open");
    match eng.reconcile(&org, &gh, &base) {
        SyncAction::UpdateGitHub { request, .. } => {
            assert_eq!(request.title, Some("Local".to_string()));
        },
        other => panic!("expected forced UpdateGitHub, got {:?}", other),
    }
}
