use org_gh::org::model::{OrgItem, TodoState};
use org_gh::org::writer::{
    add_repo_header, append_to_logbook, remove_property, set_property, set_todo_state,
    update_property_in_drawer,
};
use org_gh::output::escape_string;

fn make_item(content: &str, props: Option<(usize, usize)>) -> OrgItem {
    OrgItem {
        id: "test".to_string(),
        title: "Test item".to_string(),
        body: "Some body text".to_string(),
        state: TodoState::Todo,
        gh_issue: None,
        gh_url: None,
        assignees: vec![],
        labels: vec![],
        created: None,
        updated: None,
        span_start: 0,
        span_end: content.len(),
        properties_span: props,
    }
}

#[test]
fn test_update_property_in_drawer() {
    let drawer = ":PROPERTIES:\n:GH_ISSUE: 42\n:END:";
    let result = update_property_in_drawer(drawer, "GH_ISSUE", "99");
    assert!(result.contains(":GH_ISSUE: 99"));
}

#[test]
fn test_add_property_to_drawer() {
    let drawer = ":PROPERTIES:\n:END:";
    let result = update_property_in_drawer(drawer, "GH_ISSUE", "42");
    assert!(result.contains(":GH_ISSUE: 42"));
}

#[test]
fn test_set_property_new_drawer() {
    let content = "* TODO Test item\nSome body text\n";
    let item = make_item(content, None);
    let result = set_property(content, &item, "GH_ISSUE", "42");
    assert!(result.contains(":PROPERTIES:"));
    assert!(result.contains(":GH_ISSUE: 42"));
    assert!(result.contains(":END:"));
}

#[test]
fn test_set_todo_state() {
    let content = "* TODO Test item\nBody\n";
    let item = make_item(content, None);
    let result = set_todo_state(content, &item, "DONE");
    assert!(result.contains("* DONE Test item"));
    assert!(!result.contains("* TODO"));
}

#[test]
fn test_set_property_existing_drawer() {
    let content = "* TODO Test item\n:PROPERTIES:\n:OLD_PROP: old value\n:END:\nSome body text\n";
    let props_start = content.find(":PROPERTIES:").unwrap();
    let props_end = content.find(":END:").unwrap() + 5;
    let item = make_item(content, Some((props_start, props_end)));
    let result = set_property(content, &item, "GH_ISSUE", "42");
    assert!(result.contains(":GH_ISSUE: 42"));
    assert!(result.contains(":OLD_PROP: old value"));
}

#[test]
fn test_update_existing_property() {
    let content = "* TODO Test item\n:PROPERTIES:\n:GH_ISSUE: 1\n:END:\n";
    let props_start = content.find(":PROPERTIES:").unwrap();
    let props_end = content.find(":END:").unwrap() + 5;
    let item = make_item(content, Some((props_start, props_end)));
    let result = set_property(content, &item, "GH_ISSUE", "99");
    assert!(result.contains(":GH_ISSUE: 99"));
    assert!(!result.contains(":GH_ISSUE: 1\n"));
}

#[test]
fn test_remove_property() {
    let content = "* TODO Test item\n:PROPERTIES:\n:GH_ISSUE: 7\n:GH_URL: u\n:END:\n";
    let props_start = content.find(":PROPERTIES:").unwrap();
    let props_end = content.find(":END:").unwrap() + 5;
    let item = make_item(content, Some((props_start, props_end)));
    let result = remove_property(content, &item, "GH_ISSUE");
    assert!(!result.contains(":GH_ISSUE:"));
    assert!(result.contains(":GH_URL: u"));
}

#[test]
fn test_append_to_logbook_new() {
    let content = "* TODO Test item\n:PROPERTIES:\n:GH_ISSUE: 1\n:END:\nSome body text\n";
    let props_start = content.find(":PROPERTIES:").unwrap();
    let props_end = content.find(":END:").unwrap() + 5;
    let item = make_item(content, Some((props_start, props_end)));
    let result = append_to_logbook(content, &item, "- State changed to DONE [2026-01-09]");
    assert!(result.contains(":LOGBOOK:"));
    assert!(result.contains("- State changed to DONE [2026-01-09]"));
    assert!(result.contains(":END:"));
}

#[test]
fn test_append_to_logbook_existing() {
    let content =
        "* TODO Test item\n:PROPERTIES:\n:GH_ISSUE: 1\n:END:\n:LOGBOOK:\n- Previous entry\n:END:\nSome body text\n";
    let props_start = content.find(":PROPERTIES:").unwrap();
    let props_end = content.find(":END:").unwrap() + 5;
    let item = make_item(content, Some((props_start, props_end)));
    let result = append_to_logbook(content, &item, "- New entry");
    assert!(result.contains("- Previous entry"));
    assert!(result.contains("- New entry"));
}

#[test]
fn test_add_repo_header_empty() {
    let content = "";
    let result = add_repo_header(content, "owner/repo");
    assert!(result.contains("#+GH_REPO: owner/repo"));
}

#[test]
fn test_add_repo_header_with_title() {
    let content = "#+TITLE: My File\n* Heading";
    let result = add_repo_header(content, "owner/repo");
    assert!(result.starts_with("#+TITLE: My File\n#+GH_REPO: owner/repo"));
}

#[test]
fn test_add_repo_header_no_title() {
    let content = "* Heading\nSome content";
    let result = add_repo_header(content, "owner/repo");
    assert!(result.starts_with("#+GH_REPO: owner/repo"));
}

#[test]
fn test_escape_string() {
    assert_eq!(escape_string("hello"), "hello");
    assert_eq!(escape_string("say \"hi\""), "say \\\"hi\\\"");
    assert_eq!(escape_string("line1\nline2"), "line1\\nline2");
}
