//! Configuration of a reconciliation run: per-field conflict policy and
//! workflow keywords. Loading from disk lives outside the library; the
//! core only consumes these values.

use vstd::prelude::*;

verus! {

/// How a genuine conflict on a field is resolved.
#[derive(Debug, Clone, Copy, PartialEq, Eq, Structural)]
pub enum ConflictResolution {
    /// Surface the conflict and make no mutation.
    Prompt,
    /// The document side wins.
    OrgWins,
    /// The remote side wins.
    GitHubWins,
}

/// Remote-service access configuration.
#[derive(Debug)]
pub struct GitHubConfig {
    pub token: Option<String>,
    pub default_repo: Option<String>,
}

impl Default for GitHubConfig {
    fn default() -> (r: Self)
        ensures
            r.token is None,
            r.default_repo is None,
    {
        GitHubConfig { token: None, default_repo: None }
    }
}

/// Reconciliation policy configuration.
#[derive(Debug)]
pub struct SyncConfig {
    /// Label mirrored onto records whose heading is in progress.
    pub doing_label: String,
    /// Label mirrored onto records whose heading is blocked.
    pub blocked_label: String,
    /// Labels attached to every created record.
    pub default_labels: Vec<String>,
    pub title_conflict: ConflictResolution,
    pub body_conflict: ConflictResolution,
    pub state_conflict: ConflictResolution,
    pub assignee_conflict: ConflictResolution,
}

impl Default for SyncConfig {
    fn default() -> (r: Self)
        ensures
            r.doing_label@ == "in-progress"@,
            r.blocked_label@ == "blocked"@,
            r.default_labels@.len() == 0,
            r.title_conflict == ConflictResolution::OrgWins,
            r.body_conflict == ConflictResolution::OrgWins,
            r.state_conflict == ConflictResolution::Prompt,
            r.assignee_conflict == ConflictResolution::GitHubWins,
    {
        SyncConfig {
            doing_label: "in-progress".to_owned(),
            blocked_label: "blocked".to_owned(),
            default_labels: Vec::new(),
            title_conflict: ConflictResolution::OrgWins,
            body_conflict: ConflictResolution::OrgWins,
            state_conflict: ConflictResolution::Prompt,
            assignee_conflict: ConflictResolution::GitHubWins,
        }
    }
}

/// Outline-document configuration: which keywords mark syncable headings.
#[derive(Debug)]
pub struct OrgConfig {
    pub todo_keywords: Vec<String>,
    pub done_keywords: Vec<String>,
}

impl Default for OrgConfig {
    fn default() -> (r: Self)
        ensures
            r.todo_keywords.deep_view() == seq!["TODO"@, "DOING"@, "BLOCKED"@, "WAITING"@],
            r.done_keywords.deep_view() == seq!["DONE"@, "CANCELLED"@, "WONTFIX"@],
    {
        let mut todo_keywords: Vec<String> = Vec::new();
        todo_keywords.push("TODO".to_owned());
        todo_keywords.push("DOING".to_owned());
        todo_keywords.push("BLOCKED".to_owned());
        todo_keywords.push("WAITING".to_owned());
        let mut done_keywords: Vec<String> = Vec::new();
        done_keywords.push("DONE".to_owned());
        done_keywords.push("CANCELLED".to_owned());
        done_keywords.push("WONTFIX".to_owned());
        proof {
            assert(todo_keywords.deep_view() =~= seq!["TODO"@, "DOING"@, "BLOCKED"@, "WAITING"@]);
            assert(done_keywords.deep_view() =~= seq!["DONE"@, "CANCELLED"@, "WONTFIX"@]);
        }
        OrgConfig { todo_keywords, done_keywords }
    }
}

/// The full configuration handed to the planner and executor.
#[derive(Debug)]
pub struct Config {
    pub github: GitHubConfig,
    pub sync: SyncConfig,
    pub org: OrgConfig,
}

impl Default for Config {
    fn default() -> (r: Self)
        ensures
            r.sync.state_conflict == ConflictResolution::Prompt,
            r.sync.assignee_conflict == ConflictResolution::GitHubWins,
    {
        Config {
            github: GitHubConfig::default(),
            sync: SyncConfig::default(),
            org: OrgConfig::default(),
        }
    }
}

} // verus!
