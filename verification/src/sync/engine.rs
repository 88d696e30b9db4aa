//! The reconciler: composes per-field classifications and the conflict
//! policy into one action per local item.

use vstd::prelude::*;
use crate::config::{Config, ConflictResolution};
use crate::github::model::{GhIssue, GhIssueState, GhIssueV, UpdateIssueRequest, UpdateIssueRequestV};
use crate::org::model::{clone_string_vec, OrgItem, OrgItemV, TodoState};
use crate::strutil::{append_chars, append_str, chars_string, str_eq, u64_to_chars, dec_chars};
use crate::sync::diff::{
    is_label_union, merge_labels, opt_body, spec_diff, state_word, three_way_diff, DiffResult,
    FieldChange,
};
use crate::sync::state::{lookup, SyncedItem, SyncedItemV, SyncState};

verus! {

/// Mathematical view of [`OrgChanges`].
pub ghost struct OrgChangesV {
    pub state: Option<TodoState>,
    pub assignees: Option<Seq<Seq<char>>>,
    pub labels: Option<Seq<Seq<char>>>,
    pub comments: Seq<Seq<char>>,
}

/// Changes the executor applies to a local heading.
#[derive(Debug)]
pub struct OrgChanges {
    pub state: Option<TodoState>,
    pub assignees: Option<Vec<String>>,
    pub labels: Option<Vec<String>>,
    pub comments: Vec<String>,
}

impl View for OrgChanges {
    type V = OrgChangesV;

    open spec fn view(&self) -> OrgChangesV {
        OrgChangesV {
            state: self.state,
            assignees: match self.assignees {
                Some(a) => Some(a.deep_view()),
                None => None,
            },
            labels: match self.labels {
                Some(l) => Some(l.deep_view()),
                None => None,
            },
            comments: self.comments.deep_view(),
        }
    }
}

/// Mathematical view of a [`SyncAction`].
pub ghost enum SyncActionV {
    CreateIssue { org_item: OrgItemV },
    UpdateGitHub { issue_number: u64, request: UpdateIssueRequestV },
    UpdateOrg { issue_number: u64, gh_issue: GhIssueV },
    UpdateBoth { issue_number: u64, gh_request: UpdateIssueRequestV, org_changes: OrgChangesV },
    Conflict { issue_number: u64, fields: Seq<Seq<char>>, org_item: OrgItemV, gh_issue: GhIssueV },
    NoOp { issue_number: u64 },
    Warn { message: Seq<char> },
}

/// One action of the reconciliation plan.
#[derive(Debug)]
pub enum SyncAction {
    /// Create a new remote record from an unlinked heading.
    CreateIssue { org_item: OrgItem },
    /// Push the changed fields to the remote record.
    UpdateGitHub { issue_number: u64, request: UpdateIssueRequest },
    /// Pull the remote record's values into the heading.
    UpdateOrg { issue_number: u64, gh_issue: GhIssue },
    /// Disjoint field sets move in both directions.
    UpdateBoth { issue_number: u64, gh_request: UpdateIssueRequest, org_changes: OrgChanges },
    /// A genuine conflict: no mutation, the fields are reported.
    Conflict {
        issue_number: u64,
        fields: Vec<&'static str>,
        org_item: OrgItem,
        gh_issue: GhIssue,
    },
    /// Nothing to do for this item.
    NoOp { issue_number: u64 },
    /// An orphaned link or snapshot entry; no mutation.
    Warn { message: String },
}

impl View for SyncAction {
    type V = SyncActionV;

    open spec fn view(&self) -> SyncActionV {
        match self {
            SyncAction::CreateIssue { org_item } => SyncActionV::CreateIssue {
                org_item: org_item@,
            },
            SyncAction::UpdateGitHub { issue_number, request } => SyncActionV::UpdateGitHub {
                issue_number: *issue_number,
                request: request@,
            },
            SyncAction::UpdateOrg { issue_number, gh_issue } => SyncActionV::UpdateOrg {
                issue_number: *issue_number,
                gh_issue: gh_issue@,
            },
            SyncAction::UpdateBoth { issue_number, gh_request, org_changes } => {
                SyncActionV::UpdateBoth {
                    issue_number: *issue_number,
                    gh_request: gh_request@,
                    org_changes: org_changes@,
                }
            },
            SyncAction::Conflict { issue_number, fields, org_item, gh_issue } => {
                SyncActionV::Conflict {
                    issue_number: *issue_number,
                    fields: fields.deep_view(),
                    org_item: org_item@,
                    gh_issue: gh_issue@,
                }
            },
            SyncAction::NoOp { issue_number } => SyncActionV::NoOp {
                issue_number: *issue_number,
            },
            SyncAction::Warn { message } => SyncActionV::Warn { message: message@ },
        }
    }
}

impl DeepView for SyncAction {
    type V = SyncActionV;

    open spec fn deep_view(&self) -> SyncActionV {
        self.view()
    }
}

/// Title and body always move towards the remote side when the document
/// changed them; on a conflict the document, as the authoring surface, wins.
pub open spec fn push_text(d: FieldChange) -> bool {
    d == FieldChange::OrgChanged || d == FieldChange::Conflict
}

/// The state field is pushed on a local change; a state conflict moves it
/// only under the run-level override or the OrgWins policy.
pub open spec fn push_state(d: FieldChange, policy: ConflictResolution, force: bool) -> bool {
    d == FieldChange::OrgChanged || (d == FieldChange::Conflict && (force || policy
        == ConflictResolution::OrgWins))
}

/// Assignees are pulled on a remote change, and on a conflict: the remote
/// side wins for this field.
pub open spec fn pull_assignees(d: FieldChange) -> bool {
    d == FieldChange::GitHubChanged || d == FieldChange::Conflict
}

/// Whether any field moves towards the remote side.
pub open spec fn has_push_side(d: DiffResult, policy: ConflictResolution, force: bool) -> bool {
    push_text(d.title) || push_text(d.body) || push_state(d.state, policy, force) || d.assignees
        == FieldChange::OrgChanged || d.labels == FieldChange::OrgChanged || d.labels
        == FieldChange::Conflict
}

/// Whether any field moves towards the document side.
pub open spec fn has_pull_side(d: DiffResult) -> bool {
    d.state == FieldChange::GitHubChanged || pull_assignees(d.assignees) || d.labels
        == FieldChange::GitHubChanged || d.labels == FieldChange::Conflict
}

/// The partial update that one diff resolves to, field for field. The
/// label union is pinned by `is_label_union`: there is exactly one strictly
/// sorted sequence with the union as its set.
pub open spec fn request_matches(
    r: UpdateIssueRequestV,
    org: OrgItemV,
    gh: GhIssueV,
    d: DiffResult,
    policy: ConflictResolution,
    force: bool,
) -> bool {
    &&& r.title == if push_text(d.title) {
        Some(org.title)
    } else {
        None
    }
    &&& r.body == if push_text(d.body) {
        Some(org.body)
    } else {
        None
    }
    &&& r.state == if push_state(d.state, policy, force) {
        Some(
            if org.state.spec_is_open() {
                GhIssueState::Open
            } else {
                GhIssueState::Closed
            },
        )
    } else {
        None
    }
    &&& r.assignees == if d.assignees == FieldChange::OrgChanged {
        Some(org.assignees)
    } else {
        None
    }
    &&& match r.labels {
        Some(l) => if d.labels == FieldChange::OrgChanged {
            l == org.labels
        } else {
            d.labels == FieldChange::Conflict && is_label_union(l, org.labels, gh.labels)
        },
        None => d.labels != FieldChange::OrgChanged && d.labels != FieldChange::Conflict,
    }
}

/// The local changes that one diff resolves to.
pub open spec fn changes_match(
    c: OrgChangesV,
    org: OrgItemV,
    gh: GhIssueV,
    d: DiffResult,
) -> bool {
    &&& c.state == if d.state == FieldChange::GitHubChanged {
        Some(
            if gh.state.spec_is_open() {
                TodoState::Todo
            } else {
                TodoState::Done
            },
        )
    } else {
        None
    }
    &&& c.assignees == if pull_assignees(d.assignees) {
        Some(gh.assignees)
    } else {
        None
    }
    &&& match c.labels {
        Some(l) => if d.labels == FieldChange::GitHubChanged {
            l == gh.labels
        } else {
            d.labels == FieldChange::Conflict && is_label_union(l, org.labels, gh.labels)
        },
        None => d.labels != FieldChange::GitHubChanged && d.labels != FieldChange::Conflict,
    }
    &&& c.comments == Seq::<Seq<char>>::empty()
}

/// What reconciling one linked item with a base entry must produce.
pub open spec fn reconcile_matches(
    a: SyncActionV,
    org: OrgItemV,
    gh: GhIssueV,
    base: SyncedItemV,
    policy: ConflictResolution,
    force: bool,
) -> bool {
    let d = spec_diff(org, gh, base);
    if !d.spec_has_changes() {
        a == SyncActionV::NoOp { issue_number: gh.number }
    } else if d.spec_has_conflicts() && !force {
        a == SyncActionV::Conflict {
            issue_number: gh.number,
            fields: d.spec_conflict_fields(),
            org_item: org,
            gh_issue: gh,
        }
    } else if has_push_side(d, policy, force) && has_pull_side(d) {
        match a {
            SyncActionV::UpdateBoth { issue_number, gh_request, org_changes } => {
                &&& issue_number == gh.number
                &&& request_matches(gh_request, org, gh, d, policy, force)
                &&& changes_match(org_changes, org, gh, d)
            },
            _ => false,
        }
    } else if has_push_side(d, policy, force) {
        match a {
            SyncActionV::UpdateGitHub { issue_number, request } => {
                &&& issue_number == gh.number
                &&& request_matches(request, org, gh, d, policy, force)
            },
            _ => false,
        }
    } else if has_pull_side(d) {
        a == SyncActionV::UpdateOrg { issue_number: gh.number, gh_issue: gh }
    } else {
        a == SyncActionV::NoOp { issue_number: gh.number }
    }
}

/// The warning emitted for a heading linked to a record the fetch did not
/// return.
pub open spec fn missing_issue_warning(n: u64) -> Seq<char> {
    "Issue #"@ + dec_chars(n as nat) + " linked in org but not found in GitHub"@
}

/// The warning emitted for a snapshot entry no local heading references.
pub open spec fn orphan_warning(n: u64, title: Seq<char>) -> Seq<char> {
    "Issue #"@ + dec_chars(n as nat) + " ("@ + title + ") was in org but heading removed"@
}

/// First fetched record with one number.
pub open spec fn find_issue(issues: Seq<GhIssueV>, n: u64) -> Option<GhIssueV>
    decreases issues.len(),
{
    if issues.len() == 0 {
        None
    } else if issues[0].number == n {
        Some(issues[0])
    } else {
        find_issue(issues.skip(1), n)
    }
}

/// First fetched record with one title, in fetch order.
pub open spec fn find_title(issues: Seq<GhIssueV>, title: Seq<char>) -> Option<GhIssueV>
    decreases issues.len(),
{
    if issues.len() == 0 {
        None
    } else if issues[0].title == title {
        Some(issues[0])
    } else {
        find_title(issues.skip(1), title)
    }
}

/// Whether any heading links to one record number.
pub open spec fn references(items: Seq<OrgItemV>, n: u64) -> bool {
    exists|i: int| 0 <= i < items.len() && items[i].gh_issue == Some(n)
}

/// The action planned for one heading.
pub open spec fn item_action_matches(
    a: SyncActionV,
    item: OrgItemV,
    issues: Seq<GhIssueV>,
    entries: Seq<(u64, SyncedItemV)>,
    policy: ConflictResolution,
    force: bool,
) -> bool {
    match item.gh_issue {
        Some(n) => match find_issue(issues, n) {
            Some(gh) => match lookup(entries, n) {
                Some(base) => reconcile_matches(a, item, gh, base, policy, force),
                None => a == SyncActionV::UpdateOrg { issue_number: n, gh_issue: gh },
            },
            None => a == SyncActionV::Warn { message: missing_issue_warning(n) },
        },
        None => match find_title(issues, item.title) {
            Some(gh) => a == SyncActionV::UpdateOrg { issue_number: gh.number, gh_issue: gh },
            None => a == SyncActionV::CreateIssue { org_item: item },
        },
    }
}

/// The warnings for snapshot entries no heading references, in key order.
pub open spec fn orphan_warns(
    entries: Seq<(u64, SyncedItemV)>,
    items: Seq<OrgItemV>,
) -> Seq<SyncActionV>
    decreases entries.len(),
{
    if entries.len() == 0 {
        Seq::empty()
    } else {
        let rest = orphan_warns(entries.drop_last(), items);
        let e = entries.last();
        if references(items, e.0) {
            rest
        } else {
            rest.push(
                SyncActionV::Warn { message: orphan_warning(e.0, e.1.title) },
            )
        }
    }
}

/// The reconciliation engine: configuration, the loaded snapshot, and the
/// run flags. Fetching, remote mutation and document mutation happen
/// outside; the engine only decides.
pub struct SyncEngine {
    pub config: Config,
    pub state: SyncState,
    pub dry_run: bool,
    pub force: bool,
}

impl SyncEngine {
    pub open spec fn wf(&self) -> bool {
        self.state.wf()
    }

    /// Assemble an engine from the loaded snapshot and the run flags.
    pub fn new(config: Config, state: SyncState, dry_run: bool, force: bool) -> (r: SyncEngine)
        ensures
            r.config == config,
            r.state == state,
            r.dry_run == dry_run,
            r.force == force,
    {
        SyncEngine { config, state, dry_run, force }
    }

    /// Link an unlinked heading to an existing record: first fetched record
    /// with exactly the heading's title, if any.
    pub fn find_matching_issue(item: &OrgItem, issues: &Vec<GhIssue>) -> (r: Option<usize>)
        ensures
            match r {
                Some(i) => i < issues@.len() && find_title(issues.deep_view(), item@.title)
                    == Some(issues.deep_view()[i as int]),
                None => find_title(issues.deep_view(), item@.title) is None,
            },
    {
        let ghost iv = issues.deep_view();
        let mut i: usize = 0;
        proof {
            assert(iv.skip(0) =~= iv);
        }
        while i < issues.len()
            invariant
                i <= issues@.len(),
                iv == issues.deep_view(),
                iv.len() == issues@.len(),
                find_title(iv, item@.title) == find_title(iv.skip(i as int), item@.title),
            decreases issues@.len() - i,
        {
            proof {
                assert(iv.skip(i as int)[0] == iv[i as int]);
                assert(iv.skip(i as int).skip(1) =~= iv.skip(i + 1));
            }
            if str_eq(issues[i].title.as_str(), item.title.as_str()) {
                return Some(i);
            }
            i = i + 1;
        }
        None
    }

    /// Resolve one diff into the partial update to push and the local
    /// changes to pull, by the per-field policy.
    pub fn resolve_diff(&self, org: &OrgItem, gh: &GhIssue, diff: &DiffResult) -> (r: (
        Option<UpdateIssueRequest>,
        Option<OrgChanges>,
    ))
        ensures
            match r.0 {
                Some(req) => has_push_side(*diff, self.config.sync.state_conflict, self.force)
                    && request_matches(
                    req@,
                    org@,
                    gh@,
                    *diff,
                    self.config.sync.state_conflict,
                    self.force,
                ),
                None => !has_push_side(*diff, self.config.sync.state_conflict, self.force),
            },
            match r.1 {
                Some(ch) => has_pull_side(*diff) && changes_match(ch@, org@, gh@, *diff),
                None => !has_pull_side(*diff),
            },
    {
        let mut gh_req = UpdateIssueRequest::default();
        let mut org_changes = OrgChanges { state: None, assignees: None, labels: None, comments: Vec::new() };
        let mut has_gh_changes = false;
        let mut has_org_changes = false;

        if diff.title == FieldChange::OrgChanged || diff.title == FieldChange::Conflict {
            gh_req.title = Some(org.title.clone());
            has_gh_changes = true;
        }

        if diff.body == FieldChange::OrgChanged || diff.body == FieldChange::Conflict {
            gh_req.body = Some(org.body.clone());
            has_gh_changes = true;
        }

        match diff.state {
            FieldChange::OrgChanged => {
                gh_req.state = Some(
                    if org.state.is_open() {
                        GhIssueState::Open
                    } else {
                        GhIssueState::Closed
                    },
                );
                has_gh_changes = true;
            },
            FieldChange::GitHubChanged => {
                org_changes.state = Some(
                    if gh.state.is_open() {
                        TodoState::Todo
                    } else {
                        TodoState::Done
                    },
                );
                has_org_changes = true;
            },
            FieldChange::Conflict => {
                if self.force || self.config.sync.state_conflict == ConflictResolution::OrgWins {
                    gh_req.state = Some(
                        if org.state.is_open() {
                            GhIssueState::Open
                        } else {
                            GhIssueState::Closed
                        },
                    );
                    has_gh_changes = true;
                }
            },
            FieldChange::Unchanged => {},
        }

        match diff.assignees {
            FieldChange::OrgChanged => {
                gh_req.assignees = Some(clone_string_vec(&org.assignees));
                has_gh_changes = true;
            },
            FieldChange::GitHubChanged | FieldChange::Conflict => {
                org_changes.assignees = Some(clone_string_vec(&gh.assignees));
                has_org_changes = true;
            },
            FieldChange::Unchanged => {},
        }

        match diff.labels {
            FieldChange::OrgChanged => {
                gh_req.labels = Some(clone_string_vec(&org.labels));
                has_gh_changes = true;
            },
            FieldChange::GitHubChanged => {
                org_changes.labels = Some(clone_string_vec(&gh.labels));
                has_org_changes = true;
            },
            FieldChange::Conflict => {
                let merged = merge_labels(&org.labels, &gh.labels);
                gh_req.labels = Some(clone_string_vec(&merged));
                org_changes.labels = Some(merged);
                has_gh_changes = true;
                has_org_changes = true;
            },
            FieldChange::Unchanged => {},
        }

        proof {
            assert(org_changes@.comments =~= Seq::<Seq<char>>::empty());
        }
        (
            if has_gh_changes {
                Some(gh_req)
            } else {
                None
            },
            if has_org_changes {
                Some(org_changes)
            } else {
                None
            },
        )
    }

    /// Reconcile one linked heading against its record and base entry.
    pub fn reconcile(&self, org: &OrgItem, gh: &GhIssue, base: &SyncedItem) -> (r: SyncAction)
        ensures
            reconcile_matches(
                r@,
                org@,
                gh@,
                base@,
                self.config.sync.state_conflict,
                self.force,
            ),
    {
        let diff = three_way_diff(org, gh, base);

        if !diff.has_changes() {
            return SyncAction::NoOp { issue_number: gh.number };
        }

        if diff.has_conflicts() && !self.force {
            return SyncAction::Conflict {
                issue_number: gh.number,
                fields: diff.conflict_fields(),
                org_item: org.clone(),
                gh_issue: gh.clone(),
            };
        }

        let (gh_request, org_changes) = self.resolve_diff(org, gh, &diff);

        match (gh_request, org_changes) {
            (Some(gh_req), Some(org_ch)) => SyncAction::UpdateBoth {
                issue_number: gh.number,
                gh_request: gh_req,
                org_changes: org_ch,
            },
            (Some(req), None) => SyncAction::UpdateGitHub {
                issue_number: gh.number,
                request: req,
            },
            (None, Some(_)) => SyncAction::UpdateOrg {
                issue_number: gh.number,
                gh_issue: gh.clone(),
            },
            (None, None) => SyncAction::NoOp { issue_number: gh.number },
        }
    }

    /// Plan the whole run: one action per heading, in document order, then
    /// a warning for every orphaned snapshot entry, in key order.
    pub fn plan(&self, org_file: &crate::org::model::OrgFile, gh_issues: &Vec<GhIssue>) -> (r:
        Vec<SyncAction>)
        ensures
            r.deep_view().len() == org_file.items.deep_view().len() + orphan_warns(
                self.state@.items,
                org_file.items.deep_view(),
            ).len(),
            forall|i: int| 0 <= i < org_file.items.deep_view().len() ==> item_action_matches(
                #[trigger] r.deep_view()[i],
                org_file.items.deep_view()[i],
                gh_issues.deep_view(),
                self.state@.items,
                self.config.sync.state_conflict,
                self.force,
            ),
            r.deep_view().skip(org_file.items.deep_view().len() as int) == orphan_warns(
                self.state@.items,
                org_file.items.deep_view(),
            ),
    {
        let mut actions: Vec<SyncAction> = Vec::new();
        let items = &org_file.items;
        let mut idx: usize = 0;
        while idx < items.len()
            invariant
                idx <= items@.len(),
                items.deep_view().len() == items@.len(),
                actions.deep_view().len() == idx,
                forall|i: int| 0 <= i < idx ==> item_action_matches(
                    #[trigger] actions.deep_view()[i],
                    items.deep_view()[i],
                    gh_issues.deep_view(),
                    self.state@.items,
                    self.config.sync.state_conflict,
                    self.force,
                ),
            decreases items@.len() - idx,
        {
            let item = &items[idx];
            let action: SyncAction = match item.gh_issue {
                Some(issue_num) => {
                    match Self::find_issue_index(gh_issues, issue_num) {
                        Some(gi) => {
                            let gh = &gh_issues[gi];
                            proof {
                                assert(gh@ == gh_issues.deep_view()[gi as int]);
                            }
                            match self.state.items.get(&issue_num) {
                                Some(base) => self.reconcile(item, gh, base),
                                None => SyncAction::UpdateOrg {
                                    issue_number: issue_num,
                                    gh_issue: gh.clone(),
                                },
                            }
                        },
                        None => {
                            let mut msg = crate::strutil::str_chars("Issue #");
                            let num = u64_to_chars(issue_num);
                            append_chars(&mut msg, &num);
                            append_str(&mut msg, " linked in org but not found in GitHub");
                            SyncAction::Warn { message: chars_string(&msg) }
                        },
                    }
                },
                None => {
                    match Self::find_matching_issue(item, gh_issues) {
                        Some(mi) => {
                            proof {
                                assert(gh_issues@[mi as int]@ == gh_issues.deep_view()[
                                    mi as int
                                ]);
                            }
                            SyncAction::UpdateOrg {
                                issue_number: gh_issues[mi].number,
                                gh_issue: gh_issues[mi].clone(),
                            }
                        },
                        None => SyncAction::CreateIssue { org_item: item.clone() },
                    }
                },
            };
            proof {
                assert(items.deep_view()[idx as int] == items@[idx as int]@);
                assert(item_action_matches(
                    action@,
                    items.deep_view()[idx as int],
                    gh_issues.deep_view(),
                    self.state@.items,
                    self.config.sync.state_conflict,
                    self.force,
                ));
            }
            let ghost prev = actions.deep_view();
            actions.push(action);
            idx = idx + 1;
            proof {
                assert(actions.deep_view() =~= prev.push(actions@.last()@));
                assert forall|i: int| 0 <= i < idx implies item_action_matches(
                    #[trigger] actions.deep_view()[i],
                    items.deep_view()[i],
                    gh_issues.deep_view(),
                    self.state@.items,
                    self.config.sync.state_conflict,
                    self.force,
                ) by {
                    if i < idx - 1 {
                        assert(actions.deep_view()[i] == prev[i]);
                    } else {
                        assert(actions.deep_view()[i] == actions@.last()@);
                    }
                }
            }
        }
        proof {
            assert(items.deep_view().len() == items@.len());
            assert(actions.deep_view().skip(items.deep_view().len() as int)
                =~= orphan_warns(
                self.state@.items.subrange(0, 0),
                items.deep_view(),
            ));
        }
        let n_items = actions.len();
        let mut eidx: usize = 0;
        while eidx < self.state.items.len()
            invariant
                eidx <= self.state@.items.len(),
                n_items == items.deep_view().len(),
                actions.deep_view().len() == n_items + orphan_warns(
                    self.state@.items.subrange(0, eidx as int),
                    items.deep_view(),
                ).len(),
                forall|i: int| 0 <= i < n_items ==> item_action_matches(
                    #[trigger] actions.deep_view()[i],
                    items.deep_view()[i],
                    gh_issues.deep_view(),
                    self.state@.items,
                    self.config.sync.state_conflict,
                    self.force,
                ),
                actions.deep_view().skip(n_items as int) == orphan_warns(
                    self.state@.items.subrange(0, eidx as int),
                    items.deep_view(),
                ),
            decreases self.state@.items.len() - eidx,
        {
            let entry = self.state.items.entry_at(eidx);
            let issue_num = entry.0;
            let in_org = Self::any_item_links(items, issue_num);
            proof {
                assert(self.state@.items.subrange(0, eidx + 1).drop_last()
                    =~= self.state@.items.subrange(0, eidx as int));
                assert(self.state@.items.subrange(0, eidx + 1).last()
                    == self.state@.items[eidx as int]);
                assert((issue_num, entry.1@) == self.state@.items[eidx as int]);
            }
            if !in_org {
                let mut msg = crate::strutil::str_chars("Issue #");
                let num = u64_to_chars(issue_num);
                append_chars(&mut msg, &num);
                append_str(&mut msg, " (");
                append_str(&mut msg, entry.1.title.as_str());
                append_str(&mut msg, ") was in org but heading removed");
                let title = entry.1.title.clone();
                let w = SyncAction::Warn { message: chars_string(&msg) };
                proof {
                    assert(w@ == SyncActionV::Warn {
                        message: orphan_warning(issue_num, self.state@.items[eidx as int].1.title),
                    });
                }
                let ghost prev = actions.deep_view();
                actions.push(w);
                proof {
                    assert(actions.deep_view() =~= prev.push(actions@.last()@));
                    assert(actions.deep_view().skip(n_items as int) =~= prev.skip(
                        n_items as int,
                    ).push(actions@.last()@));
                    assert forall|i: int| 0 <= i < n_items implies item_action_matches(
                        #[trigger] actions.deep_view()[i],
                        items.deep_view()[i],
                        gh_issues.deep_view(),
                        self.state@.items,
                        self.config.sync.state_conflict,
                        self.force,
                    ) by {
                        assert(actions.deep_view()[i] == prev[i]);
                    }
                }
            }
            eidx = eidx + 1;
        }
        proof {
            assert(self.state@.items.subrange(0, self.state@.items.len() as int)
                =~= self.state@.items);
        }
        actions
    }

    /// First fetched record with one number.
    pub fn find_issue_index(issues: &Vec<GhIssue>, n: u64) -> (r: Option<usize>)
        ensures
            match r {
                Some(i) => i < issues@.len() && find_issue(issues.deep_view(), n) == Some(
                    issues.deep_view()[i as int],
                ),
                None => find_issue(issues.deep_view(), n) is None,
            },
    {
        let ghost iv = issues.deep_view();
        let mut i: usize = 0;
        proof {
            assert(iv.skip(0) =~= iv);
        }
        while i < issues.len()
            invariant
                i <= issues@.len(),
                iv == issues.deep_view(),
                iv.len() == issues@.len(),
                find_issue(iv, n) == find_issue(iv.skip(i as int), n),
            decreases issues@.len() - i,
        {
            proof {
                assert(iv.skip(i as int)[0] == iv[i as int]);
                assert(iv.skip(i as int).skip(1) =~= iv.skip(i + 1));
            }
            if issues[i].number == n {
                return Some(i);
            }
            i = i + 1;
        }
        None
    }

    /// Whether any heading links to one record number.
    pub fn any_item_links(items: &Vec<OrgItem>, n: u64) -> (r: bool)
        ensures
            r == references(items.deep_view(), n),
    {
        let mut i: usize = 0;
        while i < items.len()
            invariant
                i <= items@.len(),
                forall|j: int| 0 <= j < i ==> (#[trigger] items.deep_view()[j]).gh_issue != Some(
                    n,
                ),
            decreases items@.len() - i,
        {
            match items[i].gh_issue {
                Some(m) => {
                    if m == n {
                        proof {
                            assert(items.deep_view()[i as int].gh_issue == Some(n));
                        }
                        return true;
                    }
                },
                None => {},
            }
            i = i + 1;
        }
        proof {
            if references(items.deep_view(), n) {
                let j = choose|j: int|
                    0 <= j < items.deep_view().len() && items.deep_view()[j].gh_issue == Some(n);
                assert(items.deep_view()[j].gh_issue != Some(n));
            }
        }
        false
    }
}

/// Idempotence of reconciliation: once the snapshot entry carries the very
/// values both replicas hold — as it does after an executed action records
/// the merged state — every field classifies Unchanged and the item plans
/// NoOp, whatever the policy and the override flag.
pub proof fn lemma_reconcile_idempotent(
    org: OrgItemV,
    gh: GhIssueV,
    base: SyncedItemV,
    policy: ConflictResolution,
    force: bool,
    a: SyncActionV,
)
    requires
        org.title == base.title,
        gh.title == base.title,
        crate::sync::state::body_digest(org.body) == base.body_hash,
        crate::sync::state::body_digest(opt_body(gh.body)) == base.body_hash,
        state_word(org.state.spec_is_open()) == base.state,
        state_word(gh.state.spec_is_open()) == base.state,
        org.assignees.to_set() == base.assignees.to_set(),
        gh.assignees.to_set() == base.assignees.to_set(),
        org.labels.to_set() == base.labels.to_set(),
        gh.labels.to_set() == base.labels.to_set(),
        reconcile_matches(a, org, gh, base, policy, force),
    ensures
        !spec_diff(org, gh, base).spec_has_changes(),
        a == (SyncActionV::NoOp { issue_number: gh.number }),
{
}

/// The remote record after a partial update: the set fields replaced,
/// everything else kept.
pub open spec fn apply_request(gh: GhIssueV, r: UpdateIssueRequestV) -> GhIssueV {
    GhIssueV {
        number: gh.number,
        title: match r.title {
            Some(t) => t,
            None => gh.title,
        },
        body: match r.body {
            Some(b) => Some(b),
            None => gh.body,
        },
        state: match r.state {
            Some(st) => st,
            None => gh.state,
        },
        assignees: match r.assignees {
            Some(a) => a,
            None => gh.assignees,
        },
        labels: match r.labels {
            Some(l) => l,
            None => gh.labels,
        },
        created_at: gh.created_at,
        updated_at: gh.updated_at,
        closed_at: gh.closed_at,
        html_url: gh.html_url,
    }
}

/// The heading after the executor applies the pulled changes.
pub open spec fn apply_changes(org: OrgItemV, c: OrgChangesV) -> OrgItemV {
    OrgItemV {
        id: org.id,
        title: org.title,
        body: org.body,
        state: match c.state {
            Some(st) => st,
            None => org.state,
        },
        gh_issue: org.gh_issue,
        gh_url: org.gh_url,
        assignees: match c.assignees {
            Some(a) => a,
            None => org.assignees,
        },
        labels: match c.labels {
            Some(l) => l,
            None => org.labels,
        },
        created: org.created,
        updated: org.updated,
        span_start: org.span_start,
        span_end: org.span_end,
        properties_span: org.properties_span,
    }
}

/// Idempotence across a run: once the resolved update is applied to the
/// remote record, the pulled changes are applied to the heading, and the
/// merged values are recorded as the new base, the next classification
/// finds every field unchanged — so the next pass plans NoOp. Remote-only
/// edits to title or body are left out: those are detected but
/// deliberately never pulled, so the following pass still reports them.
pub proof fn lemma_executed_update_idempotent(
    org: OrgItemV,
    gh: GhIssueV,
    base: SyncedItemV,
    policy: ConflictResolution,
    force: bool,
    req: UpdateIssueRequestV,
    c: OrgChangesV,
    now: i64,
)
    requires
        spec_diff(org, gh, base).title != FieldChange::GitHubChanged,
        spec_diff(org, gh, base).body != FieldChange::GitHubChanged,
        !(spec_diff(org, gh, base).spec_has_conflicts() && !force),
        request_matches(req, org, gh, spec_diff(org, gh, base), policy, force),
        changes_match(c, org, gh, spec_diff(org, gh, base)),
    ensures
        !spec_diff(
            apply_changes(org, c),
            apply_request(gh, req),
            merged_entry(org, gh, req, now),
        ).spec_has_changes(),
{
    let d = spec_diff(org, gh, base);
    let org2 = apply_changes(org, c);
    let gh2 = apply_request(gh, req);
    let entry = merged_entry(org, gh, req, now);
    assert(state_word(TodoState::Todo.spec_is_open()) == "open"@);
    assert(state_word(TodoState::Done.spec_is_open()) == "closed"@);
    if d.labels == FieldChange::Conflict {
        assert(org2.labels.to_set() == entry.labels.to_set());
        assert(gh2.labels.to_set() == entry.labels.to_set());
    }
}

/// The snapshot entry the executor records after moving an item: for each
/// field, whichever side won this run, otherwise the remote value.
pub open spec fn merged_entry(
    item: OrgItemV,
    gh: GhIssueV,
    req: UpdateIssueRequestV,
    now: i64,
) -> SyncedItemV {
    SyncedItemV {
        org_heading_id: item.id,
        title: if req.title is Some {
            item.title
        } else {
            gh.title
        },
        body_hash: crate::sync::state::body_digest(
            if req.body is Some {
                item.body
            } else {
                opt_body(gh.body)
            },
        ),
        state: if req.state is Some {
            state_word(item.state.spec_is_open())
        } else {
            state_word(gh.state.spec_is_open())
        },
        assignees: if req.assignees is Some {
            item.assignees
        } else {
            gh.assignees
        },
        labels: match req.labels {
            Some(l) => l,
            None => gh.labels,
        },
        gh_updated_at: gh.updated_at,
        org_updated_at: Some(now),
    }
}

impl SyncEngine {
    /// Record the merged field values of one executed update into the
    /// snapshot: the pushed value where a field moved towards the remote
    /// side, the remote value everywhere else.
    pub fn record_merged(
        &mut self,
        item: &OrgItem,
        gh: &GhIssue,
        req: &UpdateIssueRequest,
        now: i64,
    )
        requires
            old(self).wf(),
        ensures
            final(self).wf(),
            final(self).state@.items == crate::sync::state::spec_insert(
                old(self).state@.items,
                gh@.number,
                merged_entry(item@, gh@, req@, now),
            ),
            final(self).state@.last_sync == Some(now),
            final(self).state@.version == old(self).state@.version,
            final(self).state@.repo == old(self).state@.repo,
            final(self).state@.pending_creates == old(self).state@.pending_creates,
            final(self).config == old(self).config,
            final(self).dry_run == old(self).dry_run,
            final(self).force == old(self).force,
    {
        let title: &str = match &req.title {
            Some(t) => {
                let _ = t;
                item.title.as_str()
            },
            None => gh.title.as_str(),
        };
        let body: &str = match &req.body {
            Some(b) => {
                let _ = b;
                item.body.as_str()
            },
            None => match &gh.body {
                Some(b) => b.as_str(),
                None => {
                    proof {
                        reveal_strlit("");
                        assert(""@ =~= Seq::<char>::empty());
                    }
                    ""
                },
            },
        };
        let state_s: &str = match req.state {
            Some(_) => crate::sync::diff::state_str(item.state.is_open()),
            None => crate::sync::diff::state_str(gh.state.is_open()),
        };
        let assignees: &Vec<String> = match &req.assignees {
            Some(a) => {
                let _ = a;
                &item.assignees
            },
            None => &gh.assignees,
        };
        let labels: &Vec<String> = match &req.labels {
            Some(l) => l,
            None => &gh.labels,
        };
        self.state.record_sync(
            gh.number,
            item.id.as_str(),
            title,
            body,
            state_s,
            assignees,
            labels,
            gh.updated_at,
            now,
        );
    }
}

} // verus!
