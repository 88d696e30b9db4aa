//! Field-level three-way classification of local, remote and base values.

use vstd::prelude::*;
use crate::github::model::GhIssue;
use crate::org::model::OrgItem;
use crate::strutil::{
    chars_le, lemma_chars_le_antisym, lemma_chars_le_total, lemma_chars_le_trans, str_eq,
    str_le,
};
use crate::sync::state::{body_digest, hash_body, SyncedItem, SyncedItemV};

verus! {

/// Classification of one field after comparing local, remote and base values.
#[derive(Debug, Clone, Copy, PartialEq, Eq, Structural)]
pub enum FieldChange {
    /// Neither side moved away from the base value.
    Unchanged,
    /// Only the document side changed, or both changed to the same value.
    OrgChanged,
    /// Only the remote side changed.
    GitHubChanged,
    /// Both sides changed, to different values.
    Conflict,
}

/// The classification, from the two change flags and whether both sides
/// now hold the same value: a convergent double edit is a local change,
/// not a conflict.
pub open spec fn classify(org_changed: bool, gh_changed: bool, same: bool) -> FieldChange {
    if !org_changed && !gh_changed {
        FieldChange::Unchanged
    } else if org_changed && !gh_changed {
        FieldChange::OrgChanged
    } else if !org_changed && gh_changed {
        FieldChange::GitHubChanged
    } else if same {
        FieldChange::OrgChanged
    } else {
        FieldChange::Conflict
    }
}

/// Classification of a text field.
pub open spec fn classify_str(org: Seq<char>, gh: Seq<char>, base: Seq<char>) -> FieldChange {
    classify(org != base, gh != base, org == gh)
}

/// Classification of a set-valued field: order and duplicates do not count.
pub open spec fn classify_set(
    org: Seq<Seq<char>>,
    gh: Seq<Seq<char>>,
    base: Seq<Seq<char>>,
) -> FieldChange {
    classify(org.to_set() != base.to_set(), gh.to_set() != base.to_set(), org.to_set()
        == gh.to_set())
}

/// If local and remote both hold the same new value, the field is never a
/// conflict: it classifies as a local change whenever it moved at all.
pub proof fn lemma_convergent_edit_not_conflict(org: Seq<char>, gh: Seq<char>, base: Seq<char>)
    requires
        org == gh,
    ensures
        classify_str(org, gh, base) != FieldChange::Conflict,
        org != base ==> classify_str(org, gh, base) == FieldChange::OrgChanged,
{
}

/// If base, local and remote values are pairwise distinct, the field is a
/// conflict.
pub proof fn lemma_pairwise_distinct_conflict(org: Seq<char>, gh: Seq<char>, base: Seq<char>)
    requires
        org != base,
        gh != base,
        org != gh,
    ensures
        classify_str(org, gh, base) == FieldChange::Conflict,
{
}

/// The same convergence rule for set-valued fields: equal sets on both
/// sides never conflict.
pub proof fn lemma_convergent_set_edit_not_conflict(
    org: Seq<Seq<char>>,
    gh: Seq<Seq<char>>,
    base: Seq<Seq<char>>,
)
    requires
        org.to_set() == gh.to_set(),
    ensures
        classify_set(org, gh, base) != FieldChange::Conflict,
        org.to_set() != base.to_set() ==> classify_set(org, gh, base) == FieldChange::OrgChanged,
{
}

/// Pairwise distinct sets are a conflict.
pub proof fn lemma_pairwise_distinct_set_conflict(
    org: Seq<Seq<char>>,
    gh: Seq<Seq<char>>,
    base: Seq<Seq<char>>,
)
    requires
        org.to_set() != base.to_set(),
        gh.to_set() != base.to_set(),
        org.to_set() != gh.to_set(),
    ensures
        classify_set(org, gh, base) == FieldChange::Conflict,
{
}

/// Classify one text field.
pub fn diff_string(org: &str, gh: &str, base: &str) -> (r: FieldChange)
    ensures
        r == classify_str(org@, gh@, base@),
{
    let org_changed = !str_eq(org, base);
    let gh_changed = !str_eq(gh, base);
    if !org_changed && !gh_changed {
        FieldChange::Unchanged
    } else if org_changed && !gh_changed {
        FieldChange::OrgChanged
    } else if !org_changed && gh_changed {
        FieldChange::GitHubChanged
    } else if str_eq(org, gh) {
        FieldChange::OrgChanged
    } else {
        FieldChange::Conflict
    }
}

/// Classify the body field: bodies are compared by digest, never by raw
/// content, against the digest stored in the base entry.
pub fn diff_body(org_body: &str, gh_body: &str, base_hash: &str) -> (r: FieldChange)
    ensures
        r == classify_str(body_digest(org_body@), body_digest(gh_body@), base_hash@),
{
    let org_hash = hash_body(org_body);
    let gh_hash = hash_body(gh_body);
    diff_string(org_hash.as_str(), gh_hash.as_str(), base_hash)
}

/// The state word stored in snapshots: "open" or "closed".
pub open spec fn state_word(open: bool) -> Seq<char> {
    if open {
        "open"@
    } else {
        "closed"@
    }
}

/// The state word as a string slice.
pub fn state_str(open: bool) -> (r: &'static str)
    ensures
        r@ == state_word(open),
{
    if open {
        "open"
    } else {
        "closed"
    }
}

/// Classify the open/closed state field.
pub fn diff_state(org: &OrgItem, gh: &GhIssue, base: &SyncedItem) -> (r: FieldChange)
    ensures
        r == classify_str(
            state_word(org@.state.spec_is_open()),
            state_word(gh@.state.spec_is_open()),
            base@.state,
        ),
{
    let org_state = state_str(org.state.is_open());
    let gh_state = state_str(gh.state.is_open());
    diff_string(org_state, gh_state, base.state.as_str())
}

/// Whether a string vector holds one value.
pub fn contains_str(v: &Vec<String>, s: &str) -> (r: bool)
    ensures
        r == v.deep_view().contains(s@),
{
    let mut i: usize = 0;
    while i < v.len()
        invariant
            i <= v.len(),
            forall|j: int| 0 <= j < i ==> v.deep_view()[j] != s@,
        decreases v.len() - i,
    {
        if str_eq(v[i].as_str(), s) {
            proof {
                assert(v.deep_view()[i as int] == s@);
            }
            return true;
        }
        i = i + 1;
    }
    proof {
        if v.deep_view().contains(s@) {
            let j = choose|j: int| 0 <= j < v.deep_view().len() && v.deep_view()[j] == s@;
            assert(v.deep_view()[j] != s@);
        }
    }
    false
}

/// Set equality of two string vectors: order-independent, duplicates
/// collapsed.
pub fn vec_eq(a: &Vec<String>, b: &Vec<String>) -> (r: bool)
    ensures
        r == (a.deep_view().to_set() == b.deep_view().to_set()),
{
    let mut i: usize = 0;
    while i < a.len()
        invariant
            i <= a.len(),
            forall|j: int| 0 <= j < i ==> b.deep_view().contains(#[trigger] a.deep_view()[j]),
        decreases a.len() - i,
    {
        if !contains_str(b, a[i].as_str()) {
            proof {
                assert(a.deep_view().to_set().contains(a.deep_view()[i as int]));
                assert(!b.deep_view().to_set().contains(a.deep_view()[i as int]));
            }
            return false;
        }
        i = i + 1;
    }
    let mut j: usize = 0;
    while j < b.len()
        invariant
            j <= b.len(),
            forall|t: int| 0 <= t < a.deep_view().len() ==> b.deep_view().contains(
                #[trigger] a.deep_view()[t],
            ),
            forall|t: int| 0 <= t < j ==> a.deep_view().contains(#[trigger] b.deep_view()[t]),
        decreases b.len() - j,
    {
        if !contains_str(a, b[j].as_str()) {
            proof {
                assert(b.deep_view().to_set().contains(b.deep_view()[j as int]));
                assert(!a.deep_view().to_set().contains(b.deep_view()[j as int]));
            }
            return false;
        }
        j = j + 1;
    }
    proof {
        assert forall|x: Seq<char>| a.deep_view().to_set().contains(x)
            implies b.deep_view().to_set().contains(x) by {
            let t = choose|t: int|
                0 <= t < a.deep_view().len() && a.deep_view()[t] == x;
            assert(b.deep_view().contains(a.deep_view()[t]));
        }
        assert forall|x: Seq<char>| b.deep_view().to_set().contains(x)
            implies a.deep_view().to_set().contains(x) by {
            let t = choose|t: int|
                0 <= t < b.deep_view().len() && b.deep_view()[t] == x;
            assert(a.deep_view().contains(b.deep_view()[t]));
        }
        assert(a.deep_view().to_set() =~= b.deep_view().to_set());
    }
    true
}

/// Classify a set-valued field.
pub fn diff_vec(org: &Vec<String>, gh: &Vec<String>, base: &Vec<String>) -> (r: FieldChange)
    ensures
        r == classify_set(org.deep_view(), gh.deep_view(), base.deep_view()),
{
    let org_changed = !vec_eq(org, base);
    let gh_changed = !vec_eq(gh, base);
    if !org_changed && !gh_changed {
        FieldChange::Unchanged
    } else if org_changed && !gh_changed {
        FieldChange::OrgChanged
    } else if !org_changed && gh_changed {
        FieldChange::GitHubChanged
    } else if vec_eq(org, gh) {
        FieldChange::OrgChanged
    } else {
        FieldChange::Conflict
    }
}

/// The body text of a record, or empty where it carries none.
pub open spec fn opt_body(b: Option<Seq<char>>) -> Seq<char> {
    match b {
        Some(s) => s,
        None => Seq::empty(),
    }
}

/// Result of comparing one local heading, its remote record, and the base
/// entry, field by field.
#[derive(Debug, Clone, Copy, PartialEq, Eq, Structural)]
pub struct DiffResult {
    pub title: FieldChange,
    pub body: FieldChange,
    pub state: FieldChange,
    pub assignees: FieldChange,
    pub labels: FieldChange,
}

/// The full three-way classification at the specification level.
pub open spec fn spec_diff(
    org: crate::org::model::OrgItemV,
    gh: crate::github::model::GhIssueV,
    base: SyncedItemV,
) -> DiffResult {
    DiffResult {
        title: classify_str(org.title, gh.title, base.title),
        body: classify_str(body_digest(org.body), body_digest(opt_body(gh.body)), base.body_hash),
        state: classify_str(
            state_word(org.state.spec_is_open()),
            state_word(gh.state.spec_is_open()),
            base.state,
        ),
        assignees: classify_set(org.assignees, gh.assignees, base.assignees),
        labels: classify_set(org.labels, gh.labels, base.labels),
    }
}

/// Compute the three-way diff of one item.
pub fn three_way_diff(org: &OrgItem, gh: &GhIssue, base: &SyncedItem) -> (r: DiffResult)
    ensures
        r == spec_diff(org@, gh@, base@),
{
    let gh_body: &str = match &gh.body {
        Some(b) => b.as_str(),
        None => {
            proof {
                reveal_strlit("");
                assert(""@ =~= Seq::<char>::empty());
            }
            ""
        },
    };
    DiffResult {
        title: diff_string(org.title.as_str(), gh.title.as_str(), base.title.as_str()),
        body: diff_body(org.body.as_str(), gh_body, base.body_hash.as_str()),
        state: diff_state(org, gh, base),
        assignees: diff_vec(&org.assignees, &gh.assignees, &base.assignees),
        labels: diff_vec(&org.labels, &gh.labels, &base.labels),
    }
}

impl DiffResult {
    /// A conflict on any field but labels blocks the whole item; label
    /// conflicts are always resolved by union instead.
    pub open spec fn spec_has_conflicts(self) -> bool {
        self.title == FieldChange::Conflict || self.body == FieldChange::Conflict || self.state
            == FieldChange::Conflict || self.assignees == FieldChange::Conflict
    }

    pub fn has_conflicts(&self) -> (r: bool)
        ensures
            r == self.spec_has_conflicts(),
    {
        self.title == FieldChange::Conflict || self.body == FieldChange::Conflict || self.state
            == FieldChange::Conflict || self.assignees == FieldChange::Conflict
    }

    /// Whether any field moved at all.
    pub open spec fn spec_has_changes(self) -> bool {
        self.title != FieldChange::Unchanged || self.body != FieldChange::Unchanged || self.state
            != FieldChange::Unchanged || self.assignees != FieldChange::Unchanged || self.labels
            != FieldChange::Unchanged
    }

    pub fn has_changes(&self) -> (r: bool)
        ensures
            r == self.spec_has_changes(),
    {
        self.title != FieldChange::Unchanged || self.body != FieldChange::Unchanged || self.state
            != FieldChange::Unchanged || self.assignees != FieldChange::Unchanged || self.labels
            != FieldChange::Unchanged
    }

    /// The names of the conflicting fields, in field order.
    pub open spec fn spec_conflict_fields(self) -> Seq<Seq<char>> {
        (if self.title == FieldChange::Conflict {
            seq!["title"@]
        } else {
            Seq::empty()
        }) + (if self.body == FieldChange::Conflict {
            seq!["body"@]
        } else {
            Seq::empty()
        }) + (if self.state == FieldChange::Conflict {
            seq!["state"@]
        } else {
            Seq::empty()
        }) + (if self.assignees == FieldChange::Conflict {
            seq!["assignees"@]
        } else {
            Seq::empty()
        }) + (if self.labels == FieldChange::Conflict {
            seq!["labels"@]
        } else {
            Seq::empty()
        })
    }

    pub fn conflict_fields(&self) -> (r: Vec<&'static str>)
        ensures
            r.deep_view() == self.spec_conflict_fields(),
    {
        let mut fields: Vec<&'static str> = Vec::new();
        if self.title == FieldChange::Conflict {
            fields.push("title");
        }
        if self.body == FieldChange::Conflict {
            fields.push("body");
        }
        if self.state == FieldChange::Conflict {
            fields.push("state");
        }
        if self.assignees == FieldChange::Conflict {
            fields.push("assignees");
        }
        if self.labels == FieldChange::Conflict {
            fields.push("labels");
        }
        proof {
            assert(fields.deep_view() =~= self.spec_conflict_fields());
        }
        fields
    }
}

/// Strictly sorted: each element is below the next, so no duplicates.
pub open spec fn strictly_sorted(s: Seq<Seq<char>>) -> bool {
    forall|i: int, j: int| 0 <= i < j < s.len() ==> chars_le(#[trigger] s[i], #[trigger] s[j])
        && s[i] != s[j]
}

/// What the merged label list must be: strictly sorted, with exactly the
/// union of both sides as its members. By `lemma_sorted_set_unique` there
/// is exactly one such sequence.
pub open spec fn is_label_union(r: Seq<Seq<char>>, a: Seq<Seq<char>>, b: Seq<Seq<char>>) -> bool {
    strictly_sorted(r) && r.to_set() == a.to_set() + b.to_set()
}

/// Merge two label sets: the union, in strictly increasing order, so the
/// result is the same whichever way the inputs come.
pub fn merge_labels(org: &Vec<String>, gh: &Vec<String>) -> (r: Vec<String>)
    ensures
        strictly_sorted(r.deep_view()),
        r.deep_view().to_set() == org.deep_view().to_set() + gh.deep_view().to_set(),
{
    let mut out: Vec<String> = Vec::new();
    let mut i: usize = 0;
    proof {
        assert(out.deep_view().to_set() =~= org.deep_view().subrange(0, 0).to_set());
    }
    while i < org.len()
        invariant
            i <= org.len(),
            strictly_sorted(out.deep_view()),
            out.deep_view().to_set() == org.deep_view().subrange(0, i as int).to_set(),
        decreases org.len() - i,
    {
        let s = org[i].clone();
        insert_sorted(&mut out, s);
        i = i + 1;
        proof {
            lemma_subrange_to_set_push(org.deep_view(), i as int);
        }
    }
    proof {
        assert(org.deep_view().subrange(0, org.deep_view().len() as int) =~= org.deep_view());
    }
    let mut j: usize = 0;
    while j < gh.len()
        invariant
            j <= gh.len(),
            strictly_sorted(out.deep_view()),
            out.deep_view().to_set() == org.deep_view().to_set() + gh.deep_view().subrange(
                0,
                j as int,
            ).to_set(),
        decreases gh.len() - j,
    {
        let s = gh[j].clone();
        insert_sorted(&mut out, s);
        j = j + 1;
        proof {
            lemma_subrange_to_set_push(gh.deep_view(), j as int);
            assert(out.deep_view().to_set() =~= org.deep_view().to_set()
                + gh.deep_view().subrange(0, j as int).to_set());
        }
    }
    proof {
        assert(gh.deep_view().subrange(0, gh.deep_view().len() as int) =~= gh.deep_view());
    }
    out
}

/// Prefix sets grow one element at a time.
proof fn lemma_subrange_to_set_push(s: Seq<Seq<char>>, i: int)
    requires
        0 < i <= s.len(),
    ensures
        s.subrange(0, i).to_set() == s.subrange(0, i - 1).to_set().insert(s[i - 1]),
{
    assert forall|x: Seq<char>| s.subrange(0, i).to_set().contains(x) implies s.subrange(
        0,
        i - 1,
    ).to_set().insert(s[i - 1]).contains(x) by {
        let t = choose|t: int| 0 <= t < i && s.subrange(0, i)[t] == x;
        if t < i - 1 {
            assert(s.subrange(0, i - 1)[t] == x);
        }
    }
    assert forall|x: Seq<char>| s.subrange(0, i - 1).to_set().insert(s[i - 1]).contains(x)
        implies s.subrange(0, i).to_set().contains(x) by {
        if x == s[i - 1] {
            assert(s.subrange(0, i)[i - 1] == x);
        } else {
            let t = choose|t: int| 0 <= t < i - 1 && (#[trigger] s.subrange(0, i - 1)[t]) == x;
            assert(s.subrange(0, i)[t] == x);
        }
    }
    assert(s.subrange(0, i).to_set() =~= s.subrange(0, i - 1).to_set().insert(s[i - 1]));
}

/// Insert a string into a strictly sorted vector, keeping it strictly
/// sorted; a value already present is not duplicated.
fn insert_sorted(out: &mut Vec<String>, s: String)
    requires
        strictly_sorted(old(out).deep_view()),
    ensures
        strictly_sorted(final(out).deep_view()),
        final(out).deep_view().to_set() == old(out).deep_view().to_set().insert(s@),
{
    let ghost old_view = out.deep_view();
    let mut i: usize = 0;
    while i < out.len() && !str_le(&s, &out[i])
        invariant
            i <= out.len(),
            out.deep_view() == old_view,
            forall|j: int| 0 <= j < i ==> !chars_le(s@, #[trigger] old_view[j]),
        decreases out.len() - i,
    {
        i = i + 1;
    }
    proof {
        assert forall|j: int| 0 <= j < i implies chars_le(#[trigger] old_view[j], s@)
            && old_view[j] != s@ by {
            lemma_chars_le_total(s@, old_view[j]);
            if old_view[j] == s@ {
                assert(chars_le(s@, old_view[j])) by {
                    lemma_chars_le_total(s@, s@);
                }
            }
        }
    }
    if i < out.len() && str_eq(out[i].as_str(), s.as_str()) {
        proof {
            assert(old_view.to_set().contains(old_view[i as int]));
            assert(old_view.to_set() =~= old_view.to_set().insert(s@));
        }
        return;
    }
    out.insert(i, s);
    proof {
        let new_view = out.deep_view();
        assert(new_view =~= old_view.take(i as int) + seq![s@] + old_view.skip(i as int)) by {
            assert(out@ == old(out)@.insert(i as int, s));
            assert forall|t: int| 0 <= t < new_view.len() implies new_view[t] == (
            old_view.take(i as int) + seq![s@] + old_view.skip(i as int))[t] by {
                if t < i {
                    assert(new_view[t] == out@[t]@);
                } else if t == i {
                } else {
                    assert(new_view[t] == out@[t]@);
                }
            }
        }
        assert(strictly_sorted(new_view)) by {
            assert forall|p: int, q: int| 0 <= p < q < new_view.len() implies chars_le(
                #[trigger] new_view[p],
                #[trigger] new_view[q],
            ) && new_view[p] != new_view[q] by {
                let ghost ii = i as int;
                if q < ii {
                    assert(new_view[p] == old_view[p] && new_view[q] == old_view[q]);
                } else if p < ii && q == ii {
                    assert(new_view[p] == old_view[p] && new_view[q] == s@);
                } else if p < ii && q > ii {
                    assert(new_view[p] == old_view[p] && new_view[q] == old_view[q - 1]);
                    assert(chars_le(old_view[p], old_view[q - 1]) && old_view[p] != old_view[q
                        - 1]);
                } else if p == ii {
                    assert(new_view[p] == s@ && new_view[q] == old_view[q - 1]);
                    assert(chars_le(s@, old_view[ii]));
                    if q - 1 > ii {
                        lemma_chars_le_trans(s@, old_view[ii], old_view[q - 1]);
                        if s@ == old_view[q - 1] {
                            lemma_chars_le_antisym(old_view[ii], old_view[q - 1]);
                        }
                    } else {
                        if s@ == old_view[ii] {
                            lemma_chars_le_antisym(s@, old_view[ii]);
                        }
                    }
                } else {
                    assert(new_view[p] == old_view[p - 1] && new_view[q] == old_view[q - 1]);
                }
            }
        }
        assert(new_view.to_set() =~= old_view.to_set().insert(s@)) by {
            assert forall|x: Seq<char>| new_view.to_set().contains(x) implies
                old_view.to_set().insert(s@).contains(x) by {
                let t = choose|t: int| 0 <= t < new_view.len() && new_view[t] == x;
                if t < i {
                    assert(old_view[t] == x);
                } else if t > i {
                    assert(old_view[t - 1] == x);
                }
            }
            assert forall|x: Seq<char>| old_view.to_set().insert(s@).contains(x) implies
                new_view.to_set().contains(x) by {
                if x == s@ {
                    assert(new_view[i as int] == x);
                } else {
                    let t = choose|t: int| 0 <= t < old_view.len() && old_view[t] == x;
                    if t < i {
                        assert(new_view[t] == x);
                    } else {
                        assert(new_view[t + 1] == x);
                    }
                }
            }
        }
    }
}

/// Two strictly sorted sequences with the same members are the same
/// sequence: the sorted union is deterministic.
pub proof fn lemma_sorted_set_unique(a: Seq<Seq<char>>, b: Seq<Seq<char>>)
    requires
        strictly_sorted(a),
        strictly_sorted(b),
        a.to_set() == b.to_set(),
    ensures
        a == b,
    decreases a.len(),
{
    if a.len() == 0 {
        if b.len() != 0 {
            assert(b.to_set().contains(b[0]));
            assert(a.contains(b[0]));
        }
        assert(a =~= b);
    } else {
        assert(a.to_set().contains(a[0]));
        assert(b.contains(a[0]));
        let kb = choose|k: int| 0 <= k < b.len() && b[k] == a[0];
        assert(b.to_set().contains(b[0]));
        assert(a.contains(b[0]));
        let ka = choose|k: int| 0 <= k < a.len() && a[k] == b[0];
        if kb > 0 {
            assert(chars_le(b[0], b[kb]) && b[0] != b[kb]);
        } else {
            lemma_chars_le_total(b[0], b[0]);
        }
        if ka > 0 {
            assert(chars_le(a[0], a[ka]) && a[0] != a[ka]);
        } else {
            lemma_chars_le_total(a[0], a[0]);
        }
        lemma_chars_le_antisym(a[0], b[0]);
        assert(a[0] == b[0]);
        assert(a.skip(1).to_set() =~= b.skip(1).to_set()) by {
            assert forall|x: Seq<char>| a.skip(1).to_set().contains(x) implies
                b.skip(1).to_set().contains(x) by {
                let t = choose|t: int| 0 <= t < a.skip(1).len() && a.skip(1)[t] == x;
                assert(a[t + 1] == x);
                assert(x != a[0]);
                assert(a.to_set().contains(x));
                assert(b.contains(x));
                let u = choose|u: int| 0 <= u < b.len() && b[u] == x;
                assert(u != 0);
                assert(b.skip(1)[u - 1] == x);
            }
            assert forall|x: Seq<char>| b.skip(1).to_set().contains(x) implies
                a.skip(1).to_set().contains(x) by {
                let t = choose|t: int| 0 <= t < b.skip(1).len() && b.skip(1)[t] == x;
                assert(b[t + 1] == x);
                assert(x != b[0]);
                assert(b.to_set().contains(x));
                assert(a.contains(x));
                let u = choose|u: int| 0 <= u < a.len() && a[u] == x;
                assert(u != 0);
                assert(a.skip(1)[u - 1] == x);
            }
        }
        assert(strictly_sorted(a.skip(1))) by {
            assert forall|p: int, q: int| 0 <= p < q < a.skip(1).len() implies chars_le(
                #[trigger] a.skip(1)[p],
                #[trigger] a.skip(1)[q],
            ) && a.skip(1)[p] != a.skip(1)[q] by {
                assert(a.skip(1)[p] == a[p + 1] && a.skip(1)[q] == a[q + 1]);
            }
        }
        assert(strictly_sorted(b.skip(1))) by {
            assert forall|p: int, q: int| 0 <= p < q < b.skip(1).len() implies chars_le(
                #[trigger] b.skip(1)[p],
                #[trigger] b.skip(1)[q],
            ) && b.skip(1)[p] != b.skip(1)[q] by {
                assert(b.skip(1)[p] == b[p + 1] && b.skip(1)[q] == b[q + 1]);
            }
        }
        lemma_sorted_set_unique(a.skip(1), b.skip(1));
        assert(a =~= seq![a[0]] + a.skip(1));
        assert(b =~= seq![b[0]] + b.skip(1));
    }
}

} // verus!
