//! Persisted base-state snapshot: the last-known common values of every
//! linked item, keyed by remote record number.

use vstd::prelude::*;
use crate::org::model::clone_string_vec;
use crate::strutil::digit_char;

verus! {

/// Mathematical view of a [`SyncedItem`].
pub ghost struct SyncedItemV {
    pub org_heading_id: Seq<char>,
    pub title: Seq<char>,
    pub body_hash: Seq<char>,
    pub state: Seq<char>,
    pub assignees: Seq<Seq<char>>,
    pub labels: Seq<Seq<char>>,
    pub gh_updated_at: i64,
    pub org_updated_at: Option<i64>,
}

/// Base state of one linked item: the field values both sides agreed on
/// after the last reconciliation.
#[derive(Debug)]
pub struct SyncedItem {
    /// Identifier of the local heading this entry was last associated with.
    pub org_heading_id: String,
    /// Title at last reconciliation.
    pub title: String,
    /// Digest of the body at last reconciliation.
    pub body_hash: String,
    /// State word, "open" or "closed", at last reconciliation.
    pub state: String,
    /// Assignee set at last reconciliation.
    pub assignees: Vec<String>,
    /// Label set at last reconciliation.
    pub labels: Vec<String>,
    /// Remote-side last-modified timestamp, seconds since the epoch.
    pub gh_updated_at: i64,
    /// Local-side last-write timestamp, seconds since the epoch.
    pub org_updated_at: Option<i64>,
}

impl View for SyncedItem {
    type V = SyncedItemV;

    open spec fn view(&self) -> SyncedItemV {
        SyncedItemV {
            org_heading_id: self.org_heading_id@,
            title: self.title@,
            body_hash: self.body_hash@,
            state: self.state@,
            assignees: self.assignees.deep_view(),
            labels: self.labels.deep_view(),
            gh_updated_at: self.gh_updated_at,
            org_updated_at: self.org_updated_at,
        }
    }
}

impl Clone for SyncedItem {
    fn clone(&self) -> (r: Self)
        ensures
            r@ == self@,
    {
        SyncedItem {
            org_heading_id: self.org_heading_id.clone(),
            title: self.title.clone(),
            body_hash: self.body_hash.clone(),
            state: self.state.clone(),
            assignees: clone_string_vec(&self.assignees),
            labels: clone_string_vec(&self.labels),
            gh_updated_at: self.gh_updated_at,
            org_updated_at: self.org_updated_at,
        }
    }
}

/// Mathematical view of a [`PendingCreate`].
pub ghost struct PendingCreateV {
    pub org_heading_id: Seq<char>,
    pub title: Seq<char>,
}

/// A local heading known to be awaiting creation on the remote side.
#[derive(Debug)]
pub struct PendingCreate {
    pub org_heading_id: String,
    pub title: String,
}

impl View for PendingCreate {
    type V = PendingCreateV;

    open spec fn view(&self) -> PendingCreateV {
        PendingCreateV { org_heading_id: self.org_heading_id@, title: self.title@ }
    }
}

impl DeepView for PendingCreate {
    type V = PendingCreateV;

    open spec fn deep_view(&self) -> PendingCreateV {
        self.view()
    }
}

impl Clone for PendingCreate {
    fn clone(&self) -> (r: Self)
        ensures
            r@ == self@,
    {
        PendingCreate {
            org_heading_id: self.org_heading_id.clone(),
            title: self.title.clone(),
        }
    }
}

/// Look a key up in an entry sequence; first match wins.
pub open spec fn lookup(s: Seq<(u64, SyncedItemV)>, k: u64) -> Option<SyncedItemV>
    decreases s.len(),
{
    if s.len() == 0 {
        None
    } else if s[0].0 == k {
        Some(s[0].1)
    } else {
        lookup(s.skip(1), k)
    }
}

/// Insert into an entry sequence sorted by key, replacing an equal key.
pub open spec fn spec_insert(s: Seq<(u64, SyncedItemV)>, k: u64, v: SyncedItemV) -> Seq<
    (u64, SyncedItemV),
>
    decreases s.len(),
{
    if s.len() == 0 {
        seq![(k, v)]
    } else if k < s[0].0 {
        seq![(k, v)] + s
    } else if k == s[0].0 {
        seq![(k, v)] + s.skip(1)
    } else {
        seq![s[0]] + spec_insert(s.skip(1), k, v)
    }
}

/// Remove a key from an entry sequence.
pub open spec fn spec_remove(s: Seq<(u64, SyncedItemV)>, k: u64) -> Seq<(u64, SyncedItemV)>
    decreases s.len(),
{
    if s.len() == 0 {
        s
    } else if s[0].0 == k {
        s.skip(1)
    } else {
        seq![s[0]] + spec_remove(s.skip(1), k)
    }
}

/// Keys strictly increase through the sequence.
pub open spec fn entries_sorted(s: Seq<(u64, SyncedItemV)>) -> bool {
    forall|i: int, j: int| 0 <= i < j < s.len() ==> (#[trigger] s[i]).0 < (#[trigger] s[j]).0
}

/// The base-state mapping: remote record number to [`SyncedItem`], held as
/// a vector of entries sorted by key so that iteration and the persisted
/// form are deterministic.
#[derive(Debug)]
pub struct ItemMap {
    /// The entries, sorted by key; use the methods to keep the order.
    pub entries: Vec<(u64, SyncedItem)>,
}

impl View for ItemMap {
    type V = Seq<(u64, SyncedItemV)>;

    open spec fn view(&self) -> Seq<(u64, SyncedItemV)> {
        Seq::new(self.entries@.len(), |i: int| (self.entries@[i].0, self.entries@[i].1@))
    }
}

impl ItemMap {
    /// Well-formed: keys strictly increasing, so each key occurs once.
    pub open spec fn wf(&self) -> bool {
        entries_sorted(self@)
    }

    pub fn new() -> (r: ItemMap)
        ensures
            r@ == Seq::<(u64, SyncedItemV)>::empty(),
            r.wf(),
    {
        let r = ItemMap { entries: Vec::new() };
        proof {
            assert(r@ =~= Seq::<(u64, SyncedItemV)>::empty());
        }
        r
    }

    /// Number of entries.
    pub fn len(&self) -> (r: usize)
        ensures
            r == self@.len(),
    {
        self.entries.len()
    }

    /// The entry at one position, in key order.
    pub fn entry_at(&self, i: usize) -> (r: &(u64, SyncedItem))
        requires
            i < self@.len(),
        ensures
            (r.0, r.1@) == self@[i as int],
    {
        &self.entries[i]
    }

    /// Look one key up.
    pub fn get(&self, k: &u64) -> (r: Option<&SyncedItem>)
        ensures
            match r {
                Some(it) => lookup(self@, *k) == Some(it@),
                None => lookup(self@, *k) is None,
            },
    {
        let mut i: usize = 0;
        proof {
            assert(self@.skip(0) =~= self@);
        }
        while i < self.entries.len()
            invariant
                i <= self@.len(),
                self@.len() == self.entries@.len(),
                lookup(self@, *k) == lookup(self@.skip(i as int), *k),
            decreases self@.len() - i,
        {
            proof {
                assert(self@.skip(i as int)[0] == self@[i as int]);
                assert(self@.skip(i as int).skip(1) =~= self@.skip(i + 1));
            }
            if self.entries[i].0 == *k {
                return Some(&self.entries[i].1);
            }
            i = i + 1;
        }
        None
    }

    /// Whether one key is present.
    pub fn contains_key(&self, k: &u64) -> (r: bool)
        ensures
            r == (lookup(self@, *k) is Some),
    {
        match self.get(k) {
            Some(_) => true,
            None => false,
        }
    }

    /// Insert or replace one entry, keeping the key order.
    pub fn insert(&mut self, k: u64, v: SyncedItem)
        requires
            old(self).wf(),
        ensures
            final(self)@ == spec_insert(old(self)@, k, v@),
            final(self).wf(),
    {
        let ghost old_view = self@;
        let mut i: usize = 0;
        while i < self.entries.len() && self.entries[i].0 < k
            invariant
                i <= self@.len(),
                self@.len() == self.entries@.len(),
                self@ == old_view,
                forall|j: int| 0 <= j < i ==> (#[trigger] self@[j]).0 < k,
            decreases self@.len() - i,
        {
            i = i + 1;
        }
        if i < self.entries.len() && self.entries[i].0 == k {
            self.entries.set(i, (k, v));
            proof {
                lemma_insert_at(old_view, k, v@, i as int);
                assert(self@ =~= old_view.update(i as int, (k, v@)));
                assert(self@ =~= spec_insert(old_view, k, v@));
                lemma_insert_sorted(old_view, k, v@);
            }
        } else {
            self.entries.insert(i, (k, v));
            proof {
                lemma_insert_at(old_view, k, v@, i as int);
                assert(self@ =~= old_view.take(i as int) + seq![(k, v@)] + old_view.skip(
                    i as int,
                ));
                lemma_insert_sorted(old_view, k, v@);
            }
        }
    }

    /// Remove one entry, if the key is present.
    pub fn remove(&mut self, k: u64)
        requires
            old(self).wf(),
        ensures
            final(self)@ == spec_remove(old(self)@, k),
            final(self).wf(),
    {
        let ghost old_view = self@;
        let mut i: usize = 0;
        while i < self.entries.len() && self.entries[i].0 != k
            invariant
                i <= self@.len(),
                self@.len() == self.entries@.len(),
                self@ == old_view,
                forall|j: int| 0 <= j < i ==> (#[trigger] self@[j]).0 != k,
            decreases self@.len() - i,
        {
            i = i + 1;
        }
        if i < self.entries.len() {
            let _ = self.entries.remove(i);
            proof {
                lemma_remove_at(old_view, k, i as int);
                assert(self@ =~= old_view.take(i as int) + old_view.skip(i + 1));
                lemma_remove_sorted(old_view, k);
            }
        } else {
            proof {
                lemma_remove_absent(old_view, k);
                assert(self@ =~= old_view);
            }
        }
    }
}

/// Positional characterisation of `spec_insert`: if everything before `i`
/// has a smaller key, the insertion happens at `i`.
proof fn lemma_insert_at(s: Seq<(u64, SyncedItemV)>, k: u64, v: SyncedItemV, i: int)
    requires
        0 <= i <= s.len(),
        forall|j: int| 0 <= j < i ==> (#[trigger] s[j]).0 < k,
        i < s.len() ==> s[i].0 >= k,
    ensures
        i < s.len() && s[i].0 == k ==> spec_insert(s, k, v) == s.update(i, (k, v)),
        (i == s.len() || s[i].0 > k) ==> spec_insert(s, k, v) == s.take(i) + seq![(k, v)]
            + s.skip(i),
    decreases s.len(),
{
    if s.len() == 0 {
        assert(spec_insert(s, k, v) =~= s.take(0) + seq![(k, v)] + s.skip(0));
    } else if i == 0 {
        if s[0].0 == k {
            assert(spec_insert(s, k, v) =~= s.update(0, (k, v)));
        } else {
            assert(spec_insert(s, k, v) =~= s.take(0) + seq![(k, v)] + s.skip(0));
        }
    } else {
        lemma_insert_at(s.skip(1), k, v, i - 1);
        if i < s.len() && s[i].0 == k {
            assert(s.skip(1)[i - 1].0 == k);
            assert(spec_insert(s, k, v) =~= s.update(i, (k, v))) by {
                assert(spec_insert(s.skip(1), k, v) == s.skip(1).update(i - 1, (k, v)));
            }
        } else {
            assert(spec_insert(s, k, v) =~= s.take(i) + seq![(k, v)] + s.skip(i)) by {
                assert(spec_insert(s.skip(1), k, v) == s.skip(1).take(i - 1) + seq![(k, v)]
                    + s.skip(1).skip(i - 1));
                assert(s.skip(1).take(i - 1) =~= s.subrange(1, i));
                assert(s.skip(1).skip(i - 1) =~= s.skip(i));
            }
        }
    }
}

/// Inserting into a sorted sequence keeps it sorted.
proof fn lemma_insert_sorted(s: Seq<(u64, SyncedItemV)>, k: u64, v: SyncedItemV)
    requires
        entries_sorted(s),
    ensures
        entries_sorted(spec_insert(s, k, v)),
        spec_insert(s, k, v).len() <= s.len() + 1,
    decreases s.len(),
{
    if s.len() != 0 && k > s[0].0 {
        assert(entries_sorted(s.skip(1)));
        lemma_insert_sorted(s.skip(1), k, v);
        let t = seq![s[0]] + spec_insert(s.skip(1), k, v);
        assert forall|i: int, j: int| 0 <= i < j < t.len() implies (#[trigger] t[i]).0 < (
        #[trigger] t[j]).0 by {
            if i == 0 {
                lemma_insert_member(s.skip(1), k, v, j - 1);
            }
        }
    }
}

/// Every entry of `spec_insert(s, k, v)` is either `(k, v)` or an entry of `s`.
proof fn lemma_insert_member(s: Seq<(u64, SyncedItemV)>, k: u64, v: SyncedItemV, j: int)
    requires
        0 <= j < spec_insert(s, k, v).len(),
    ensures
        spec_insert(s, k, v)[j] == (k, v) || s.contains(spec_insert(s, k, v)[j]),
    decreases s.len(),
{
    if s.len() == 0 {
    } else if k < s[0].0 {
        if j > 0 {
            assert(spec_insert(s, k, v)[j] == s[j - 1]);
        }
    } else if k == s[0].0 {
        if j > 0 {
            assert(spec_insert(s, k, v)[j] == s.skip(1)[j - 1]);
            assert(s.contains(s[j]));
        }
    } else {
        if j > 0 {
            lemma_insert_member(s.skip(1), k, v, j - 1);
            if s.skip(1).contains(spec_insert(s.skip(1), k, v)[j - 1]) {
                let w = choose|t: int|
                    0 <= t < s.skip(1).len() && s.skip(1)[t] == spec_insert(s.skip(1), k, v)[j
                        - 1];
                assert(s[w + 1] == spec_insert(s, k, v)[j]);
            }
        }
    }
}

/// Positional characterisation of `spec_remove`.
proof fn lemma_remove_at(s: Seq<(u64, SyncedItemV)>, k: u64, i: int)
    requires
        0 <= i < s.len(),
        forall|j: int| 0 <= j < i ==> (#[trigger] s[j]).0 != k,
        s[i].0 == k,
    ensures
        spec_remove(s, k) == s.take(i) + s.skip(i + 1),
    decreases s.len(),
{
    if i == 0 {
        assert(spec_remove(s, k) =~= s.take(0) + s.skip(1));
    } else {
        lemma_remove_at(s.skip(1), k, i - 1);
        assert(spec_remove(s, k) =~= s.take(i) + s.skip(i + 1)) by {
            assert(spec_remove(s.skip(1), k) == s.skip(1).take(i - 1) + s.skip(1).skip(i - 1
                + 1));
            assert(s.skip(1).take(i - 1) =~= s.subrange(1, i));
            assert(s.skip(1).skip(i) =~= s.skip(i + 1));
        }
    }
}

/// Removing an absent key changes nothing.
proof fn lemma_remove_absent(s: Seq<(u64, SyncedItemV)>, k: u64)
    requires
        forall|j: int| 0 <= j < s.len() ==> (#[trigger] s[j]).0 != k,
    ensures
        spec_remove(s, k) == s,
    decreases s.len(),
{
    if s.len() != 0 {
        lemma_remove_absent(s.skip(1), k);
        assert(spec_remove(s, k) =~= s) by {
            assert(s =~= seq![s[0]] + s.skip(1));
        }
    }
}

/// Removing from a sorted sequence keeps it sorted.
proof fn lemma_remove_sorted(s: Seq<(u64, SyncedItemV)>, k: u64)
    requires
        entries_sorted(s),
    ensures
        entries_sorted(spec_remove(s, k)),
    decreases s.len(),
{
    if s.len() != 0 && s[0].0 != k {
        assert(entries_sorted(s.skip(1)));
        lemma_remove_sorted(s.skip(1), k);
        let t = seq![s[0]] + spec_remove(s.skip(1), k);
        assert forall|i: int, j: int| 0 <= i < j < t.len() implies (#[trigger] t[i]).0 < (
        #[trigger] t[j]).0 by {
            if i == 0 {
                lemma_remove_member(s.skip(1), k, j - 1);
            }
        }
    }
}

/// The SHA-256 digest of a byte sequence; what it is on given bytes is
/// known only to the hash itself.
pub uninterp spec fn sha256_of(bytes: Seq<u8>) -> Seq<u8>;

/// Relies on sha2::Sha256: the digest is a function of the input bytes
/// alone, and is 32 bytes long.
#[verifier::external_body]
fn sha256_bytes(body: &[u8]) -> (r: Vec<u8>)
    ensures
        r@ == sha256_of(body@),
        r@.len() == 32,
{
    let mut h: sha2::Sha256 = sha2::Digest::new();
    sha2::Digest::update(&mut h, body);
    let out = sha2::Digest::finalize(h);
    out.to_vec()
}

/// Lower-case hex digit for a value below 16.
pub open spec fn hex_digit(d: nat) -> char {
    if d < 10 {
        digit_char(d)
    } else {
        ((87 + d) as u8) as char
    }
}

/// Lower-case hex rendering of a byte sequence, two digits a byte.
pub open spec fn hex_chars(bs: Seq<u8>) -> Seq<char>
    decreases bs.len(),
{
    if bs.len() == 0 {
        Seq::empty()
    } else {
        hex_chars(bs.drop_last()).push(hex_digit(bs.last() as nat / 16)).push(
            hex_digit(bs.last() as nat % 16),
        )
    }
}

/// The stored digest of a body: a fixed prefix naming the hash, then the
/// digest in hex.
pub open spec fn body_digest(s: Seq<char>) -> Seq<char> {
    "sha256:"@ + hex_chars(sha256_of(vstd::utf8::encode_utf8(s)))
}

/// Digest body content for change detection.
pub fn hash_body(body: &str) -> (r: String)
    ensures
        r@ == body_digest(body@),
{
    let digest = sha256_bytes(body.as_bytes());
    let mut out = crate::strutil::str_chars("sha256:");
    let ghost prefix = "sha256:"@;
    let mut i: usize = 0;
    while i < digest.len()
        invariant
            i <= digest.len(),
            out@ == prefix + hex_chars(digest@.subrange(0, i as int)),
        decreases digest.len() - i,
    {
        let b = digest[i];
        let hi: u8 = b / 16;
        let lo: u8 = b % 16;
        let hc: char = if hi < 10 {
            ((48 + hi as u32) as u8) as char
        } else {
            ((87 + hi as u32) as u8) as char
        };
        let lc: char = if lo < 10 {
            ((48 + lo as u32) as u8) as char
        } else {
            ((87 + lo as u32) as u8) as char
        };
        out.push(hc);
        out.push(lc);
        i = i + 1;
        proof {
            assert(digest@.subrange(0, i as int).drop_last() =~= digest@.subrange(
                0,
                i - 1,
            ));
            assert(digest@.subrange(0, i as int).last() == digest@[i - 1]);
            assert(out@ =~= prefix + hex_chars(digest@.subrange(0, i as int)));
        }
    }
    proof {
        assert(digest@.subrange(0, digest@.len() as int) =~= digest@);
    }
    crate::strutil::chars_string(&out)
}

/// Mathematical view of a [`SyncState`].
pub ghost struct SyncStateV {
    pub version: u32,
    pub repo: Seq<char>,
    pub last_sync: Option<i64>,
    pub items: Seq<(u64, SyncedItemV)>,
    pub pending_creates: Seq<PendingCreateV>,
}

/// The persisted snapshot: schema version, target collection, time of the
/// last reconciliation, the base-state entries, and headings pending
/// creation.
#[derive(Debug)]
pub struct SyncState {
    /// Schema version of the persisted form.
    pub version: u32,
    /// Target remote collection, as "owner/name".
    pub repo: String,
    /// Timestamp of the last reconciliation, seconds since the epoch.
    pub last_sync: Option<i64>,
    /// Base state of every linked item, keyed by record number.
    pub items: ItemMap,
    /// Local headings awaiting creation on the remote side.
    pub pending_creates: Vec<PendingCreate>,
}

impl View for SyncState {
    type V = SyncStateV;

    open spec fn view(&self) -> SyncStateV {
        SyncStateV {
            version: self.version,
            repo: self.repo@,
            last_sync: self.last_sync,
            items: self.items@,
            pending_creates: self.pending_creates.deep_view(),
        }
    }
}

/// A pending-create sequence with every entry of one heading removed.
pub open spec fn pending_without(s: Seq<PendingCreateV>, id: Seq<char>) -> Seq<PendingCreateV>
    decreases s.len(),
{
    if s.len() == 0 {
        Seq::empty()
    } else {
        let rest = pending_without(s.drop_last(), id);
        if s.last().org_heading_id == id {
            rest
        } else {
            rest.push(s.last())
        }
    }
}

impl SyncState {
    /// Well-formed: the entry keys strictly increase.
    pub open spec fn wf(&self) -> bool {
        self.items.wf()
    }

    /// An empty snapshot for one target collection.
    pub fn new(repo: &str) -> (r: SyncState)
        ensures
            r@.version == 1,
            r@.repo == repo@,
            r@.last_sync is None,
            r@.items == Seq::<(u64, SyncedItemV)>::empty(),
            r@.pending_creates == Seq::<PendingCreateV>::empty(),
            r.wf(),
    {
        let r = SyncState {
            version: 1,
            repo: repo.to_owned(),
            last_sync: None,
            items: ItemMap::new(),
            pending_creates: Vec::new(),
        };
        proof {
            assert(r@.pending_creates =~= Seq::<PendingCreateV>::empty());
        }
        r
    }

    /// The path of the snapshot file that sits beside a document.
    pub fn state_path(org_path: &str) -> (r: String)
        ensures
            r@ == org_path@ + ".org-gh.json"@,
    {
        let mut v = crate::strutil::str_chars(org_path);
        let suffix = crate::strutil::str_chars(".org-gh.json");
        let mut i: usize = 0;
        while i < suffix.len()
            invariant
                i <= suffix.len(),
                v@ == org_path@ + suffix@.subrange(0, i as int),
            decreases suffix.len() - i,
        {
            v.push(suffix[i]);
            i = i + 1;
            proof {
                assert(v@ =~= org_path@ + suffix@.subrange(0, i as int));
            }
        }
        proof {
            assert(suffix@.subrange(0, suffix@.len() as int) =~= suffix@);
            assert(v@ =~= org_path@ + ".org-gh.json"@);
        }
        crate::strutil::chars_string(&v)
    }

    /// Record the reconciled values of one item: insert or overwrite its
    /// entry and refresh the last-reconciliation timestamp.
    pub fn record_sync(
        &mut self,
        issue_number: u64,
        org_heading_id: &str,
        title: &str,
        body: &str,
        state: &str,
        assignees: &Vec<String>,
        labels: &Vec<String>,
        gh_updated_at: i64,
        now: i64,
    )
        requires
            old(self).wf(),
        ensures
            final(self).wf(),
            final(self)@.items == spec_insert(
                old(self)@.items,
                issue_number,
                SyncedItemV {
                    org_heading_id: org_heading_id@,
                    title: title@,
                    body_hash: body_digest(body@),
                    state: state@,
                    assignees: assignees.deep_view(),
                    labels: labels.deep_view(),
                    gh_updated_at: gh_updated_at,
                    org_updated_at: Some(now),
                },
            ),
            final(self)@.last_sync == Some(now),
            final(self)@.version == old(self)@.version,
            final(self)@.repo == old(self)@.repo,
            final(self)@.pending_creates == old(self)@.pending_creates,
    {
        let body_hash = hash_body(body);
        let entry = SyncedItem {
            org_heading_id: org_heading_id.to_owned(),
            title: title.to_owned(),
            body_hash,
            state: state.to_owned(),
            assignees: clone_string_vec(assignees),
            labels: clone_string_vec(labels),
            gh_updated_at,
            org_updated_at: Some(now),
        };
        self.items.insert(issue_number, entry);
        self.last_sync = Some(now);
    }

    /// Record an adopted or freshly created remote record as the new base
    /// state of the heading it is linked to.
    pub fn record_issue(
        &mut self,
        org_heading_id: &str,
        issue: &crate::github::model::GhIssue,
        now: i64,
    )
        requires
            old(self).wf(),
        ensures
            final(self).wf(),
            final(self)@.items == spec_insert(
                old(self)@.items,
                issue@.number,
                SyncedItemV {
                    org_heading_id: org_heading_id@,
                    title: issue@.title,
                    body_hash: body_digest(
                        match issue@.body {
                            Some(b) => b,
                            None => Seq::empty(),
                        },
                    ),
                    state: crate::sync::diff::state_word(issue@.state.spec_is_open()),
                    assignees: issue@.assignees,
                    labels: issue@.labels,
                    gh_updated_at: issue@.updated_at,
                    org_updated_at: Some(now),
                },
            ),
            final(self)@.last_sync == Some(now),
            final(self)@.version == old(self)@.version,
            final(self)@.repo == old(self)@.repo,
            final(self)@.pending_creates == old(self)@.pending_creates,
    {
        let body: &str = match &issue.body {
            Some(b) => b.as_str(),
            None => {
                proof {
                    reveal_strlit("");
                    assert(""@ =~= Seq::<char>::empty());
                }
                ""
            },
        };
        let state_str: &str = crate::sync::diff::state_str(issue.state.is_open());
        self.record_sync(
            issue.number,
            org_heading_id,
            issue.title.as_str(),
            body,
            state_str,
            &issue.assignees,
            &issue.labels,
            issue.updated_at,
            now,
        );
    }

    /// Drop the entry of one record number.
    pub fn remove(&mut self, issue_number: u64)
        requires
            old(self).wf(),
        ensures
            final(self).wf(),
            final(self)@.items == spec_remove(old(self)@.items, issue_number),
            final(self)@.last_sync == old(self)@.last_sync,
            final(self)@.version == old(self)@.version,
            final(self)@.repo == old(self)@.repo,
            final(self)@.pending_creates == old(self)@.pending_creates,
    {
        self.items.remove(issue_number);
    }

    /// Note a heading that still awaits creation on the remote side.
    pub fn add_pending_create(&mut self, heading_id: &str, title: &str)
        ensures
            final(self)@.pending_creates == old(self)@.pending_creates.push(
                PendingCreateV { org_heading_id: heading_id@, title: title@ },
            ),
            final(self)@.items == old(self)@.items,
            final(self)@.last_sync == old(self)@.last_sync,
            final(self)@.version == old(self)@.version,
            final(self)@.repo == old(self)@.repo,
            final(self).wf() == old(self).wf(),
    {
        self.pending_creates.push(
            PendingCreate { org_heading_id: heading_id.to_owned(), title: title.to_owned() },
        );
        proof {
            assert(self.pending_creates.deep_view() =~= old(
                self,
            ).pending_creates.deep_view().push(
                PendingCreateV { org_heading_id: heading_id@, title: title@ },
            ));
        }
    }

    /// Forget every pending create of one heading.
    pub fn remove_pending_create(&mut self, heading_id: &str)
        ensures
            final(self)@.pending_creates == pending_without(
                old(self)@.pending_creates,
                heading_id@,
            ),
            final(self)@.items == old(self)@.items,
            final(self)@.last_sync == old(self)@.last_sync,
            final(self)@.version == old(self)@.version,
            final(self)@.repo == old(self)@.repo,
            final(self).wf() == old(self).wf(),
    {
        let mut kept: Vec<PendingCreate> = Vec::new();
        let mut i: usize = 0;
        while i < self.pending_creates.len()
            invariant
                i <= self.pending_creates.len(),
                kept.deep_view() == pending_without(
                    self.pending_creates.deep_view().subrange(0, i as int),
                    heading_id@,
                ),
            decreases self.pending_creates.len() - i,
        {
            proof {
                assert(self.pending_creates.deep_view().subrange(0, i + 1).drop_last()
                    =~= self.pending_creates.deep_view().subrange(0, i as int));
                assert(self.pending_creates.deep_view().subrange(0, i + 1).last()
                    == self.pending_creates.deep_view()[i as int]);
            }
            if !crate::strutil::str_eq(
                self.pending_creates[i].org_heading_id.as_str(),
                heading_id,
            ) {
                let p = self.pending_creates[i].clone();
                kept.push(p);
                proof {
                    assert(kept.deep_view() =~= pending_without(
                        self.pending_creates.deep_view().subrange(0, i + 1),
                        heading_id@,
                    ));
                }
            }
            i = i + 1;
        }
        proof {
            assert(self.pending_creates.deep_view().subrange(
                0,
                self.pending_creates.deep_view().len() as int,
            ) =~= self.pending_creates.deep_view());
        }
        self.pending_creates = kept;
    }
}

/// Every entry of `spec_remove(s, k)` is an entry of `s`.
proof fn lemma_remove_member(s: Seq<(u64, SyncedItemV)>, k: u64, j: int)
    requires
        0 <= j < spec_remove(s, k).len(),
    ensures
        s.contains(spec_remove(s, k)[j]),
    decreases s.len(),
{
    if s.len() == 0 {
    } else if s[0].0 == k {
        assert(spec_remove(s, k)[j] == s[j + 1]);
    } else {
        if j == 0 {
            assert(spec_remove(s, k)[0] == s[0]);
        } else {
            lemma_remove_member(s.skip(1), k, j - 1);
            let w = choose|t: int|
                0 <= t < s.skip(1).len() && s.skip(1)[t] == spec_remove(s.skip(1), k)[j - 1];
            assert(s[w + 1] == spec_remove(s, k)[j]);
        }
    }
}

} // verus!
