//! Data model of the remote issue-tracking side.

use vstd::prelude::*;
use crate::org::model::{clone_opt_string, clone_string_vec};

verus! {

/// Open/closed state of a remote record.
#[derive(Debug, Clone, Copy, PartialEq, Eq, Structural)]
pub enum GhIssueState {
    Open,
    Closed,
}

impl GhIssueState {
    pub open spec fn spec_is_open(self) -> bool {
        self == GhIssueState::Open
    }

    pub fn is_open(&self) -> (r: bool)
        ensures
            r == self.spec_is_open(),
    {
        match self {
            GhIssueState::Open => true,
            GhIssueState::Closed => false,
        }
    }
}

/// Mathematical view of a [`GhIssue`].
pub ghost struct GhIssueV {
    pub number: u64,
    pub title: Seq<char>,
    pub body: Option<Seq<char>>,
    pub state: GhIssueState,
    pub assignees: Seq<Seq<char>>,
    pub labels: Seq<Seq<char>>,
    pub created_at: i64,
    pub updated_at: i64,
    pub closed_at: Option<i64>,
    pub html_url: Seq<char>,
}

/// One tracked record fetched from the remote service.
#[derive(Debug)]
pub struct GhIssue {
    /// Record number: the stable cross-replica key.
    pub number: u64,
    /// Title.
    pub title: String,
    /// Body text, if any.
    pub body: Option<String>,
    /// Open/closed state.
    pub state: GhIssueState,
    /// Assignee set.
    pub assignees: Vec<String>,
    /// Label set.
    pub labels: Vec<String>,
    /// Creation timestamp, seconds since the epoch.
    pub created_at: i64,
    /// Last update timestamp, seconds since the epoch.
    pub updated_at: i64,
    /// Closing timestamp, if closed.
    pub closed_at: Option<i64>,
    /// Display URL.
    pub html_url: String,
}

impl View for GhIssue {
    type V = GhIssueV;

    open spec fn view(&self) -> GhIssueV {
        GhIssueV {
            number: self.number,
            title: self.title@,
            body: match self.body {
                Some(b) => Some(b@),
                None => None,
            },
            state: self.state,
            assignees: self.assignees.deep_view(),
            labels: self.labels.deep_view(),
            created_at: self.created_at,
            updated_at: self.updated_at,
            closed_at: self.closed_at,
            html_url: self.html_url@,
        }
    }
}

impl DeepView for GhIssue {
    type V = GhIssueV;

    open spec fn deep_view(&self) -> GhIssueV {
        self.view()
    }
}

impl Clone for GhIssue {
    fn clone(&self) -> (r: Self)
        ensures
            r@ == self@,
    {
        GhIssue {
            number: self.number,
            title: self.title.clone(),
            body: clone_opt_string(&self.body),
            state: self.state,
            assignees: clone_string_vec(&self.assignees),
            labels: clone_string_vec(&self.labels),
            created_at: self.created_at,
            updated_at: self.updated_at,
            closed_at: self.closed_at,
            html_url: self.html_url.clone(),
        }
    }
}

/// One comment on a remote record.
#[derive(Debug)]
pub struct GhComment {
    pub id: u64,
    pub author: String,
    pub body: String,
    pub created_at: i64,
    pub updated_at: i64,
}

/// Request to create a new remote record.
#[derive(Debug)]
pub struct CreateIssueRequest {
    pub title: String,
    pub body: Option<String>,
    pub assignees: Vec<String>,
    pub labels: Vec<String>,
}

/// Mathematical view of an [`UpdateIssueRequest`].
pub ghost struct UpdateIssueRequestV {
    pub title: Option<Seq<char>>,
    pub body: Option<Seq<char>>,
    pub state: Option<GhIssueState>,
    pub assignees: Option<Seq<Seq<char>>>,
    pub labels: Option<Seq<Seq<char>>>,
}

/// Partial update of a remote record: only the set fields move.
#[derive(Debug)]
pub struct UpdateIssueRequest {
    pub title: Option<String>,
    pub body: Option<String>,
    pub state: Option<GhIssueState>,
    pub assignees: Option<Vec<String>>,
    pub labels: Option<Vec<String>>,
}

impl View for UpdateIssueRequest {
    type V = UpdateIssueRequestV;

    open spec fn view(&self) -> UpdateIssueRequestV {
        UpdateIssueRequestV {
            title: match self.title {
                Some(t) => Some(t@),
                None => None,
            },
            body: match self.body {
                Some(b) => Some(b@),
                None => None,
            },
            state: self.state,
            assignees: match self.assignees {
                Some(a) => Some(a.deep_view()),
                None => None,
            },
            labels: match self.labels {
                Some(l) => Some(l.deep_view()),
                None => None,
            },
        }
    }
}

impl UpdateIssueRequest {
    /// The view of a request with no field set.
    pub open spec fn empty_view() -> UpdateIssueRequestV {
        UpdateIssueRequestV {
            title: None,
            body: None,
            state: None,
            assignees: None,
            labels: None,
        }
    }

    /// Whether any field of the request is set.
    pub open spec fn spec_any(v: UpdateIssueRequestV) -> bool {
        v.title is Some || v.body is Some || v.state is Some || v.assignees is Some
            || v.labels is Some
    }
}

impl Clone for UpdateIssueRequest {
    fn clone(&self) -> (r: Self)
        ensures
            r@ == self@,
    {
        UpdateIssueRequest {
            title: clone_opt_string(&self.title),
            body: clone_opt_string(&self.body),
            state: self.state,
            assignees: match &self.assignees {
                Some(a) => Some(clone_string_vec(a)),
                None => None,
            },
            labels: match &self.labels {
                Some(l) => Some(clone_string_vec(l)),
                None => None,
            },
        }
    }
}

impl Default for UpdateIssueRequest {
    fn default() -> (r: Self)
        ensures
            r@ == UpdateIssueRequest::empty_view(),
    {
        UpdateIssueRequest {
            title: None,
            body: None,
            state: None,
            assignees: None,
            labels: None,
        }
    }
}

/// Split a collection name of the form "owner/name". Exactly one slash
/// is accepted; anything else is a configuration error.
pub fn parse_repo(repo: &str) -> (r: Result<(String, String), crate::error::Error>)
    ensures
        match r {
            Ok((owner, name)) => ({
                let f = crate::strutil::spec_find(repo@, seq!['/'], 0);
                &&& f is Some
                &&& crate::strutil::spec_find(repo@, seq!['/'], f.unwrap() + 1) is None
                &&& owner@ == repo@.take(f.unwrap())
                &&& name@ == repo@.skip(f.unwrap() + 1)
            }),
            Err(e) => ({
                let f = crate::strutil::spec_find(repo@, seq!['/'], 0);
                &&& (f is None || crate::strutil::spec_find(
                    repo@,
                    seq!['/'],
                    f.unwrap() + 1,
                ) is Some)
                &&& (e matches crate::error::Error::Config(m) && m@
                    == "Invalid repository format: "@ + repo@ + ". Expected owner/repo"@)
            }),
        },
{
    let rv = crate::strutil::str_chars(repo);
    let mut slash: Vec<char> = Vec::new();
    slash.push('/');
    proof {
        assert(slash@ =~= seq!['/']);
    }
    let first = crate::strutil::find_at(&rv, &slash, 0);
    let ok: Option<(usize, usize)> = match first {
        Some(i) => {
            proof {
                crate::strutil::lemma_spec_find_props(rv@, seq!['/'], 0);
                assert(rv.len() == rv@.len());
            }
            match crate::strutil::find_at(&rv, &slash, i + 1) {
                Some(_) => None,
                None => Some((i, i + 1)),
            }
        },
        None => None,
    };
    match ok {
        Some((i, after)) => {
            let mut owner: Vec<char> = Vec::new();
            let mut k: usize = 0;
            while k < i
                invariant
                    k <= i,
                    i < rv@.len(),
                    owner@ == rv@.subrange(0, k as int),
                decreases i - k,
            {
                owner.push(rv[k]);
                k = k + 1;
                proof {
                    assert(owner@ =~= rv@.subrange(0, k as int));
                }
            }
            let mut name: Vec<char> = Vec::new();
            let mut t: usize = after;
            while t < rv.len()
                invariant
                    after <= t <= rv@.len(),
                    name@ == rv@.subrange(after as int, t as int),
                decreases rv@.len() - t,
            {
                name.push(rv[t]);
                t = t + 1;
                proof {
                    assert(name@ =~= rv@.subrange(after as int, t as int));
                }
            }
            proof {
                assert(owner@ =~= rv@.take(i as int));
                assert(name@ =~= rv@.skip(after as int));
            }
            Ok(
                (
                    crate::strutil::chars_string(&owner),
                    crate::strutil::chars_string(&name),
                ),
            )
        },
        None => {
            let mut msg = crate::strutil::str_chars("Invalid repository format: ");
            crate::strutil::append_str(&mut msg, repo);
            crate::strutil::append_str(&mut msg, ". Expected owner/repo");
            proof {
                assert(msg@ =~= "Invalid repository format: "@ + repo@
                    + ". Expected owner/repo"@);
            }
            Err(crate::error::Error::Config(crate::strutil::chars_string(&msg)))
        },
    }
}

} // verus!
