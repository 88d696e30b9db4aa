//! Data model of the outline document side: headings eligible for sync.

use vstd::prelude::*;
use crate::strutil::{chars_string, str_chars, str_eq, to_upper_vec, upper_chars};

verus! {

/// The workflow state of a heading.
#[derive(Debug, Clone, Copy, PartialEq, Eq, Structural)]
pub enum TodoState {
    Todo,
    Doing,
    Blocked,
    Waiting,
    Done,
    Cancelled,
}

impl TodoState {
    /// Whether this state counts as open on the remote side.
    pub open spec fn spec_is_open(self) -> bool {
        self == TodoState::Todo || self == TodoState::Doing || self == TodoState::Blocked
            || self == TodoState::Waiting
    }

    pub fn is_open(&self) -> (r: bool)
        ensures
            r == self.spec_is_open(),
    {
        match self {
            TodoState::Todo | TodoState::Doing | TodoState::Blocked | TodoState::Waiting => true,
            TodoState::Done | TodoState::Cancelled => false,
        }
    }

    pub fn is_closed(&self) -> (r: bool)
        ensures
            r == !self.spec_is_open(),
    {
        !self.is_open()
    }

    /// The state a keyword denotes, after ASCII upper-case folding.
    pub open spec fn spec_from_keyword(s: Seq<char>) -> Option<TodoState> {
        let u = upper_chars(s);
        if u == "TODO"@ {
            Some(TodoState::Todo)
        } else if u == "DOING"@ {
            Some(TodoState::Doing)
        } else if u == "BLOCKED"@ {
            Some(TodoState::Blocked)
        } else if u == "WAITING"@ {
            Some(TodoState::Waiting)
        } else if u == "DONE"@ {
            Some(TodoState::Done)
        } else if u == "CANCELLED"@ || u == "CANCELED"@ || u == "WONTFIX"@ {
            Some(TodoState::Cancelled)
        } else {
            None
        }
    }

    pub fn from_keyword(keyword: &str) -> (r: Option<TodoState>)
        ensures
            r == TodoState::spec_from_keyword(keyword@),
    {
        let up = chars_string(&to_upper_vec(&str_chars(keyword)));
        if str_eq(up.as_str(), "TODO") {
            Some(TodoState::Todo)
        } else if str_eq(up.as_str(), "DOING") {
            Some(TodoState::Doing)
        } else if str_eq(up.as_str(), "BLOCKED") {
            Some(TodoState::Blocked)
        } else if str_eq(up.as_str(), "WAITING") {
            Some(TodoState::Waiting)
        } else if str_eq(up.as_str(), "DONE") {
            Some(TodoState::Done)
        } else if str_eq(up.as_str(), "CANCELLED") || str_eq(up.as_str(), "CANCELED") || str_eq(
            up.as_str(),
            "WONTFIX",
        ) {
            Some(TodoState::Cancelled)
        } else {
            None
        }
    }

    /// The canonical keyword for a state.
    pub open spec fn spec_keyword(self) -> Seq<char> {
        match self {
            TodoState::Todo => "TODO"@,
            TodoState::Doing => "DOING"@,
            TodoState::Blocked => "BLOCKED"@,
            TodoState::Waiting => "WAITING"@,
            TodoState::Done => "DONE"@,
            TodoState::Cancelled => "CANCELLED"@,
        }
    }

    pub fn to_keyword(&self) -> (r: &'static str)
        ensures
            r@ == self.spec_keyword(),
    {
        match self {
            TodoState::Todo => "TODO",
            TodoState::Doing => "DOING",
            TodoState::Blocked => "BLOCKED",
            TodoState::Waiting => "WAITING",
            TodoState::Done => "DONE",
            TodoState::Cancelled => "CANCELLED",
        }
    }
}

/// Mathematical view of an [`OrgItem`].
pub ghost struct OrgItemV {
    pub id: Seq<char>,
    pub title: Seq<char>,
    pub body: Seq<char>,
    pub state: TodoState,
    pub gh_issue: Option<u64>,
    pub gh_url: Option<Seq<char>>,
    pub assignees: Seq<Seq<char>>,
    pub labels: Seq<Seq<char>>,
    pub created: Option<i64>,
    pub updated: Option<i64>,
    pub span_start: int,
    pub span_end: int,
    pub properties_span: Option<(int, int)>,
}

/// One syncable heading of the outline document.
#[derive(Debug)]
pub struct OrgItem {
    /// Stable identifier: an explicit tag, or the slug of the title.
    pub id: String,
    /// Heading text, without the state keyword.
    pub title: String,
    /// Body text up to the first subheading.
    pub body: String,
    /// Workflow state.
    pub state: TodoState,
    /// Linked remote record number, if any.
    pub gh_issue: Option<u64>,
    /// Display URL of the linked record, if any.
    pub gh_url: Option<String>,
    /// Assignee set.
    pub assignees: Vec<String>,
    /// Label set.
    pub labels: Vec<String>,
    /// Creation timestamp, seconds since the epoch.
    pub created: Option<i64>,
    /// Last update timestamp, seconds since the epoch.
    pub updated: Option<i64>,
    /// Start of the heading's character range in the document.
    pub span_start: usize,
    /// End of the heading's character range in the document.
    pub span_end: usize,
    /// Character range of the property drawer, if present.
    pub properties_span: Option<(usize, usize)>,
}

impl View for OrgItem {
    type V = OrgItemV;

    open spec fn view(&self) -> OrgItemV {
        OrgItemV {
            id: self.id@,
            title: self.title@,
            body: self.body@,
            state: self.state,
            gh_issue: self.gh_issue,
            gh_url: match self.gh_url {
                Some(u) => Some(u@),
                None => None,
            },
            assignees: self.assignees.deep_view(),
            labels: self.labels.deep_view(),
            created: self.created,
            updated: self.updated,
            span_start: self.span_start as int,
            span_end: self.span_end as int,
            properties_span: match self.properties_span {
                Some((a, b)) => Some((a as int, b as int)),
                None => None,
            },
        }
    }
}

impl DeepView for OrgItem {
    type V = OrgItemV;

    open spec fn deep_view(&self) -> OrgItemV {
        self.view()
    }
}

/// Copy a vector of strings, element for element.
pub fn clone_string_vec(v: &Vec<String>) -> (r: Vec<String>)
    ensures
        r@ == v@,
{
    let mut r: Vec<String> = Vec::new();
    let mut i: usize = 0;
    while i < v.len()
        invariant
            i <= v.len(),
            r@ == v@.subrange(0, i as int),
        decreases v.len() - i,
    {
        r.push(v[i].clone());
        i = i + 1;
        proof {
            assert(r@ =~= v@.subrange(0, i as int));
        }
    }
    proof {
        assert(r@ =~= v@);
    }
    r
}

/// Copy an optional string.
pub fn clone_opt_string(v: &Option<String>) -> (r: Option<String>)
    ensures
        r == *v,
{
    match v {
        Some(s) => Some(s.clone()),
        None => None,
    }
}

impl Clone for OrgItem {
    fn clone(&self) -> (r: Self)
        ensures
            r@ == self@,
    {
        OrgItem {
            id: self.id.clone(),
            title: self.title.clone(),
            body: self.body.clone(),
            state: self.state,
            gh_issue: self.gh_issue,
            gh_url: clone_opt_string(&self.gh_url),
            assignees: clone_string_vec(&self.assignees),
            labels: clone_string_vec(&self.labels),
            created: self.created,
            updated: self.updated,
            span_start: self.span_start,
            span_end: self.span_end,
            properties_span: self.properties_span,
        }
    }
}

/// A parsed outline document with its syncable headings.
#[derive(Debug)]
pub struct OrgFile {
    /// Path of the document.
    pub path: String,
    /// Target remote collection, from the file header.
    pub repo: Option<String>,
    /// Raw document content, kept for writing back.
    pub content: String,
    /// The syncable headings, in document order.
    pub items: Vec<OrgItem>,
}

/// Derive the stable slug of a title: ASCII letters and digits are kept
/// (upper case folded to lower), every other character separates; runs of
/// separators collapse and outer separators are dropped.
pub open spec fn is_slug_char(c: char) -> bool {
    ('a' as u32 <= c as u32 && c as u32 <= 'z' as u32) || ('0' as u32 <= c as u32 && c as u32
        <= '9' as u32)
}

/// The slug of a lower-cased title, defined right to left.
pub open spec fn slug_of(s: Seq<char>) -> Seq<char>
    decreases s.len(),
{
    if s.len() == 0 {
        Seq::empty()
    } else {
        let rest = slug_of(s.drop_last());
        let c = s.last();
        if is_slug_char(c) {
            rest.push(c)
        } else {
            if rest.len() == 0 || rest.last() == '-' {
                rest
            } else {
                rest.push('-')
            }
        }
    }
}

/// Strip one trailing separator, if present.
pub open spec fn strip_tail_dash(s: Seq<char>) -> Seq<char> {
    if s.len() > 0 && s.last() == '-' {
        s.drop_last()
    } else {
        s
    }
}

/// Convert a title to a stable, URL-safe slug.
pub fn slugify(title: &str) -> (r: String)
    ensures
        r@ == strip_tail_dash(slug_of(crate::strutil::lower_chars(title@))),
{
    let chars = str_chars(title);
    let mut out: Vec<char> = Vec::new();
    let mut i: usize = 0;
    while i < chars.len()
        invariant
            i <= chars.len(),
            out@ == slug_of(crate::strutil::lower_chars(chars@).subrange(0, i as int)),
        decreases chars.len() - i,
    {
        let c = chars[i];
        let lc: char = if 65 <= c as u32 && c as u32 <= 90 {
            (((c as u32) + 32) as u8) as char
        } else {
            c
        };
        proof {
            assert(crate::strutil::lower_chars(chars@).subrange(0, i + 1).drop_last()
                =~= crate::strutil::lower_chars(chars@).subrange(0, i as int));
            assert(crate::strutil::lower_chars(chars@).subrange(0, i + 1).last()
                == crate::strutil::lower_char(chars@[i as int]));
        }
        let is_alnum = (97 <= lc as u32 && lc as u32 <= 122) || (48 <= lc as u32 && lc as u32
            <= 57);
        if is_alnum {
            out.push(lc);
        } else {
            let n = out.len();
            if n > 0 && out[n - 1] != '-' {
                out.push('-');
            }
        }
        i = i + 1;
    }
    proof {
        assert(crate::strutil::lower_chars(chars@).subrange(
            0,
            chars@.len() as int,
        ) =~= crate::strutil::lower_chars(chars@));
    }
    let n = out.len();
    if n > 0 {
        if out[n - 1] == '-' {
            let _ = out.pop();
        }
    }
    chars_string(&out)
}

} // verus!
