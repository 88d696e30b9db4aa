//! Data carried by each command's report. Rendering to human text, to
//! s-expressions and to JSON happens outside the library; here stand the
//! values and the escaping rule the machine formats share.

use vstd::prelude::*;

verus! {

/// How a command's report is rendered.
#[derive(Debug, Clone, Copy, PartialEq, Eq, Structural)]
pub enum Format {
    Human,
    Sexp,
    Json,
}

impl Default for Format {
    fn default() -> (r: Self)
        ensures
            r == Format::Human,
    {
        Format::Human
    }
}

/// What one character becomes inside a quoted string.
pub open spec fn escape_char(c: char) -> Seq<char> {
    if c == '\\' {
        seq!['\\', '\\']
    } else if c == '"' {
        seq!['\\', '"']
    } else if c == '\n' {
        seq!['\\', 'n']
    } else if c == '\r' {
        seq!['\\', 'r']
    } else if c == '\t' {
        seq!['\\', 't']
    } else {
        seq![c]
    }
}

/// A string escaped character for character.
pub open spec fn escape_chars(s: Seq<char>) -> Seq<char>
    decreases s.len(),
{
    if s.len() == 0 {
        Seq::empty()
    } else {
        escape_chars(s.drop_last()) + escape_char(s.last())
    }
}

/// Escape backslashes, quotes and control characters for a quoted string.
pub fn escape_string(s: &str) -> (r: String)
    ensures
        r@ == escape_chars(s@),
{
    let chars = crate::strutil::str_chars(s);
    let mut out: Vec<char> = Vec::new();
    let mut i: usize = 0;
    while i < chars.len()
        invariant
            i <= chars@.len(),
            out@ == escape_chars(chars@.subrange(0, i as int)),
        decreases chars@.len() - i,
    {
        let c = chars[i];
        proof {
            assert(chars@.subrange(0, i + 1).drop_last() =~= chars@.subrange(0, i as int));
            assert(chars@.subrange(0, i + 1).last() == chars@[i as int]);
        }
        if c == '\\' {
            out.push('\\');
            out.push('\\');
        } else if c == '"' {
            out.push('\\');
            out.push('"');
        } else if c == '\n' {
            out.push('\\');
            out.push('n');
        } else if c == '\r' {
            out.push('\\');
            out.push('r');
        } else if c == '\t' {
            out.push('\\');
            out.push('t');
        } else {
            out.push(c);
        }
        i = i + 1;
        proof {
            assert(out@ =~= escape_chars(chars@.subrange(0, i as int)));
        }
    }
    proof {
        assert(chars@.subrange(0, chars@.len() as int) =~= chars@);
    }
    crate::strutil::chars_string(&out)
}

/// Report of initialising a document for sync.
#[derive(Debug)]
pub struct InitOutput {
    pub file: String,
    pub repo: String,
    pub initialized: bool,
}

/// Report of a status inspection.
#[derive(Debug)]
pub struct StatusOutput {
    pub file: String,
    pub repo: String,
    pub last_sync: Option<String>,
    pub synced_count: usize,
    pub pending_creates: Vec<String>,
    pub local_changes: Vec<String>,
    pub remote_changes: Vec<String>,
}

/// Report of a push run.
#[derive(Debug)]
pub struct PushOutput {
    pub created: Vec<PushItem>,
    pub updated: Vec<PushItem>,
    pub errors: Vec<String>,
}

/// One record created or updated remotely.
#[derive(Debug)]
pub struct PushItem {
    pub title: String,
    pub issue_number: u64,
    pub url: String,
    pub action: String,
}

/// Report of a pull run.
#[derive(Debug)]
pub struct PullOutput {
    pub pulled: Vec<PullItem>,
    pub conflicts: Vec<Conflict>,
}

/// One heading updated from its record.
#[derive(Debug)]
pub struct PullItem {
    pub issue_number: u64,
    pub title: String,
    pub changes: Vec<String>,
}

/// Report of a bidirectional run.
#[derive(Debug)]
pub struct SyncOutput {
    pub pushed: Vec<PushItem>,
    pub pulled: Vec<PullItem>,
    pub conflicts: Vec<Conflict>,
}

/// One surfaced conflict, with both sides for the caller to report.
#[derive(Debug)]
pub struct Conflict {
    pub issue_number: u64,
    pub field: String,
    pub local: String,
    pub remote: String,
}

/// Report of removing a sync link.
#[derive(Debug)]
pub struct UnlinkOutput {
    pub title: String,
    pub issue_number: u64,
    pub closed: bool,
}

} // verus!
