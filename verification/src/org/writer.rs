//! Textual edits on the outline document: property drawers, state
//! keywords, and log entries. Every function rewrites the given content
//! and returns the new text; nothing here touches storage.
//!
//! Lines are separated by `'\n'`; a `'\r'` before a separator is dropped,
//! as the surrounding tooling writes it. Whitespace means ASCII blanks.

use vstd::prelude::*;
use crate::org::model::OrgItem;
use crate::strutil::{
    append_chars, append_str, chars_string, find_at, spec_find, str_chars, to_upper_vec,
    upper_chars,
};

verus! {

/// ASCII whitespace.
pub open spec fn is_ws(c: char) -> bool {
    c == ' ' || c == '\t' || c == '\r' || c == '\n'
}

/// Leading whitespace removed.
pub open spec fn trim_start(s: Seq<char>) -> Seq<char>
    decreases s.len(),
{
    if s.len() > 0 && is_ws(s[0]) {
        trim_start(s.skip(1))
    } else {
        s
    }
}

/// Trailing whitespace removed.
pub open spec fn trim_end(s: Seq<char>) -> Seq<char>
    decreases s.len(),
{
    if s.len() > 0 && is_ws(s.last()) {
        trim_end(s.drop_last())
    } else {
        s
    }
}

/// Whitespace removed on both sides.
pub open spec fn spec_trim(s: Seq<char>) -> Seq<char> {
    trim_end(trim_start(s))
}

proof fn lemma_trim_start_at(s: Seq<char>, a: int)
    requires
        0 <= a <= s.len(),
        forall|j: int| 0 <= j < a ==> is_ws(#[trigger] s[j]),
        a < s.len() ==> !is_ws(s[a]),
    ensures
        trim_start(s) == s.skip(a),
    decreases a,
{
    if a == 0 {
        assert(s.skip(0) =~= s);
    } else {
        assert(is_ws(s[0]));
        lemma_trim_start_at(s.skip(1), a - 1);
        assert(s.skip(1).skip(a - 1) =~= s.skip(a));
    }
}

proof fn lemma_trim_end_at(s: Seq<char>, b: int)
    requires
        0 <= b <= s.len(),
        forall|j: int| b <= j < s.len() ==> is_ws(#[trigger] s[j]),
        b > 0 ==> !is_ws(s[b - 1]),
    ensures
        trim_end(s) == s.take(b),
    decreases s.len() - b,
{
    if b == s.len() {
        assert(s.take(b) =~= s);
    } else {
        assert(is_ws(s.last()));
        lemma_trim_end_at(s.drop_last(), b);
        assert(s.drop_last().take(b) =~= s.take(b));
    }
}

/// Trim a character vector on both sides.
pub fn trim_chars(v: &Vec<char>) -> (r: Vec<char>)
    ensures
        r@ == spec_trim(v@),
{
    let n = v.len();
    let mut a: usize = 0;
    while a < n && (v[a] == ' ' || v[a] == '\t' || v[a] == '\r' || v[a] == '\n')
        invariant
            a <= n,
            n == v@.len(),
            forall|j: int| 0 <= j < a ==> is_ws(#[trigger] v@[j]),
        decreases n - a,
    {
        a = a + 1;
    }
    proof {
        lemma_trim_start_at(v@, a as int);
    }
    let mut b: usize = n;
    while b > a && (v[b - 1] == ' ' || v[b - 1] == '\t' || v[b - 1] == '\r' || v[b - 1] == '\n')
        invariant
            a <= b <= n,
            n == v@.len(),
            trim_start(v@) == v@.skip(a as int),
            forall|j: int| b <= j < n ==> is_ws(#[trigger] v@[j]),
        decreases b,
    {
        b = b - 1;
    }
    let mut r: Vec<char> = Vec::new();
    let mut i: usize = a;
    while i < b
        invariant
            a <= i <= b <= n,
            n == v@.len(),
            r@ == v@.subrange(a as int, i as int),
        decreases b - i,
    {
        r.push(v[i]);
        i = i + 1;
        proof {
            assert(r@ =~= v@.subrange(a as int, i as int));
        }
    }
    proof {
        let t = v@.skip(a as int);
        assert forall|j: int| (b - a) <= j < t.len() implies is_ws(#[trigger] t[j]) by {
            assert(t[j] == v@[a + j]);
        }
        if b > a {
            assert(t[b - a - 1] == v@[b - 1]);
        }
        lemma_trim_end_at(t, b - a);
        assert(r@ =~= t.take(b - a));
    }
    r
}

/// Whether `p` begins `s`.
pub open spec fn starts_with(s: Seq<char>, p: Seq<char>) -> bool {
    p.len() <= s.len() && s.take(p.len() as int) == p
}

/// Test a prefix.
pub fn has_prefix(v: &Vec<char>, p: &Vec<char>) -> (r: bool)
    ensures
        r == starts_with(v@, p@),
{
    if p.len() > v.len() {
        return false;
    }
    let mut i: usize = 0;
    while i < p.len()
        invariant
            i <= p@.len(),
            p@.len() <= v@.len(),
            forall|j: int| 0 <= j < i ==> v@[j] == p@[j],
        decreases p@.len() - i,
    {
        if v[i] != p[i] {
            proof {
                assert(v@.take(p@.len() as int) != p@) by {
                    if v@.take(p@.len() as int) == p@ {
                        assert(v@.take(p@.len() as int)[i as int] == v@[i as int]);
                    }
                }
            }
            return false;
        }
        i = i + 1;
    }
    proof {
        assert(v@.take(p@.len() as int) =~= p@);
    }
    true
}

/// The segments of a text split at every separator, oldest first; the
/// text after the last separator is the last segment.
pub open spec fn raw_split(s: Seq<char>) -> Seq<Seq<char>>
    decreases s.len(),
{
    if s.len() == 0 {
        seq![Seq::empty()]
    } else if s.last() == '\n' {
        raw_split(s.drop_last()).push(Seq::empty())
    } else {
        let r = raw_split(s.drop_last());
        r.update(r.len() - 1, r.last().push(s.last()))
    }
}

/// One carriage return stripped from a segment's end.
pub open spec fn strip_cr(l: Seq<char>) -> Seq<char> {
    if l.len() > 0 && l.last() == '\r' {
        l.drop_last()
    } else {
        l
    }
}

/// The lines of a text: segments before a separator lose one trailing
/// carriage return; an empty final segment is no line.
pub open spec fn lines_of(s: Seq<char>) -> Seq<Seq<char>> {
    let r = raw_split(s);
    let r2 = Seq::new(
        r.len(),
        |i: int|
            if i < r.len() - 1 {
                strip_cr(r[i])
            } else {
                r[i]
            },
    );
    if r2.last().len() == 0 {
        r2.drop_last()
    } else {
        r2
    }
}

/// Split a text into its lines.
pub fn split_lines(v: &Vec<char>) -> (r: Vec<Vec<char>>)
    ensures
        r.deep_view() == lines_of(v@),
{
    let mut segs: Vec<Vec<char>> = Vec::new();
    let mut cur: Vec<char> = Vec::new();
    let ghost mut raws: Seq<Seq<char>> = Seq::empty();
    let mut i: usize = 0;
    proof {
        assert(raw_split(v@.take(0)) =~= raws.push(cur@)) by {
            assert(v@.take(0) =~= Seq::<char>::empty());
        }
    }
    while i < v.len()
        invariant
            i <= v@.len(),
            raw_split(v@.take(i as int)) == raws.push(cur@),
            segs.deep_view().len() == raws.len(),
            forall|j: int| 0 <= j < raws.len() ==> segs.deep_view()[j] == strip_cr(
                #[trigger] raws[j],
            ),
        decreases v@.len() - i,
    {
        let c = v[i];
        proof {
            assert(v@.take(i + 1).drop_last() =~= v@.take(i as int));
            assert(v@.take(i + 1).last() == v@[i as int]);
        }
        if c == '\n' {
            let mut done = cur;
            let ghost done_raw = done@;
            if done.len() > 0 {
                if done[done.len() - 1] == '\r' {
                    let _ = done.pop();
                }
            }
            proof {
                assert(done@ == strip_cr(done_raw));
            }
            segs.push(done);
            cur = Vec::new();
            proof {
                raws = raws.push(done_raw);
                assert(raw_split(v@.take(i + 1)) =~= raws.push(cur@));
                assert forall|j: int| 0 <= j < raws.len() implies segs.deep_view()[j]
                    == strip_cr(#[trigger] raws[j]) by {
                    if j < raws.len() - 1 {
                        assert(segs.deep_view()[j] == segs.deep_view().drop_last()[j]);
                    }
                }
            }
        } else {
            cur.push(c);
            proof {
                let r = raw_split(v@.take(i as int));
                assert(raw_split(v@.take(i + 1)) =~= r.update(r.len() - 1, r.last().push(
                    v@[i as int],
                )));
                assert(raw_split(v@.take(i + 1)) =~= raws.push(cur@));
            }
        }
        i = i + 1;
    }
    proof {
        assert(v@.take(v@.len() as int) =~= v@);
    }
    if cur.len() > 0 {
        segs.push(cur);
        proof {
            let r = raw_split(v@);
            let r2 = Seq::new(
                r.len(),
                |j: int|
                    if j < r.len() - 1 {
                        strip_cr(r[j])
                    } else {
                        r[j]
                    },
            );
            assert(r2.last().len() != 0);
            assert(segs.deep_view() =~= lines_of(v@)) by {
                assert forall|j: int| 0 <= j < segs.deep_view().len() implies
                    segs.deep_view()[j] == r2[j] by {
                    if j < raws.len() {
                        assert(r[j] == raws[j]);
                    }
                }
            }
        }
    } else {
        proof {
            let r = raw_split(v@);
            let r2 = Seq::new(
                r.len(),
                |j: int|
                    if j < r.len() - 1 {
                        strip_cr(r[j])
                    } else {
                        r[j]
                    },
            );
            assert(r2.last().len() == 0);
            assert(segs.deep_view() =~= lines_of(v@)) by {
                assert forall|j: int| 0 <= j < segs.deep_view().len() implies
                    segs.deep_view()[j] == r2[j] by {
                    assert(r[j] == raws[j]);
                }
            }
        }
    }
    segs
}

/// Lines joined with one separator between them.
pub open spec fn join_nl(ls: Seq<Seq<char>>) -> Seq<char>
    decreases ls.len(),
{
    if ls.len() == 0 {
        Seq::empty()
    } else if ls.len() == 1 {
        ls[0]
    } else {
        join_nl(ls.drop_last()) + seq!['\n'] + ls.last()
    }
}

/// Join lines with separators.
pub fn join_lines(ls: &Vec<Vec<char>>) -> (r: Vec<char>)
    ensures
        r@ == join_nl(ls.deep_view()),
{
    let mut r: Vec<char> = Vec::new();
    let mut i: usize = 0;
    while i < ls.len()
        invariant
            i <= ls@.len(),
            ls.deep_view().len() == ls@.len(),
            r@ == join_nl(ls.deep_view().take(i as int)),
        decreases ls@.len() - i,
    {
        if i > 0 {
            r.push('\n');
        }
        append_chars(&mut r, &ls[i]);
        i = i + 1;
        proof {
            assert(ls.deep_view().take(i as int).drop_last() =~= ls.deep_view().take(i - 1));
            assert(ls.deep_view().take(i as int).last() == ls.deep_view()[i - 1]);
            assert(r@ =~= join_nl(ls.deep_view().take(i as int)));
        }
    }
    proof {
        assert(ls.deep_view().take(ls.deep_view().len() as int) =~= ls.deep_view());
    }
    r
}

/// Equality of two character vectors.
pub fn chars_eq(a: &Vec<char>, b: &Vec<char>) -> (r: bool)
    ensures
        r == (a@ == b@),
{
    if a.len() != b.len() {
        proof {
            assert(a@ != b@) by {
                if a@ == b@ {
                    assert(a@.len() == b@.len());
                }
            }
        }
        return false;
    }
    let mut i: usize = 0;
    while i < a.len()
        invariant
            i <= a@.len(),
            a@.len() == b@.len(),
            forall|j: int| 0 <= j < i ==> a@[j] == b@[j],
        decreases a@.len() - i,
    {
        if a[i] != b[i] {
            return false;
        }
        i = i + 1;
    }
    proof {
        assert(a@ =~= b@);
    }
    true
}

/// Copy a range of a character vector.
pub fn sub_chars(v: &Vec<char>, a: usize, b: usize) -> (r: Vec<char>)
    requires
        a <= b <= v@.len(),
    ensures
        r@ == v@.subrange(a as int, b as int),
{
    let mut r: Vec<char> = Vec::new();
    let mut i: usize = a;
    while i < b
        invariant
            a <= i <= b <= v@.len(),
            r@ == v@.subrange(a as int, i as int),
        decreases b - i,
    {
        r.push(v[i]);
        i = i + 1;
        proof {
            assert(r@ =~= v@.subrange(a as int, i as int));
        }
    }
    r
}

/// The property key of a drawer line: what stands between the leading
/// colon of the trimmed line and the next colon.
pub open spec fn line_key(l: Seq<char>) -> Option<Seq<char>> {
    let t = spec_trim(l);
    if t.len() > 0 && t[0] == ':' {
        match spec_find(t, seq![':'], 1) {
            Some(a) => Some(t.subrange(1, a)),
            None => None,
        }
    } else {
        None
    }
}

/// A drawer line carrying the given upper-cased key, the drawer fence
/// excluded.
pub open spec fn is_key_line_loose(l: Seq<char>, key_u: Seq<char>) -> bool {
    let t = spec_trim(l);
    &&& t.len() > 0
    &&& t[0] == ':'
    &&& !starts_with(t, ":END:"@)
    &&& match line_key(l) {
        Some(k) => upper_chars(k) == key_u,
        None => false,
    }
}

/// As above, with the drawer opening also excluded: only these lines are
/// rewritten.
pub open spec fn is_key_line(l: Seq<char>, key_u: Seq<char>) -> bool {
    is_key_line_loose(l, key_u) && !starts_with(spec_trim(l), ":PROPERTIES:"@)
}

/// Whether any line carries the key.
pub open spec fn has_key_line(ls: Seq<Seq<char>>, key_u: Seq<char>) -> bool {
    exists|i: int| 0 <= i < ls.len() && is_key_line_loose(#[trigger] ls[i], key_u)
}

/// A freshly rendered property line.
pub open spec fn prop_line(key_u: Seq<char>, value: Seq<char>) -> Seq<char> {
    seq![':'] + key_u + seq![':', ' '] + value
}

/// What one line of the drawer becomes: a key line is replaced, the
/// closing fence has the new property put before it when the key was
/// absent, anything else stays.
pub open spec fn line_out(
    l: Seq<char>,
    key_u: Seq<char>,
    value: Seq<char>,
    found: bool,
) -> Seq<Seq<char>> {
    if is_key_line(l, key_u) {
        seq![prop_line(key_u, value)]
    } else if spec_trim(l) == ":END:"@ && !found {
        seq![prop_line(key_u, value), l]
    } else {
        seq![l]
    }
}

pub open spec fn upd_lines(
    ls: Seq<Seq<char>>,
    key_u: Seq<char>,
    value: Seq<char>,
    found: bool,
) -> Seq<Seq<char>>
    decreases ls.len(),
{
    if ls.len() == 0 {
        Seq::empty()
    } else {
        upd_lines(ls.drop_last(), key_u, value, found) + line_out(ls.last(), key_u, value, found)
    }
}

/// The drawer with the property set: line by line, joined back.
pub open spec fn upd_drawer(d: Seq<char>, key: Seq<char>, value: Seq<char>) -> Seq<char> {
    let key_u = upper_chars(key);
    let ls = lines_of(d);
    join_nl(upd_lines(ls, key_u, value, has_key_line(ls, key_u)))
}

/// Whether a line carries the key, fences excluded as the first pass of
/// the rewrite sees them.
fn key_line_loose(l: &Vec<char>, key_u: &Vec<char>) -> (r: bool)
    ensures
        r == is_key_line_loose(l@, key_u@),
{
    let t = trim_chars(l);
    if t.len() == 0 {
        return false;
    }
    if t[0] != ':' {
        return false;
    }
    let end_pat = str_chars(":END:");
    if has_prefix(&t, &end_pat) {
        return false;
    }
    let mut colon: Vec<char> = Vec::new();
    colon.push(':');
    proof {
        assert(colon@ =~= seq![':']);
    }
    let r = find_at(&t, &colon, 1);
    proof {
        crate::strutil::lemma_spec_find_props(t@, seq![':'], 1);
    }
    match r {
        Some(a) => {
            let k = sub_chars(&t, 1, a);
            let ku = to_upper_vec(&k);
            chars_eq(&ku, key_u)
        },
        None => false,
    }
}

/// Whether a line is rewritten for the key.
fn key_line(l: &Vec<char>, key_u: &Vec<char>) -> (r: bool)
    ensures
        r == is_key_line(l@, key_u@),
{
    if !key_line_loose(l, key_u) {
        return false;
    }
    let t = trim_chars(l);
    let props_pat = str_chars(":PROPERTIES:");
    !has_prefix(&t, &props_pat)
}

/// Render the property line.
fn make_prop_line(key_u: &Vec<char>, value: &str) -> (r: Vec<char>)
    ensures
        r@ == prop_line(key_u@, value@),
{
    let mut r: Vec<char> = Vec::new();
    r.push(':');
    append_chars(&mut r, key_u);
    r.push(':');
    r.push(' ');
    append_str(&mut r, value);
    proof {
        assert(r@ =~= prop_line(key_u@, value@));
    }
    r
}

/// Update or add a property within an existing drawer: an existing line
/// with the key is replaced in place, otherwise the property goes in
/// right before the closing fence.
pub fn update_property_in_drawer(drawer: &str, key: &str, value: &str) -> (r: String)
    ensures
        r@ == upd_drawer(drawer@, key@, value@),
{
    let dv = str_chars(drawer);
    let key_u = to_upper_vec(&str_chars(key));
    let lines = split_lines(&dv);
    let mut found = false;
    let mut i: usize = 0;
    while i < lines.len()
        invariant
            i <= lines@.len(),
            lines.deep_view().len() == lines@.len(),
            found == has_key_line(lines.deep_view().take(i as int), key_u@),
        decreases lines@.len() - i,
    {
        proof {
            assert(lines.deep_view().take(i + 1)[i as int] == lines.deep_view()[i as int]);
            assert(lines.deep_view()[i as int] =~= lines@[i as int]@);
        }
        if key_line_loose(&lines[i], &key_u) {
            found = true;
        }
        i = i + 1;
        proof {
            if found {
                assert(has_key_line(lines.deep_view().take(i as int), key_u@)) by {
                    if !is_key_line_loose(lines.deep_view()[i - 1], key_u@) {
                        let w = choose|w: int|
                            0 <= w < i - 1 && is_key_line_loose(
                                #[trigger] lines.deep_view().take(i - 1)[w],
                                key_u@,
                            );
                        assert(is_key_line_loose(lines.deep_view().take(i as int)[w], key_u@));
                    } else {
                        assert(is_key_line_loose(
                            lines.deep_view().take(i as int)[i - 1],
                            key_u@,
                        ));
                    }
                }
            } else {
                assert(!has_key_line(lines.deep_view().take(i as int), key_u@)) by {
                    if has_key_line(lines.deep_view().take(i as int), key_u@) {
                        let w = choose|w: int|
                            0 <= w < i && is_key_line_loose(
                                #[trigger] lines.deep_view().take(i as int)[w],
                                key_u@,
                            );
                        if w < i - 1 {
                            assert(is_key_line_loose(
                                lines.deep_view().take(i - 1)[w],
                                key_u@,
                            ));
                        }
                    }
                }
            }
        }
    }
    proof {
        assert(lines.deep_view().take(lines.deep_view().len() as int) =~= lines.deep_view());
    }
    let mut out: Vec<Vec<char>> = Vec::new();
    let end_pat = str_chars(":END:");
    let mut j: usize = 0;
    while j < lines.len()
        invariant
            j <= lines@.len(),
            lines.deep_view().len() == lines@.len(),
            found == has_key_line(lines.deep_view(), key_u@),
            key_u@ == upper_chars(key@),
            end_pat@ == ":END:"@,
            out.deep_view() == upd_lines(
                lines.deep_view().take(j as int),
                key_u@,
                value@,
                found,
            ),
        decreases lines@.len() - j,
    {
        proof {
            assert(lines.deep_view().take(j + 1).drop_last() =~= lines.deep_view().take(
                j as int,
            ));
            assert(lines.deep_view().take(j + 1).last() == lines.deep_view()[j as int]);
            assert(lines.deep_view()[j as int] =~= lines@[j as int]@);
        }
        let ghost prevout = out.deep_view();
        let ghost lo = line_out(lines.deep_view()[j as int], key_u@, value@, found);
        if key_line(&lines[j], &key_u) {
            let p = make_prop_line(&key_u, value);
            proof {
                assert(p.deep_view() =~= prop_line(key_u@, value@));
            }
            out.push(p);
            proof {
                assert(out.deep_view() =~~= prevout + lo);
            }
        } else {
            let t = trim_chars(&lines[j]);
            if !found && chars_eq(&t, &end_pat) {
                let p = make_prop_line(&key_u, value);
                proof {
                    assert(p.deep_view() =~= prop_line(key_u@, value@));
                }
                out.push(p);
                let l = sub_chars(&lines[j], 0, lines[j].len());
                proof {
                    assert(l.deep_view() =~= lines.deep_view()[j as int]);
                }
                out.push(l);
                proof {
                    assert(out.deep_view() =~~= prevout + lo);
                }
            } else {
                let l = sub_chars(&lines[j], 0, lines[j].len());
                proof {
                    assert(l.deep_view() =~= lines.deep_view()[j as int]);
                }
                out.push(l);
                proof {
                    assert(out.deep_view() =~~= prevout + lo);
                }
            }
        }
        j = j + 1;
        proof {
            assert(out.deep_view() =~~= upd_lines(
                lines.deep_view().take(j as int),
                key_u@,
                value@,
                found,
            ));
        }
    }
    proof {
        assert(lines.deep_view().take(lines.deep_view().len() as int) =~= lines.deep_view());
    }
    let joined = join_lines(&out);
    chars_string(&joined)
}

/// The drawer lines with every line carrying the key removed.
pub open spec fn remove_lines(ls: Seq<Seq<char>>, key_u: Seq<char>) -> Seq<Seq<char>>
    decreases ls.len(),
{
    if ls.len() == 0 {
        Seq::empty()
    } else {
        remove_lines(ls.drop_last(), key_u) + (if is_key_line(ls.last(), key_u) {
            Seq::empty()
        } else {
            seq![ls.last()]
        })
    }
}

/// What removing a property from the content yields.
pub open spec fn spec_remove_property(
    c: Seq<char>,
    item: crate::org::model::OrgItemV,
    key: Seq<char>,
) -> Seq<char> {
    match item.properties_span {
        Some((a, b)) => c.take(a) + join_nl(
            remove_lines(lines_of(c.subrange(a, b)), upper_chars(key)),
        ) + c.skip(b),
        None => c,
    }
}

/// Remove a property from an item's drawer; without a drawer nothing
/// changes.
pub fn remove_property(content: &str, item: &OrgItem, key: &str) -> (r: String)
    requires
        match item@.properties_span {
            Some((a, b)) => 0 <= a <= b <= content@.len(),
            None => true,
        },
    ensures
        r@ == spec_remove_property(content@, item@, key@),
{
    match item.properties_span {
        Some((a, b)) => {
            let cv = str_chars(content);
            let key_u = to_upper_vec(&str_chars(key));
            let drawer = sub_chars(&cv, a, b);
            let lines = split_lines(&drawer);
            let mut out: Vec<Vec<char>> = Vec::new();
            let mut j: usize = 0;
            proof {
                assert(out.deep_view() =~= remove_lines(
                    lines.deep_view().take(0),
                    key_u@,
                )) by {
                    assert(lines.deep_view().take(0) =~= Seq::<Seq<char>>::empty());
                }
            }
            while j < lines.len()
                invariant
                    j <= lines@.len(),
                    lines.deep_view().len() == lines@.len(),
                    key_u@ == upper_chars(key@),
                    out.deep_view() == remove_lines(lines.deep_view().take(j as int), key_u@),
                decreases lines@.len() - j,
            {
                proof {
                    assert(lines.deep_view().take(j + 1).drop_last()
                        =~= lines.deep_view().take(j as int));
                    assert(lines.deep_view().take(j + 1).last()
                        == lines.deep_view()[j as int]);
                    assert(lines.deep_view()[j as int] =~= lines@[j as int]@);
                }
                let ghost prevout = out.deep_view();
                if !key_line(&lines[j], &key_u) {
                    let l = sub_chars(&lines[j], 0, lines[j].len());
                    proof {
                        assert(l.deep_view() =~= lines.deep_view()[j as int]);
                    }
                    out.push(l);
                    proof {
                        assert(out.deep_view() =~~= prevout + seq![
                            lines.deep_view()[j as int],
                        ]);
                    }
                }
                j = j + 1;
                proof {
                    assert(out.deep_view() =~~= remove_lines(
                        lines.deep_view().take(j as int),
                        key_u@,
                    ));
                }
            }
            proof {
                assert(lines.deep_view().take(lines.deep_view().len() as int)
                    =~= lines.deep_view());
            }
            let joined = join_lines(&out);
            let mut result = sub_chars(&cv, 0, a);
            append_chars(&mut result, &joined);
            let tail = sub_chars(&cv, b, cv.len());
            append_chars(&mut result, &tail);
            proof {
                assert(result@ =~= spec_remove_property(content@, item@, key@));
            }
            chars_string(&result)
        },
        None => content.to_owned(),
    }
}

/// The fresh drawer put right after the headline line.
pub open spec fn spec_insert_drawer(
    c: Seq<char>,
    item: crate::org::model::OrgItemV,
    key: Seq<char>,
    value: Seq<char>,
) -> Seq<char> {
    let he = match spec_find(c, seq!['\n'], item.span_start) {
        Some(i) => i,
        None => c.len() as int,
    };
    c.take(he) + "\n:PROPERTIES:\n:"@ + upper_chars(key) + ": "@ + value + "\n:END:"@ + c.skip(
        he,
    )
}

/// What setting a property on the content yields: an existing drawer is
/// rewritten, otherwise a fresh one is inserted after the headline.
pub open spec fn spec_set_property(
    c: Seq<char>,
    item: crate::org::model::OrgItemV,
    key: Seq<char>,
    value: Seq<char>,
) -> Seq<char> {
    match item.properties_span {
        Some((a, b)) => c.take(a) + upd_drawer(c.subrange(a, b), key, value) + c.skip(b),
        None => spec_insert_drawer(c, item, key, value),
    }
}

/// Set a property in an item's drawer, creating the drawer if the item
/// carries none.
pub fn set_property(content: &str, item: &OrgItem, key: &str, value: &str) -> (r: String)
    requires
        match item@.properties_span {
            Some((a, b)) => 0 <= a <= b <= content@.len(),
            None => item@.span_start <= content@.len(),
        },
    ensures
        r@ == spec_set_property(content@, item@, key@, value@),
{
    match item.properties_span {
        Some((a, b)) => {
            let cv = str_chars(content);
            let drawer = sub_chars(&cv, a, b);
            let new_drawer = update_property_in_drawer(
                chars_string(&drawer).as_str(),
                key,
                value,
            );
            let mut result = sub_chars(&cv, 0, a);
            append_str(&mut result, new_drawer.as_str());
            let tail = sub_chars(&cv, b, cv.len());
            append_chars(&mut result, &tail);
            proof {
                assert(result@ =~= spec_set_property(content@, item@, key@, value@));
            }
            chars_string(&result)
        },
        None => insert_property_drawer(content, item, key, value),
    }
}

/// Insert a new property drawer right after the item's headline line.
pub fn insert_property_drawer(content: &str, item: &OrgItem, key: &str, value: &str) -> (r:
    String)
    requires
        item@.span_start <= content@.len(),
    ensures
        r@ == spec_insert_drawer(content@, item@, key@, value@),
{
    let cv = str_chars(content);
    let mut nl: Vec<char> = Vec::new();
    nl.push('\n');
    proof {
        assert(nl@ =~= seq!['\n']);
    }
    let he: usize = match find_at(&cv, &nl, item.span_start) {
        Some(i) => i,
        None => cv.len(),
    };
    proof {
        crate::strutil::lemma_spec_find_props(cv@, seq!['\n'], item.span_start as int);
    }
    let key_u = to_upper_vec(&str_chars(key));
    let mut result = sub_chars(&cv, 0, he);
    append_str(&mut result, "\n:PROPERTIES:\n:");
    append_chars(&mut result, &key_u);
    append_str(&mut result, ": ");
    append_str(&mut result, value);
    append_str(&mut result, "\n:END:");
    let tail = sub_chars(&cv, he, cv.len());
    append_chars(&mut result, &tail);
    proof {
        assert(result@ =~= spec_insert_drawer(content@, item@, key@, value@));
    }
    chars_string(&result)
}

/// What setting the state keyword yields: the first occurrence of the old
/// keyword on the headline line is replaced; without one, nothing changes.
pub open spec fn spec_set_todo_state(
    c: Seq<char>,
    item: crate::org::model::OrgItemV,
    new_state: Seq<char>,
) -> Seq<char> {
    let hstart = item.span_start;
    let hend = match spec_find(c, seq!['\n'], hstart) {
        Some(i) => i,
        None => c.len() as int,
    };
    let kw = item.state.spec_keyword();
    match spec_find(c.subrange(hstart, hend), kw, 0) {
        Some(p) => c.take(hstart + p) + new_state + c.skip(hstart + p + kw.len()),
        None => c,
    }
}

/// Replace the state keyword on the item's headline.
pub fn set_todo_state(content: &str, item: &OrgItem, new_state: &str) -> (r: String)
    requires
        item@.span_start <= content@.len(),
    ensures
        r@ == spec_set_todo_state(content@, item@, new_state@),
{
    let cv = str_chars(content);
    let mut nl: Vec<char> = Vec::new();
    nl.push('\n');
    proof {
        assert(nl@ =~= seq!['\n']);
    }
    let he: usize = match find_at(&cv, &nl, item.span_start) {
        Some(i) => i,
        None => cv.len(),
    };
    proof {
        crate::strutil::lemma_spec_find_props(cv@, seq!['\n'], item.span_start as int);
    }
    let headline = sub_chars(&cv, item.span_start, he);
    let kw = str_chars(item.state.to_keyword());
    match find_at(&headline, &kw, 0) {
        Some(p) => {
            proof {
                crate::strutil::lemma_spec_find_props(headline@, kw@, 0);
            }
            let mut result = sub_chars(&cv, 0, item.span_start + p);
            append_str(&mut result, new_state);
            let tail = sub_chars(&cv, item.span_start + p + kw.len(), cv.len());
            append_chars(&mut result, &tail);
            proof {
                assert(result@ =~= spec_set_todo_state(content@, item@, new_state@));
            }
            chars_string(&result)
        },
        None => content.to_owned(),
    }
}

/// What appending a log entry yields: into an existing log drawer right
/// before its closing fence, otherwise a fresh log drawer after the
/// property drawer or the headline.
pub open spec fn spec_append_to_logbook(
    c: Seq<char>,
    item: crate::org::model::OrgItemV,
    entry: Seq<char>,
) -> Seq<char> {
    let section_start = match item.properties_span {
        Some((_a, b)) => b,
        None => item.span_start,
    };
    let hi = if item.span_end < c.len() {
        item.span_end
    } else {
        c.len() as int
    };
    let found_end = match spec_find(c.subrange(section_start, hi), ":LOGBOOK:"@, 0) {
        Some(lb) => spec_find(c, ":END:"@, section_start + lb),
        None => None,
    };
    match found_end {
        Some(ep) => c.take(ep) + entry + seq!['\n'] + c.skip(ep),
        None => {
            let ip = match item.properties_span {
                Some((_a, b)) => b,
                None => match spec_find(c, seq!['\n'], item.span_start) {
                    Some(i) => i + 1,
                    None => item.span_end,
                },
            };
            c.take(ip) + ":LOGBOOK:\n"@ + entry + "\n:END:\n"@ + c.skip(ip)
        },
    }
}

/// Append an entry to the item's log drawer, creating the drawer if none
/// is there.
pub fn append_to_logbook(content: &str, item: &OrgItem, entry: &str) -> (r: String)
    requires
        item@.span_start <= item@.span_end,
        item@.span_end <= content@.len(),
        match item@.properties_span {
            Some((a, b)) => 0 <= a <= b <= item@.span_end,
            None => true,
        },
    ensures
        r@ == spec_append_to_logbook(content@, item@, entry@),
{
    let cv = str_chars(content);
    let section_start: usize = match item.properties_span {
        Some((_a, b)) => b,
        None => item.span_start,
    };
    let hi: usize = if item.span_end < cv.len() {
        item.span_end
    } else {
        cv.len()
    };
    let area = sub_chars(&cv, section_start, hi);
    let logbook_pat = str_chars(":LOGBOOK:");
    let end_pat = str_chars(":END:");
    let found_end: Option<usize> = match find_at(&area, &logbook_pat, 0) {
        Some(lb) => {
            proof {
                crate::strutil::lemma_spec_find_props(area@, ":LOGBOOK:"@, 0);
            }
            let r2 = find_at(&cv, &end_pat, section_start + lb);
            proof {
                crate::strutil::lemma_spec_find_props(cv@, ":END:"@, (section_start + lb) as int);
            }
            r2
        },
        None => None,
    };
    match found_end {
        Some(ep) => {
            let mut result = sub_chars(&cv, 0, ep);
            append_str(&mut result, entry);
            result.push('\n');
            let tail = sub_chars(&cv, ep, cv.len());
            append_chars(&mut result, &tail);
            proof {
                assert(result@ =~= spec_append_to_logbook(content@, item@, entry@));
            }
            chars_string(&result)
        },
        None => {
            let mut nl: Vec<char> = Vec::new();
            nl.push('\n');
            proof {
                assert(nl@ =~= seq!['\n']);
            }
            let ip: usize = match item.properties_span {
                Some((_a, b)) => b,
                None => match find_at(&cv, &nl, item.span_start) {
                    Some(i) => {
                        proof {
                            crate::strutil::lemma_spec_find_props(
                                cv@,
                                seq!['\n'],
                                item.span_start as int,
                            );
                        }
                        i + 1
                    },
                    None => item.span_end,
                },
            };
            let mut result = sub_chars(&cv, 0, ip);
            append_str(&mut result, ":LOGBOOK:\n");
            append_str(&mut result, entry);
            append_str(&mut result, "\n:END:\n");
            let tail = sub_chars(&cv, ip, cv.len());
            append_chars(&mut result, &tail);
            proof {
                assert(result@ =~= spec_append_to_logbook(content@, item@, entry@));
            }
            chars_string(&result)
        },
    }
}

/// Lines joined with an arbitrary separator.
pub open spec fn join_with(ls: Seq<Seq<char>>, sep: Seq<char>) -> Seq<char>
    decreases ls.len(),
{
    if ls.len() == 0 {
        Seq::empty()
    } else if ls.len() == 1 {
        ls[0]
    } else {
        join_with(ls.drop_last(), sep) + sep + ls.last()
    }
}

/// Join lines with a separator.
pub fn join_lines_with(ls: &Vec<Vec<char>>, sep: &Vec<char>) -> (r: Vec<char>)
    ensures
        r@ == join_with(ls.deep_view(), sep@),
{
    let mut r: Vec<char> = Vec::new();
    let mut i: usize = 0;
    while i < ls.len()
        invariant
            i <= ls@.len(),
            ls.deep_view().len() == ls@.len(),
            r@ == join_with(ls.deep_view().take(i as int), sep@),
        decreases ls@.len() - i,
    {
        if i > 0 {
            append_chars(&mut r, sep);
        }
        append_chars(&mut r, &ls[i]);
        i = i + 1;
        proof {
            assert(ls.deep_view().take(i as int).drop_last() =~= ls.deep_view().take(i - 1));
            assert(ls.deep_view().take(i as int).last() == ls.deep_view()[i - 1]);
            assert(ls.deep_view()[i - 1] =~= ls@[i - 1]@);
            assert(r@ =~= join_with(ls.deep_view().take(i as int), sep@));
        }
    }
    proof {
        assert(ls.deep_view().take(ls.deep_view().len() as int) =~= ls.deep_view());
    }
    r
}

/// A header line other than the title, after upper-case folding.
pub open spec fn is_meta_line(l: Seq<char>) -> bool {
    let u = upper_chars(spec_trim(l));
    starts_with(u, "#+"@) && !starts_with(u, "#+TITLE:"@)
}

/// The title header line.
pub open spec fn is_title_line(l: Seq<char>) -> bool {
    starts_with(upper_chars(spec_trim(l)), "#+TITLE:"@)
}

/// First header line that is not the title, scanning forward.
pub open spec fn first_meta(ls: Seq<Seq<char>>, i: int) -> Option<int>
    decreases ls.len() - i + 1,
{
    if i < 0 || i >= ls.len() {
        None
    } else if is_meta_line(ls[i]) {
        Some(i)
    } else {
        first_meta(ls, i + 1)
    }
}

/// First title line among the first `lim` lines.
pub open spec fn first_title(ls: Seq<Seq<char>>, i: int, lim: int) -> Option<int>
    decreases lim - i + 1,
{
    if i < 0 || i >= ls.len() || i >= lim {
        None
    } else if is_title_line(ls[i]) {
        Some(i)
    } else {
        first_title(ls, i + 1, lim)
    }
}

/// What adding the collection header yields: the header line goes after
/// the title if one stands near the top, otherwise before the first other
/// header line, otherwise first; the document's line ending style is kept.
pub open spec fn spec_add_repo_header(c: Seq<char>, repo: Seq<char>) -> Seq<char> {
    let ls = lines_of(c);
    let header = "#+GH_REPO: "@ + repo;
    let p1 = match first_meta(ls, 0) {
        Some(i) => i,
        None => 0,
    };
    let p2 = match first_title(ls, 0, p1 + 5) {
        Some(p) => p + 1,
        None => p1,
    };
    let ls2 = ls.insert(p2, header);
    if spec_find(c, seq!['\r', '\n'], 0) is Some {
        join_with(ls2, seq!['\r', '\n'])
    } else {
        join_with(ls2, seq!['\n'])
    }
}

/// Whether a line is a non-title header.
fn meta_line(l: &Vec<char>) -> (r: bool)
    ensures
        r == is_meta_line(l@),
{
    let u = to_upper_vec(&trim_chars(l));
    let hp = str_chars("#+");
    let tp = str_chars("#+TITLE:");
    has_prefix(&u, &hp) && !has_prefix(&u, &tp)
}

/// Whether a line is the title header.
fn title_line(l: &Vec<char>) -> (r: bool)
    ensures
        r == is_title_line(l@),
{
    let u = to_upper_vec(&trim_chars(l));
    let tp = str_chars("#+TITLE:");
    has_prefix(&u, &tp)
}

/// Add the collection header to a document.
pub fn add_repo_header(content: &str, repo: &str) -> (r: String)
    ensures
        r@ == spec_add_repo_header(content@, repo@),
{
    let cv = str_chars(content);
    let mut lines = split_lines(&cv);
    let mut header: Vec<char> = str_chars("#+GH_REPO: ");
    append_str(&mut header, repo);
    let mut p1: usize = 0;
    let mut found1 = false;
    let mut i: usize = 0;
    while i < lines.len() && !found1
        invariant
            i <= lines@.len(),
            lines.deep_view().len() == lines@.len(),
            found1 ==> p1 < lines@.len() && first_meta(lines.deep_view(), 0) == Some(
                p1 as int,
            ),
            !found1 ==> p1 == 0 && first_meta(lines.deep_view(), 0) == first_meta(
                lines.deep_view(),
                i as int,
            ),
        decreases lines@.len() - i + (if found1 { 0int } else { 1int }),
    {
        proof {
            assert(lines.deep_view()[i as int] =~= lines@[i as int]@);
        }
        if meta_line(&lines[i]) {
            p1 = i;
            found1 = true;
        } else {
            i = i + 1;
        }
    }
    proof {
        if !found1 {
            assert(first_meta(lines.deep_view(), 0) is None);
        }
    }
    let mut p2: usize = p1;
    let mut found2 = false;
    let mut j: usize = 0;
    while j < lines.len() && (j <= p1 || j - p1 < 5) && !found2
        invariant
            j <= lines@.len(),
            lines.deep_view().len() == lines@.len(),
            p1 <= lines@.len(),
            found2 ==> 1 <= p2 <= lines@.len() && first_title(lines.deep_view(), 0, p1 + 5)
                == Some(p2 - 1),
            !found2 ==> p2 == p1 && first_title(lines.deep_view(), 0, p1 + 5) == first_title(
                lines.deep_view(),
                j as int,
                p1 + 5,
            ),
        decreases lines@.len() - j + (if found2 { 0int } else { 1int }),
    {
        proof {
            assert(lines.deep_view()[j as int] =~= lines@[j as int]@);
        }
        if title_line(&lines[j]) {
            p2 = j + 1;
            found2 = true;
        } else {
            j = j + 1;
        }
    }
    proof {
        if !found2 {
            assert(first_title(lines.deep_view(), 0, p1 + 5) is None) by {
                if j < lines@.len() && !(j <= p1 || j - p1 < 5) {
                    assert(j >= p1 + 5);
                }
            }
        }
    }
    let ghost old_deep = lines.deep_view();
    let ghost hv = header@;
    lines.insert(p2, header);
    proof {
        assert(lines.deep_view() =~~= old_deep.insert(p2 as int, hv));
    }
    let mut crlf: Vec<char> = Vec::new();
    crlf.push('\r');
    crlf.push('\n');
    proof {
        assert(crlf@ =~= seq!['\r', '\n']);
    }
    let sep_found = crate::strutil::find_chars(&cv, &crlf, 0);
    proof {
        match sep_found {
            Some(w) => {
                crate::strutil::lemma_spec_find_props(cv@, seq!['\r', '\n'], 0);
                assert(spec_find(cv@, seq!['\r', '\n'], 0) is Some) by {
                    crate::strutil::lemma_spec_find_some(cv@, seq!['\r', '\n'], 0, w as int);
                }
            },
            None => {
                crate::strutil::lemma_spec_find_none(cv@, seq!['\r', '\n'], 0);
            },
        }
    }
    let joined = match sep_found {
        Some(_) => join_lines_with(&lines, &crlf),
        None => {
            let mut nl: Vec<char> = Vec::new();
            nl.push('\n');
            proof {
                assert(nl@ =~= seq!['\n']);
            }
            join_lines_with(&lines, &nl)
        },
    };
    chars_string(&joined)
}

} // verus!
