//! Verified character-level string utilities.
//!
//! All text manipulation in this crate happens on `Vec<char>` values whose
//! views are `Seq<char>`, so that every transformation can carry an exact
//! contract. Conversion back into `String` goes through a single trusted
//! call to `String::push`.

use vstd::prelude::*;

verus! {

/// Collect the characters of a string slice into a vector.
pub fn str_chars(s: &str) -> (v: Vec<char>)
    ensures
        v@ == s@,
{
    let n: usize = s.unicode_len();
    let mut v: Vec<char> = Vec::new();
    let mut i: usize = 0;
    while i < n
        invariant
            i <= n,
            n == s@.len(),
            v@ == s@.subrange(0, i as int),
        decreases n - i,
    {
        v.push(s.get_char(i));
        i = i + 1;
        proof {
            assert(v@ =~= s@.subrange(0, i as int));
        }
    }
    proof {
        assert(v@ =~= s@);
    }
    v
}

/// Relies on `String::push`: appends exactly the given character.
#[verifier::external_body]
fn push_char(s: &mut String, c: char)
    ensures
        final(s)@ == old(s)@.push(c),
{
    s.push(c);
}

/// Build a `String` from a vector of characters.
pub fn chars_string(v: &Vec<char>) -> (r: String)
    ensures
        r@ == v@,
{
    let mut r = String::new();
    let mut i: usize = 0;
    while i < v.len()
        invariant
            i <= v.len(),
            r@ == v@.subrange(0, i as int),
        decreases v.len() - i,
    {
        push_char(&mut r, v[i]);
        i = i + 1;
        proof {
            assert(r@ =~= v@.subrange(0, i as int));
        }
    }
    proof {
        assert(r@ =~= v@);
    }
    r
}

/// Character-by-character equality of two string slices.
pub fn str_eq(a: &str, b: &str) -> (r: bool)
    ensures
        r == (a@ == b@),
{
    let na: usize = a.unicode_len();
    let nb: usize = b.unicode_len();
    if na != nb {
        proof {
            assert(a@ != b@) by {
                if a@ == b@ {
                    assert(a@.len() == b@.len());
                }
            }
        }
        return false;
    }
    let mut i: usize = 0;
    while i < na
        invariant
            i <= na,
            na == a@.len(),
            na == b@.len(),
            forall|j: int| 0 <= j < i ==> a@[j] == b@[j],
        decreases na - i,
    {
        if a.get_char(i) != b.get_char(i) {
            return false;
        }
        i = i + 1;
    }
    proof {
        assert(a@ =~= b@);
    }
    true
}

/// Append the characters of a string slice to a vector.
pub fn append_str(v: &mut Vec<char>, s: &str)
    ensures
        final(v)@ == old(v)@ + s@,
{
    let n: usize = s.unicode_len();
    let mut i: usize = 0;
    while i < n
        invariant
            i <= n,
            n == s@.len(),
            v@ == old(v)@ + s@.subrange(0, i as int),
        decreases n - i,
    {
        v.push(s.get_char(i));
        i = i + 1;
        proof {
            assert(v@ =~= old(v)@ + s@.subrange(0, i as int));
        }
    }
    proof {
        assert(v@ =~= old(v)@ + s@);
    }
}

/// Append the characters of another vector.
pub fn append_chars(v: &mut Vec<char>, s: &Vec<char>)
    ensures
        final(v)@ == old(v)@ + s@,
{
    let mut i: usize = 0;
    while i < s.len()
        invariant
            i <= s.len(),
            v@ == old(v)@ + s@.subrange(0, i as int),
        decreases s.len() - i,
    {
        v.push(s[i]);
        i = i + 1;
        proof {
            assert(v@ =~= old(v)@ + s@.subrange(0, i as int));
        }
    }
    proof {
        assert(v@ =~= old(v)@ + s@);
    }
}

/// Lexicographic order on character sequences, by scalar value.
pub open spec fn chars_le(a: Seq<char>, b: Seq<char>) -> bool
    decreases a.len(),
{
    if a.len() == 0 {
        true
    } else if b.len() == 0 {
        false
    } else if (a[0] as u32) < (b[0] as u32) {
        true
    } else if (a[0] as u32) > (b[0] as u32) {
        false
    } else {
        chars_le(a.skip(1), b.skip(1))
    }
}

pub proof fn lemma_chars_le_total(a: Seq<char>, b: Seq<char>)
    ensures
        chars_le(a, b) || chars_le(b, a),
    decreases a.len(),
{
    if a.len() != 0 && b.len() != 0 && a[0] as u32 == b[0] as u32 {
        lemma_chars_le_total(a.skip(1), b.skip(1));
    }
}

pub proof fn lemma_chars_le_antisym(a: Seq<char>, b: Seq<char>)
    requires
        chars_le(a, b),
        chars_le(b, a),
    ensures
        a == b,
    decreases a.len(),
{
    if a.len() == 0 {
        assert(b.len() == 0);
        assert(a =~= b);
    } else {
        assert(b.len() != 0);
        assert(a[0] as u32 == b[0] as u32);
        vstd::utf8::char_u32_cast(a[0], a[0] as u32);
        vstd::utf8::char_u32_cast(b[0], b[0] as u32);
        assert(a[0] == b[0]);
        lemma_chars_le_antisym(a.skip(1), b.skip(1));
        assert(a =~= seq![a[0]] + a.skip(1));
        assert(b =~= seq![b[0]] + b.skip(1));
    }
}

pub proof fn lemma_chars_le_trans(a: Seq<char>, b: Seq<char>, c: Seq<char>)
    requires
        chars_le(a, b),
        chars_le(b, c),
    ensures
        chars_le(a, c),
    decreases a.len(),
{
    if a.len() != 0 && b.len() != 0 && c.len() != 0 && a[0] as u32 == b[0] as u32 && b[0] as u32
        == c[0] as u32 {
        lemma_chars_le_trans(a.skip(1), b.skip(1), c.skip(1));
    }
}

/// Compare two strings in the order of `chars_le`.
pub fn str_le(a: &String, b: &String) -> (r: bool)
    ensures
        r == chars_le(a@, b@),
{
    let na: usize = a.as_str().unicode_len();
    let nb: usize = b.as_str().unicode_len();
    let mut i: usize = 0;
    proof {
        assert(a@.skip(0) =~= a@);
        assert(b@.skip(0) =~= b@);
    }
    loop
        invariant
            i <= na,
            i <= nb,
            na == a@.len(),
            nb == b@.len(),
            chars_le(a@, b@) == chars_le(a@.skip(i as int), b@.skip(i as int)),
            chars_le(b@, a@) == chars_le(b@.skip(i as int), a@.skip(i as int)),
        decreases na - i,
    {
        if i >= na {
            return true;
        }
        if i >= nb {
            return false;
        }
        let ca = a.as_str().get_char(i);
        let cb = b.as_str().get_char(i);
        proof {
            assert(a@.skip(i as int)[0] == a@[i as int]);
            assert(b@.skip(i as int)[0] == b@[i as int]);
            assert(a@.skip(i as int).skip(1) =~= a@.skip(i + 1));
            assert(b@.skip(i as int).skip(1) =~= b@.skip(i + 1));
        }
        if (ca as u32) < (cb as u32) {
            return true;
        }
        if (ca as u32) > (cb as u32) {
            return false;
        }
        i = i + 1;
    }
}

/// ASCII upper-case folding of one character; other characters are unchanged.
pub open spec fn upper_char(c: char) -> char {
    if 'a' as u32 <= c as u32 && c as u32 <= 'z' as u32 {
        (((c as u32) - 32) as u8) as char
    } else {
        c
    }
}

/// ASCII lower-case folding of one character; other characters are unchanged.
pub open spec fn lower_char(c: char) -> char {
    if 'A' as u32 <= c as u32 && c as u32 <= 'Z' as u32 {
        (((c as u32) + 32) as u8) as char
    } else {
        c
    }
}

pub open spec fn upper_chars(s: Seq<char>) -> Seq<char> {
    s.map_values(|c: char| upper_char(c))
}

pub open spec fn lower_chars(s: Seq<char>) -> Seq<char> {
    s.map_values(|c: char| lower_char(c))
}

/// Fold a character vector to ASCII upper case.
pub fn to_upper_vec(v: &Vec<char>) -> (r: Vec<char>)
    ensures
        r@ == upper_chars(v@),
{
    let mut r: Vec<char> = Vec::new();
    let mut i: usize = 0;
    while i < v.len()
        invariant
            i <= v.len(),
            r@ == upper_chars(v@.subrange(0, i as int)),
        decreases v.len() - i,
    {
        let c = v[i];
        if 97 <= c as u32 && c as u32 <= 122 {
            r.push((((c as u32) - 32) as u8) as char);
        } else {
            r.push(c);
        }
        i = i + 1;
        proof {
            assert(r@ =~= upper_chars(v@.subrange(0, i as int)));
        }
    }
    proof {
        assert(r@ =~= upper_chars(v@));
    }
    r
}

/// Whether `n` occurs in `h` starting at position `i`.
pub open spec fn match_at(h: Seq<char>, n: Seq<char>, i: int) -> bool {
    0 <= i && i + n.len() <= h.len() && h.subrange(i, i + n.len() as int) == n
}

/// First occurrence of `needle` in `hay` at or after `from`.
pub fn find_chars(hay: &Vec<char>, needle: &Vec<char>, from: usize) -> (r: Option<usize>)
    ensures
        match r {
            Some(i) => from <= i && match_at(hay@, needle@, i as int) && forall|j: int|
                from <= j < i ==> !match_at(hay@, needle@, j),
            None => forall|j: int| from <= j ==> !match_at(hay@, needle@, j),
        },
{
    let nh = hay.len();
    let nn = needle.len();
    if nn == 0 {
        if from <= nh {
            proof {
                assert(hay@.subrange(from as int, from as int) =~= needle@);
            }
            return Some(from);
        }
        return None;
    }
    if nn > nh || from > nh - nn {
        proof {
            assert forall|j: int| from <= j implies !match_at(hay@, needle@, j) by {
                if match_at(hay@, needle@, j) {
                    assert(j + nn <= nh);
                }
            }
        }
        return None;
    }
    let mut i: usize = from;
    while i <= nh - nn
        invariant
            1 <= nn <= nh,
            nh == hay@.len(),
            nn == needle@.len(),
            from <= i,
            i <= nh,
            forall|j: int| from <= j < i ==> !match_at(hay@, needle@, j),
        decreases nh - i,
    {
        let mut k: usize = 0;
        let mut ok: bool = true;
        while k < nn
            invariant
                k <= nn,
                i + nn <= nh,
                nh == hay@.len(),
                nn == needle@.len(),
                ok ==> forall|t: int| 0 <= t < k ==> hay@[i + t] == needle@[t],
                !ok ==> !match_at(hay@, needle@, i as int),
            decreases nn - k,
        {
            if hay[i + k] != needle[k] {
                proof {
                    assert(hay@.subrange(i as int, i + nn) != needle@) by {
                        if hay@.subrange(i as int, i + nn) == needle@ {
                            assert(hay@.subrange(i as int, i + nn)[k as int] == hay@[i + k]);
                        }
                    }
                }
                ok = false;
                k = nn;
            } else {
                k = k + 1;
            }
        }
        if ok {
            proof {
                assert forall|t: int| 0 <= t < nn implies hay@.subrange(i as int, i + nn)[t]
                    == needle@[t] by {
                    assert(hay@.subrange(i as int, i + nn)[t] == hay@[i + t]);
                }
                assert(hay@.subrange(i as int, i + nn) =~= needle@);
            }
            return Some(i);
        }
        i = i + 1;
    }
    proof {
        assert forall|j: int| from <= j implies !match_at(hay@, needle@, j) by {
            if match_at(hay@, needle@, j) {
                assert(j + nn <= nh);
            }
        }
    }
    None
}

/// The first occurrence of `n` in `h` at or after `from`, if any.
pub open spec fn spec_find(h: Seq<char>, n: Seq<char>, from: int) -> Option<int>
    decreases h.len() - from + 1,
{
    if from < 0 || from + n.len() > h.len() {
        None
    } else if match_at(h, n, from) {
        Some(from)
    } else {
        spec_find(h, n, from + 1)
    }
}

pub proof fn lemma_spec_find_some(h: Seq<char>, n: Seq<char>, from: int, i: int)
    requires
        0 <= from <= i,
        match_at(h, n, i),
        forall|j: int| from <= j < i ==> !match_at(h, n, j),
    ensures
        spec_find(h, n, from) == Some(i),
    decreases i - from,
{
    if from < i {
        lemma_spec_find_some(h, n, from + 1, i);
    }
}

pub proof fn lemma_spec_find_none(h: Seq<char>, n: Seq<char>, from: int)
    requires
        0 <= from,
        forall|j: int| from <= j ==> !match_at(h, n, j),
    ensures
        spec_find(h, n, from) is None,
    decreases h.len() - from + 1,
{
    if from + n.len() <= h.len() {
        lemma_spec_find_none(h, n, from + 1);
    }
}

/// What a successful or failed find means, spelled out.
pub proof fn lemma_spec_find_props(h: Seq<char>, n: Seq<char>, from: int)
    requires
        0 <= from,
    ensures
        match spec_find(h, n, from) {
            Some(i) => from <= i && match_at(h, n, i),
            None => forall|j: int| from <= j ==> !match_at(h, n, j),
        },
    decreases h.len() - from + 1,
{
    if from + n.len() <= h.len() && !match_at(h, n, from) {
        lemma_spec_find_props(h, n, from + 1);
    }
}

/// First occurrence of `needle` in `hay` at or after `from`, as the
/// specification names it.
pub fn find_at(hay: &Vec<char>, needle: &Vec<char>, from: usize) -> (r: Option<usize>)
    ensures
        match r {
            Some(i) => spec_find(hay@, needle@, from as int) == Some(i as int) && from <= i,
            None => spec_find(hay@, needle@, from as int) is None,
        },
{
    let r = find_chars(hay, needle, from);
    proof {
        match r {
            Some(i) => {
                lemma_spec_find_some(hay@, needle@, from as int, i as int);
            },
            None => {
                lemma_spec_find_none(hay@, needle@, from as int);
            },
        }
    }
    r
}

/// Decimal digit character for one digit value.
pub open spec fn digit_char(d: nat) -> char {
    ((48 + d) as u8) as char
}

/// Decimal representation of a natural number, most significant digit first.
pub open spec fn dec_chars(n: nat) -> Seq<char>
    decreases n,
{
    if n < 10 {
        seq![digit_char(n)]
    } else {
        dec_chars(n / 10).push(digit_char(n % 10))
    }
}

/// Decimal representation of an integer, with a leading minus sign if negative.
pub open spec fn dec_signed(i: int) -> Seq<char> {
    if i < 0 {
        seq!['-'] + dec_chars((-i) as nat)
    } else {
        dec_chars(i as nat)
    }
}

/// The decimal digits of a number.
pub fn u64_to_chars(n: u64) -> (v: Vec<char>)
    ensures
        v@ == dec_chars(n as nat),
    decreases n,
{
    if n < 10 {
        let c: char = ((48 + n as u32) as u8) as char;
        let mut v: Vec<char> = Vec::new();
        v.push(c);
        proof {
            assert(v@ =~= dec_chars(n as nat));
        }
        v
    } else {
        let mut v = u64_to_chars(n / 10);
        let c: char = ((48 + (n % 10) as u32) as u8) as char;
        v.push(c);
        v
    }
}

/// The decimal digits of a signed number.
pub fn i64_to_chars(n: i64) -> (v: Vec<char>)
    ensures
        v@ == dec_signed(n as int),
{
    if n >= 0 {
        u64_to_chars(n as u64)
    } else {
        let m: u64 = (-(n as i128)) as u64;
        let mut v: Vec<char> = Vec::new();
        v.push('-');
        let mut d = u64_to_chars(m);
        let mut i: usize = 0;
        while i < d.len()
            invariant
                i <= d.len(),
                d@ == dec_chars(m as nat),
                m == -(n as int),
                v@ == seq!['-'] + d@.subrange(0, i as int),
            decreases d.len() - i,
        {
            v.push(d[i]);
            i = i + 1;
            proof {
                assert(v@ =~= seq!['-'] + d@.subrange(0, i as int));
            }
        }
        proof {
            assert(v@ =~= dec_signed(n as int));
        }
        v
    }
}

} // verus!
