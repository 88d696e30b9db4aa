//! The persisted form of a snapshot, and its parser.
//!
//! Every value is rendered as text: numbers in decimal closed by `;`,
//! strings as a character count, `:`, then the characters, options as an
//! `n` or an `s` followed by the payload, lists as a count followed by the
//! elements. A snapshot is the concatenation of its fields in a fixed
//! order, so the persisted form is deterministic, and `decode_snapshot`
//! accepts exactly the encodings of well-formed snapshots.

use vstd::prelude::*;
use crate::error::Error;
use crate::strutil::{
    append_chars, chars_string, dec_chars, dec_signed, digit_char, i64_to_chars, str_chars,
    u64_to_chars,
};
use crate::sync::state::{
    entries_sorted, ItemMap, PendingCreate, PendingCreateV, SyncedItem, SyncedItemV, SyncState,
    SyncStateV,
};

verus! {

/// A number closed by `;`.
pub open spec fn enc_u64(n: u64) -> Seq<char> {
    dec_chars(n as nat) + seq![';']
}

/// A signed number closed by `;`.
pub open spec fn enc_i64(n: i64) -> Seq<char> {
    dec_signed(n as int) + seq![';']
}

/// A character count, `:`, then the characters.
pub open spec fn enc_str(s: Seq<char>) -> Seq<char> {
    dec_chars(s.len()) + seq![':'] + s
}

/// `n` for nothing, `s` and the payload for a value.
pub open spec fn enc_opt_i64(o: Option<i64>) -> Seq<char> {
    match o {
        None => seq!['n'],
        Some(v) => seq!['s'] + enc_i64(v),
    }
}

/// The elements one after the other.
pub open spec fn enc_str_list(v: Seq<Seq<char>>) -> Seq<char>
    decreases v.len(),
{
    if v.len() == 0 {
        Seq::empty()
    } else {
        enc_str(v[0]) + enc_str_list(v.skip(1))
    }
}

/// A count, then the elements.
pub open spec fn enc_strs(v: Seq<Seq<char>>) -> Seq<char> {
    enc_u64(v.len() as u64) + enc_str_list(v)
}

/// One base-state entry.
pub open spec fn enc_item(e: (u64, SyncedItemV)) -> Seq<char> {
    enc_u64(e.0) + enc_str(e.1.org_heading_id) + enc_str(e.1.title) + enc_str(e.1.body_hash)
        + enc_str(e.1.state) + enc_strs(e.1.assignees) + enc_strs(e.1.labels) + enc_i64(
        e.1.gh_updated_at,
    ) + enc_opt_i64(e.1.org_updated_at)
}

pub open spec fn enc_items(s: Seq<(u64, SyncedItemV)>) -> Seq<char>
    decreases s.len(),
{
    if s.len() == 0 {
        Seq::empty()
    } else {
        enc_item(s[0]) + enc_items(s.skip(1))
    }
}

/// One pending-create entry.
pub open spec fn enc_pending(p: PendingCreateV) -> Seq<char> {
    enc_str(p.org_heading_id) + enc_str(p.title)
}

pub open spec fn enc_pendings(s: Seq<PendingCreateV>) -> Seq<char>
    decreases s.len(),
{
    if s.len() == 0 {
        Seq::empty()
    } else {
        enc_pending(s[0]) + enc_pendings(s.skip(1))
    }
}

/// The whole persisted snapshot.
pub open spec fn spec_encode(v: SyncStateV) -> Seq<char> {
    enc_u64(v.version as u64) + enc_str(v.repo) + enc_opt_i64(v.last_sync) + enc_u64(
        v.items.len() as u64,
    ) + enc_items(v.items) + enc_u64(v.pending_creates.len() as u64) + enc_pendings(
        v.pending_creates,
    )
}

/// Append `enc_str` of a string.
fn push_enc_str(out: &mut Vec<char>, s: &str)
    ensures
        final(out)@ == old(out)@ + enc_str(s@),
{
    let v = str_chars(s);
    let n = u64_to_chars(v.len() as u64);
    append_chars(out, &n);
    out.push(':');
    append_chars(out, &v);
    proof {
        assert(out@ =~= old(out)@ + enc_str(s@));
    }
}

/// Append `enc_u64` of a number.
fn push_enc_u64(out: &mut Vec<char>, n: u64)
    ensures
        final(out)@ == old(out)@ + enc_u64(n),
{
    let d = u64_to_chars(n);
    append_chars(out, &d);
    out.push(';');
    proof {
        assert(out@ =~= old(out)@ + enc_u64(n));
    }
}

/// Append `enc_i64` of a number.
fn push_enc_i64(out: &mut Vec<char>, n: i64)
    ensures
        final(out)@ == old(out)@ + enc_i64(n),
{
    let d = i64_to_chars(n);
    append_chars(out, &d);
    out.push(';');
    proof {
        assert(out@ =~= old(out)@ + enc_i64(n));
    }
}

/// Append `enc_opt_i64` of an optional number.
fn push_enc_opt_i64(out: &mut Vec<char>, o: &Option<i64>)
    ensures
        final(out)@ == old(out)@ + enc_opt_i64(*o),
{
    match o {
        None => {
            out.push('n');
            proof {
                assert(out@ =~= old(out)@ + enc_opt_i64(None::<i64>));
            }
        },
        Some(v) => {
            out.push('s');
            push_enc_i64(out, *v);
            proof {
                assert(out@ =~= old(out)@ + enc_opt_i64(Some(*v)));
            }
        },
    }
}

/// Append `enc_strs` of a string list.
fn push_enc_strs(out: &mut Vec<char>, v: &Vec<String>)
    ensures
        final(out)@ == old(out)@ + enc_strs(v.deep_view()),
{
    push_enc_u64(out, v.len() as u64);
    let ghost base = out@;
    let mut i: usize = 0;
    proof {
        assert(v.deep_view().skip(0) =~= v.deep_view());
    }
    while i < v.len()
        invariant
            i <= v@.len(),
            v.deep_view().len() == v@.len(),
            out@ + enc_str_list(v.deep_view().skip(i as int)) == base + enc_str_list(
                v.deep_view(),
            ),
        decreases v@.len() - i,
    {
        proof {
            assert(v.deep_view().skip(i as int)[0] == v.deep_view()[i as int]);
            assert(v.deep_view().skip(i as int).skip(1) =~= v.deep_view().skip(i + 1));
            assert(enc_str_list(v.deep_view().skip(i as int)) == enc_str(
                v.deep_view()[i as int],
            ) + enc_str_list(v.deep_view().skip(i + 1)));
        }
        push_enc_str(out, v[i].as_str());
        i = i + 1;
        proof {
            assert(out@ + enc_str_list(v.deep_view().skip(i as int)) =~= base + enc_str_list(
                v.deep_view(),
            ));
        }
    }
    proof {
        assert(v.deep_view().skip(v.deep_view().len() as int) =~= Seq::<Seq<char>>::empty());
        assert(out@ =~= out@ + enc_str_list(v.deep_view().skip(i as int)));
        assert(out@ =~= base + enc_str_list(v.deep_view()));
    }
}

/// Append `enc_item` of one entry.
fn push_enc_item(out: &mut Vec<char>, key: u64, it: &SyncedItem)
    ensures
        final(out)@ == old(out)@ + enc_item((key, it@)),
{
    push_enc_u64(out, key);
    push_enc_str(out, it.org_heading_id.as_str());
    push_enc_str(out, it.title.as_str());
    push_enc_str(out, it.body_hash.as_str());
    push_enc_str(out, it.state.as_str());
    push_enc_strs(out, &it.assignees);
    push_enc_strs(out, &it.labels);
    push_enc_i64(out, it.gh_updated_at);
    push_enc_opt_i64(out, &it.org_updated_at);
    proof {
        assert(out@ =~= old(out)@ + enc_item((key, it@)));
    }
}

/// Render a snapshot into its persisted text.
pub fn encode_snapshot(s: &SyncState) -> (r: String)
    ensures
        r@ == spec_encode(s@),
{
    let mut out: Vec<char> = Vec::new();
    push_enc_u64(&mut out, s.version as u64);
    push_enc_str(&mut out, s.repo.as_str());
    push_enc_opt_i64(&mut out, &s.last_sync);
    push_enc_u64(&mut out, s.items.len() as u64);
    let ghost base = out@;
    let mut i: usize = 0;
    proof {
        assert(s@.items.skip(0) =~= s@.items);
    }
    while i < s.items.len()
        invariant
            i <= s@.items.len(),
            out@ + enc_items(s@.items.skip(i as int)) == base + enc_items(s@.items),
        decreases s@.items.len() - i,
    {
        let entry = s.items.entry_at(i);
        proof {
            assert(s@.items.skip(i as int)[0] == s@.items[i as int]);
            assert(s@.items.skip(i as int).skip(1) =~= s@.items.skip(i + 1));
            assert(enc_items(s@.items.skip(i as int)) == enc_item(s@.items[i as int])
                + enc_items(s@.items.skip(i + 1)));
        }
        push_enc_item(&mut out, entry.0, &entry.1);
        i = i + 1;
        proof {
            assert(out@ + enc_items(s@.items.skip(i as int)) =~= base + enc_items(s@.items));
        }
    }
    proof {
        assert(s@.items.skip(s@.items.len() as int) =~= Seq::<(u64, SyncedItemV)>::empty());
        assert(out@ =~= base + enc_items(s@.items));
    }
    push_enc_u64(&mut out, s.pending_creates.len() as u64);
    let ghost base2 = out@;
    let mut j: usize = 0;
    proof {
        assert(s@.pending_creates.skip(0) =~= s@.pending_creates);
    }
    while j < s.pending_creates.len()
        invariant
            j <= s@.pending_creates.len(),
            s@.pending_creates.len() == s.pending_creates@.len(),
            out@ + enc_pendings(s@.pending_creates.skip(j as int)) == base2 + enc_pendings(
                s@.pending_creates,
            ),
        decreases s@.pending_creates.len() - j,
    {
        proof {
            assert(s@.pending_creates.skip(j as int)[0] == s@.pending_creates[j as int]);
            assert(s@.pending_creates.skip(j as int).skip(1) =~= s@.pending_creates.skip(j + 1));
            assert(enc_pendings(s@.pending_creates.skip(j as int)) == enc_pending(
                s@.pending_creates[j as int],
            ) + enc_pendings(s@.pending_creates.skip(j + 1)));
            assert(s@.pending_creates[j as int] == s.pending_creates@[j as int]@);
        }
        push_enc_str(&mut out, s.pending_creates[j].org_heading_id.as_str());
        push_enc_str(&mut out, s.pending_creates[j].title.as_str());
        j = j + 1;
        proof {
            assert(out@ + enc_pendings(s@.pending_creates.skip(j as int)) =~= base2
                + enc_pendings(s@.pending_creates));
        }
    }
    proof {
        assert(s@.pending_creates.skip(s@.pending_creates.len() as int) =~= Seq::<
            PendingCreateV,
        >::empty());
        assert(out@ =~= base2 + enc_pendings(s@.pending_creates));
        assert(out@ =~= spec_encode(s@));
    }
    chars_string(&out)
}

/// A decimal digit.
pub open spec fn is_digit(c: char) -> bool {
    48 <= c as u32 && c as u32 <= 57
}

/// The value of a digit character.
pub open spec fn digit_val(c: char) -> nat {
    (c as u32 - 48) as nat
}

/// The value of a digit string, most significant first.
pub open spec fn val_of(s: Seq<char>) -> nat
    decreases s.len(),
{
    if s.len() == 0 {
        0
    } else {
        val_of(s.drop_last()) * 10 + digit_val(s.last())
    }
}

pub open spec fn all_digits(s: Seq<char>) -> bool {
    forall|i: int| 0 <= i < s.len() ==> is_digit(#[trigger] s[i])
}

/// The shape `dec_chars` produces: nonempty, digits only, no leading zero
/// unless the number is zero itself.
pub open spec fn canonical_digits(s: Seq<char>) -> bool {
    s.len() > 0 && all_digits(s) && (s.len() == 1 || s[0] != '0')
}

/// `pat` occurs in `s` at position `i`.
pub open spec fn prefix_at(s: Seq<char>, i: int, pat: Seq<char>) -> bool {
    0 <= i && i + pat.len() <= s.len() && s.subrange(i, i + pat.len() as int) == pat
}

pub proof fn lemma_prefix_split(s: Seq<char>, i: int, a: Seq<char>, b: Seq<char>)
    requires
        prefix_at(s, i, a + b),
    ensures
        prefix_at(s, i, a),
        prefix_at(s, i + a.len(), b),
{
    assert(s.subrange(i, i + a.len() as int) =~= a) by {
        assert forall|t: int| 0 <= t < a.len() implies s.subrange(i, i + a.len() as int)[t]
            == a[t] by {
            assert(s.subrange(i, i + (a + b).len() as int)[t] == (a + b)[t]);
        }
    }
    assert(s.subrange(i + a.len(), i + a.len() + b.len() as int) =~= b) by {
        assert forall|t: int| 0 <= t < b.len() implies s.subrange(
            i + a.len(),
            i + a.len() + b.len() as int,
        )[t] == b[t] by {
            assert(s.subrange(i, i + (a + b).len() as int)[a.len() + t] == (a + b)[a.len() + t]);
        }
    }
}

/// The digits of a decimal rendering, and its canonical shape.
pub proof fn lemma_dec_shape(n: nat)
    ensures
        dec_chars(n).len() >= 1,
        all_digits(dec_chars(n)),
        canonical_digits(dec_chars(n)),
        n == 0 ==> dec_chars(n) == seq!['0'],
        n > 0 ==> dec_chars(n)[0] != '0',
    decreases n,
{
    if n < 10 {
        assert(dec_chars(n) == seq![digit_char(n)]);
        assert(is_digit(digit_char(n)));
        if n > 0 {
            assert(digit_char(n) as u32 == 48 + n);
            assert(digit_char(n) != '0');
        } else {
            assert(digit_char(0) as u32 == 48);
            assert('0' as u32 == 48);
            vstd::utf8::char_u32_cast(digit_char(0), 48);
            vstd::utf8::char_u32_cast('0', 48);
            assert(dec_chars(0) =~= seq!['0']);
        }
    } else {
        lemma_dec_shape(n / 10);
        let s = dec_chars(n);
        assert(s == dec_chars(n / 10).push(digit_char(n % 10)));
        assert(is_digit(digit_char(n % 10)));
        assert forall|i: int| 0 <= i < s.len() implies is_digit(#[trigger] s[i]) by {
            if i < dec_chars(n / 10).len() {
                assert(s[i] == dec_chars(n / 10)[i]);
            }
        }
        assert(s[0] == dec_chars(n / 10)[0]);
        assert(n / 10 > 0);
    }
}

/// Reading the decimal rendering back gives the number.
pub proof fn lemma_val_dec(n: nat)
    ensures
        val_of(dec_chars(n)) == n,
    decreases n,
{
    if n < 10 {
        let s = dec_chars(n);
        assert(s == seq![digit_char(n)]);
        assert(s.drop_last() =~= Seq::<char>::empty());
        assert(s.last() == digit_char(n));
        assert(digit_char(n) as u32 == 48 + n);
        assert(digit_val(digit_char(n)) == n);
        assert(val_of(s) == val_of(s.drop_last()) * 10 + digit_val(s.last()));
    } else {
        lemma_val_dec(n / 10);
        let s = dec_chars(n);
        assert(s.drop_last() =~= dec_chars(n / 10));
        assert(s.last() == digit_char(n % 10));
        assert(digit_val(digit_char(n % 10)) == n % 10);
        assert(val_of(s) == (n / 10) * 10 + n % 10);
        assert(n == (n / 10) * 10 + n % 10) by {
            vstd::arithmetic::div_mod::lemma_fundamental_div_mod(n as int, 10);
        }
    }
}

/// A canonical digit string with a nonzero lead denotes a positive number.
proof fn lemma_val_pos(s: Seq<char>)
    requires
        s.len() >= 1,
        all_digits(s),
        s[0] != '0',
    ensures
        val_of(s) >= 1,
    decreases s.len(),
{
    if s.len() == 1 {
        assert(s.last() == s[0]);
        assert(is_digit(s[0]));
        if digit_val(s[0]) == 0 {
            assert(s[0] as u32 == 48);
            vstd::utf8::char_u32_cast(s[0], 48);
            vstd::utf8::char_u32_cast('0', 48);
            assert('0' as u32 == 48);
        }
    } else {
        assert(s.drop_last()[0] == s[0]);
        assert(all_digits(s.drop_last())) by {
            assert(forall|i: int| 0 <= i < s.drop_last().len() ==> s.drop_last()[i] == s[i]);
        }
        lemma_val_pos(s.drop_last());
    }
}

/// A canonical digit string is the decimal rendering of its value: the
/// parser's greedy read reproduces exactly what the encoder wrote.
pub proof fn lemma_dec_unique(s: Seq<char>)
    requires
        canonical_digits(s),
    ensures
        s == dec_chars(val_of(s)),
    decreases s.len(),
{
    if s.len() == 1 {
        let d = digit_val(s[0]);
        assert(s.last() == s[0]);
        assert(s.drop_last() =~= Seq::<char>::empty());
        assert(val_of(Seq::<char>::empty()) == 0);
        assert(val_of(s) == val_of(s.drop_last()) * 10 + digit_val(s.last()));
        assert(val_of(s) == d);
        assert(is_digit(s[0]));
        assert(d < 10);
        assert(dec_chars(d) == seq![digit_char(d)]);
        assert(s[0] as u32 == 48 + d);
        vstd::utf8::char_u32_cast(s[0], (48 + d) as u32);
        assert(digit_char(d) as u32 == 48 + d);
        vstd::utf8::char_u32_cast(digit_char(d), (48 + d) as u32);
        assert(s[0] == digit_char(d));
        assert(s =~= dec_chars(val_of(s)));
    } else {
        let s2 = s.drop_last();
        assert(s2[0] == s[0]);
        assert(all_digits(s2)) by {
            assert(forall|i: int| 0 <= i < s2.len() ==> s2[i] == s[i]);
        }
        assert(canonical_digits(s2));
        lemma_dec_unique(s2);
        lemma_val_pos(s2);
        let d = digit_val(s.last());
        assert(is_digit(s.last()));
        let n = val_of(s);
        assert(n == val_of(s2) * 10 + d);
        assert(n / 10 == val_of(s2) && n % 10 == d) by {
            vstd::arithmetic::div_mod::lemma_fundamental_div_mod_converse(
                n as int,
                10,
                val_of(s2) as int,
                d as int,
            );
        }
        assert(n >= 10);
        assert(dec_chars(n) == dec_chars(n / 10).push(digit_char(n % 10)));
        assert(s.last() as u32 == 48 + d);
        vstd::utf8::char_u32_cast(s.last(), (48 + d) as u32);
        assert(digit_char(d) as u32 == 48 + d);
        vstd::utf8::char_u32_cast(digit_char(d), (48 + d) as u32);
        assert(s.last() == digit_char(d));
        assert(s =~= dec_chars(n));
    }
}

/// The value of a digit-string prefix never exceeds the whole.
proof fn lemma_val_prefix_le(s: Seq<char>, t: int)
    requires
        all_digits(s),
        0 <= t <= s.len(),
    ensures
        val_of(s.take(t)) <= val_of(s),
    decreases s.len() - t,
{
    if t < s.len() {
        lemma_val_prefix_le(s, t + 1);
        assert(s.take(t + 1).drop_last() =~= s.take(t));
        assert(s.take(t + 1).last() == s[t]);
        assert(val_of(s.take(t + 1)) == val_of(s.take(t)) * 10 + digit_val(s[t]));
    } else {
        assert(s.take(t) =~= s);
    }
}

/// Read an unsigned decimal closed by `term`: greedy digits, no leading
/// zero, then exactly the terminator. Returns the value and the position
/// after the terminator. Succeeds on exactly the encodings.
fn parse_nat(inp: &Vec<char>, pos: usize, term: char) -> (r: Result<(u64, usize), Error>)
    requires
        !is_digit(term),
        pos <= inp@.len(),
    ensures
        match r {
            Ok((n, j)) => pos < j <= inp@.len() && inp@.subrange(pos as int, j as int)
                == dec_chars(n as nat) + seq![term],
            Err(_) => true,
        },
        forall|n: u64| prefix_at(inp@, pos as int, dec_chars(n as nat) + seq![term]) ==> (
        match r {
            Ok((m, j)) => m == n && j == pos + dec_chars(n as nat).len() + 1,
            Err(_) => false,
        }),
{
    let len = inp.len();
    let mut i: usize = pos;
    let mut acc: u64 = 0;
    proof {
        assert(inp@.subrange(pos as int, pos as int) =~= Seq::<char>::empty());
    }
    while i < len && 48 <= inp[i] as u32 && inp[i] as u32 <= 57
        invariant
            !is_digit(term),
            pos <= i <= len,
            len == inp@.len(),
            all_digits(inp@.subrange(pos as int, i as int)),
            acc as nat == val_of(inp@.subrange(pos as int, i as int)),
        decreases len - i,
    {
        let d: u64 = (inp[i] as u32 - 48) as u64;
        let wide: u128 = acc as u128 * 10 + d as u128;
        proof {
            assert(inp@.subrange(pos as int, i + 1).drop_last() =~= inp@.subrange(
                pos as int,
                i as int,
            ));
            assert(inp@.subrange(pos as int, i + 1).last() == inp@[i as int]);
            assert(digit_val(inp@[i as int]) == d);
        }
        if wide > 0xffff_ffff_ffff_ffff {
            proof {
                assert forall|n: u64| !prefix_at(
                    inp@,
                    pos as int,
                    dec_chars(n as nat) + seq![term],
                ) by {
                    if prefix_at(inp@, pos as int, dec_chars(n as nat) + seq![term]) {
                        let dd = dec_chars(n as nat);
                        lemma_dec_shape(n as nat);
                        lemma_val_dec(n as nat);
                        assert(i + 1 - pos <= dd.len()) by {
                            if i + 1 - pos > dd.len() {
                                let k = dd.len() as int;
                                assert((dd + seq![term])[k] == seq![term][0]);
                                assert(seq![term][0] == term);
                                assert(inp@.subrange(
                                    pos as int,
                                    pos + (dd + seq![term]).len() as int,
                                ) == dd + seq![term]);
                                assert(inp@.subrange(
                                    pos as int,
                                    pos + (dd + seq![term]).len() as int,
                                )[k] == inp@[pos + k]);
                                assert(inp@[pos + k] == term);
                                if pos + k < i {
                                    assert(inp@.subrange(pos as int, i as int)[k] == inp@[pos
                                        + k]);
                                    assert(is_digit(inp@.subrange(pos as int, i as int)[k]));
                                } else {
                                    assert(pos + k == i);
                                    assert(48 <= inp@[i as int] as u32 <= 57);
                                }
                            }
                        }
                        assert(inp@.subrange(pos as int, i + 1) =~= dd.take(i + 1 - pos)) by {
                            assert forall|t: int| 0 <= t < i + 1 - pos implies #[trigger] (
                            inp@.subrange(pos as int, i + 1)[t]) == dd.take(i + 1 - pos)[t] by {
                                assert(inp@[pos + t] == (dd + seq![term])[t]);
                            }
                        }
                        lemma_val_prefix_le(dd, i + 1 - pos);
                        assert(val_of(inp@.subrange(pos as int, i + 1)) <= n as nat);
                        assert(val_of(inp@.subrange(pos as int, i + 1)) == wide as nat);
                    }
                }
            }
            return Err(Error::Json("number out of range in snapshot".to_owned()));
        }
        acc = wide as u64;
        i = i + 1;
        proof {
            assert(all_digits(inp@.subrange(pos as int, i as int))) by {
                assert(forall|t: int| 0 <= t < i - pos ==> inp@.subrange(
                    pos as int,
                    i as int,
                )[t] == inp@[pos + t]);
            }
        }
    }
    proof {
        assert(i == len || !is_digit(inp@[i as int]));
    }
    let ghost digits = inp@.subrange(pos as int, i as int);
    proof {
        assert forall|n: u64| prefix_at(inp@, pos as int, dec_chars(n as nat) + seq![term])
            implies i == pos + dec_chars(n as nat).len() && acc == n by {
            let dd = dec_chars(n as nat);
            lemma_dec_shape(n as nat);
            lemma_val_dec(n as nat);
            assert(i - pos <= dd.len()) by {
                if i - pos > dd.len() {
                    assert(inp@[pos + dd.len()] == (dd + seq![term])[dd.len() as int]);
                    assert(digits[dd.len() as int] == inp@[pos + dd.len()]);
                    assert(is_digit(term));
                }
            }
            assert(i - pos >= dd.len()) by {
                if i - pos < dd.len() {
                    assert(inp@[i as int] == (dd + seq![term])[i - pos]);
                    assert(is_digit(dd[i - pos]));
                    assert(pos + (dd + seq![term]).len() <= len);
                }
            }
            assert(digits =~= dd) by {
                assert(forall|t: int| 0 <= t < dd.len() ==> digits[t] == inp@[pos + t] && inp@[
                    pos + t
                ] == (dd + seq![term])[t]);
            }
        }
    }
    if i == pos {
        proof {
            assert forall|n: u64| !prefix_at(inp@, pos as int, dec_chars(n as nat) + seq![term])
                by {
                if prefix_at(inp@, pos as int, dec_chars(n as nat) + seq![term]) {
                    lemma_dec_shape(n as nat);
                }
            }
        }
        return Err(Error::Json("expected a number in snapshot".to_owned()));
    }
    if i >= len {
        proof {
            assert forall|n: u64| !prefix_at(inp@, pos as int, dec_chars(n as nat) + seq![term])
                by {
                if prefix_at(inp@, pos as int, dec_chars(n as nat) + seq![term]) {
                    lemma_dec_shape(n as nat);
                    assert(pos + dec_chars(n as nat).len() + 1 <= len);
                }
            }
        }
        return Err(Error::Json("unexpected end of snapshot".to_owned()));
    }
    if inp[i] != term {
        proof {
            assert forall|n: u64| !prefix_at(inp@, pos as int, dec_chars(n as nat) + seq![term])
                by {
                if prefix_at(inp@, pos as int, dec_chars(n as nat) + seq![term]) {
                    let dd = dec_chars(n as nat);
                    assert(inp@[pos + dd.len()] == (dd + seq![term])[dd.len() as int]);
                }
            }
        }
        return Err(Error::Json("malformed number in snapshot".to_owned()));
    }
    if i > pos + 1 && inp[pos] as u32 == 48 {
        proof {
            assert forall|n: u64| !prefix_at(inp@, pos as int, dec_chars(n as nat) + seq![term])
                by {
                if prefix_at(inp@, pos as int, dec_chars(n as nat) + seq![term]) {
                    let dd = dec_chars(n as nat);
                    lemma_dec_shape(n as nat);
                    assert(dd.len() > 1);
                    assert(inp@.subrange(pos as int, pos + (dd + seq![term]).len() as int)[0]
                        == (dd + seq![term])[0]);
                    assert(dd[0] == inp@[pos as int]);
                    assert(dd[0] as u32 == 48);
                    vstd::utf8::char_u32_cast(dd[0], 48);
                    vstd::utf8::char_u32_cast('0', 48);
                    assert('0' as u32 == 48);
                }
            }
        }
        return Err(Error::Json("malformed number in snapshot".to_owned()));
    }
    proof {
        assert(canonical_digits(digits)) by {
            if digits.len() > 1 && digits[0] == '0' {
                assert(inp@[pos as int] == digits[0]);
                assert('0' as u32 == 48);
            }
        }
        lemma_dec_unique(digits);
        assert(inp@.subrange(pos as int, i + 1) =~= digits + seq![term]);
    }
    Ok((acc, i + 1))
}

/// Read a signed decimal closed by `;`.
fn parse_i64(inp: &Vec<char>, pos: usize) -> (r: Result<(i64, usize), Error>)
    requires
        pos <= inp@.len(),
    ensures
        match r {
            Ok((n, j)) => pos < j <= inp@.len() && inp@.subrange(pos as int, j as int)
                == enc_i64(n),
            Err(_) => true,
        },
        forall|n: i64| prefix_at(inp@, pos as int, enc_i64(n)) ==> (match r {
            Ok((m, j)) => m == n && j == pos + enc_i64(n).len(),
            Err(_) => false,
        }),
{
    let len = inp.len();
    proof {
        assert(!is_digit(';')) by {
            assert(';' as u32 == 59);
        }
        assert(!is_digit('-')) by {
            assert('-' as u32 == 45);
        }
        assert forall|n: i64| n >= 0 implies enc_i64(n) == dec_chars(n as nat) + seq![';'] by {}
        assert forall|n: i64| n < 0 implies enc_i64(n) == seq!['-'] + (dec_chars((-n) as nat)
            + seq![';']) by {
            assert(enc_i64(n) =~= seq!['-'] + (dec_chars((-n) as nat) + seq![';']));
        }
    }
    if pos < len && inp[pos] == '-' {
        proof {
            assert forall|n: i64| n >= 0 implies !prefix_at(inp@, pos as int, enc_i64(n)) by {
                if prefix_at(inp@, pos as int, enc_i64(n)) {
                    lemma_dec_shape(n as nat);
                    assert(inp@.subrange(pos as int, pos + enc_i64(n).len() as int)[0]
                        == enc_i64(n)[0]);
                    assert(enc_i64(n)[0] == dec_chars(n as nat)[0]);
                    assert(is_digit(inp@[pos as int]));
                }
            }
        }
        match parse_nat(inp, pos + 1, ';') {
            Ok((m, j)) => {
                proof {
                    assert forall|n: i64| n < 0 && prefix_at(inp@, pos as int, enc_i64(n))
                        implies m == (-(n as int)) as u64 && j == pos + enc_i64(n).len() by {
                        lemma_prefix_split(
                            inp@,
                            pos as int,
                            seq!['-'],
                            dec_chars((-n) as nat) + seq![';'],
                        );
                        let m2: u64 = (-(n as int)) as u64;
                        assert(dec_chars(m2 as nat) == dec_chars((-n) as nat));
                        assert(prefix_at(
                            inp@,
                            pos + 1,
                            dec_chars(m2 as nat) + seq![';'],
                        ));
                    }
                }
                if m == 0 {
                    proof {
                        assert forall|n: i64| !prefix_at(inp@, pos as int, enc_i64(n)) by {
                            if prefix_at(inp@, pos as int, enc_i64(n)) {
                                assert(n < 0);
                            }
                        }
                    }
                    return Err(Error::Json("malformed number in snapshot".to_owned()));
                }
                if m > 0x8000_0000_0000_0000 {
                    proof {
                        assert forall|n: i64| !prefix_at(inp@, pos as int, enc_i64(n)) by {
                            if prefix_at(inp@, pos as int, enc_i64(n)) {
                                assert(n < 0);
                                assert((-(n as int)) <= 0x8000_0000_0000_0000);
                            }
                        }
                    }
                    return Err(Error::Json("number out of range in snapshot".to_owned()));
                }
                let n: i64 = (-(m as i128)) as i64;
                proof {
                    assert(n < 0 && -(n as int) == m as int);
                    assert(inp@.subrange(pos as int, j as int) =~= seq!['-'] + inp@.subrange(
                        pos + 1,
                        j as int,
                    ));
                    assert(inp@.subrange(pos as int, j as int) =~= enc_i64(n));
                }
                Ok((n, j))
            },
            Err(e) => {
                proof {
                    assert forall|n: i64| !prefix_at(inp@, pos as int, enc_i64(n)) by {
                        if prefix_at(inp@, pos as int, enc_i64(n)) {
                            assert(n < 0);
                            lemma_prefix_split(
                                inp@,
                                pos as int,
                                seq!['-'],
                                dec_chars((-n) as nat) + seq![';'],
                            );
                            let m2: u64 = (-(n as int)) as u64;
                            assert(dec_chars(m2 as nat) == dec_chars((-n) as nat));
                            assert(prefix_at(inp@, pos + 1, dec_chars(m2 as nat) + seq![';']));
                        }
                    }
                }
                Err(e)
            },
        }
    } else {
        proof {
            assert forall|n: i64| n < 0 implies !prefix_at(inp@, pos as int, enc_i64(n)) by {
                if prefix_at(inp@, pos as int, enc_i64(n)) {
                    assert(inp@.subrange(pos as int, pos + enc_i64(n).len() as int)[0]
                        == enc_i64(n)[0]);
                    assert(enc_i64(n)[0] == '-');
                    assert(pos < len);
                    assert(inp@[pos as int] == '-');
                }
            }
        }
        match parse_nat(inp, pos, ';') {
            Ok((m, j)) => {
                proof {
                    assert forall|n: i64| n >= 0 && prefix_at(inp@, pos as int, enc_i64(n))
                        implies m == n as u64 && j == pos + enc_i64(n).len() by {
                        assert(dec_chars((n as u64) as nat) == dec_chars(n as nat));
                        assert(prefix_at(
                            inp@,
                            pos as int,
                            dec_chars((n as u64) as nat) + seq![';'],
                        ));
                    }
                }
                if m > 0x7fff_ffff_ffff_ffff {
                    proof {
                        assert forall|n: i64| !prefix_at(inp@, pos as int, enc_i64(n)) by {
                            if prefix_at(inp@, pos as int, enc_i64(n)) {
                                assert(n >= 0);
                            }
                        }
                    }
                    return Err(Error::Json("number out of range in snapshot".to_owned()));
                }
                Ok((m as i64, j))
            },
            Err(e) => {
                proof {
                    assert forall|n: i64| !prefix_at(inp@, pos as int, enc_i64(n)) by {
                        if prefix_at(inp@, pos as int, enc_i64(n)) {
                            assert(n >= 0);
                            assert(prefix_at(
                                inp@,
                                pos as int,
                                dec_chars((n as u64) as nat) + seq![';'],
                            ));
                        }
                    }
                }
                Err(e)
            },
        }
    }
}

/// Read a length-prefixed string.
fn parse_str(inp: &Vec<char>, pos: usize) -> (r: Result<(String, usize), Error>)
    requires
        pos <= inp@.len(),
    ensures
        match r {
            Ok((s, j)) => pos < j <= inp@.len() && inp@.subrange(pos as int, j as int)
                == enc_str(s@),
            Err(_) => true,
        },
        forall|v: Seq<char>| prefix_at(inp@, pos as int, enc_str(v)) ==> (match r {
            Ok((s, j)) => s@ == v && j == pos + enc_str(v).len(),
            Err(_) => false,
        }),
{
    let len = inp.len();
    proof {
        assert(!is_digit(':')) by {
            assert(':' as u32 == 58);
        }
        assert forall|v: Seq<char>| prefix_at(inp@, pos as int, enc_str(v)) implies prefix_at(
            inp@,
            pos as int,
            dec_chars(v.len()) + seq![':'],
        ) && prefix_at(inp@, pos + (dec_chars(v.len()) + seq![':']).len(), v) by {
            assert(enc_str(v) =~= (dec_chars(v.len()) + seq![':']) + v);
            lemma_prefix_split(inp@, pos as int, dec_chars(v.len()) + seq![':'], v);
        }
    }
    match parse_nat(inp, pos, ':') {
        Ok((n, j)) => {
            proof {
                assert forall|v: Seq<char>| prefix_at(inp@, pos as int, enc_str(v)) implies n
                    == v.len() as u64 && j == pos + dec_chars(v.len()).len() + 1 by {
                    assert(v.len() <= inp@.len());
                    assert(dec_chars((v.len() as u64) as nat) == dec_chars(v.len()));
                }
            }
            if n > (len - j) as u64 {
                proof {
                    assert forall|v: Seq<char>| !prefix_at(inp@, pos as int, enc_str(v)) by {
                        if prefix_at(inp@, pos as int, enc_str(v)) {
                            assert(pos + enc_str(v).len() <= len);
                            assert(enc_str(v).len() == dec_chars(v.len()).len() + 1 + v.len());
                        }
                    }
                }
                return Err(Error::Json("truncated string in snapshot".to_owned()));
            }
            let l: usize = n as usize;
            let end: usize = j + l;
            let mut chars: Vec<char> = Vec::new();
            let mut t: usize = j;
            while t < end
                invariant
                    j <= t <= end,
                    end <= inp@.len(),
                    end == j + l,
                    chars@ == inp@.subrange(j as int, t as int),
                decreases end - t,
            {
                chars.push(inp[t]);
                t = t + 1;
                proof {
                    assert(chars@ =~= inp@.subrange(j as int, t as int));
                }
            }
            let s = chars_string(&chars);
            proof {
                assert(inp@.subrange(pos as int, j + l) =~= inp@.subrange(pos as int, j as int)
                    + inp@.subrange(j as int, j + l));
                assert(s@.len() == l);
                assert(inp@.subrange(pos as int, j + l) =~= enc_str(s@));
                assert forall|v: Seq<char>| prefix_at(inp@, pos as int, enc_str(v)) implies s@
                    == v by {
                    assert(v.len() == l);
                    assert(prefix_at(inp@, j as int, v));
                    assert(s@ =~= v) by {
                        assert(forall|q: int| 0 <= q < v.len() ==> inp@.subrange(
                            j as int,
                            j + v.len() as int,
                        )[q] == v[q]);
                        assert(forall|q: int| 0 <= q < l ==> s@[q] == inp@[j + q]);
                        assert(forall|q: int| 0 <= q < v.len() ==> v[q] == inp@[j + q]);
                    }
                }
            }
            Ok((s, j + l))
        },
        Err(e) => {
            proof {
                assert forall|v: Seq<char>| !prefix_at(inp@, pos as int, enc_str(v)) by {
                    if prefix_at(inp@, pos as int, enc_str(v)) {
                        assert(dec_chars((v.len() as u64) as nat) == dec_chars(v.len()));
                    }
                }
            }
            Err(e)
        },
    }
}

/// Read an optional signed number.
fn parse_opt_i64(inp: &Vec<char>, pos: usize) -> (r: Result<(Option<i64>, usize), Error>)
    requires
        pos <= inp@.len(),
    ensures
        match r {
            Ok((o, j)) => pos < j <= inp@.len() && inp@.subrange(pos as int, j as int)
                == enc_opt_i64(o),
            Err(_) => true,
        },
        forall|o: Option<i64>| prefix_at(inp@, pos as int, enc_opt_i64(o)) ==> (match r {
            Ok((p, j)) => p == o && j == pos + enc_opt_i64(o).len(),
            Err(_) => false,
        }),
{
    let len = inp.len();
    if pos >= len {
        proof {
            assert forall|o: Option<i64>| !prefix_at(inp@, pos as int, enc_opt_i64(o)) by {
                if prefix_at(inp@, pos as int, enc_opt_i64(o)) {
                    assert(enc_opt_i64(o).len() >= 1);
                }
            }
        }
        return Err(Error::Json("unexpected end of snapshot".to_owned()));
    }
    proof {
        assert forall|o: Option<i64>| prefix_at(inp@, pos as int, enc_opt_i64(o)) implies inp@[
        pos as int] == enc_opt_i64(o)[0] by {
            assert(inp@.subrange(pos as int, pos + enc_opt_i64(o).len() as int)[0]
                == enc_opt_i64(o)[0]);
        }
        assert('n' as u32 == 110);
        assert('s' as u32 == 115);
    }
    let c = inp[pos];
    if c == 'n' {
        proof {
            assert(inp@.subrange(pos as int, pos + 1) =~= enc_opt_i64(None::<i64>));
            assert forall|o: Option<i64>| prefix_at(inp@, pos as int, enc_opt_i64(o)) implies o
                is None by {
                if o is Some {
                    assert(enc_opt_i64(o)[0] == 's');
                }
            }
        }
        Ok((None, pos + 1))
    } else if c == 's' {
        proof {
            assert forall|o: Option<i64>| prefix_at(inp@, pos as int, enc_opt_i64(o)) implies (o
                is Some && prefix_at(inp@, pos + 1, enc_i64(o.unwrap()))) by {
                if o is None {
                    assert(enc_opt_i64(o)[0] == 'n');
                }
                if o is Some {
                    assert(enc_opt_i64(o) =~= seq!['s'] + enc_i64(o.unwrap()));
                    lemma_prefix_split(inp@, pos as int, seq!['s'], enc_i64(o.unwrap()));
                }
            }
        }
        match parse_i64(inp, pos + 1) {
            Ok((n, j)) => {
                proof {
                    assert(inp@.subrange(pos as int, j as int) =~= seq!['s'] + inp@.subrange(
                        pos + 1,
                        j as int,
                    ));
                    assert(inp@.subrange(pos as int, j as int) =~= enc_opt_i64(Some(n)));
                }
                Ok((Some(n), j))
            },
            Err(e) => Err(e),
        }
    } else {
        proof {
            assert forall|o: Option<i64>| !prefix_at(inp@, pos as int, enc_opt_i64(o)) by {
                if prefix_at(inp@, pos as int, enc_opt_i64(o)) {
                    if o is None {
                        assert(enc_opt_i64(o)[0] == 'n');
                    } else {
                        assert(enc_opt_i64(o)[0] == 's');
                    }
                }
            }
        }
        Err(Error::Json("malformed optional value in snapshot".to_owned()))
    }
}

/// The element encoding is at least as long as the element count.
proof fn lemma_enc_str_list_len(w: Seq<Seq<char>>)
    ensures
        enc_str_list(w).len() >= w.len(),
    decreases w.len(),
{
    if w.len() > 0 {
        lemma_enc_str_list_len(w.skip(1));
        crate::sync::codec::lemma_dec_len(w[0].len());
    }
}

/// Decimal renderings are nonempty.
pub proof fn lemma_dec_len(n: nat)
    ensures
        dec_chars(n).len() >= 1,
    decreases n,
{
    if n >= 10 {
        lemma_dec_len(n / 10);
    }
}

/// The element encoding splits at any position.
proof fn lemma_enc_str_list_split(w: Seq<Seq<char>>, k: int)
    requires
        0 <= k <= w.len(),
    ensures
        enc_str_list(w) == enc_str_list(w.take(k)) + enc_str_list(w.skip(k)),
    decreases k,
{
    if k == 0 {
        assert(w.take(0) =~= Seq::<Seq<char>>::empty());
        assert(w.skip(0) =~= w);
        assert(enc_str_list(w) =~= enc_str_list(w.take(0)) + enc_str_list(w.skip(0)));
    } else {
        assert(w.len() > 0);
        lemma_enc_str_list_split(w.skip(1), k - 1);
        assert(w.take(k)[0] == w[0]);
        assert(w.take(k).skip(1) =~= w.skip(1).take(k - 1));
        assert(enc_str_list(w.take(k)) == enc_str(w[0]) + enc_str_list(w.skip(1).take(k - 1)));
        assert(w.skip(1).skip(k - 1) =~= w.skip(k));
        assert(enc_str_list(w) =~= enc_str_list(w.take(k)) + enc_str_list(w.skip(k)));
    }
}

/// Read a counted list of strings.
fn parse_strs(inp: &Vec<char>, pos: usize) -> (r: Result<(Vec<String>, usize), Error>)
    requires
        pos <= inp@.len(),
    ensures
        match r {
            Ok((v, j)) => pos < j <= inp@.len() && inp@.subrange(pos as int, j as int)
                == enc_strs(v.deep_view()),
            Err(_) => true,
        },
        forall|w: Seq<Seq<char>>| prefix_at(inp@, pos as int, enc_strs(w)) ==> (match r {
            Ok((v, j)) => v.deep_view() == w && j == pos + enc_strs(w).len(),
            Err(_) => false,
        }),
{
    proof {
        assert(!is_digit(';')) by {
            assert(';' as u32 == 59);
        }
        assert(inp@.len() <= usize::MAX) by {
            assert(inp.len() == inp@.len());
        }
        assert forall|w: Seq<Seq<char>>| prefix_at(inp@, pos as int, enc_strs(w)) implies
            prefix_at(inp@, pos as int, dec_chars((w.len() as u64) as nat) + seq![';'])
            && prefix_at(inp@, pos + enc_u64(w.len() as u64).len(), enc_str_list(w)) by {
            lemma_enc_str_list_len(w);
            assert(w.len() <= inp@.len());
            assert(dec_chars((w.len() as u64) as nat) == dec_chars(w.len()));
            assert(enc_strs(w) =~= (dec_chars(w.len()) + seq![';']) + enc_str_list(w));
            lemma_prefix_split(inp@, pos as int, dec_chars(w.len()) + seq![';'], enc_str_list(w));
        }
    }
    let (cnt, start) = match parse_nat(inp, pos, ';') {
        Ok(p) => p,
        Err(e) => {
            return Err(e);
        },
    };
    let mut out: Vec<String> = Vec::new();
    let mut cur: usize = start;
    let mut k: u64 = 0;
    proof {
        assert(out.deep_view() =~= Seq::<Seq<char>>::empty());
        assert(enc_str_list(out.deep_view()) =~= Seq::<char>::empty());
        assert(inp@.subrange(pos as int, cur as int) =~= inp@.subrange(pos as int, cur as int)
            + enc_str_list(out.deep_view()));
        assert forall|w: Seq<Seq<char>>| prefix_at(inp@, pos as int, enc_strs(w)) implies cnt
            == w.len() as u64 && out.deep_view() == w.take(0) by {
            lemma_enc_str_list_len(w);
            assert(w.take(0) =~= Seq::<Seq<char>>::empty());
        }
    }
    while k < cnt
        invariant
            k <= cnt,
            pos < start <= cur <= inp@.len(),
            inp@.len() <= usize::MAX,
            out.deep_view().len() == k as nat,
            inp@.subrange(pos as int, cur as int) == dec_chars(cnt as nat) + seq![';']
                + enc_str_list(out.deep_view()),
            forall|w: Seq<Seq<char>>| #[trigger] prefix_at(inp@, pos as int, enc_strs(w))
                ==> cnt == w.len() as u64 && out.deep_view() == w.take(k as int),
        decreases cnt - k,
    {
        proof {
            assert forall|w: Seq<Seq<char>>| prefix_at(inp@, pos as int, enc_strs(w)) implies
                prefix_at(inp@, cur as int, enc_str(w[k as int])) by {
                lemma_enc_str_list_len(w);
                assert(cnt == w.len() as u64 && out.deep_view() == w.take(k as int));
                assert((k as int) < w.len());
                assert(dec_chars((w.len() as u64) as nat) == dec_chars(w.len()));
                lemma_prefix_split(
                    inp@,
                    pos as int,
                    dec_chars(w.len()) + seq![';'],
                    enc_str_list(w),
                );
                lemma_enc_str_list_split(w, k as int);
                lemma_prefix_split(
                    inp@,
                    pos + (dec_chars(w.len()) + seq![';']).len(),
                    enc_str_list(w.take(k as int)),
                    enc_str_list(w.skip(k as int)),
                );
                assert(enc_str_list(w.skip(k as int)) == enc_str(w.skip(k as int)[0])
                    + enc_str_list(w.skip(k as int).skip(1)));
                assert(w.skip(k as int)[0] == w[k as int]);
                lemma_prefix_split(
                    inp@,
                    pos + (dec_chars(w.len()) + seq![';']).len() + enc_str_list(
                        w.take(k as int),
                    ).len(),
                    enc_str(w[k as int]),
                    enc_str_list(w.skip(k as int).skip(1)),
                );
                assert(cur == pos + (dec_chars(w.len()) + seq![';']).len() + enc_str_list(
                    w.take(k as int),
                ).len()) by {
                    assert(inp@.subrange(pos as int, cur as int).len() == cur - pos);
                    assert(enc_str_list(out.deep_view()) == enc_str_list(w.take(k as int)));
                    assert(dec_chars(cnt as nat) == dec_chars(w.len()));
                }
            }
        }
        let (s, nxt) = match parse_str(inp, cur) {
            Ok(p) => p,
            Err(e) => {
                proof {
                    assert forall|w: Seq<Seq<char>>| !prefix_at(inp@, pos as int, enc_strs(w))
                        by {}
                }
                return Err(e);
            },
        };
        let ghost prev = out.deep_view();
        out.push(s);
        proof {
            assert(out.deep_view() =~= prev.push(s@));
            assert(inp@.subrange(pos as int, nxt as int) =~= inp@.subrange(
                pos as int,
                cur as int,
            ) + inp@.subrange(cur as int, nxt as int));
            assert(enc_str_list(out.deep_view()) =~= enc_str_list(prev) + enc_str(s@)) by {
                lemma_enc_str_list_split(out.deep_view(), prev.len() as int);
                assert(out.deep_view().take(prev.len() as int) =~= prev);
                assert(out.deep_view().skip(prev.len() as int) =~= seq![s@]);
                assert(enc_str_list(seq![s@]) =~= enc_str(s@)) by {
                    assert(seq![s@].len() == 1);
                    assert(seq![s@][0] == s@);
                    assert(seq![s@].skip(1) =~= Seq::<Seq<char>>::empty());
                    assert(enc_str_list(Seq::<Seq<char>>::empty()) == Seq::<char>::empty());
                    assert(enc_str_list(seq![s@]) == enc_str(s@) + Seq::<char>::empty());
                }
            }
            assert(inp@.subrange(pos as int, nxt as int) =~= dec_chars(cnt as nat) + seq![';']
                + enc_str_list(out.deep_view()));
            assert forall|w: Seq<Seq<char>>| prefix_at(inp@, pos as int, enc_strs(w)) implies
                out.deep_view() == w.take(k + 1) by {
                assert(prefix_at(inp@, cur as int, enc_str(w[k as int])));
                assert(s@ == w[k as int]);
                assert(w.take(k + 1) =~= w.take(k as int).push(w[k as int]));
            }
        }
        cur = nxt;
        k = k + 1;
    }
    proof {
        assert(out.deep_view().len() == cnt as nat);
        assert(inp@.subrange(pos as int, cur as int) =~= enc_strs(out.deep_view()));
        assert(inp@.len() <= usize::MAX) by {
            assert(inp.len() == inp@.len());
        }
        assert forall|w: Seq<Seq<char>>| prefix_at(inp@, pos as int, enc_strs(w)) implies
            out.deep_view() == w && cur == pos + enc_strs(w).len() by {
            lemma_enc_str_list_len(w);
            assert(out.deep_view() == w.take(w.len() as int));
            assert(w.take(w.len() as int) =~= w);
            assert(inp@.subrange(pos as int, cur as int).len() == cur - pos);
            assert(dec_chars(cnt as nat) == dec_chars(w.len()));
            assert(enc_str_list(out.deep_view()) == enc_str_list(w));
        }
    }
    Ok((out, cur))
}

/// The view of a raw entry vector.
pub open spec fn entries_view(entries: Seq<(u64, SyncedItem)>) -> Seq<(u64, SyncedItemV)> {
    Seq::new(entries.len(), |i: int| (entries[i].0, entries[i].1@))
}

/// The entry encoding splits at any position.
proof fn lemma_enc_items_split(w: Seq<(u64, SyncedItemV)>, k: int)
    requires
        0 <= k <= w.len(),
    ensures
        enc_items(w) == enc_items(w.take(k)) + enc_items(w.skip(k)),
    decreases k,
{
    if k == 0 {
        assert(w.take(0) =~= Seq::<(u64, SyncedItemV)>::empty());
        assert(w.skip(0) =~= w);
        assert(enc_items(w) =~= enc_items(w.take(0)) + enc_items(w.skip(0)));
    } else {
        lemma_enc_items_split(w.skip(1), k - 1);
        assert(w.take(k)[0] == w[0]);
        assert(w.take(k).skip(1) =~= w.skip(1).take(k - 1));
        assert(enc_items(w.take(k)) == enc_item(w[0]) + enc_items(w.skip(1).take(k - 1)));
        assert(w.skip(1).skip(k - 1) =~= w.skip(k));
        assert(enc_items(w) =~= enc_items(w.take(k)) + enc_items(w.skip(k)));
    }
}

/// Entry encodings are nonempty, so the count is bounded by the text.
proof fn lemma_enc_items_len(w: Seq<(u64, SyncedItemV)>)
    ensures
        enc_items(w).len() >= w.len(),
    decreases w.len(),
{
    if w.len() > 0 {
        lemma_enc_items_len(w.skip(1));
        lemma_dec_len(w[0].0 as nat);
    }
}

/// The pending encoding splits at any position.
proof fn lemma_enc_pendings_split(w: Seq<PendingCreateV>, k: int)
    requires
        0 <= k <= w.len(),
    ensures
        enc_pendings(w) == enc_pendings(w.take(k)) + enc_pendings(w.skip(k)),
    decreases k,
{
    if k == 0 {
        assert(w.take(0) =~= Seq::<PendingCreateV>::empty());
        assert(w.skip(0) =~= w);
        assert(enc_pendings(w) =~= enc_pendings(w.take(0)) + enc_pendings(w.skip(0)));
    } else {
        lemma_enc_pendings_split(w.skip(1), k - 1);
        assert(w.take(k)[0] == w[0]);
        assert(w.take(k).skip(1) =~= w.skip(1).take(k - 1));
        assert(enc_pendings(w.take(k)) == enc_pending(w[0]) + enc_pendings(
            w.skip(1).take(k - 1),
        ));
        assert(w.skip(1).skip(k - 1) =~= w.skip(k));
        assert(enc_pendings(w) =~= enc_pendings(w.take(k)) + enc_pendings(w.skip(k)));
    }
}

/// Pending encodings are nonempty.
proof fn lemma_enc_pendings_len(w: Seq<PendingCreateV>)
    ensures
        enc_pendings(w).len() >= w.len(),
    decreases w.len(),
{
    if w.len() > 0 {
        lemma_enc_pendings_len(w.skip(1));
        lemma_dec_len(w[0].org_heading_id.len());
    }
}

/// The key and the four text fields of one entry.
pub open spec fn enc_item_head(e: (u64, SyncedItemV)) -> Seq<char> {
    enc_u64(e.0) + enc_str(e.1.org_heading_id) + enc_str(e.1.title) + enc_str(e.1.body_hash)
        + enc_str(e.1.state)
}

/// The two sets and the two timestamps of one entry.
pub open spec fn enc_item_tail(it: SyncedItemV) -> Seq<char> {
    enc_strs(it.assignees) + enc_strs(it.labels) + enc_i64(it.gh_updated_at) + enc_opt_i64(
        it.org_updated_at,
    )
}

/// An entry encoding is its head followed by its tail.
proof fn lemma_enc_item_parts(e: (u64, SyncedItemV))
    ensures
        enc_item(e) == enc_item_head(e) + enc_item_tail(e.1),
{
    assert(enc_item(e) =~= enc_item_head(e) + enc_item_tail(e.1));
}

/// Read the key and the four text fields of one entry.
#[verifier::rlimit(100)]
#[verifier::spinoff_prover]
fn parse_item_head(inp: &Vec<char>, pos: usize) -> (r: Result<
    (u64, String, String, String, String, usize),
    Error,
>)
    requires
        pos <= inp@.len(),
    ensures
        match r {
            Ok((key, id, title, hash, state, j)) => pos < j <= inp@.len() && inp@.subrange(
                pos as int,
                j as int,
            ) == enc_u64(key) + enc_str(id@) + enc_str(title@) + enc_str(hash@) + enc_str(
                state@,
            ),
            Err(_) => true,
        },
        forall|e: (u64, SyncedItemV)| #[trigger] prefix_at(inp@, pos as int, enc_item_head(e))
            ==> (match r {
            Ok((key, id, title, hash, state, j)) => key == e.0 && id@ == e.1.org_heading_id
                && title@ == e.1.title && hash@ == e.1.body_hash && state@ == e.1.state && j
                == pos + enc_item_head(e).len(),
            Err(_) => false,
        }),
{
    proof {
        assert(!is_digit(';')) by {
            assert(';' as u32 == 59);
        }
        assert forall|e: (u64, SyncedItemV)| #[trigger] prefix_at(
            inp@,
            pos as int,
            enc_item_head(e),
        ) implies {
            let p1 = enc_u64(e.0);
            let p2 = enc_str(e.1.org_heading_id);
            let p3 = enc_str(e.1.title);
            let p4 = enc_str(e.1.body_hash);
            let p5 = enc_str(e.1.state);
            &&& prefix_at(inp@, pos as int, p1)
            &&& prefix_at(inp@, pos + p1.len(), p2)
            &&& prefix_at(inp@, pos + p1.len() + p2.len(), p3)
            &&& prefix_at(inp@, pos + p1.len() + p2.len() + p3.len(), p4)
            &&& prefix_at(inp@, pos + p1.len() + p2.len() + p3.len() + p4.len(), p5)
        } by {
            let p1 = enc_u64(e.0);
            let p2 = enc_str(e.1.org_heading_id);
            let p3 = enc_str(e.1.title);
            let p4 = enc_str(e.1.body_hash);
            let p5 = enc_str(e.1.state);
            lemma_prefix_split(inp@, pos as int, p1 + p2 + p3 + p4, p5);
            lemma_prefix_split(inp@, pos as int, p1 + p2 + p3, p4);
            lemma_prefix_split(inp@, pos as int, p1 + p2, p3);
            lemma_prefix_split(inp@, pos as int, p1, p2);
        }
    }
    let (key, c1) = match parse_nat(inp, pos, ';') {
        Ok(p) => p,
        Err(e) => {
            return Err(e);
        },
    };
    let (id, c2) = match parse_str(inp, c1) {
        Ok(p) => p,
        Err(e) => {
            return Err(e);
        },
    };
    let (title, c3) = match parse_str(inp, c2) {
        Ok(p) => p,
        Err(e) => {
            return Err(e);
        },
    };
    let (hash, c4) = match parse_str(inp, c3) {
        Ok(p) => p,
        Err(e) => {
            return Err(e);
        },
    };
    let (state, c5) = match parse_str(inp, c4) {
        Ok(p) => p,
        Err(e) => {
            return Err(e);
        },
    };
    proof {
        assert(inp@.subrange(pos as int, c2 as int) =~= inp@.subrange(pos as int, c1 as int)
            + inp@.subrange(c1 as int, c2 as int));
        assert(inp@.subrange(pos as int, c3 as int) =~= inp@.subrange(pos as int, c2 as int)
            + inp@.subrange(c2 as int, c3 as int));
        assert(inp@.subrange(pos as int, c4 as int) =~= inp@.subrange(pos as int, c3 as int)
            + inp@.subrange(c3 as int, c4 as int));
        assert(inp@.subrange(pos as int, c5 as int) =~= inp@.subrange(pos as int, c4 as int)
            + inp@.subrange(c4 as int, c5 as int));
    }
    Ok((key, id, title, hash, state, c5))
}

/// Read the sets and the timestamps of one entry.
#[verifier::rlimit(100)]
#[verifier::spinoff_prover]
fn parse_item_tail(inp: &Vec<char>, pos: usize) -> (r: Result<
    (Vec<String>, Vec<String>, i64, Option<i64>, usize),
    Error,
>)
    requires
        pos <= inp@.len(),
    ensures
        match r {
            Ok((a, l, g, o, j)) => pos < j <= inp@.len() && inp@.subrange(pos as int, j as int)
                == enc_strs(a.deep_view()) + enc_strs(l.deep_view()) + enc_i64(g) + enc_opt_i64(
                o,
            ),
            Err(_) => true,
        },
        forall|it: SyncedItemV| #[trigger] prefix_at(inp@, pos as int, enc_item_tail(it)) ==> (
        match r {
            Ok((a, l, g, o, j)) => a.deep_view() == it.assignees && l.deep_view() == it.labels
                && g == it.gh_updated_at && o == it.org_updated_at && j == pos + enc_item_tail(
                it,
            ).len(),
            Err(_) => false,
        }),
{
    proof {
        assert forall|it: SyncedItemV| #[trigger] prefix_at(inp@, pos as int, enc_item_tail(it))
            implies {
            let p6 = enc_strs(it.assignees);
            let p7 = enc_strs(it.labels);
            let p8 = enc_i64(it.gh_updated_at);
            let p9 = enc_opt_i64(it.org_updated_at);
            &&& prefix_at(inp@, pos as int, p6)
            &&& prefix_at(inp@, pos + p6.len(), p7)
            &&& prefix_at(inp@, pos + p6.len() + p7.len(), p8)
            &&& prefix_at(inp@, pos + p6.len() + p7.len() + p8.len(), p9)
        } by {
            let p6 = enc_strs(it.assignees);
            let p7 = enc_strs(it.labels);
            let p8 = enc_i64(it.gh_updated_at);
            let p9 = enc_opt_i64(it.org_updated_at);
            lemma_prefix_split(inp@, pos as int, p6 + p7 + p8, p9);
            lemma_prefix_split(inp@, pos as int, p6 + p7, p8);
            lemma_prefix_split(inp@, pos as int, p6, p7);
        }
    }
    let (assignees, c6) = match parse_strs(inp, pos) {
        Ok(p) => p,
        Err(e) => {
            return Err(e);
        },
    };
    let (labels, c7) = match parse_strs(inp, c6) {
        Ok(p) => p,
        Err(e) => {
            return Err(e);
        },
    };
    let (gh_updated_at, c8) = match parse_i64(inp, c7) {
        Ok(p) => p,
        Err(e) => {
            return Err(e);
        },
    };
    let (org_updated_at, c9) = match parse_opt_i64(inp, c8) {
        Ok(p) => p,
        Err(e) => {
            return Err(e);
        },
    };
    proof {
        assert(inp@.subrange(pos as int, c7 as int) =~= inp@.subrange(pos as int, c6 as int)
            + inp@.subrange(c6 as int, c7 as int));
        assert(inp@.subrange(pos as int, c8 as int) =~= inp@.subrange(pos as int, c7 as int)
            + inp@.subrange(c7 as int, c8 as int));
        assert(inp@.subrange(pos as int, c9 as int) =~= inp@.subrange(pos as int, c8 as int)
            + inp@.subrange(c8 as int, c9 as int));
    }
    Ok((assignees, labels, gh_updated_at, org_updated_at, c9))
}

/// Read one base-state entry.
#[verifier::rlimit(100)]
#[verifier::spinoff_prover]
fn parse_item(inp: &Vec<char>, pos: usize) -> (r: Result<(u64, SyncedItem, usize), Error>)
    requires
        pos <= inp@.len(),
    ensures
        match r {
            Ok((key, it, j)) => pos < j <= inp@.len() && inp@.subrange(pos as int, j as int)
                == enc_item((key, it@)),
            Err(_) => true,
        },
        forall|e: (u64, SyncedItemV)| #[trigger] prefix_at(inp@, pos as int, enc_item(e)) ==> (
        match r {
            Ok((key, it, j)) => key == e.0 && it@ == e.1 && j == pos + enc_item(e).len(),
            Err(_) => false,
        }),
{
    proof {
        assert forall|e: (u64, SyncedItemV)| #[trigger] prefix_at(inp@, pos as int, enc_item(e))
            implies prefix_at(inp@, pos as int, enc_item_head(e)) && prefix_at(
            inp@,
            pos + enc_item_head(e).len(),
            enc_item_tail(e.1),
        ) by {
            lemma_enc_item_parts(e);
            lemma_prefix_split(inp@, pos as int, enc_item_head(e), enc_item_tail(e.1));
        }
    }
    let (key, id, title, hash, state, c5) = match parse_item_head(inp, pos) {
        Ok(p) => p,
        Err(e) => {
            return Err(e);
        },
    };
    let (assignees, labels, gh_updated_at, org_updated_at, c9) = match parse_item_tail(inp, c5) {
        Ok(p) => p,
        Err(e) => {
            return Err(e);
        },
    };
    let it = SyncedItem {
        org_heading_id: id,
        title,
        body_hash: hash,
        state,
        assignees,
        labels,
        gh_updated_at,
        org_updated_at,
    };
    proof {
        assert(inp@.subrange(pos as int, c9 as int) =~= inp@.subrange(pos as int, c5 as int)
            + inp@.subrange(c5 as int, c9 as int));
        lemma_enc_item_parts((key, it@));
        assert(inp@.subrange(pos as int, c9 as int) == enc_item((key, it@)));
        assert forall|e: (u64, SyncedItemV)| #[trigger] prefix_at(inp@, pos as int, enc_item(e))
            implies key == e.0 && it@ == e.1 && c9 == pos + enc_item(e).len() by {
            lemma_enc_item_parts(e);
        }
    }
    Ok((key, it, c9))
}

/// Read the counted, key-ordered entry list.
#[verifier::rlimit(100)]
#[verifier::spinoff_prover]
fn parse_items(inp: &Vec<char>, pos: usize) -> (r: Result<(Vec<(u64, SyncedItem)>, usize), Error>)
    requires
        pos <= inp@.len(),
    ensures
        match r {
            Ok((es, j)) => pos < j <= inp@.len() && entries_sorted(entries_view(es@))
                && inp@.subrange(pos as int, j as int) == enc_u64(es@.len() as u64) + enc_items(
                entries_view(es@),
            ),
            Err(_) => true,
        },
        forall|w: Seq<(u64, SyncedItemV)>|
            entries_sorted(w) && #[trigger] prefix_at(
                inp@,
                pos as int,
                enc_u64(w.len() as u64) + enc_items(w),
            ) ==> (match r {
                Ok((es, j)) => entries_view(es@) == w && j == pos + (enc_u64(w.len() as u64)
                    + enc_items(w)).len(),
                Err(_) => false,
            }),
{
    proof {
        assert(!is_digit(';')) by {
            assert(';' as u32 == 59);
        }
        assert(inp@.len() <= usize::MAX) by {
            assert(inp.len() == inp@.len());
        }
        assert forall|w: Seq<(u64, SyncedItemV)>|
            entries_sorted(w) && #[trigger] prefix_at(
                inp@,
                pos as int,
                enc_u64(w.len() as u64) + enc_items(w),
            ) implies prefix_at(inp@, pos as int, dec_chars((w.len() as u64) as nat) + seq![';'])
            && prefix_at(inp@, pos + enc_u64(w.len() as u64).len(), enc_items(w)) by {
            lemma_prefix_split(inp@, pos as int, enc_u64(w.len() as u64), enc_items(w));
        }
    }
    let (cnt, start) = match parse_nat(inp, pos, ';') {
        Ok(p) => p,
        Err(e) => {
            return Err(e);
        },
    };
    let mut entries: Vec<(u64, SyncedItem)> = Vec::new();
    let mut cur: usize = start;
    let mut k: u64 = 0;
    proof {
        assert(entries_view(entries@) =~= Seq::<(u64, SyncedItemV)>::empty());
        assert(enc_items(entries_view(entries@)) =~= Seq::<char>::empty());
        assert(inp@.subrange(start as int, cur as int) =~= Seq::<char>::empty());
        assert forall|w: Seq<(u64, SyncedItemV)>|
            entries_sorted(w) && #[trigger] prefix_at(
                inp@,
                pos as int,
                enc_u64(w.len() as u64) + enc_items(w),
            ) implies cnt == w.len() as u64 && entries_view(entries@) == w.take(0) by {
            lemma_enc_items_len(w);
            assert(w.take(0) =~= Seq::<(u64, SyncedItemV)>::empty());
        }
    }
    while k < cnt
        invariant
            k <= cnt,
            pos < start <= cur <= inp@.len(),
            inp@.len() <= usize::MAX,
            entries_view(entries@).len() == k as nat,
            entries@.len() == k as nat,
            entries_sorted(entries_view(entries@)),
            inp@.subrange(pos as int, cur as int) == dec_chars(cnt as nat) + seq![';']
                + enc_items(entries_view(entries@)),
            forall|w: Seq<(u64, SyncedItemV)>|
                entries_sorted(w) && #[trigger] prefix_at(
                    inp@,
                    pos as int,
                    enc_u64(w.len() as u64) + enc_items(w),
                ) ==> cnt == w.len() as u64 && entries_view(entries@) == w.take(k as int),
        decreases cnt - k,
    {
        proof {
            assert forall|w: Seq<(u64, SyncedItemV)>|
                entries_sorted(w) && #[trigger] prefix_at(
                    inp@,
                    pos as int,
                    enc_u64(w.len() as u64) + enc_items(w),
                ) implies prefix_at(inp@, cur as int, enc_item(w[k as int])) by {
                lemma_enc_items_len(w);
                assert(cnt == w.len() as u64 && entries_view(entries@) == w.take(k as int));
                assert((k as int) < w.len());
                lemma_prefix_split(inp@, pos as int, enc_u64(w.len() as u64), enc_items(w));
                lemma_enc_items_split(w, k as int);
                lemma_prefix_split(
                    inp@,
                    pos + enc_u64(w.len() as u64).len(),
                    enc_items(w.take(k as int)),
                    enc_items(w.skip(k as int)),
                );
                assert(enc_items(w.skip(k as int)) == enc_item(w.skip(k as int)[0]) + enc_items(
                    w.skip(k as int).skip(1),
                ));
                assert(w.skip(k as int)[0] == w[k as int]);
                lemma_prefix_split(
                    inp@,
                    pos + enc_u64(w.len() as u64).len() + enc_items(w.take(k as int)).len(),
                    enc_item(w[k as int]),
                    enc_items(w.skip(k as int).skip(1)),
                );
                assert(cur == pos + enc_u64(w.len() as u64).len() + enc_items(
                    w.take(k as int),
                ).len()) by {
                    assert(inp@.subrange(pos as int, cur as int).len() == cur - pos);
                    assert(enc_items(entries_view(entries@)) == enc_items(w.take(k as int)));
                    assert(dec_chars(cnt as nat) == dec_chars((w.len() as u64) as nat));
                }
            }
        }
        let (key, it, nxt) = match parse_item(inp, cur) {
            Ok(p) => p,
            Err(e) => {
                return Err(e);
            },
        };
        if entries.len() > 0 {
            let last_key = entries[entries.len() - 1].0;
            if key <= last_key {
                proof {
                    assert forall|w: Seq<(u64, SyncedItemV)>|
                        !(entries_sorted(w) && #[trigger] prefix_at(
                            inp@,
                            pos as int,
                            enc_u64(w.len() as u64) + enc_items(w),
                        )) by {
                        if entries_sorted(w) && prefix_at(
                            inp@,
                            pos as int,
                            enc_u64(w.len() as u64) + enc_items(w),
                        ) {
                            assert(prefix_at(inp@, cur as int, enc_item(w[k as int])));
                            assert(key == w[k as int].0);
                            assert(entries_view(entries@)[k - 1] == w.take(k as int)[k - 1]);
                            assert(entries_view(entries@)[k - 1].0 == last_key);
                            assert(w.take(k as int)[k - 1] == w[k - 1]);
                            assert(w[k - 1].0 < w[k as int].0);
                        }
                    }
                }
                return Err(Error::Json("snapshot entries out of order".to_owned()));
            }
        }
        let ghost prev = entries_view(entries@);
        let ghost old_cur = cur;
        entries.push((key, it));
        cur = nxt;
        k = k + 1;
        proof {
            assert(entries_view(entries@) =~= prev.push((key, it@)));
            assert(entries_sorted(entries_view(entries@))) by {
                let nv = entries_view(entries@);
                assert forall|a: int, b: int| 0 <= a < b < nv.len() implies (
                #[trigger] nv[a]).0 < (#[trigger] nv[b]).0 by {
                    if b < nv.len() - 1 {
                        assert(nv[a] == prev[a] && nv[b] == prev[b]);
                    } else {
                        assert(nv[b] == (key, it@));
                        assert(nv[a] == prev[a]);
                        assert(prev.len() > 0);
                        assert(key > prev[prev.len() - 1].0);
                        if a < prev.len() - 1 {
                            assert(prev[a].0 < prev[prev.len() - 1].0);
                        }
                    }
                }
            }
            assert(inp@.subrange(pos as int, cur as int) =~= inp@.subrange(
                pos as int,
                old_cur as int,
            ) + inp@.subrange(old_cur as int, cur as int));
            assert(enc_items(entries_view(entries@)) =~= enc_items(prev) + enc_item(
                (key, it@),
            )) by {
                lemma_enc_items_split(entries_view(entries@), prev.len() as int);
                assert(entries_view(entries@).take(prev.len() as int) =~= prev);
                assert(entries_view(entries@).skip(prev.len() as int) =~= seq![(key, it@)]);
                assert(enc_items(seq![(key, it@)]) =~= enc_item((key, it@))) by {
                    assert(seq![(key, it@)].skip(1) =~= Seq::<(u64, SyncedItemV)>::empty());
                    assert(enc_items(Seq::<(u64, SyncedItemV)>::empty()) == Seq::<
                        char,
                    >::empty());
                }
            }
            assert(inp@.subrange(pos as int, cur as int) =~= dec_chars(cnt as nat) + seq![';']
                + enc_items(entries_view(entries@)));
            assert forall|w: Seq<(u64, SyncedItemV)>|
                entries_sorted(w) && #[trigger] prefix_at(
                    inp@,
                    pos as int,
                    enc_u64(w.len() as u64) + enc_items(w),
                ) implies entries_view(entries@) == w.take(k as int) by {
                assert(prefix_at(inp@, old_cur as int, enc_item(w[k - 1])));
                assert(key == w[k - 1].0 && it@ == w[k - 1].1);
                assert(w.take(k as int) =~= w.take(k - 1).push(w[k - 1]));
            }
        }
    }
    proof {
        assert(entries@.len() as u64 == cnt);
        assert(inp@.subrange(pos as int, cur as int) =~= enc_u64(entries@.len() as u64)
            + enc_items(entries_view(entries@)));
        assert forall|w: Seq<(u64, SyncedItemV)>|
            entries_sorted(w) && #[trigger] prefix_at(
                inp@,
                pos as int,
                enc_u64(w.len() as u64) + enc_items(w),
            ) implies entries_view(entries@) == w && cur == pos + (enc_u64(w.len() as u64)
            + enc_items(w)).len() by {
            lemma_enc_items_len(w);
            assert(entries_view(entries@) == w.take(w.len() as int));
            assert(w.take(w.len() as int) =~= w);
            assert(inp@.subrange(pos as int, cur as int).len() == cur - pos);
            assert(dec_chars(cnt as nat) == dec_chars((w.len() as u64) as nat));
            assert(enc_items(entries_view(entries@)) == enc_items(w));
        }
    }
    Ok((entries, cur))
}

/// Read the counted pending-create list.
#[verifier::rlimit(100)]
#[verifier::spinoff_prover]
fn parse_pendings(inp: &Vec<char>, pos: usize) -> (r: Result<(Vec<PendingCreate>, usize), Error>)
    requires
        pos <= inp@.len(),
    ensures
        match r {
            Ok((ps, j)) => pos < j <= inp@.len() && inp@.subrange(pos as int, j as int)
                == enc_u64(ps@.len() as u64) + enc_pendings(ps.deep_view()),
            Err(_) => true,
        },
        forall|w: Seq<PendingCreateV>| #[trigger] prefix_at(
            inp@,
            pos as int,
            enc_u64(w.len() as u64) + enc_pendings(w),
        ) ==> (match r {
            Ok((ps, j)) => ps.deep_view() == w && j == pos + (enc_u64(w.len() as u64)
                + enc_pendings(w)).len(),
            Err(_) => false,
        }),
{
    proof {
        assert(!is_digit(';')) by {
            assert(';' as u32 == 59);
        }
        assert(inp@.len() <= usize::MAX) by {
            assert(inp.len() == inp@.len());
        }
        assert forall|w: Seq<PendingCreateV>| #[trigger] prefix_at(
            inp@,
            pos as int,
            enc_u64(w.len() as u64) + enc_pendings(w),
        ) implies prefix_at(inp@, pos as int, dec_chars((w.len() as u64) as nat) + seq![';'])
            && prefix_at(inp@, pos + enc_u64(w.len() as u64).len(), enc_pendings(w)) by {
            lemma_enc_pendings_len(w);
            lemma_prefix_split(inp@, pos as int, enc_u64(w.len() as u64), enc_pendings(w));
        }
    }
    let (cnt, start) = match parse_nat(inp, pos, ';') {
        Ok(p) => p,
        Err(e) => {
            return Err(e);
        },
    };
    let mut out: Vec<PendingCreate> = Vec::new();
    let mut cur: usize = start;
    let mut k: u64 = 0;
    proof {
        assert(out.deep_view() =~= Seq::<PendingCreateV>::empty());
        assert(enc_pendings(out.deep_view()) =~= Seq::<char>::empty());
        assert forall|w: Seq<PendingCreateV>| #[trigger] prefix_at(
            inp@,
            pos as int,
            enc_u64(w.len() as u64) + enc_pendings(w),
        ) implies cnt == w.len() as u64 && out.deep_view() == w.take(0) by {
            lemma_enc_pendings_len(w);
            assert(w.take(0) =~= Seq::<PendingCreateV>::empty());
        }
    }
    while k < cnt
        invariant
            k <= cnt,
            pos < start <= cur <= inp@.len(),
            inp@.len() <= usize::MAX,
            out.deep_view().len() == k as nat,
            out@.len() == k as nat,
            inp@.subrange(pos as int, cur as int) == dec_chars(cnt as nat) + seq![';']
                + enc_pendings(out.deep_view()),
            forall|w: Seq<PendingCreateV>| #[trigger] prefix_at(
                inp@,
                pos as int,
                enc_u64(w.len() as u64) + enc_pendings(w),
            ) ==> cnt == w.len() as u64 && out.deep_view() == w.take(k as int),
        decreases cnt - k,
    {
        proof {
            assert forall|w: Seq<PendingCreateV>| #[trigger] prefix_at(
                inp@,
                pos as int,
                enc_u64(w.len() as u64) + enc_pendings(w),
            ) implies prefix_at(
                inp@,
                cur as int,
                enc_str(w[k as int].org_heading_id),
            ) && prefix_at(
                inp@,
                cur + enc_str(w[k as int].org_heading_id).len(),
                enc_str(w[k as int].title),
            ) by {
                lemma_enc_pendings_len(w);
                assert(cnt == w.len() as u64 && out.deep_view() == w.take(k as int));
                assert((k as int) < w.len());
                lemma_prefix_split(inp@, pos as int, enc_u64(w.len() as u64), enc_pendings(w));
                lemma_enc_pendings_split(w, k as int);
                lemma_prefix_split(
                    inp@,
                    pos + enc_u64(w.len() as u64).len(),
                    enc_pendings(w.take(k as int)),
                    enc_pendings(w.skip(k as int)),
                );
                assert(enc_pendings(w.skip(k as int)) == enc_pending(w.skip(k as int)[0])
                    + enc_pendings(w.skip(k as int).skip(1)));
                assert(w.skip(k as int)[0] == w[k as int]);
                lemma_prefix_split(
                    inp@,
                    pos + enc_u64(w.len() as u64).len() + enc_pendings(w.take(k as int)).len(),
                    enc_pending(w[k as int]),
                    enc_pendings(w.skip(k as int).skip(1)),
                );
                assert(cur == pos + enc_u64(w.len() as u64).len() + enc_pendings(
                    w.take(k as int),
                ).len()) by {
                    assert(inp@.subrange(pos as int, cur as int).len() == cur - pos);
                    assert(enc_pendings(out.deep_view()) == enc_pendings(w.take(k as int)));
                    assert(dec_chars(cnt as nat) == dec_chars((w.len() as u64) as nat));
                }
                lemma_prefix_split(
                    inp@,
                    cur as int,
                    enc_str(w[k as int].org_heading_id),
                    enc_str(w[k as int].title),
                );
            }
        }
        let (org_heading_id, n1) = match parse_str(inp, cur) {
            Ok(p) => p,
            Err(e) => {
                return Err(e);
            },
        };
        let (title, n2) = match parse_str(inp, n1) {
            Ok(p) => p,
            Err(e) => {
                return Err(e);
            },
        };
        let ghost prev = out.deep_view();
        let ghost old_cur = cur;
        let p = PendingCreate { org_heading_id, title };
        let ghost pv = p@;
        out.push(p);
        cur = n2;
        k = k + 1;
        proof {
            assert(out.deep_view() =~= prev.push(pv));
            assert(inp@.subrange(old_cur as int, n2 as int) =~= inp@.subrange(
                old_cur as int,
                n1 as int,
            ) + inp@.subrange(n1 as int, n2 as int));
            assert(inp@.subrange(old_cur as int, cur as int) == enc_pending(pv));
            assert(inp@.subrange(pos as int, cur as int) =~= inp@.subrange(
                pos as int,
                old_cur as int,
            ) + inp@.subrange(old_cur as int, cur as int));
            assert(enc_pendings(out.deep_view()) =~= enc_pendings(prev) + enc_pending(pv)) by {
                lemma_enc_pendings_split(out.deep_view(), prev.len() as int);
                assert(out.deep_view().take(prev.len() as int) =~= prev);
                assert(out.deep_view().skip(prev.len() as int) =~= seq![pv]);
                assert(enc_pendings(seq![pv]) =~= enc_pending(pv)) by {
                    assert(seq![pv].skip(1) =~= Seq::<PendingCreateV>::empty());
                    assert(enc_pendings(Seq::<PendingCreateV>::empty()) == Seq::<
                        char,
                    >::empty());
                }
            }
            assert(inp@.subrange(pos as int, cur as int) =~= dec_chars(cnt as nat) + seq![';']
                + enc_pendings(out.deep_view()));
            assert forall|w: Seq<PendingCreateV>| #[trigger] prefix_at(
                inp@,
                pos as int,
                enc_u64(w.len() as u64) + enc_pendings(w),
            ) implies out.deep_view() == w.take(k as int) by {
                assert(prefix_at(inp@, old_cur as int, enc_str(w[k - 1].org_heading_id)));
                assert(prefix_at(
                    inp@,
                    old_cur + enc_str(w[k - 1].org_heading_id).len(),
                    enc_str(w[k - 1].title),
                ));
                assert(pv.org_heading_id == w[k - 1].org_heading_id);
                assert(pv.title == w[k - 1].title);
                assert(pv == w[k - 1]);
                assert(w.take(k as int) =~= w.take(k - 1).push(w[k - 1]));
            }
        }
    }
    proof {
        assert(out@.len() as u64 == cnt);
        assert(inp@.subrange(pos as int, cur as int) =~= enc_u64(out@.len() as u64)
            + enc_pendings(out.deep_view()));
        assert forall|w: Seq<PendingCreateV>| #[trigger] prefix_at(
            inp@,
            pos as int,
            enc_u64(w.len() as u64) + enc_pendings(w),
        ) implies out.deep_view() == w && cur == pos + (enc_u64(w.len() as u64)
            + enc_pendings(w)).len() by {
            lemma_enc_pendings_len(w);
            assert(out.deep_view() == w.take(w.len() as int));
            assert(w.take(w.len() as int) =~= w);
            assert(inp@.subrange(pos as int, cur as int).len() == cur - pos);
            assert(dec_chars(cnt as nat) == dec_chars((w.len() as u64) as nat));
            assert(enc_pendings(out.deep_view()) == enc_pendings(w));
        }
    }
    Ok((out, cur))
}

/// Read a persisted snapshot back. Exactly the encodings of well-formed
/// snapshots are accepted: whatever comes back `Ok` re-encodes to the very
/// input, and on the encoding of any well-formed snapshot the result is
/// that snapshot — so a snapshot saved and loaded reproduces identical
/// entries for every record number.
#[verifier::rlimit(100)]
#[verifier::spinoff_prover]
pub fn decode_snapshot(text: &str) -> (r: Result<SyncState, Error>)
    ensures
        match r {
            Ok(st) => st.wf() && spec_encode(st@) == text@,
            Err(_) => true,
        },
        forall|v: SyncStateV|
            entries_sorted(v.items) && text@ == spec_encode(v) ==> (match r {
                Ok(st) => st@ == v,
                Err(_) => false,
            }),
{
    let inp = str_chars(text);
    proof {
        assert(inp@.len() <= usize::MAX) by {
            assert(inp.len() == inp@.len());
        }
        assert(!is_digit(';')) by {
            assert(';' as u32 == 59);
        }
        assert forall|v: SyncStateV| entries_sorted(v.items) && text@ == spec_encode(v) implies {
            let h1 = enc_u64(v.version as u64);
            let h2 = enc_str(v.repo);
            let h3 = enc_opt_i64(v.last_sync);
            let g4 = enc_u64(v.items.len() as u64) + enc_items(v.items);
            let g5 = enc_u64(v.pending_creates.len() as u64) + enc_pendings(v.pending_creates);
            &&& prefix_at(inp@, 0, h1)
            &&& prefix_at(inp@, h1.len() as int, h2)
            &&& prefix_at(inp@, h1.len() as int + h2.len(), h3)
            &&& prefix_at(inp@, h1.len() as int + h2.len() + h3.len(), g4)
            &&& prefix_at(inp@, h1.len() as int + h2.len() + h3.len() + g4.len(), g5)
            &&& inp@.len() == h1.len() + h2.len() + h3.len() + g4.len() + g5.len()
        } by {
            let h1 = enc_u64(v.version as u64);
            let h2 = enc_str(v.repo);
            let h3 = enc_opt_i64(v.last_sync);
            let g4 = enc_u64(v.items.len() as u64) + enc_items(v.items);
            let g5 = enc_u64(v.pending_creates.len() as u64) + enc_pendings(v.pending_creates);
            assert(spec_encode(v) == h1 + h2 + h3 + g4 + g5) by {
                assert(spec_encode(v) =~= h1 + h2 + h3 + g4 + g5);
            }
            assert(prefix_at(inp@, 0, spec_encode(v))) by {
                assert(inp@.subrange(0, spec_encode(v).len() as int) =~= inp@);
            }
            lemma_prefix_split(inp@, 0, h1 + h2 + h3 + g4, g5);
            lemma_prefix_split(inp@, 0, h1 + h2 + h3, g4);
            lemma_prefix_split(inp@, 0, h1 + h2, h3);
            lemma_prefix_split(inp@, 0, h1, h2);
        }
    }
    let (version_wide, c1) = match parse_nat(&inp, 0, ';') {
        Ok(p) => p,
        Err(e) => {
            return Err(e);
        },
    };
    if version_wide > 0xffff_ffff {
        proof {
            assert forall|v: SyncStateV| !(entries_sorted(v.items) && text@ == spec_encode(v))
                by {
                if entries_sorted(v.items) && text@ == spec_encode(v) {
                    assert(prefix_at(inp@, 0, enc_u64(v.version as u64)));
                }
            }
        }
        return Err(Error::Json("unsupported snapshot version".to_owned()));
    }
    let version: u32 = version_wide as u32;
    let (repo, c2) = match parse_str(&inp, c1) {
        Ok(p) => p,
        Err(e) => {
            return Err(e);
        },
    };
    let (last_sync, c3) = match parse_opt_i64(&inp, c2) {
        Ok(p) => p,
        Err(e) => {
            return Err(e);
        },
    };
    let (entries, c4) = match parse_items(&inp, c3) {
        Ok(p) => p,
        Err(e) => {
            return Err(e);
        },
    };
    let (pending_creates, c5) = match parse_pendings(&inp, c4) {
        Ok(p) => p,
        Err(e) => {
            return Err(e);
        },
    };
    if c5 != inp.len() {
        proof {
            assert forall|v: SyncStateV| !(entries_sorted(v.items) && text@ == spec_encode(v))
                by {
                if entries_sorted(v.items) && text@ == spec_encode(v) {
                    assert(inp@.subrange(0, c1 as int).len() == c1);
                    assert(inp@.subrange(c1 as int, c2 as int).len() == c2 - c1);
                    assert(inp@.subrange(c2 as int, c3 as int).len() == c3 - c2);
                    assert(inp@.subrange(c3 as int, c4 as int).len() == c4 - c3);
                    assert(inp@.subrange(c4 as int, c5 as int).len() == c5 - c4);
                }
            }
        }
        return Err(Error::Json("trailing data in snapshot".to_owned()));
    }
    let st = SyncState {
        version,
        repo,
        last_sync,
        items: ItemMap { entries },
        pending_creates,
    };
    proof {
        assert(st@.items =~= entries_view(st.items.entries@));
        assert(spec_encode(st@) =~= inp@) by {
            assert(inp@ =~= inp@.subrange(0, c1 as int) + inp@.subrange(c1 as int, c2 as int)
                + inp@.subrange(c2 as int, c3 as int) + inp@.subrange(c3 as int, c4 as int)
                + inp@.subrange(c4 as int, c5 as int));
        }
        assert forall|v: SyncStateV| entries_sorted(v.items) && text@ == spec_encode(v) implies
            st@ == v by {
            assert(version == v.version && repo@ == v.repo && last_sync == v.last_sync);
            assert(entries_view(entries@) == v.items);
            assert(pending_creates.deep_view() == v.pending_creates);
        }
    }
    Ok(st)
}

} // verus!
