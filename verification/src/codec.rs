//! The durable form of the ledger.
//!
//! A snapshot is written as a map literal from string-encoded user identity
//! to decimal total, for example `{"42":5,"7":-3}`.  `encode` produces
//! exactly the canonical form `spec_encode`; `decode` accepts exactly the
//! canonical forms and recovers the encoded entries, so that a saved ledger
//! reloads with the same users and the same totals.

use vstd::prelude::*;

use crate::command::digits_end;
use crate::command::digits_end_exec;
use crate::command::digits_value;
use crate::command::digits_value_exec;
use crate::command::is_digit;
use crate::ledger::unique_users;
use crate::ledger::PointsLedger;

verus! {

/// Decimal digits of a non-negative integer, most significant first,
/// without leading zeros.
pub open spec fn dec_nat(n: int) -> Seq<u8>
    recommends
        n >= 0,
    decreases n,
{
    if n < 10 {
        seq![(48 + n) as u8]
    } else {
        dec_nat(n / 10) + seq![(48 + n % 10) as u8]
    }
}

/// Decimal digits of an integer, with a leading `-` when negative.
pub open spec fn dec_int(v: int) -> Seq<u8> {
    if v >= 0 {
        dec_nat(v)
    } else {
        seq![45u8] + dec_nat(-v)
    }
}

/// One encoded entry: `"user":total`.
pub open spec fn enc_entry(e: (u64, i64)) -> Seq<u8> {
    seq![34u8] + dec_nat(e.0 as int) + seq![34u8, 58u8] + dec_int(e.1 as int)
}

/// Encoded entries, separated by commas.
pub open spec fn enc_entries(s: Seq<(u64, i64)>) -> Seq<u8>
    decreases s.len(),
{
    if s.len() == 0 {
        Seq::empty()
    } else if s.len() == 1 {
        enc_entry(s[0])
    } else {
        enc_entry(s[0]) + seq![44u8] + enc_entries(s.drop_first())
    }
}

/// The canonical durable form of an entry sequence.
pub open spec fn spec_encode(s: Seq<(u64, i64)>) -> Seq<u8> {
    seq![123u8] + enc_entries(s) + seq![125u8]
}

/// Appending an entry appends a comma and its encoding.
proof fn lemma_enc_entries_snoc(s: Seq<(u64, i64)>, e: (u64, i64))
    requires
        s.len() >= 1,
    ensures
        enc_entries(s.push(e)) == enc_entries(s) + seq![44u8] + enc_entry(e),
    decreases s.len(),
{
    let t = s.push(e);
    assert(t[0] == s[0]);
    if s.len() == 1 {
        assert(t.drop_first() =~= seq![e]);
        assert(enc_entries(seq![e]) == enc_entry(e));
        assert(enc_entries(t) =~= enc_entries(s) + seq![44u8] + enc_entry(e));
    } else {
        lemma_enc_entries_snoc(s.drop_first(), e);
        assert(t.drop_first() =~= s.drop_first().push(e));
        assert(enc_entries(t) =~= enc_entries(s) + seq![44u8] + enc_entry(e));
    }
}

/// Append the decimal digits of `n`.
fn push_dec_u64(out: &mut Vec<u8>, n: u64)
    ensures
        final(out)@ == old(out)@ + dec_nat(n as int),
    decreases n,
{
    if n < 10 {
        out.push((48 + n) as u8);
        proof {
            assert(final(out)@ =~= old(out)@ + dec_nat(n as int));
        }
    } else {
        push_dec_u64(out, n / 10);
        out.push((48 + n % 10) as u8);
        proof {
            assert(final(out)@ =~= old(out)@ + dec_nat(n as int));
        }
    }
}

/// Append the decimal digits of `v`, sign included.
fn push_dec_i64(out: &mut Vec<u8>, v: i64)
    ensures
        final(out)@ == old(out)@ + dec_int(v as int),
{
    if v >= 0 {
        push_dec_u64(out, v as u64);
    } else {
        out.push(45);
        let mag: u64 = if v == i64::MIN {
            9223372036854775808
        } else {
            (-v) as u64
        };
        assert(mag as int == -(v as int));
        push_dec_u64(out, mag);
        proof {
            assert(final(out)@ =~= old(out)@ + dec_int(v as int));
        }
    }
}

/// Serialize a snapshot into its canonical durable form.
pub fn encode(l: &PointsLedger) -> (r: Vec<u8>)
    ensures
        r@ == spec_encode(l.entries@),
{
    let s = &l.entries;
    let n = s.len();
    let mut out: Vec<u8> = Vec::new();
    out.push(123);
    let mut i: usize = 0;
    while i < n
        invariant
            i <= n,
            n == s@.len(),
            out@ == seq![123u8] + enc_entries(s@.subrange(0, i as int)),
        decreases n - i,
    {
        if i > 0 {
            out.push(44);
        }
        out.push(34);
        push_dec_u64(&mut out, s[i].0);
        out.push(34);
        out.push(58);
        push_dec_i64(&mut out, s[i].1);
        proof {
            let pre = s@.subrange(0, i as int);
            let ext = s@.subrange(0, i as int + 1);
            assert(ext =~= pre.push(s@[i as int]));
            if i == 0 {
                assert(enc_entries(ext) == enc_entry(s@[0]));
                assert(out@ =~= seq![123u8] + enc_entries(ext));
            } else {
                lemma_enc_entries_snoc(pre, s@[i as int]);
                assert(out@ =~= seq![123u8] + enc_entries(ext));
            }
        }
        i = i + 1;
    }
    out.push(125);
    proof {
        assert(s@.subrange(0, n as int) =~= s@);
        assert(out@ =~= spec_encode(s@));
    }
    out
}

/// A canonical digit run starting at `i`: at least one digit, no leading
/// zero (unless the run is the single digit `0`).  Yields its value and the
/// position after it.
pub open spec fn parse_digits_canon(b: Seq<u8>, i: int) -> Option<(int, int)> {
    let e = digits_end(b, i);
    if 0 <= i < b.len() && e > i && (b[i] != 48 || e == i + 1) {
        Some((digits_value(b.subrange(i, e)), e))
    } else {
        None
    }
}

/// A quoted user identity `"digits"` that fits an unsigned 64-bit integer.
pub open spec fn parse_key(b: Seq<u8>, i: int) -> Option<(int, int)> {
    if 0 <= i < b.len() && b[i] == 34 {
        match parse_digits_canon(b, i + 1) {
            Some((v, e)) => if v <= u64::MAX && e < b.len() && b[e] == 34 {
                Some((v, e + 1))
            } else {
                None
            },
            None => None,
        }
    } else {
        None
    }
}

/// A total: an optional `-` sign and a canonical digit run, within the
/// signed 64-bit range.  `-0` is not canonical and is refused.
pub open spec fn parse_val(b: Seq<u8>, i: int) -> Option<(int, int)> {
    if 0 <= i < b.len() && b[i] == 45 {
        match parse_digits_canon(b, i + 1) {
            Some((v, e)) => if 1 <= v <= (i64::MAX as int) + 1 {
                Some((-v, e))
            } else {
                None
            },
            None => None,
        }
    } else {
        match parse_digits_canon(b, i) {
            Some((v, e)) => if v <= i64::MAX {
                Some((v, e))
            } else {
                None
            },
            None => None,
        }
    }
}

/// One `"user":total` entry.
pub open spec fn parse_entry(b: Seq<u8>, i: int) -> Option<((u64, i64), int)> {
    match parse_key(b, i) {
        Some((k, j)) => if j < b.len() && b[j] == 58 {
            match parse_val(b, j + 1) {
                Some((v, e)) => Some((((k as u64), (v as i64)), e)),
                None => None,
            }
        } else {
            None
        },
        None => None,
    }
}

/// One or more comma-separated entries starting at `i`.
pub open spec fn parse_entries(b: Seq<u8>, i: int) -> Option<(Seq<(u64, i64)>, int)>
    decreases b.len() - i,
{
    match parse_entry(b, i) {
        Some((e0, j)) => if j < b.len() && b[j] == 44 {
            if i <= j {
                match parse_entries(b, j + 1) {
                    Some((rest, e)) => Some((seq![e0] + rest, e)),
                    None => None,
                }
            } else {
                None
            }
        } else {
            Some((seq![e0], j))
        },
        None => None,
    }
}

/// The entry sequence denoted by a canonical durable form: a brace-wrapped,
/// comma-separated list of entries with pairwise-distinct users, or nothing
/// at all between the braces.  Any other byte sequence denotes no ledger.
pub open spec fn spec_decode(b: Seq<u8>) -> Option<Seq<(u64, i64)>> {
    if b.len() < 2 || b[0] != 123 || b[b.len() - 1] != 125 {
        None
    } else if b.len() == 2 {
        Some(Seq::empty())
    } else {
        match parse_entries(b, 1) {
            Some((s, j)) => if j == b.len() - 1 && unique_users(s) {
                Some(s)
            } else {
                None
            },
            None => None,
        }
    }
}

/// `parse_key`, computed.
fn parse_key_exec(s: &[u8], i: usize) -> (r: Option<(u64, usize)>)
    requires
        i <= s@.len(),
    ensures
        match r {
            Some((k, j)) => parse_key(s@, i as int) == Some((k as int, j as int)) && i < j
                <= s@.len(),
            None => parse_key(s@, i as int) is None,
        },
{
    let n = s.len();
    if !(i < n && s[i] == 34) {
        return None;
    }
    let e = digits_end_exec(s, i + 1);
    if !(e > i + 1 && (s[i + 1] != 48 || e == i + 2)) {
        return None;
    }
    let k = match digits_value_exec(s, i + 1, e, u64::MAX) {
        Some(v) => v,
        None => {
            return None;
        },
    };
    if !(e < n && s[e] == 34) {
        return None;
    }
    Some((k, e + 1))
}

/// `parse_val`, computed.
fn parse_val_exec(s: &[u8], i: usize) -> (r: Option<(i64, usize)>)
    requires
        i <= s@.len(),
    ensures
        match r {
            Some((v, j)) => parse_val(s@, i as int) == Some((v as int, j as int)) && i < j
                <= s@.len(),
            None => parse_val(s@, i as int) is None,
        },
{
    let n = s.len();
    if i < n && s[i] == 45 {
        let e = digits_end_exec(s, i + 1);
        if !(e > i + 1 && (s[i + 1] != 48 || e == i + 2)) {
            return None;
        }
        let mag = match digits_value_exec(s, i + 1, e, 9223372036854775808) {
            Some(v) => v,
            None => {
                return None;
            },
        };
        if mag == 0 {
            return None;
        }
        let v: i64 = if mag == 9223372036854775808 {
            i64::MIN
        } else {
            -(mag as i64)
        };
        assert(v as int == -(mag as int));
        Some((v, e))
    } else {
        let e = digits_end_exec(s, i);
        if !(i < n && e > i && (s[i] != 48 || e == i + 1)) {
            return None;
        }
        let v = match digits_value_exec(s, i, e, i64::MAX as u64) {
            Some(v) => v,
            None => {
                return None;
            },
        };
        Some((v as i64, e))
    }
}

/// `parse_entry`, computed.
fn parse_entry_exec(s: &[u8], i: usize) -> (r: Option<((u64, i64), usize)>)
    requires
        i <= s@.len(),
    ensures
        match r {
            Some((e0, j)) => parse_entry(s@, i as int) == Some((e0, j as int)) && i < j
                <= s@.len(),
            None => parse_entry(s@, i as int) is None,
        },
{
    let n = s.len();
    let (k, j) = match parse_key_exec(s, i) {
        Some(kj) => kj,
        None => {
            return None;
        },
    };
    if !(j < n && s[j] == 58) {
        return None;
    }
    let (v, e) = match parse_val_exec(s, j + 1) {
        Some(ve) => ve,
        None => {
            return None;
        },
    };
    Some(((k, v), e))
}

/// Whether the decoded entries repeat a user.
fn unique_users_exec(entries: &Vec<(u64, i64)>) -> (r: bool)
    ensures
        r == unique_users(entries@),
{
    let n = entries.len();
    let mut i: usize = 0;
    while i < n
        invariant
            i <= n,
            n == entries@.len(),
            forall|p: int, q: int| 0 <= p < q < entries@.len() && p < i ==> entries@[p].0
                != entries@[q].0,
        decreases n - i,
    {
        let mut j: usize = i + 1;
        while j < n
            invariant
                i < j <= n || (i + 1 == j && j > n),
                i < n,
                n == entries@.len(),
                forall|q: int| i < q < j ==> entries@[i as int].0 != entries@[q].0,
            decreases n - j,
        {
            if entries[i].0 == entries[j].0 {
                return false;
            }
            j = j + 1;
        }
        i = i + 1;
    }
    true
}

/// `parse_entries`, computed.
fn parse_entries_exec(s: &[u8], i: usize) -> (r: Option<(Vec<(u64, i64)>, usize)>)
    requires
        i <= s@.len(),
    ensures
        match r {
            Some(p) => parse_entries(s@, i as int) == Some((p.0@, p.1 as int)) && i < p.1
                <= s@.len(),
            None => parse_entries(s@, i as int) is None,
        },
    decreases s@.len() - i,
{
    let (e0, j) = match parse_entry_exec(s, i) {
        Some(ej) => ej,
        None => {
            return None;
        },
    };
    if j < s.len() && s[j] == 44 {
        match parse_entries_exec(s, j + 1) {
            Some((mut rest, e)) => {
                rest.insert(0, e0);
                proof {
                    assert(rest@ =~= seq![e0] + rest@.drop_first());
                }
                Some((rest, e))
            },
            None => None,
        }
    } else {
        let mut one: Vec<(u64, i64)> = Vec::new();
        one.push(e0);
        proof {
            assert(one@ =~= seq![e0]);
        }
        Some((one, j))
    }
}

/// Deserialize a durable form: the ledger it denotes under `spec_decode`,
/// or nothing when the bytes are not a canonical encoding.
pub fn decode(bytes: &[u8]) -> (r: Option<PointsLedger>)
    ensures
        match r {
            Some(l) => spec_decode(bytes@) == Some(l.entries@) && l.wf(),
            None => spec_decode(bytes@) is None,
        },
{
    let n = bytes.len();
    if n < 2 || bytes[0] != 123 || bytes[n - 1] != 125 {
        return None;
    }
    if n == 2 {
        let l = PointsLedger::new();
        proof {
            assert(l.entries@ =~= Seq::<(u64, i64)>::empty());
        }
        return Some(l);
    }
    match parse_entries_exec(bytes, 1) {
        Some((entries, j)) => {
            if j != n - 1 {
                return None;
            }
            if !unique_users_exec(&entries) {
                return None;
            }
            Some(PointsLedger { entries })
        },
        None => None,
    }
}

/// The decimal digits of a non-negative integer are digits, there is at
/// least one, and the first is `0` only for the integer zero itself.
proof fn lemma_dec_nat_digits(n: int)
    requires
        n >= 0,
    ensures
        dec_nat(n).len() >= 1,
        forall|k: int| 0 <= k < dec_nat(n).len() ==> is_digit(#[trigger] dec_nat(n)[k]),
        dec_nat(n)[0] == 48 ==> n == 0,
    decreases n,
{
    if n >= 10 {
        lemma_dec_nat_digits(n / 10);
        assert(forall|k: int| 0 <= k < dec_nat(n).len() ==> is_digit(#[trigger] dec_nat(n)[k]))
            by {
            assert(forall|k: int| 0 <= k < dec_nat(n / 10).len() ==> #[trigger] dec_nat(n)[k]
                == dec_nat(n / 10)[k]);
            assert(dec_nat(n)[dec_nat(n).len() - 1] == (48 + n % 10) as u8);
        }
    }
}

/// A run of digits from `i` to `j`, stopped by a non-digit or the end,
/// is exactly what `digits_end` spans.
proof fn lemma_digits_end_run(b: Seq<u8>, i: int, j: int)
    requires
        0 <= i <= j <= b.len(),
        forall|k: int| i <= k < j ==> is_digit(b[k]),
        j == b.len() || !is_digit(b[j]),
    ensures
        digits_end(b, i) == j,
    decreases j - i,
{
    if i < j {
        lemma_digits_end_run(b, i + 1, j);
    }
}

/// Reading back the decimal digits of `n` yields `n`.
proof fn lemma_dec_nat_value(n: int)
    requires
        n >= 0,
    ensures
        digits_value(dec_nat(n)) == n,
    decreases n,
{
    if n < 10 {
        let d = dec_nat(n);
        assert(d == seq![(48 + n) as u8]);
        assert(d.last() == (48 + n) as u8);
        assert((48 + n) as u8 == 48 + n);
        assert(d.drop_last() =~= Seq::<u8>::empty());
        assert(digits_value(d.drop_last()) == 0);
        assert(digits_value(d) == digits_value(d.drop_last()) * 10 + (d.last() - 48));
    } else {
        lemma_dec_nat_value(n / 10);
        assert(dec_nat(n).drop_last() =~= dec_nat(n / 10));
        assert(dec_nat(n).last() == (48 + n % 10) as u8);
        assert((48 + n % 10) as u8 == 48 + n % 10);
        assert(digits_value(dec_nat(n)) == digits_value(dec_nat(n).drop_last()) * 10 + (dec_nat(
            n,
        ).last() - 48));
    }
}

/// At a position holding the digits of `n` followed by a non-digit,
/// `parse_digits_canon` yields `n` and stops at the boundary.
proof fn lemma_digits_at(b: Seq<u8>, i: int, n: int)
    requires
        n >= 0,
        0 <= i,
        i + dec_nat(n).len() <= b.len(),
        b.subrange(i, i + dec_nat(n).len()) == dec_nat(n),
        i + dec_nat(n).len() == b.len() || !is_digit(b[i + dec_nat(n).len()]),
    ensures
        parse_digits_canon(b, i) == Some((n, i + dec_nat(n).len())),
{
    let d = dec_nat(n);
    let e = i + d.len();
    lemma_dec_nat_digits(n);
    assert(forall|k: int| i <= k < e ==> b[k] == d[k - i]);
    lemma_digits_end_run(b, i, e);
    assert(b[i] == d[0]);
    if b[i] == 48 {
        assert(n == 0);
        assert(d.len() == 1);
    }
    lemma_dec_nat_value(n);
    assert(b.subrange(i, e) == d);
}

/// At a position holding `"digits"` for user `k` followed by any byte,
/// `parse_key` yields `k` and stops after the closing quote.
proof fn lemma_key_at(b: Seq<u8>, i: int, k: u64)
    requires
        0 <= i,
        i + dec_nat(k as int).len() + 2 <= b.len(),
        b[i] == 34,
        b.subrange(i + 1, i + 1 + dec_nat(k as int).len()) == dec_nat(k as int),
        b[i + 1 + dec_nat(k as int).len()] == 34,
    ensures
        parse_key(b, i) == Some((k as int, i + dec_nat(k as int).len() + 2)),
{
    let e = i + 1 + dec_nat(k as int).len();
    assert(!is_digit(b[e]));
    lemma_digits_at(b, i + 1, k as int);
    assert(parse_digits_canon(b, i + 1) == Some((k as int, e)));
}

/// At a position holding the signed decimal form of `v` followed by a
/// non-digit, `parse_val` yields `v` and stops at the boundary.
proof fn lemma_val_at(b: Seq<u8>, i: int, v: i64)
    requires
        0 <= i,
        i + dec_int(v as int).len() <= b.len(),
        b.subrange(i, i + dec_int(v as int).len()) == dec_int(v as int),
        i + dec_int(v as int).len() == b.len() || !is_digit(b[i + dec_int(v as int).len()]),
    ensures
        parse_val(b, i) == Some((v as int, i + dec_int(v as int).len())),
{
    let d = dec_int(v as int);
    let e = i + d.len();
    if v >= 0 {
        lemma_dec_nat_digits(v as int);
        assert(b[i] == d[0]);
        assert(is_digit(b[i]));
        assert(b[i] != 45);
        lemma_digits_at(b, i, v as int);
    } else {
        let m = -(v as int);
        lemma_dec_nat_digits(m);
        assert(b[i] == d[0]);
        assert(d[0] == 45);
        assert(b.subrange(i + 1, e) =~= dec_nat(m)) by {
            assert(forall|k: int| 0 <= k < dec_nat(m).len() ==> d[1 + k] == dec_nat(m)[k]);
            assert(forall|k: int| i <= k < e ==> b[k] == d[k - i]);
        }
        lemma_digits_at(b, i + 1, m);
        assert(parse_digits_canon(b, i + 1) == Some((m, e)));
        assert(1 <= m <= (i64::MAX as int) + 1);
    }
}

/// At a position holding one encoded entry followed by a non-digit,
/// `parse_entry` yields that entry and stops at the boundary.
proof fn lemma_entry_at(b: Seq<u8>, i: int, e0: (u64, i64))
    requires
        0 <= i,
        i + enc_entry(e0).len() <= b.len(),
        b.subrange(i, i + enc_entry(e0).len()) == enc_entry(e0),
        i + enc_entry(e0).len() == b.len() || !is_digit(b[i + enc_entry(e0).len()]),
    ensures
        parse_entry(b, i) == Some((e0, i + enc_entry(e0).len())),
{
    let p = enc_entry(e0);
    let kd = dec_nat(e0.0 as int);
    let vd = dec_int(e0.1 as int);
    let e = i + p.len();
    lemma_dec_nat_digits(e0.0 as int);
    assert(forall|k: int| i <= k < e ==> b[k] == p[k - i]);
    assert(p[0] == 34);
    assert(forall|k: int| 0 <= k < kd.len() ==> p[1 + k] == kd[k]);
    assert(p[1 + kd.len() as int] == 34);
    assert(p[2 + kd.len() as int] == 58);
    assert(forall|k: int| 0 <= k < vd.len() ==> p[3 + kd.len() + k] == vd[k]);
    assert(b.subrange(i + 1, i + 1 + kd.len()) =~= kd);
    lemma_key_at(b, i, e0.0);
    let j = i + kd.len() + 2;
    assert(b[j] == 58);
    assert(b.subrange(j + 1, j + 1 + vd.len()) =~= vd);
    assert(j + 1 + vd.len() == e);
    lemma_val_at(b, j + 1, e0.1);
    assert(parse_val(b, j + 1) == Some((e0.1 as int, e)));
    assert(((e0.0 as int) as u64, (e0.1 as int) as i64) == e0);
}

/// At a position holding the encoded entry list followed by the closing
/// brace, `parse_entries` yields exactly those entries and stops before it.
#[verifier::rlimit(60)]
proof fn lemma_entries_at(b: Seq<u8>, i: int, s: Seq<(u64, i64)>)
    requires
        s.len() >= 1,
        0 <= i,
        i + enc_entries(s).len() < b.len(),
        b.subrange(i, i + enc_entries(s).len()) == enc_entries(s),
        b[i + enc_entries(s).len()] == 125,
    ensures
        parse_entries(b, i) == Some((s, i + enc_entries(s).len())),
    decreases s.len(),
{
    let e = i + enc_entries(s).len();
    lemma_dec_nat_digits(s[0].0 as int);
    if s[0].1 as int >= 0 {
        lemma_dec_nat_digits(s[0].1 as int);
    } else {
        lemma_dec_nat_digits(-(s[0].1 as int));
    }
    if s.len() == 1 {
        assert(enc_entries(s) == enc_entry(s[0]));
        lemma_entry_at(b, i, s[0]);
        assert(parse_entry(b, i) == Some((s[0], e)));
        assert(!(e < b.len() && b[e] == 44));
        assert(seq![s[0]] =~= s);
    } else {
        let p0 = enc_entry(s[0]);
        let rest = enc_entries(s.drop_first());
        assert(enc_entries(s) == p0 + seq![44u8] + rest);
        let j = i + p0.len();
        assert(forall|k: int| i <= k < e ==> b[k] == enc_entries(s)[k - i]);
        assert(b[j] == 44);
        assert(b.subrange(i, j) =~= p0);
        lemma_entry_at(b, i, s[0]);
        assert(parse_entry(b, i) == Some((s[0], j)));
        assert(b.subrange(j + 1, j + 1 + rest.len()) =~= rest);
        assert(j + 1 + rest.len() == e);
        lemma_entries_at(b, j + 1, s.drop_first());
        assert(parse_entries(b, j + 1) == Some((s.drop_first(), e)));
        assert(seq![s[0]] + s.drop_first() =~= s);
    }
}

/// Persist and reload round trip: decoding the canonical encoding of any
/// well-formed entry sequence yields exactly that sequence, so a saved
/// ledger reloads with the same users and the same totals.
pub proof fn lemma_encode_decode(s: Seq<(u64, i64)>)
    requires
        unique_users(s),
    ensures
        spec_decode(spec_encode(s)) == Some(s),
{
    let b = spec_encode(s);
    assert(b[0] == 123);
    assert(b[b.len() - 1] == 125);
    if s.len() == 0 {
        assert(enc_entries(s) =~= Seq::<u8>::empty());
        assert(b.len() == 2);
        assert(spec_decode(b) == Some(Seq::<(u64, i64)>::empty()));
        assert(s =~= Seq::<(u64, i64)>::empty());
    } else {
        lemma_dec_nat_digits(s[0].0 as int);
        assert(enc_entries(s).len() >= 1) by {
            if s.len() == 1 {
                assert(enc_entries(s) == enc_entry(s[0]));
            }
        }
        assert(b.len() > 2);
        assert(b.subrange(1, 1 + enc_entries(s).len() as int) =~= enc_entries(s));
        lemma_entries_at(b, 1, s);
        assert(parse_entries(b, 1) == Some((s, b.len() - 1)));
    }
}

} // verus!
