//! The query and report builder.
//!
//! A report has one line per recorded user: the resolved display name — or
//! the bare decimal identity when the chat directory knows no name — a
//! separator, and the point total.  An empty ledger yields an explicit
//! empty-result message rather than a blank report.

use vstd::prelude::*;
use vstd::string::StringExecFns;

use crate::ledger::PointsLedger;

verus! {

/// A decimal digit, as the character that writes it.
pub open spec fn digit_char(d: int) -> char {
    if d == 0 {
        '0'
    } else if d == 1 {
        '1'
    } else if d == 2 {
        '2'
    } else if d == 3 {
        '3'
    } else if d == 4 {
        '4'
    } else if d == 5 {
        '5'
    } else if d == 6 {
        '6'
    } else if d == 7 {
        '7'
    } else if d == 8 {
        '8'
    } else {
        '9'
    }
}

/// Decimal writing of a non-negative integer, most significant digit first.
pub open spec fn dec_chars(n: int) -> Seq<char>
    recommends
        n >= 0,
    decreases n,
{
    if n < 10 {
        seq![digit_char(n)]
    } else {
        dec_chars(n / 10) + seq![digit_char(n % 10)]
    }
}

/// Decimal writing of an integer, with a leading `-` when negative.
pub open spec fn dec_chars_int(v: int) -> Seq<char> {
    if v >= 0 {
        dec_chars(v)
    } else {
        seq!['-'] + dec_chars(-v)
    }
}

/// The single digit `d`, as text.
fn digit_str(d: u64) -> (s: &'static str)
    requires
        d < 10,
    ensures
        s@ == seq![digit_char(d as int)],
{
    if d == 0 {
        proof {
            reveal_strlit("0");
            assert("0"@ =~= seq![digit_char(0)]);
        }
        "0"
    } else if d == 1 {
        proof {
            reveal_strlit("1");
            assert("1"@ =~= seq![digit_char(1)]);
        }
        "1"
    } else if d == 2 {
        proof {
            reveal_strlit("2");
            assert("2"@ =~= seq![digit_char(2)]);
        }
        "2"
    } else if d == 3 {
        proof {
            reveal_strlit("3");
            assert("3"@ =~= seq![digit_char(3)]);
        }
        "3"
    } else if d == 4 {
        proof {
            reveal_strlit("4");
            assert("4"@ =~= seq![digit_char(4)]);
        }
        "4"
    } else if d == 5 {
        proof {
            reveal_strlit("5");
            assert("5"@ =~= seq![digit_char(5)]);
        }
        "5"
    } else if d == 6 {
        proof {
            reveal_strlit("6");
            assert("6"@ =~= seq![digit_char(6)]);
        }
        "6"
    } else if d == 7 {
        proof {
            reveal_strlit("7");
            assert("7"@ =~= seq![digit_char(7)]);
        }
        "7"
    } else if d == 8 {
        proof {
            reveal_strlit("8");
            assert("8"@ =~= seq![digit_char(8)]);
        }
        "8"
    } else {
        proof {
            reveal_strlit("9");
            assert("9"@ =~= seq![digit_char(9)]);
        }
        "9"
    }
}

/// Append the decimal writing of `n`.
pub(crate) fn push_dec_chars(out: &mut String, n: u64)
    ensures
        final(out)@ == old(out)@ + dec_chars(n as int),
    decreases n,
{
    if n < 10 {
        out.append(digit_str(n));
        proof {
            assert(final(out)@ =~= old(out)@ + dec_chars(n as int));
        }
    } else {
        push_dec_chars(out, n / 10);
        out.append(digit_str(n % 10));
        proof {
            assert(final(out)@ =~= old(out)@ + dec_chars(n as int));
        }
    }
}

/// Append the decimal writing of `v`, sign included.
pub(crate) fn push_dec_chars_i64(out: &mut String, v: i64)
    ensures
        final(out)@ == old(out)@ + dec_chars_int(v as int),
{
    if v >= 0 {
        push_dec_chars(out, v as u64);
    } else {
        out.append("-");
        let mag: u64 = if v == i64::MIN {
            9223372036854775808
        } else {
            (-v) as u64
        };
        assert(mag as int == -(v as int));
        push_dec_chars(out, mag);
        proof {
            reveal_strlit("-");
            assert("-"@ =~= seq!['-']);
            assert(final(out)@ =~= old(out)@ + dec_chars_int(v as int));
        }
    }
}

/// One report line: display name (or the bare identity), separator, total.
pub open spec fn render_line(user: u64, total: i64, name: Option<String>) -> Seq<char> {
    (match name {
        Some(nm) => nm@,
        None => dec_chars(user as int),
    }) + ": "@ + dec_chars_int(total as int) + "\n"@
}

/// The report over the first `i` entries.
pub open spec fn render_upto(entries: Seq<(u64, i64)>, names: Seq<Option<String>>, i: int) -> Seq<
    char,
>
    recommends
        names.len() == entries.len(),
        0 <= i <= entries.len(),
    decreases i,
{
    if i <= 0 {
        Seq::empty()
    } else {
        render_upto(entries, names, i - 1) + render_line(
            entries[i - 1].0,
            entries[i - 1].1,
            names[i - 1],
        )
    }
}

/// The explicit reply for a report over an empty ledger.
pub open spec fn empty_report() -> Seq<char> {
    "No points have been awarded yet."@
}

/// The empty-ledger reply is a real message, not a blank string.
pub proof fn lemma_empty_report_nonempty()
    ensures
        empty_report().len() > 0,
{
    reveal_strlit("No points have been awarded yet.");
}

/// Render the full ledger snapshot: one line per entry, in ledger order,
/// using the display name the directory resolved for each entry — the bare
/// identity where it resolved none — or the explicit empty-result message
/// when there is nothing to list.
pub fn render_all(l: &PointsLedger, names: &Vec<Option<String>>) -> (r: String)
    requires
        names@.len() == l.entries@.len(),
    ensures
        l.entries@.len() == 0 ==> r@ == empty_report(),
        l.entries@.len() > 0 ==> r@ == render_upto(l.entries@, names@, l.entries@.len() as int),
{
    let n = l.num_entries();
    if n == 0 {
        return "No points have been awarded yet.".to_owned();
    }
    let mut out = String::new();
    let mut i: usize = 0;
    while i < n
        invariant
            i <= n,
            n == l.entries@.len(),
            names@.len() == l.entries@.len(),
            out@ == render_upto(l.entries@, names@, i as int),
        decreases n - i,
    {
        let (user, total) = l.entry_at(i);
        match &names[i] {
            Some(nm) => {
                out.append(nm.as_str());
            },
            None => {
                push_dec_chars(&mut out, user);
            },
        }
        out.append(": ");
        push_dec_chars_i64(&mut out, total);
        out.append("\n");
        proof {
            assert(out@ =~= render_upto(l.entries@, names@, i as int + 1));
        }
        i = i + 1;
    }
    out
}

} // verus!
