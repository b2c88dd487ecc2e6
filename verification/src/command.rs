//! The command grammar, the validation gate and the parser.
//!
//! A message is a command only if it opens with the token `!pp`.  A command
//! is either `!pp show`, or a grant of the form `!pp +N <@U>` where `N` is a
//! positive decimal magnitude written with an explicit `+` sign and `<@U>`
//! mentions exactly one user.  Anything that opens with `!pp` but matches
//! neither form is rejected; anything else is not a command at all and is
//! ignored.  The grammar is stated by `spec_verdict` over the message bytes,
//! and `validate` returns exactly that verdict.

use vstd::prelude::*;
use vstd::string::StringSliceAdditionalSpecFns;

verus! {

/// A typed chat command.
pub enum Command {
    /// Grant `amount` points (strictly positive) to the mentioned user.
    AddPoints { amount: i64, target: u64 },
    /// List every user's total.
    ShowAll,
}

/// The validation gate's decision on one raw message.
pub enum Verdict {
    /// Not addressed to this system at all: no reply is owed.
    Ignored,
    /// Addressed to this system but malformed: owed a grammar explanation.
    Rejected,
    /// Well-formed: owed execution of the contained command.
    Accepted(Command),
}

/// Whitespace separating command tokens.
pub open spec fn is_ws(b: u8) -> bool {
    b == 32 || b == 9 || b == 10 || b == 13
}

/// ASCII decimal digit.
pub open spec fn is_digit(b: u8) -> bool {
    48 <= b <= 57
}

/// Index of the first non-whitespace byte at or after `i`.
pub open spec fn skip_ws(s: Seq<u8>, i: int) -> int
    recommends
        0 <= i <= s.len(),
    decreases s.len() - i,
{
    if i < s.len() && is_ws(s[i]) {
        skip_ws(s, i + 1)
    } else {
        i
    }
}

/// Index of the first non-digit byte at or after `i`.
pub open spec fn digits_end(s: Seq<u8>, i: int) -> int
    recommends
        0 <= i <= s.len(),
    decreases s.len() - i,
{
    if i < s.len() && is_digit(s[i]) {
        digits_end(s, i + 1)
    } else {
        i
    }
}

/// Numeric value of a run of decimal digit bytes.
pub open spec fn digits_value(s: Seq<u8>) -> int
    decreases s.len(),
{
    if s.len() == 0 {
        0
    } else {
        digits_value(s.drop_last()) * 10 + (s.last() - 48)
    }
}

/// The token starting before `i` ends at `i`: end of text or whitespace.
pub open spec fn token_ends_at(s: Seq<u8>, i: int) -> bool {
    i == s.len() || (0 <= i < s.len() && is_ws(s[i]))
}

/// The message opens with the command token `!pp`.
pub open spec fn spec_is_command(s: Seq<u8>) -> bool {
    s.len() >= 3 && s[0] == 33 && s[1] == 112 && s[2] == 112 && token_ends_at(s, 3)
}

/// Index of the first argument token, after the `!pp` opener.
pub open spec fn spec_arg_start(s: Seq<u8>) -> int {
    skip_ws(s, 3)
}

/// The first argument token is the literal keyword `show`.
pub open spec fn spec_is_show(s: Seq<u8>) -> bool {
    let a = spec_arg_start(s);
    spec_is_command(s) && a + 4 <= s.len() && s[a] == 115 && s[a + 1] == 104 && s[a + 2] == 111
        && s[a + 3] == 119 && token_ends_at(s, a + 4)
}

/// End of the magnitude's digit run.
pub open spec fn spec_amount_end(s: Seq<u8>) -> int {
    digits_end(s, spec_arg_start(s) + 1)
}

/// Value of the magnitude's digit run.
pub open spec fn spec_amount_val(s: Seq<u8>) -> int {
    digits_value(s.subrange(spec_arg_start(s) + 1, spec_amount_end(s)))
}

/// Start of the mention token, after the whitespace behind the magnitude.
pub open spec fn spec_mention_start(s: Seq<u8>) -> int {
    skip_ws(s, spec_amount_end(s))
}

/// End of the mention's digit run.
pub open spec fn spec_target_end(s: Seq<u8>) -> int {
    digits_end(s, spec_mention_start(s) + 2)
}

/// Value of the mention's digit run: the target's user identity.
pub open spec fn spec_target_val(s: Seq<u8>) -> int {
    digits_value(s.subrange(spec_mention_start(s) + 2, spec_target_end(s)))
}

/// The whole message matches the single-mention grant grammar:
/// `!pp`, whitespace, `+` and a nonzero magnitude that fits a signed 64-bit
/// total, whitespace, one mention `<@U>` with `U` a 64-bit user identity,
/// then nothing but trailing whitespace.
pub open spec fn spec_is_add(s: Seq<u8>) -> bool {
    let a = spec_arg_start(s);
    let d1 = spec_amount_end(s);
    let m = spec_mention_start(s);
    let u1 = spec_target_end(s);
    spec_is_command(s) && a < s.len() && s[a] == 43 && d1 > a + 1 && d1 < s.len() && is_ws(s[d1])
        && m + 2 <= s.len() && s[m] == 60 && s[m + 1] == 64 && u1 > m + 2 && u1 < s.len() && s[u1]
        == 62 && skip_ws(s, u1 + 1) == s.len() && 1 <= spec_amount_val(s) <= i64::MAX
        && spec_target_val(s) <= u64::MAX
}

/// The verdict owed on a raw message, and for an accepted message the
/// command it carries.  This spec function is the command grammar.
pub open spec fn spec_verdict(s: Seq<u8>) -> Verdict {
    if !spec_is_command(s) {
        Verdict::Ignored
    } else if spec_is_show(s) {
        Verdict::Accepted(Command::ShowAll)
    } else if spec_is_add(s) {
        Verdict::Accepted(
            Command::AddPoints {
                amount: spec_amount_val(s) as i64,
                target: spec_target_val(s) as u64,
            },
        )
    } else {
        Verdict::Rejected
    }
}

/// A run of digit bytes has a non-negative value.
pub proof fn lemma_digits_value_nonneg(s: Seq<u8>)
    requires
        forall|k: int| 0 <= k < s.len() ==> is_digit(s[k]),
    ensures
        digits_value(s) >= 0,
    decreases s.len(),
{
    if s.len() > 0 {
        lemma_digits_value_nonneg(s.drop_last());
    }
}

/// Extending a digit run can only raise its value.
proof fn lemma_digits_value_prefix(s: Seq<u8>, p: int)
    requires
        forall|k: int| 0 <= k < s.len() ==> is_digit(s[k]),
        0 <= p <= s.len(),
    ensures
        digits_value(s.subrange(0, p)) <= digits_value(s),
    decreases s.len() - p,
{
    if p == s.len() {
        assert(s.subrange(0, p) =~= s);
    } else {
        let t = s.subrange(0, p + 1);
        assert(t.drop_last() =~= s.subrange(0, p));
        assert(forall|k: int| 0 <= k < t.len() ==> is_digit(t[k]));
        lemma_digits_value_nonneg(s.subrange(0, p));
        assert(digits_value(s.subrange(0, p)) <= digits_value(t)) by {
            assert(digits_value(t) == digits_value(s.subrange(0, p)) * 10 + (t.last() - 48));
            assert(digits_value(s.subrange(0, p)) * 10 >= digits_value(s.subrange(0, p))) by (nonlinear_arith)
                requires digits_value(s.subrange(0, p)) >= 0;
            assert(t.last() >= 48);
        }
        lemma_digits_value_prefix(s, p + 1);
    }
}

/// First non-whitespace position, computed.
fn skip_ws_exec(s: &[u8], i: usize) -> (r: usize)
    requires
        i <= s@.len(),
    ensures
        r == skip_ws(s@, i as int),
        i <= r <= s@.len(),
{
    let n = s.len();
    let mut j: usize = i;
    while j < n && (s[j] == 32 || s[j] == 9 || s[j] == 10 || s[j] == 13)
        invariant
            i <= j <= n,
            n == s@.len(),
            skip_ws(s@, i as int) == skip_ws(s@, j as int),
        decreases n - j,
    {
        j = j + 1;
    }
    j
}

/// First non-digit position, computed.
pub(crate) fn digits_end_exec(s: &[u8], i: usize) -> (r: usize)
    requires
        i <= s@.len(),
    ensures
        r == digits_end(s@, i as int),
        i <= r <= s@.len(),
        forall|k: int| i <= k < r ==> is_digit(s@[k]),
{
    let n = s.len();
    let mut j: usize = i;
    while j < n && 48 <= s[j] && s[j] <= 57
        invariant
            i <= j <= n,
            n == s@.len(),
            digits_end(s@, i as int) == digits_end(s@, j as int),
            forall|k: int| i <= k < j ==> is_digit(s@[k]),
        decreases n - j,
    {
        j = j + 1;
    }
    j
}

/// Value of the digit run `s[start..end]`, unless it exceeds `limit`.
pub(crate) fn digits_value_exec(s: &[u8], start: usize, end: usize, limit: u64) -> (r: Option<u64>)
    requires
        start <= end <= s@.len(),
        forall|k: int| start <= k < end ==> is_digit(s@[k]),
    ensures
        match r {
            Some(v) => v as int == digits_value(s@.subrange(start as int, end as int)) && v
                <= limit,
            None => digits_value(s@.subrange(start as int, end as int)) > limit,
        },
{
    let mut val: u64 = 0;
    let mut j: usize = start;
    proof {
        assert(s@.subrange(start as int, start as int) =~= Seq::<u8>::empty());
    }
    while j < end
        invariant
            start <= j <= end <= s@.len(),
            forall|k: int| start <= k < end ==> is_digit(s@[k]),
            val as int == digits_value(s@.subrange(start as int, j as int)),
            val <= limit,
        decreases end - j,
    {
        let d: u64 = (s[j] - 48) as u64;
        proof {
            let prefix = s@.subrange(start as int, j as int);
            let ext = s@.subrange(start as int, j as int + 1);
            assert(ext.drop_last() =~= prefix);
            assert(ext.last() == s@[j as int]);
            assert(digits_value(ext) == val * 10 + d);
        }
        if val > limit / 10 || (val == limit / 10 && d > limit % 10) {
            proof {
                let ext = s@.subrange(start as int, j as int + 1);
                assert(digits_value(ext) > limit) by (nonlinear_arith)
                    requires
                        digits_value(ext) == val * 10 + d,
                        val > limit / 10 || (val == limit / 10 && d > limit % 10),
                        limit == (limit / 10) * 10 + limit % 10,
                        0 <= limit % 10 < 10,
                        d >= 0,
                        val >= 0;
                let t = s@.subrange(start as int, end as int);
                assert(ext =~= t.subrange(0, j - start + 1));
                assert(forall|k: int| 0 <= k < t.len() ==> is_digit(t[k]));
                lemma_digits_value_prefix(t, j - start + 1);
            }
            return None;
        }
        proof {
            assert(val * 10 + d <= limit) by (nonlinear_arith)
                requires
                    val <= limit / 10,
                    val < limit / 10 || d <= limit % 10,
                    limit == (limit / 10) * 10 + limit % 10,
                    0 <= limit % 10 < 10,
                    0 <= d < 10;
        }
        val = val * 10 + d;
        j = j + 1;
    }
    proof {
        assert(s@.subrange(start as int, j as int) =~= s@.subrange(start as int, end as int));
    }
    Some(val)
}

/// The validation gate: decide whether a raw message is no command at all,
/// a malformed command, or a well-formed command, per `spec_verdict`.
pub fn validate(raw: &str) -> (v: Verdict)
    ensures
        v == spec_verdict(raw.spec_bytes()),
{
    let s: &[u8] = raw.as_bytes();
    let n = s.len();
    // Opener: the token `!pp`.
    if !(n >= 3 && s[0] == 33 && s[1] == 112 && s[2] == 112 && (n == 3 || (s[3] == 32 || s[3] == 9
        || s[3] == 10 || s[3] == 13))) {
        return Verdict::Ignored;
    }
    let a = skip_ws_exec(s, 3);
    // Keyword `show`: accepted whatever follows it.
    if n >= 4 && a <= n - 4 && s[a] == 115 && s[a + 1] == 104 && s[a + 2] == 111 && s[a + 3] == 119
        && (a + 4 == n || (s[a + 4] == 32 || s[a + 4] == 9 || s[a + 4] == 10 || s[a + 4] == 13)) {
        return Verdict::Accepted(Command::ShowAll);
    }
    assert(!spec_is_show(s@));
    // Grant: `+N <@U>` and nothing more.
    if !(a < n && s[a] == 43) {
        return Verdict::Rejected;
    }
    let d1 = digits_end_exec(s, a + 1);
    if !(d1 > a + 1 && d1 < n && (s[d1] == 32 || s[d1] == 9 || s[d1] == 10 || s[d1] == 13)) {
        return Verdict::Rejected;
    }
    let m = skip_ws_exec(s, d1);
    if !(m <= n - 2 && s[m] == 60 && s[m + 1] == 64) {
        return Verdict::Rejected;
    }
    let u1 = digits_end_exec(s, m + 2);
    if !(u1 > m + 2 && u1 < n && s[u1] == 62) {
        return Verdict::Rejected;
    }
    if skip_ws_exec(s, u1 + 1) != n {
        return Verdict::Rejected;
    }
    let amount = match digits_value_exec(s, a + 1, d1, i64::MAX as u64) {
        Some(v) => v,
        None => {
            return Verdict::Rejected;
        },
    };
    if amount == 0 {
        return Verdict::Rejected;
    }
    let target = match digits_value_exec(s, m + 2, u1, u64::MAX) {
        Some(v) => v,
        None => {
            return Verdict::Rejected;
        },
    };
    Verdict::Accepted(Command::AddPoints { amount: amount as i64, target })
}

/// The command parser: the typed command carried by a message that has
/// passed validation.  Calling it on unvalidated text is a programming
/// error and is excluded by the precondition.
pub fn parse(raw: &str) -> (c: Command)
    requires
        spec_verdict(raw.spec_bytes()) matches Verdict::Accepted(_),
    ensures
        spec_verdict(raw.spec_bytes()) == Verdict::Accepted(c),
{
    match validate(raw) {
        Verdict::Accepted(c) => c,
        _ => unreached(),
    }
}

} // verus!
