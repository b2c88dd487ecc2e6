//! The command handler: one inbound message, one decision.
//!
//! A raw message is judged by the validation gate; an accepted grant
//! mutates the ledger and earns a confirmation naming the new total; an
//! accepted `show` asks the caller to render the listing; a malformed
//! command earns the grammar explanation and leaves the ledger untouched;
//! anything else is ignored.  Persistence of the mutated ledger is the
//! caller's duty, after every successful grant.

use vstd::prelude::*;
use vstd::string::StringExecFns;
use vstd::string::StringSliceAdditionalSpecFns;

use crate::command::spec_verdict;
use crate::command::validate;
use crate::command::Command;
use crate::command::Verdict;
use crate::ledger::spec_add;
use crate::ledger::total_of;
use crate::ledger::PointsLedger;
use crate::report::dec_chars;
use crate::report::dec_chars_int;
use crate::report::push_dec_chars;
use crate::report::push_dec_chars_i64;
use crate::store::LedgerStore;

verus! {

/// What the caller owes the chat after one message.
pub enum Response {
    /// Not a command for this system: send nothing.
    Ignored,
    /// Send this text back into the conversation.
    Reply(String),
    /// Render the full listing (resolve names, then build the report) and
    /// send it.
    Show,
}

/// The grammar explanation sent for a malformed command.
pub open spec fn rejection_text() -> Seq<char> {
    "That is not a valid command to grant points. Use !pp +N <@user> with a positive whole N, or !pp show."@
}

/// The confirmation sent after a successful grant.
pub open spec fn confirm_text(target: u64, total: i64) -> Seq<char> {
    "<@"@ + dec_chars(target as int) + "> now has "@ + dec_chars_int(total as int) + " points."@
}

/// The refusal sent when a grant would push a total past the storable range.
pub open spec fn overflow_text() -> Seq<char> {
    "Cannot grant that many points: the total would leave the storable range."@
}

/// Handle one raw inbound message against the ledger.
///
/// The verdict of the validation gate decides everything: an ignored
/// message and a rejected command leave the ledger untouched; `show` leaves
/// it untouched and asks the caller for the listing; a well-formed grant
/// adds its amount to the target's total and confirms the new total, unless
/// the sum would leave the signed 64-bit range, in which case the ledger is
/// untouched and the reply says so.
pub fn handle_message(raw: &str, ledger: &mut PointsLedger) -> (resp: Response)
    requires
        old(ledger).wf(),
    ensures
        final(ledger).wf(),
        match spec_verdict(raw.spec_bytes()) {
            Verdict::Ignored => final(ledger).entries@ == old(ledger).entries@ && resp
                == Response::Ignored,
            Verdict::Rejected => final(ledger).entries@ == old(ledger).entries@ && (resp matches
            Response::Reply(s) && s@ == rejection_text()),
            Verdict::Accepted(c) => match c {
                Command::ShowAll => final(ledger).entries@ == old(ledger).entries@ && resp
                    == Response::Show,
                Command::AddPoints { amount, target } => if total_of(old(ledger)@, target) + amount
                    <= i64::MAX {
                    final(ledger)@ == spec_add(old(ledger)@, target, amount as int) && (resp matches
                    Response::Reply(s) && s@ == confirm_text(
                        target,
                        (total_of(old(ledger)@, target) + amount) as i64,
                    ))
                } else {
                    final(ledger).entries@ == old(ledger).entries@ && (resp matches
                    Response::Reply(s) && s@ == overflow_text())
                },
            },
        },
{
    match validate(raw) {
        Verdict::Ignored => Response::Ignored,
        Verdict::Rejected => Response::Reply(
            "That is not a valid command to grant points. Use !pp +N <@user> with a positive whole N, or !pp show.".to_owned(),
        ),
        Verdict::Accepted(Command::ShowAll) => Response::Show,
        Verdict::Accepted(Command::AddPoints { amount, target }) => {
            let current = ledger.get_points(target);
            if current <= i64::MAX - amount {
                let total = ledger.add_points(target, amount);
                let mut reply = String::new();
                reply.append("<@");
                push_dec_chars(&mut reply, target);
                reply.append("> now has ");
                push_dec_chars_i64(&mut reply, total);
                reply.append(" points.");
                proof {
                    assert(reply@ =~= confirm_text(target, total));
                }
                Response::Reply(reply)
            } else {
                Response::Reply(
                    "Cannot grant that many points: the total would leave the storable range.".to_owned(),
                )
            }
        },
    }
}

/// Handle one raw inbound message against the shared store, as one of many
/// concurrent handlers.
///
/// Like `handle_message`, but grants serialise on the store's writer lock,
/// and a successful grant also yields the consistent post-grant snapshot
/// that the caller must persist.  The confirmed total is the granted amount
/// on top of whatever resident total this call's turn at the lock saw.
pub fn handle_message_store(raw: &str, store: &LedgerStore) -> (r: (
    Response,
    Option<PointsLedger>,
))
    ensures
        match spec_verdict(raw.spec_bytes()) {
            Verdict::Ignored => r.0 == Response::Ignored && r.1 is None,
            Verdict::Rejected => (r.0 matches Response::Reply(s) && s@ == rejection_text())
                && r.1 is None,
            Verdict::Accepted(c) => match c {
                Command::ShowAll => r.0 == Response::Show && r.1 is None,
                Command::AddPoints { amount, target } => match r.1 {
                    Some(snap) => snap.wf() && (r.0 matches Response::Reply(s) && s@
                        == confirm_text(target, total_of(snap@, target) as i64)),
                    None => r.0 matches Response::Reply(s) && s@ == overflow_text(),
                },
            },
        },
{
    match validate(raw) {
        Verdict::Ignored => (Response::Ignored, None),
        Verdict::Rejected => (
            Response::Reply(
                "That is not a valid command to grant points. Use !pp +N <@user> with a positive whole N, or !pp show.".to_owned(),
            ),
            None,
        ),
        Verdict::Accepted(Command::ShowAll) => (Response::Show, None),
        Verdict::Accepted(Command::AddPoints { amount, target }) => {
            match store.add_points(target, amount) {
                Some((_before, after, snap)) => {
                    let mut reply = String::new();
                    reply.append("<@");
                    push_dec_chars(&mut reply, target);
                    reply.append("> now has ");
                    push_dec_chars_i64(&mut reply, after);
                    reply.append(" points.");
                    proof {
                        assert(reply@ =~= confirm_text(target, after));
                    }
                    (Response::Reply(reply), Some(snap))
                },
                None => (
                    Response::Reply(
                        "Cannot grant that many points: the total would leave the storable range.".to_owned(),
                    ),
                    None,
                ),
            }
        },
    }
}

} // verus!
