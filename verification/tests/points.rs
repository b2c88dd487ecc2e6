use points_ledger::codec::decode;
use points_ledger::codec::encode;
use points_ledger::command::validate;
use points_ledger::command::Command;
use points_ledger::command::Verdict;
use points_ledger::report::render_all;
use points_ledger::service::handle_message;
use points_ledger::service::handle_message_store;
use points_ledger::store::LedgerStore;
use points_ledger::PointsLedger;
use points_ledger::Response;

fn reply_of(resp: Response) -> String {
    match resp {
        Response::Reply(s) => s,
        _ => panic!("expected a reply"),
    }
}

#[test]
fn grant_then_read_accumulates() {
    let mut l = PointsLedger::new();
    assert_eq!(l.get_points(42), 0);
    l.add_points(42, 5);
    assert_eq!(l.get_points(42), 5);
    l.add_points(42, 3);
    assert_eq!(l.get_points(42), 8);
    assert_eq!(l.get_points(7), 0);
}

#[test]
fn scenario_grant_grant_show() {
    let mut l = PointsLedger::new();

    let reply = reply_of(handle_message("!pp +5 <@42>", &mut l));
    assert!(reply.contains("5"));
    assert_eq!(l.get_points(42), 5);
    assert_eq!(l.num_entries(), 1);

    let reply = reply_of(handle_message("!pp +3 <@42>", &mut l));
    assert!(reply.contains("8"));
    assert_eq!(l.get_points(42), 8);
    assert_eq!(l.num_entries(), 1);

    assert!(matches!(handle_message("!pp show", &mut l), Response::Show));
    let listing = render_all(&l, &vec![None]);
    assert!(listing.contains("42"));
    assert!(listing.contains("8"));
}

#[test]
fn scenario_zero_amount_rejected() {
    let mut l = PointsLedger::new();
    let reply = reply_of(handle_message("!pp +0 <@42>", &mut l));
    assert!(reply.contains("not a valid command to grant points"));
    assert_eq!(l.num_entries(), 0);
    assert_eq!(l.get_points(42), 0);
}

#[test]
fn confirmation_text_is_exact() {
    let mut l = PointsLedger::new();
    let reply = reply_of(handle_message("!pp +5 <@42>", &mut l));
    assert_eq!(reply, "<@42> now has 5 points.");
}

#[test]
fn malformed_commands_rejected_and_ledger_unchanged() {
    let malformed = [
        "!pp 5 <@42>",        // missing sign
        "!pp -5 <@42>",       // negative magnitude
        "!pp +0 <@42>",       // zero magnitude
        "!pp +abc <@42>",     // non-numeric magnitude
        "!pp +5",             // no mention
        "!pp +5 <@>",         // empty mention
        "!pp +5 <@x>",        // non-numeric mention
        "!pp +5 <@42> <@7>",  // two mentions
        "!pp +5 <@42> extra", // trailing token
        "!pp +5<@42>",        // no space before the mention
        "!pp",                // no arguments
        "!pp shower",         // not the keyword
        "!pp +99999999999999999999 <@42>", // magnitude beyond the range
    ];
    for raw in malformed {
        let mut l = PointsLedger::new();
        l.add_points(1, 1);
        assert!(matches!(validate(raw), Verdict::Rejected), "{raw}");
        let reply = reply_of(handle_message(raw, &mut l));
        assert!(reply.contains("not a valid command to grant points"), "{raw}");
        assert_eq!(l.num_entries(), 1, "{raw}");
        assert_eq!(l.get_points(1), 1, "{raw}");
        assert_eq!(l.get_points(42), 0, "{raw}");
    }
}

#[test]
fn non_commands_ignored() {
    for raw in ["", "hello", "!ppx +5 <@42>", "pp +5 <@42>", "! pp show"] {
        let mut l = PointsLedger::new();
        assert!(matches!(validate(raw), Verdict::Ignored), "{raw}");
        assert!(matches!(handle_message(raw, &mut l), Response::Ignored), "{raw}");
        assert_eq!(l.num_entries(), 0, "{raw}");
    }
}

#[test]
fn show_accepts_trailing_text() {
    assert!(matches!(
        validate("!pp show everything please"),
        Verdict::Accepted(Command::ShowAll)
    ));
    assert!(matches!(validate("!pp  show"), Verdict::Accepted(Command::ShowAll)));
}

#[test]
fn whitespace_between_tokens_is_flexible() {
    let mut l = PointsLedger::new();
    let reply = reply_of(handle_message("!pp\t+5\t<@42>", &mut l));
    assert!(reply.contains("5"));
    assert_eq!(l.get_points(42), 5);
    let reply = reply_of(handle_message("!pp   +7   <@42>   ", &mut l));
    assert!(reply.contains("12"));
    assert_eq!(l.get_points(42), 12);
}

#[test]
fn parse_extracts_amount_and_target() {
    match points_ledger::command::parse("!pp +17 <@900000>") {
        Command::AddPoints { amount, target } => {
            assert_eq!(amount, 17);
            assert_eq!(target, 900000);
        },
        _ => panic!("expected a grant"),
    }
}

#[test]
fn concurrent_style_grants_both_land() {
    // Two handlers grant to the same target; the writer lock serialises
    // them, and both are reflected in the final total.
    let store = LedgerStore::new(PointsLedger::new());
    let (a, b) = (5i64, 9i64);
    let first = store.add_points(42, a).expect("grant fits");
    let second = store.add_points(42, b).expect("grant fits");
    assert_eq!(first.1, 5);
    assert_eq!(second.1, 14);
    assert_eq!(store.get_points(42), a + b);
}

#[test]
fn store_handler_round() {
    let store = LedgerStore::new(PointsLedger::new());
    let (resp, snap) = handle_message_store("!pp +5 <@42>", &store);
    assert!(reply_of(resp).contains("5"));
    let snap = snap.expect("grant persists a snapshot");
    assert_eq!(snap.get_points(42), 5);
    let (resp, snap) = handle_message_store("!pp show", &store);
    assert!(matches!(resp, Response::Show));
    assert!(snap.is_none());
}

#[test]
fn overflow_refused_and_ledger_unchanged() {
    let mut l = PointsLedger::new();
    l.add_points(42, i64::MAX);
    let reply = reply_of(handle_message("!pp +1 <@42>", &mut l));
    assert!(reply.contains("overflow") || reply.contains("range"));
    assert_eq!(l.get_points(42), i64::MAX);
}

#[test]
fn encode_is_canonical() {
    let mut l = PointsLedger::new();
    assert_eq!(encode(&l), b"{}".to_vec());
    l.add_points(42, 5);
    assert_eq!(encode(&l), b"{\"42\":5}".to_vec());
    l.add_points(7, 3);
    assert_eq!(encode(&l), b"{\"42\":5,\"7\":3}".to_vec());
}

#[test]
fn save_load_round_trip() {
    let mut l = PointsLedger::new();
    l.add_points(42, 5);
    l.add_points(7, 3);
    l.add_points(900000, 1);
    let bytes = encode(&l);
    let back = decode(&bytes).expect("canonical form decodes");
    assert_eq!(back.num_entries(), 3);
    assert_eq!(back.get_points(42), 5);
    assert_eq!(back.get_points(7), 3);
    assert_eq!(back.get_points(900000), 1);
}

#[test]
fn round_trip_keeps_negative_and_extreme_totals() {
    let mut l = PointsLedger::new();
    l.add_points(1, i64::MAX);
    l.add_points(2, -7);
    l.add_points(3, i64::MIN);
    let back = decode(&encode(&l)).expect("canonical form decodes");
    assert_eq!(back.get_points(1), i64::MAX);
    assert_eq!(back.get_points(2), -7);
    assert_eq!(back.get_points(3), i64::MIN);
}

#[test]
fn decode_accepts_only_canonical_forms() {
    assert!(decode(b"{}").is_some());
    let l = decode(b"{}").unwrap();
    assert_eq!(l.num_entries(), 0);
    assert!(decode(b"{\"42\":5}").is_some());
    assert!(decode(b"{\"42\":-5}").is_some());
    assert!(decode(b"").is_none());
    assert!(decode(b"{").is_none());
    assert!(decode(b"42:5").is_none());
    assert!(decode(b"{\"42\":5").is_none());
    assert!(decode(b"{\"42\":5,}").is_none());
    assert!(decode(b"{42:5}").is_none());
    assert!(decode(b"{\"042\":5}").is_none()); // leading zero
    assert!(decode(b"{\"42\":-0}").is_none()); // negative zero
    assert!(decode(b"{\"42\": 5}").is_none()); // stray whitespace
    assert!(decode(b"{\"42\":5,\"42\":6}").is_none()); // repeated user
    assert!(decode(b"{\"99999999999999999999\":5}").is_none()); // user beyond range
    assert!(decode(b"{\"42\":99999999999999999999}").is_none()); // total beyond range
}

#[test]
fn empty_report_is_explicit() {
    let l = PointsLedger::new();
    let listing = render_all(&l, &Vec::new());
    assert!(!listing.is_empty());
    assert_eq!(listing, "No points have been awarded yet.");
}

#[test]
fn report_lists_names_and_falls_back_to_identity() {
    let mut l = PointsLedger::new();
    l.add_points(42, 8);
    l.add_points(7, -2);
    let names = vec![Some(String::from("alice")), None];
    let listing = render_all(&l, &names);
    assert_eq!(listing, "alice: 8\n7: -2\n");
}

#[test]
fn snapshot_is_a_faithful_copy() {
    let mut l = PointsLedger::new();
    l.add_points(42, 5);
    let snap = l.snapshot();
    l.add_points(42, 1);
    assert_eq!(snap.get_points(42), 5);
    assert_eq!(l.get_points(42), 6);
}
