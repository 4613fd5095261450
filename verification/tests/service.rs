//! Records, workers, stats, requests, frames and startup.

use primed::address::Network;
use primed::base16::{from_hex, to_hex, NotHex};
use primed::classify::CoinbaseKind;
use primed::controls::Controls;
use primed::frame::{check_frame, check_hello, check_len, BadFrame, Command, FrameHeader, InBuf};
use primed::http::{head, route, Route};
use primed::ip::parse_ip;
use primed::json::canonical_bytes;
use primed::mining::REJECT_HIGH_HASH;
use primed::records::{
    apply_carry_for_settled, blocks_to_check, find_block, fold_log, note_confirmations,
    record_block, set_outcome, BlockRecord, Carry, MAX_BLOCKS,
};
use primed::session::{
    check_user, freshness, has_room_for, house_stratum, is_loopback, next_height, tick, Freshness,
    Refusal, RejectFlood, Rejects, Tick, TipSeen, IDLE_LIMIT, KEEPALIVE, SECOND,
};
use primed::split::UnpaidReason;
use primed::startup::{
    base_split, key_file, keys_match, pool_payout_script, read_key, read_key_file, KeyFile,
    PayoutError,
};
use primed::state::{
    credit_worker, expire_workers, fee_path, gateway_name, ClientInfo, Totals, WorkerStat,
};
use primed::stats::{
    age, chores, client_ages, clients_in_order, coinbase_kinds, committed_snapshots, forget_below,
    legacy_ledger, overview, owed, recent_work, shown_blocks, span, window_cliffs, worker_rate,
    workers_in_order, Cliff, Persist, ShownRow, SAMPLE_VALUE,
};
use primed::tides::{Window, SOURCE_DATUM, SOURCE_STRATUM};

const A: &str = "bc1qw508d6qejxtdg4y5r3zarvary0c5xw7kv8f3t4";

fn record(hash: &str) -> BlockRecord {
    BlockRecord {
        ts: 1,
        height: 2,
        hash: hash.to_string(),
        finder: Some("bc1q".to_string()),
        coinbase_value: 3,
        kind: "split".to_string(),
        owed_sats: 0,
        split: vec![("bc1q".to_string(), 3)],
        pool_sats: 0,
        settled: true,
        submit: "accepted".to_string(),
        gateway: "ab".to_string(),
        unpaid: vec![],
        carry_paid: vec![],
        snapshot: String::new(),
        carried: false,
    }
}

#[test]
fn block_log_round_trip() {
    assert!(fold_log(&vec![]).is_empty());
    let r = record("00");
    assert_eq!(fold_log(&vec![r.clone()]), vec![r.clone()]);
    let mut r2 = r.clone();
    r2.submit = "duplicate".to_string();
    assert_eq!(fold_log(&vec![r, r2.clone()]), vec![r2]);
}

#[test]
fn the_log_keeps_the_first_place_and_the_last_word() {
    let mut a2 = record("a");
    a2.settled = false;
    let out = fold_log(&vec![record("a"), record("b"), a2.clone()]);
    assert_eq!(out, vec![a2, record("b")]);
}

#[test]
fn a_settled_block_carries_once() {
    let mut r = record("a");
    r.unpaid = vec![("x".to_string(), 10), ("y".to_string(), 5)];
    r.carry_paid = vec![("z".to_string(), 3)];
    let mut blocks = vec![r];
    let mut carry = Carry::new();
    carry.add("z", 4);
    assert!(!apply_carry_for_settled(&mut blocks, &mut carry, "a", false));
    assert!(apply_carry_for_settled(&mut blocks, &mut carry, "a", true));
    assert_eq!((carry.owed.get("x"), carry.owed.get("y"), carry.owed.get("z")), (Some(10), Some(5), Some(1)));
    assert_eq!(carry.total(), 16);
    assert!(blocks[0].carried);
    assert!(!apply_carry_for_settled(&mut blocks, &mut carry, "a", true));
    assert_eq!(carry.total(), 16);
    carry.settle("x", 10);
    assert_eq!(carry.owed.get("x"), None);
}

#[test]
fn an_unsettled_block_carries_nothing() {
    let mut r = record("a");
    r.settled = false;
    r.unpaid = vec![("x".to_string(), 10)];
    let mut blocks = vec![r];
    let mut carry = Carry::new();
    assert!(!apply_carry_for_settled(&mut blocks, &mut carry, "a", true));
    assert_eq!(carry.total(), 0);
}

#[test]
fn outcomes_go_to_the_newest_record_of_a_hash() {
    let mut blocks = vec![];
    record_block(&mut blocks, record("a"));
    record_block(&mut blocks, record("b"));
    assert_eq!(find_block(&blocks, "a"), Some(0));
    assert_eq!(find_block(&blocks, "c"), None);
    assert_eq!(set_outcome(&mut blocks, "b", "inconclusive").unwrap().submit, "inconclusive");
    assert_eq!(blocks[1].submit, "inconclusive");
    assert!(set_outcome(&mut blocks, "c", "x").is_none());
}

#[test]
fn blocks_stay_recorded_once() {
    let mut blocks = vec![];
    for i in 0..MAX_BLOCKS + 2 {
        record_block(&mut blocks, record(&i.to_string()));
        set_outcome(&mut blocks, &i.to_string(), "accepted");
    }
    assert_eq!(blocks.len(), MAX_BLOCKS);
    assert_eq!((find_block(&blocks, "1"), find_block(&blocks, "2")), (None, Some(0)));
    let mut hashes: Vec<String> = blocks.iter().map(|b| b.hash.clone()).collect();
    hashes.sort();
    hashes.dedup();
    assert_eq!(hashes.len(), MAX_BLOCKS);
}

#[test]
fn workers_are_counted_apart_and_expire() {
    let mut w: Vec<WorkerStat> = vec![];
    credit_worker(&mut w, "a", "rig1", "gw", 8, 1000);
    credit_worker(&mut w, "a", "rig1", "gw2", 8, 1100);
    credit_worker(&mut w, "a", "", "gw", 4, 1100);
    assert_eq!(w.len(), 2);
    assert_eq!((w[0].accepted, w[0].work, w[0].gateway.as_str()), (2, 16, "gw2"));
    assert_eq!(worker_rate(&w[0], 1150), (16, 150));
    assert_eq!(worker_rate(&w[1], 1101), (4, 30));
    credit_worker(&mut w, "a", "rig1", "gw", 1, 1701);
    assert_eq!(w[0].recent.len(), 1, "only shares of the last ten minutes count toward the rate");
    expire_workers(&mut w, 1100 + 3600);
    assert_eq!(w.len(), 2);
    expire_workers(&mut w, 1101 + 3600);
    assert_eq!(w.len(), 1);
}

#[test]
fn workers_are_listed_by_identity_and_name() {
    let mut w: Vec<WorkerStat> = vec![];
    for (i, n) in [("b", "x"), ("a", "z"), ("b", ""), ("a", "c")] {
        credit_worker(&mut w, i, n, "g", 1, 1);
    }
    assert_eq!(workers_in_order(&w), vec![3, 1, 2, 0]);
}

#[test]
fn a_client_counts_its_shares_by_kind() {
    let mut c = ClientInfo::default();
    c.note_share("a", 8, &CoinbaseKind::Split, 5);
    c.note_share("b", 8, &CoinbaseKind::Partial(2), 6);
    c.note_share("b", 8, &CoinbaseKind::PoolOnly, 7);
    c.note_reject(REJECT_HIGH_HASH);
    assert_eq!((c.accepted, c.rejected, c.work, c.last_share_ts), (3, 1, 24, 7));
    assert_eq!(c.identity, "b");
    assert_eq!(c.last_reject, Some("high-hash"));
    let mut d = ClientInfo::default();
    d.note_share("a", 1, &CoinbaseKind::Foreign, 5);
    assert_eq!(coinbase_kinds(&vec![c, d]), (1, 1, 1, 1));
    let mut t = Totals::default();
    Totals::add(&mut t.work, 5);
    Totals::add(&mut t.work, u64::MAX);
    assert_eq!(t.work, 4);
}

fn busy_window() -> Window {
    let mut w = Window::new();
    w.set_target(1_000_000);
    w.credit("nobody", 100, 1, 1_000, SOURCE_DATUM);
    w.credit(A, 250, 1, 1_300, SOURCE_STRATUM);
    w.credit(A, 50, 1, 1_500, SOURCE_DATUM);
    w
}

#[test]
fn recent_work_goes_back_ten_minutes() {
    let w = busy_window();
    let r = recent_work(&w, 1_700);
    assert_eq!((r.total, r.oldest), (300, 1_300));
    assert_eq!(r.by_ident.get(&1), Some(&(300, 1_500)));
    assert_eq!(r.by_ident.get(&0), None);
    assert_eq!(span(1_700, 1_300, 1_600, 600), 400);
    assert_eq!(span(1_700, 1_695, 1_690, 600), 30);
    assert_eq!(span(1_700, 1_300, 0, 600), 600);
}

#[test]
fn the_overview_shows_what_a_block_would_pay() {
    let w = busy_window();
    let p = base_split(100, 200, 1000, 0);
    let o = overview(&w, &p, Network::Mainnet, 1_700, 1_600);
    assert_eq!((o.recent_total, o.span_s), (300, 400));
    let a = &o.miners[0];
    assert_eq!((a.identity.as_str(), a.work, a.stratum_work, a.credits), (A, 300, 250, 2));
    assert!(a.mostly_stratum && a.payable);
    assert_eq!(a.payout_sats, SAMPLE_VALUE / 400 * (250 * 98 + 50 * 99) / 100);
    let fee = SAMPLE_VALUE / 400 * (250 * 2 + 50 + 100) / 100;
    assert_eq!(a.rule_sats, SAMPLE_VALUE - fee);
    assert_eq!((o.rule_split.fee_sats, o.rule_split.pool_sats), (fee, fee));
    assert_eq!((a.fee_bps, a.stratum_fee_bps, a.recent_work, a.last_share_s), (100, 200, 300, 200));
    let n = &o.miners[1];
    assert_eq!((n.payout_sats, n.unpaid_reason, n.payable), (0, Some(UnpaidReason::NoScript), false));
    assert_eq!((n.recent_work, n.last_share_s), (0, 700));
    assert_eq!(o.split.paid_sats() + o.split.pool_sats, SAMPLE_VALUE);
}

#[test]
fn the_ledger_export_holds_the_last_hour() {
    let w = busy_window();
    let text = String::from_utf8(canonical_bytes(&legacy_ledger(&w, 4_700))).unwrap();
    assert_eq!(
        text,
        format!("{{\"credits\":[{{\"height\":1,\"identity\":\"{A}\",\"ts\":1300,\"work\":250}},{{\"height\":1,\"identity\":\"{A}\",\"ts\":1500,\"work\":50}}],\"shares\":3,\"target_work\":1000000,\"window_work\":400}}")
    );
}

#[test]
fn orphans_are_owed_nothing() {
    let mut a = record("a");
    a.owed_sats = 5;
    a.snapshot = "s1".to_string();
    let mut b = record("b");
    b.owed_sats = 7;
    b.kind = "orphan:split".to_string();
    let blocks = vec![a, b];
    assert_eq!(owed(&blocks), 5);
    assert_eq!(committed_snapshots(&blocks), vec!["s1".to_string()]);
}

#[test]
fn chores_come_round() {
    assert_eq!(chores(1, true).persist, Persist::Flush);
    assert_eq!(chores(12, true).persist, Persist::Sync);
    assert!(chores(12, true).expire_workers && !chores(13, true).expire_workers);
    assert_eq!(chores(60, true).persist, Persist::Window);
    assert!(chores(120, true).prune_snapshots && !chores(120, false).prune_snapshots);
    assert_eq!((forget_below(100), forget_below(1)), (98, 0));
}

#[test]
fn lost_work_shows_as_a_cliff() {
    let mut w = Window::new();
    w.set_target(u64::MAX);
    w.credit("a", 900_000, 1, 1, SOURCE_DATUM);
    w.credit("b", 899_999, 1, 1, SOURCE_DATUM);
    let row = |identity: Option<&str>, work: Option<u64>| ShownRow {
        identity: identity.map(str::to_string),
        work,
    };
    let prev = vec![
        row(Some("a"), Some(1_000_000)),
        row(Some("b"), Some(1_000_000)),
        row(Some("c"), Some(999_999)),
        row(Some("d"), Some(1_000_000)),
        row(None, Some(5_000_000)),
        row(Some("e"), None),
    ];
    assert_eq!(
        window_cliffs(&w, &prev),
        vec![
            Cliff { identity: "b".to_string(), prev: 1_000_000, now: 899_999 },
            Cliff { identity: "d".to_string(), prev: 1_000_000, now: 0 },
        ]
    );
}

#[test]
fn a_block_settles_with_confirmations_and_may_come_back_from_a_reorganisation() {
    let mut blocks = vec![record("a"), record("b")];
    for b in &mut blocks {
        b.settled = false;
        b.height = 200;
    }
    assert_eq!(blocks_to_check(&blocks, 200), vec!["a", "b"]);
    // in the chain: settled, once
    assert_eq!(note_confirmations(&mut blocks, "a", 1).map(|r| (r.kind, r.settled)), Some(("split".to_string(), true)));
    assert_eq!(note_confirmations(&mut blocks, "a", 2), None);
    assert_eq!(blocks_to_check(&blocks, 200), vec!["b"]);
    // not in it: an orphan, which is looked at for a hundred blocks more
    let b = note_confirmations(&mut blocks, "b", -1).unwrap();
    assert_eq!((b.kind.as_str(), b.settled), ("orphan:split", false));
    assert_eq!(note_confirmations(&mut blocks, "b", -1), None);
    assert_eq!(note_confirmations(&mut blocks, "b", 0), None);
    assert_eq!(blocks_to_check(&blocks, 300), vec!["b"]);
    assert!(blocks_to_check(&blocks, 301).is_empty());
    // back in the main chain
    let b = note_confirmations(&mut blocks, "b", 1).unwrap();
    assert_eq!((b.kind.as_str(), b.settled), ("split", true));
    assert_eq!(note_confirmations(&mut blocks, "c", 1), None);
}

#[test]
fn requests_are_routed_by_path() {
    for r in ["GET / HTTP/1.1\r\n\r\n", "GET /stats.json?x=1 HTTP/1.1", "GET /stats", "", "GET"] {
        assert_eq!(route(r), Route::Stats, "{r:?}");
    }
    assert_eq!(route("GET /ledger.json HTTP/1.1"), Route::Ledger);
    assert_eq!(route("GET /healthz HTTP/1.1"), Route::Health);
    assert_eq!(route("GET /snapshot/ab12.json HTTP/1.1"), Route::Snapshot("ab12".to_string()));
    assert_eq!(route("GET /snapshot/ab12 HTTP/1.1"), Route::Snapshot("ab12".to_string()));
    assert_eq!(route("GET /nope HTTP/1.1"), Route::NotFound);
    assert_eq!(
        head("200 OK", "text/plain", 3),
        "HTTP/1.1 200 OK\r\nContent-Type: text/plain\r\nContent-Length: 3\r\nAccess-Control-Allow-Origin: *\r\nCache-Control: no-store\r\nConnection: close\r\n\r\n"
    );
}

#[test]
fn frames_are_cut_from_whatever_arrives() {
    let mut b = InBuf::default();
    assert_eq!(b.take(1), None);
    b.feed(&[1, 2, 3]);
    assert_eq!(b.take(4), None);
    assert_eq!(b.take(2), Some(vec![1, 2]));
    b.make_room();
    b.feed(&[4, 5]);
    assert_eq!(b.take(3), Some(vec![3, 4, 5]));
    b.make_room();
    assert_eq!(b.take(0), Some(vec![]));
    assert_eq!(b.take(1), None);
}

#[test]
fn frames_out_of_place_end_the_session() {
    let hello = FrameHeader { len: 100, cmd: Command::Hello, sealed: true, signed: true, channel: false };
    assert_eq!(check_hello(&hello), Ok(()));
    assert_eq!(check_hello(&FrameHeader { signed: false, ..hello }), Err(BadFrame::NotAHello));
    assert_eq!(check_hello(&FrameHeader { channel: true, ..hello }), Err(BadFrame::NotAHello));
    assert_eq!(check_hello(&FrameHeader { len: 4097, ..hello }), Err(BadFrame::TooLarge));
    assert_eq!(check_frame(&hello), Err(BadFrame::SealedAgain));
    assert_eq!(check_frame(&FrameHeader { sealed: false, ..hello }), Err(BadFrame::SecondHello));
    let mining = FrameHeader { len: 1, cmd: Command::Mining, sealed: false, signed: false, channel: true };
    assert_eq!(check_frame(&mining), Ok(true));
    assert_eq!(check_frame(&FrameHeader { channel: false, ..mining }), Err(BadFrame::PlainMining));
    assert_eq!(check_frame(&FrameHeader { cmd: Command::Other(3), ..mining }), Ok(false));
    assert_eq!(check_len(&mining), Ok(()));
    assert_eq!(check_len(&FrameHeader { len: u32::MAX, ..mining }), Err(BadFrame::TooLarge));
    assert_eq!(BadFrame::SecondHello.text(), "second hello");
}

#[test]
fn a_flood_of_rejects_drops_the_session() {
    let mut r = Rejects::new();
    for i in 0..1999u64 {
        assert_eq!(r.note_reject(i), Ok(()));
    }
    assert_eq!(r.note_reject(1999), Err(RejectFlood { count: 2000, secs: 10 }));
    // ten seconds later all but the newest are forgotten
    let mut r = Rejects::new();
    for i in 0..1999u64 {
        assert_eq!(r.note_reject(i), Ok(()));
    }
    assert_eq!(r.note_reject(2_001 + 10 * SECOND), Ok(()));
}

#[test]
fn the_house_is_known_by_address_or_key() {
    let keys = vec![String::new(), "abcd".to_string()];
    let home = parse_ip("127.0.0.9").unwrap();
    let away = parse_ip("10.0.0.1").unwrap();
    assert!(is_loopback(home) && is_loopback(parse_ip("::1").unwrap()) && !is_loopback(away));
    assert!(house_stratum(true, &vec![], home, "ff"));
    assert!(!house_stratum(false, &vec![], home, "ff"));
    assert!(house_stratum(false, &keys, away, "ABCDEF"));
    assert!(!house_stratum(false, &keys, away, "ABC"));
}

#[test]
fn heights_are_held_against_the_tip() {
    let tip = |age: u64| Some(TipSeen { height: 100, age });
    assert_eq!(freshness(5, None, 0), Freshness::Current);
    assert_eq!(freshness(101, tip(0), 0), Freshness::Current);
    assert_eq!(freshness(102, tip(0), 0), Freshness::Current);
    assert_eq!(freshness(103, tip(0), 0), Freshness::Ahead);
    assert_eq!(freshness(100, tip(2 * SECOND), 3), Freshness::Current);
    assert_eq!(freshness(100, tip(3 * SECOND), 3), Freshness::Stale);
    assert_eq!(freshness(99, tip(0), 3), Freshness::Stale);
    assert_eq!((next_height(tip(0)), next_height(None)), (101, 0));
}

#[test]
fn users_must_be_payable_addresses() {
    let c = Controls::default();
    assert_eq!(check_user(&format!("{}.rig", A.to_ascii_uppercase()), &c, Network::Mainnet), Ok(A.to_string()));
    assert_eq!(check_user(A, &c, Network::Testnet), Err(Refusal::NotPayable));
    assert_eq!(check_user("sc184", &c, Network::Mainnet), Err(Refusal::NotPayable));
    assert_eq!(check_user("", &c, Network::Mainnet), Err(Refusal::Malformed));
    assert_eq!(check_user("a b", &c, Network::Mainnet), Err(Refusal::Malformed));
    assert_eq!(check_user(&"x".repeat(129), &c, Network::Mainnet), Err(Refusal::Malformed));
    assert!(has_room_for(&Window::new(), "worker1", Network::Mainnet));
}

#[test]
fn timers_drop_the_idle_and_keep_the_rest_alive() {
    assert_eq!(tick(IDLE_LIMIT, KEEPALIVE), Tick::Nothing);
    assert_eq!(tick(IDLE_LIMIT, KEEPALIVE + 1), Tick::Keepalive);
    assert_eq!(tick(IDLE_LIMIT + 1, 0), Tick::Idle);
}

#[test]
fn an_unusable_payout_address_is_refused_at_startup() {
    let net = "mainnet";
    let (n, s) = pool_payout_script(net, A).unwrap();
    assert_eq!((n, s.len()), (Network::Mainnet, 22));
    assert_eq!(pool_payout_script("nowhere", A), Err(PayoutError::UnknownNetwork));
    assert_eq!(pool_payout_script(net, "worker1"), Err(PayoutError::NotAnAddress));
    let hrp = bech32::Hrp::parse("bc").unwrap();
    let long = bech32::segwit::encode(hrp, bech32::Fe32::Z, &[0xab; 40]).unwrap();
    assert_eq!(pool_payout_script(net, &long), Err(PayoutError::TooLong(42)));
}

#[test]
fn key_files_come_in_two_layouts() {
    let b: Vec<u8> = (0..160).map(|i| i as u8).collect();
    assert_eq!(read_key(&b[..64]), KeyFile::Secret(b[..64].to_vec()));
    let k = read_key(&b);
    let mut secret = b[32..64].to_vec();
    secret.extend_from_slice(&b[128..160]);
    assert_eq!(
        k,
        KeyFile::WithPublic { secret, sign_pk: b[..32].to_vec(), box_pk: b[96..128].to_vec() }
    );
    assert!(keys_match(&k, &b[..32], &b[96..128]));
    assert!(!keys_match(&k, &b[1..33], &b[96..128]));
    assert_eq!(read_key(&b[..65]), KeyFile::WrongLength(65));
    // in the file they stand in hexadecimal, of either case, with white space around
    assert_eq!(key_file(&[0x0a, 0xff]), "0aff\n");
    assert_eq!(read_key_file(&key_file(&b[..64])), Ok(KeyFile::Secret(b[..64].to_vec())));
    assert_eq!(read_key_file(&format!(" {}\r\n", key_file(&b).to_uppercase())), Ok(read_key(&b)));
    assert_eq!(read_key_file("  "), Ok(KeyFile::WrongLength(0)));
    assert_eq!(read_key_file("xyz"), Err(NotHex::Length));
    assert_eq!(read_key_file("0axg"), Err(NotHex::Digit { c: 'x', index: 2 }));
    assert_eq!(from_hex("FfA0"), Ok(vec![0xff, 0xa0]));
    assert_eq!(to_hex(&[0xff, 0xa0]), "ffa0");
}

#[test]
fn gateways_are_named_by_their_key_and_listed_by_number() {
    let mut key = [0u8; 32];
    key[0] = 0xab;
    key[7] = 0x01;
    key[8] = 0x77;
    assert_eq!(gateway_name(&key), "ab00000000000001");
    assert_eq!((fee_path(true), fee_path(false)), ("stratum", "datum"));
    let client = |id: u64, ts: u64| ClientInfo::connected(id, "1.2.3.4:5", "ua", "ocean", "ab", id == 7, ts);
    let mut v = vec![client(7, 100), client(3, 200), client(5, 50)];
    assert_eq!(clients_in_order(&v), vec![1, 2, 0]);
    assert_eq!((v[0].fee_path.as_str(), v[1].fee_path.as_str()), ("stratum", "datum"));
    assert_eq!((v[0].remote.as_str(), v[0].user_agent.as_str(), v[0].gateway.as_str()), ("1.2.3.4:5", "ua", "ab"));
    assert_eq!((v[0].accepted, v[0].identity.as_str(), v[0].last_reject), (0, "", None));
    assert_eq!(client_ages(&v[0], 130), (30, 0));
    v[0].last_share_ts = 120;
    assert_eq!(client_ages(&v[0], 130), (30, 10));
    assert_eq!(client_ages(&v[0], 110), (10, 0));
    assert_eq!((age(9, 4), age(4, 9)), (5, 0));
}

#[test]
fn the_newest_hundred_blocks_are_shown() {
    let blocks: Vec<BlockRecord> = (0..103).map(|i| record(&i.to_string())).collect();
    let shown = shown_blocks(&blocks);
    assert_eq!(shown.len(), 100);
    assert_eq!((shown[0], shown[99]), (102, 3));
    assert_eq!(shown_blocks(&blocks[..2].to_vec()), vec![1, 0]);
}
