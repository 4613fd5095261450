//! Snapshots, stats, requests and the rest of what the pool publishes.

use primed::address::Network;
use primed::issue::{dictate, issue, quote, Coinbasers, Commit, IssuedCoinbaser};
use primed::json::{array, canonical_bytes, empty_object, object, put, Json};
use primed::names::NameMap;
use primed::snapshot::{
    build, is_expired, names_snapshot, reason_name, Snapshot, KEEP_SECS, VERSION,
};
use primed::split::{Payee, Split, UnpaidReason};
use primed::startup::base_split;
use primed::tides::{MinerStat, Window, SOURCE_DATUM, SOURCE_STRATUM};

const A: &str = "bc1qw508d6qejxtdg4y5r3zarvary0c5xw7kv8f3t4";

#[test]
fn canonical_is_sorted_and_compact() {
    let mut x = empty_object();
    put(&mut x, "y", Json::Number(2));
    put(&mut x, "x", Json::Number(1));
    let mut a = empty_object();
    put(&mut a, "z", array(vec![Json::Number(3), object(x)]));
    put(&mut a, "m", Json::Text("s".to_string()));
    let mut doc = empty_object();
    put(&mut doc, "b", Json::Number(1));
    put(&mut doc, "a", object(a));
    assert_eq!(
        canonical_bytes(&object(doc)),
        br#"{"a":{"m":"s","z":[3,{"x":1,"y":2}]},"b":1}"#.to_vec()
    );
}

#[test]
fn texts_are_escaped_as_json_wants() {
    let s = "a\"b\\c\n\t\u{1}\u{1f}/é";
    let got = canonical_bytes(&Json::Text(s.to_string()));
    assert_eq!(String::from_utf8(got).unwrap(), "\"a\\\"b\\\\c\\n\\t\\u0001\\u001f/é\"");
    assert_eq!(canonical_bytes(&Json::Null), b"null".to_vec());
    assert_eq!(canonical_bytes(&Json::Bool(true)), b"true".to_vec());
    assert_eq!(canonical_bytes(&Json::Number(u64::MAX)), b"18446744073709551615".to_vec());
    assert_eq!(canonical_bytes(&array(vec![])), b"[]".to_vec());
    assert_eq!(canonical_bytes(&object(empty_object())), b"{}".to_vec());
}

#[test]
fn op_return_layout() {
    let s = Snapshot { hash: [7u8; 32], canonical: vec![] };
    let o = s.op_return("PYBLOCK-TON618");
    assert_eq!(o[0], 0x6a);
    assert_eq!(o[1] as usize, 14 + 32);
    assert_eq!(&o[2..16], b"PYBLOCK-TON618");
    assert_eq!(o.len(), 48);
    assert_eq!(&o[16..], &[7u8; 32]);
    assert_eq!(s.hex(), "07".repeat(32));
}

fn window() -> Window {
    let mut w = Window::new();
    w.set_target(1_000);
    w.credit("zed", 100, 1, 5, SOURCE_DATUM);
    w.credit(A, 300, 1, 6, SOURCE_STRATUM);
    w
}

#[test]
fn a_snapshot_holds_what_the_split_was_computed_from() {
    let w = window();
    let p = base_split(100, 200, 1000, 0);
    let mut carry: NameMap<u64> = NameMap::new();
    carry.insert(A, 5);
    let mut prev_hash = [0u8; 32];
    prev_hash[0] = 0xab;
    let c = Commit { tag: "T", height: 9, prev_hash, ts: 77 };
    let q = quote(&w, 1_000_000, &p, &carry, Network::Mainnet, Some(c));
    let s = q.snapshot.as_ref().unwrap();
    let v: serde_json::Value = serde_json::from_slice(&s.canonical).unwrap();
    assert_eq!(v["v"], VERSION);
    assert_eq!(v["tag"], "T");
    assert_eq!(v["height"], 9);
    assert_eq!(v["ts"], 77);
    assert_eq!(v["coinbase_value"], 1_000_000);
    assert_eq!(v["prevhash"].as_str().unwrap(), format!("{}ab", "00".repeat(31)));
    assert_eq!(v["params"]["fee_bps"], 100);
    assert_eq!(v["params"]["max_outputs"], 511);
    assert_eq!(v["window"]["target_work"], 1_000);
    assert_eq!(v["window"]["total_work"], 400);
    // identities by name
    assert_eq!(v["window"]["identities"][0]["identity"], A);
    assert_eq!(v["window"]["identities"][0]["stratum_work"], 300);
    assert_eq!(v["window"]["identities"][1]["identity"], "zed");
    assert_eq!(v["carry"][0]["sats"], 5);
    // 750000 less 2 %, and the carry on top
    assert_eq!(v["split"]["payees"][0]["sats"], 735_005);
    assert_eq!(v["split"]["payees"][0]["script"], "0014751e76e8199196d454941c45d1b3a323f1433bd6");
    assert_eq!(v["split"]["unpaid"][0]["reason"], "NoScript");
    assert_eq!(v["split"]["carry_paid"][0]["identity"], A);
    // the same bytes as any JSON library writes, and their BLAKE2b-256
    assert_eq!(serde_json::to_vec(&v).unwrap(), s.canonical);
    let mut h = blake2::Blake2b::<blake2::digest::consts::U32>::default();
    blake2::Digest::update(&mut h, &s.canonical);
    assert_eq!(s.hash[..], blake2::Digest::finalize(h)[..]);
}

#[test]
fn without_a_commitment_there_is_no_snapshot() {
    let q = quote(&window(), 10, &base_split(0, 0, 1, 0), &NameMap::new(), Network::Mainnet, None);
    assert!(q.snapshot.is_none());
}

fn split_of(payees: Vec<(u8, u64)>, pool_sats: u64) -> Split {
    Split {
        payees: payees
            .iter()
            .map(|(f, s)| Payee { identity: format!("m{f}"), work: 1, sats: *s, script: vec![*f; 3] })
            .collect(),
        unpaid: vec![
            ("dust".to_string(), 4, UnpaidReason::BelowMinimum),
            ("nobody".to_string(), 5, UnpaidReason::NoScript),
            ("cut".to_string(), 6, UnpaidReason::BelowCut),
        ],
        carry_paid: vec![("m1".to_string(), 2)],
        fee_sats: 0,
        pool_sats,
    }
}

#[test]
fn the_list_is_commitment_payees_and_the_pool_last() {
    let s = split_of(vec![(1, 60), (2, 30)], 10);
    let list = dictate(&s, Some(vec![0x6a, 0]), &[9, 9]);
    assert_eq!(list.iter().map(|o| o.sats).collect::<Vec<_>>(), vec![0, 60, 30, 10]);
    assert_eq!(list[0].script, vec![0x6a, 0]);
    assert_eq!(list[3].script, vec![9, 9]);
    assert_eq!(list.iter().map(|o| o.sats).sum::<u64>(), 100);
    // nothing left for the pool: no output for it
    let list = dictate(&split_of(vec![(1, 60)], 0), None, &[9]);
    assert_eq!(list.len(), 1);
    // but never an empty list
    let list = dictate(&split_of(vec![], 0), None, &[9]);
    assert_eq!((list.len(), list[0].sats), (1, 1));
}

#[test]
fn an_issued_coinbaser_remembers_what_can_be_paid_later() {
    let w = window();
    let p = base_split(100, 200, 1000, 0);
    let c = Commit { tag: "T", height: 9, prev_hash: [0; 32], ts: 77 };
    let q = quote(&w, 1_000_000, &p, &NameMap::new(), Network::Mainnet, Some(c));
    let hex = q.snapshot.as_ref().unwrap().hex();
    let i = issue(5, 1_000_000, q, true, "T", &[9; 4]);
    assert_eq!(i.snapshot, hex);
    assert_eq!(i.outputs[0].sats, 0);
    assert_eq!(i.outputs[0].script[0], 0x6a);
    assert_eq!(i.outputs.iter().map(|o| o.sats).sum::<u64>(), 1_000_000);
    assert!(i.unpaid.is_empty(), "an identity that is no address is never carried");
    // a snapshot that could not be stored is not committed to
    let c = Commit { tag: "T", height: 9, prev_hash: [0; 32], ts: 77 };
    let q = quote(&w, 1_000_000, &p, &NameMap::new(), Network::Mainnet, Some(c));
    let i = issue(6, 1_000_000, q, false, "T", &[9; 4]);
    assert_eq!(i.snapshot, "");
    assert_ne!(i.outputs[0].script[0], 0x6a);
}

fn coinbaser(id: u8, value: u64) -> IssuedCoinbaser {
    IssuedCoinbaser {
        id,
        value,
        outputs: vec![],
        payees: vec![],
        unpaid: vec![],
        carry_paid: vec![],
        snapshot: String::new(),
    }
}

#[test]
fn requests_are_limited_to_a_burst_and_one_a_second() {
    let mut c = Coinbasers::new(0);
    for i in 1..=32u8 {
        assert_eq!(c.ask(500), Some(i));
    }
    assert_eq!(c.ask(999_999_999), None);
    assert_eq!(c.ask(1_000_000_000), Some(33));
    assert_eq!(c.ask(1_000_000_001), None);
    assert_eq!(c.ask(3_500_000_000), Some(34));
    assert_eq!(c.ask(3_500_000_000), Some(35));
    assert_eq!(c.ask(3_500_000_000), None);
    // what is left of a second counts toward the next
    assert_eq!(c.ask(4_900_000_000), Some(36));
    assert_eq!(c.ask(4_999_999_999), None);
    assert_eq!(c.ask(5_100_000_000), Some(37));
}

#[test]
fn ids_skip_zero_and_the_newest_of_an_id_counts() {
    let mut c = Coinbasers::new(0);
    let mut now = 0;
    let mut last = 0;
    for _ in 0..255 {
        now += 1_000_000_000;
        last = c.ask(now).unwrap();
    }
    assert_eq!(last, 255);
    assert_eq!(c.ask(now), Some(1));
    c.record(coinbaser(7, 1));
    c.record(coinbaser(7, 2));
    assert_eq!(c.issued(7).unwrap().value, 2);
    assert!(c.issued(8).is_none());
    for i in 0..16 {
        c.record(coinbaser(100 + i, 0));
    }
    assert!(c.issued(7).is_none(), "only the last sixteen are kept");
    assert!(c.issued(100).is_some());
}

#[test]
fn snapshots_are_named_by_their_hash_and_kept_for_two_days() {
    assert!(names_snapshot(&"aF".repeat(32)));
    assert!(!names_snapshot(&"a".repeat(63)));
    assert!(!names_snapshot(&format!("{}g", "a".repeat(63))));
    assert!(!names_snapshot("../../etc/passwd"));
    let keep = vec!["kept".to_string()];
    assert!(is_expired("x", KEEP_SECS + 1, 1, &keep));
    assert!(!is_expired("x", KEEP_SECS, 1, &keep));
    assert!(!is_expired("kept", KEEP_SECS + 1, 1, &keep));
    assert!(!is_expired("x", KEEP_SECS + 1, 0, &keep));
    assert_eq!(reason_name(UnpaidReason::BelowCut), "BelowCut");
    assert_eq!(reason_name(UnpaidReason::BelowMinimum), "BelowMinimum");
}

#[test]
fn the_same_work_gives_the_same_snapshot_however_it_came() {
    let mut one = Window::new();
    let mut two = Window::new();
    for w in [&mut one, &mut two] {
        w.set_target(1_000);
    }
    one.credit(A, 300, 1, 6, SOURCE_STRATUM);
    one.credit("zed", 100, 1, 7, SOURCE_DATUM);
    for i in 0..10 {
        two.credit("zed", 10, 2, 50 + i, SOURCE_DATUM);
        two.credit(A, 30, 3, 50 + i, SOURCE_STRATUM);
    }
    let p = base_split(100, 200, 1000, 0);
    let quoted = |w: &Window| {
        let c = Commit { tag: "T", height: 9, prev_hash: [0; 32], ts: 77 };
        quote(w, 1_000_000, &p, &NameMap::new(), Network::Mainnet, Some(c))
    };
    let (a, b) = (quoted(&one), quoted(&two));
    assert_eq!(a.split, b.split);
    assert_eq!(a.snapshot, b.snapshot);
    // any other work shows
    two.credit("zed", 1, 2, 99, SOURCE_DATUM);
    assert_ne!(quoted(&two).snapshot, a.snapshot);
}

#[test]
fn a_snapshot_shows_every_part_it_was_taken_of() {
    let base = quote_with("T", 9, 77, 1_000_000, 100, 7);
    assert_eq!(base, quote_with("T", 9, 77, 1_000_000, 100, 7));
    let others = [
        quote_with("U", 9, 77, 1_000_000, 100, 7),
        quote_with("T", 10, 77, 1_000_000, 100, 7),
        quote_with("T", 9, 78, 1_000_000, 100, 7),
        quote_with("T", 9, 77, 1_000_001, 100, 7),
        quote_with("T", 9, 77, 1_000_000, 101, 7),
        quote_with("T", 9, 77, 1_000_000, 100, 8),
    ];
    for (i, other) in others.iter().enumerate() {
        assert_ne!(*other, base);
        for next in &others[i + 1..] {
            assert_ne!(other, next);
        }
    }
}

#[test]
fn the_order_of_the_miners_does_not_show_in_a_snapshot() {
    let w = window();
    let mut miners = w.miners();
    let split = split_of(vec![(1, 10)], 5);
    let of = |m: &[MinerStat]| {
        build("T", 9, "00", 77, 15, 100, 200, 1, 2, 3, 4, &NameMap::new(), 5, 6, m, &NameMap::new(), &split)
    };
    let first = of(&miners);
    assert!(miners.len() > 1);
    miners.reverse();
    assert_eq!(of(&miners), first);
    miners.pop();
    assert_ne!(of(&miners), first);
}

/// The canonical bytes of a quote on the same window.
fn quote_with(tag: &str, height: u32, ts: u64, value: u64, fee: u32, owed: u64) -> Vec<u8> {
    let mut carry: NameMap<u64> = NameMap::new();
    carry.insert("someone", owed);
    let c = Commit { tag, height, prev_hash: [0; 32], ts };
    let p = base_split(fee, 200, 1000, 0);
    quote(&window(), value, &p, &carry, Network::Mainnet, Some(c)).snapshot.unwrap().canonical
}
