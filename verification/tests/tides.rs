//! The share window, the ledger behind it and the splits computed from it.

use primed::address::Network;
use primed::capped::divide;
use primed::ledger::{ImportRow, Ledger, Meta};
use primed::names::NameMap;
use primed::split::{compute, compute_with_carry, fee_for, Split, SplitParams, UnpaidReason};
use primed::startup::base_split;
use primed::tides::{Credit, MinerStat, Window, SOURCE_DATUM, SOURCE_STRATUM, SOURCE_UNKNOWN};

/// What the files hold after some appends.
struct Disk {
    meta: Meta,
    lines: Vec<String>,
    credits: Vec<u8>,
}

fn credit(l: &mut Ledger, d: &mut Disk, who: &str, work: u64, height: u32, ts: u32, source: u8) {
    let a = l.credit(who, work, height, ts, source);
    if a.new_identity {
        d.lines.push(who.to_string());
    }
    d.credits.extend_from_slice(&a.row);
}

fn empty() -> (Ledger, Disk) {
    let d = Disk { meta: Meta::default(), lines: vec![], credits: vec![] };
    (Ledger::replay(d.meta, &d.lines, &d.credits), d)
}

fn reopen(d: &Disk) -> Ledger {
    Ledger::replay(d.meta, &d.lines, &d.credits)
}

fn work_by_name(w: &Window) -> Vec<(String, u64)> {
    let mut m: Vec<(String, u64)> = w.miners().into_iter().map(|m| (m.identity, m.work)).collect();
    m.sort();
    m
}

#[test]
fn index_of_matches_a_linear_scan() {
    let mut w = Window::new();
    for id in ["a", "b", "c"] {
        w.credit(id, 1, 1, 1, SOURCE_DATUM);
    }
    for (i, id) in w.identities().to_vec().iter().enumerate() {
        assert_eq!(w.index_of(id), Some(i as u32));
    }
    assert_eq!(w.index_of("nope"), None);
    // survives trimming: the table keeps identities whose rows have aged out
    w.set_target(1);
    assert_eq!(w.index_of("a"), Some(0));
}

#[test]
fn window_trims_to_target_and_tracks_totals() {
    let mut w = Window::new();
    w.set_target(100);
    for i in 0..10 {
        w.credit("a", 20, 1, 1000 + i, SOURCE_UNKNOWN);
    }
    // 10 × 20 = 200 in, window keeps the newest rows summing to ≥ 100 → 5 rows
    assert_eq!(w.total_work(), 100);
    assert_eq!(w.len(), 5);
    w.credit("b", 5, 1, 2000, SOURCE_UNKNOWN);
    assert_eq!(w.total_work(), 105);
    w.credit("b", 5, 1, 2000, SOURCE_UNKNOWN); // coalesces with the previous row
    assert_eq!(w.len(), 6);
    assert_eq!(w.total_work(), 110);
    assert_eq!(w.work_of("b"), 10);
    assert_eq!(w.lifetime_shares, 12);
    assert_eq!(w.lifetime_work, 210);
    let m = w.miners();
    assert_eq!(m[0].identity, "a");
    assert_eq!(m[0].work, 100);
    assert_eq!(m[1].work, 10);
    // shrinking the target trims from the front
    w.set_target(20);
    assert!(w.total_work() >= 20 && w.total_work() < 40);
}

#[test]
fn stratum_and_datum_work_do_not_coalesce() {
    let mut w = Window::new();
    w.set_target(10_000);
    w.credit("a", 600, 1, 100, SOURCE_DATUM);
    w.credit("a", 400, 1, 100, SOURCE_STRATUM);
    assert_eq!(w.len(), 2);
    let m = &w.miners()[0];
    assert_eq!(m.work, 1000);
    assert_eq!(m.stratum_work, 400);
}

#[test]
fn ledger_persists_replays_and_compacts() {
    let (mut l, mut d) = empty();
    l.set_target(50);
    for i in 0..100u32 {
        credit(&mut l, &mut d, if i % 3 == 0 { "x" } else { "y" }, 1, 7, i, SOURCE_UNKNOWN);
    }
    // two credits for the same miner in the same second: separate rows, never merged
    credit(&mut l, &mut d, "y", 3, 7, 99, SOURCE_UNKNOWN);
    credit(&mut l, &mut d, "y", 4, 7, 99, SOURCE_UNKNOWN);
    d.meta = l.flush().unwrap();
    assert!(l.flush().is_none());
    assert!(l.window.total_work() >= 50);
    let before = (l.window.total_work(), l.window.len(), l.window.credits());
    let mut l = reopen(&d);
    assert!(l.window.total_work() >= 50);
    assert_eq!(l.window.target_work(), 50);
    assert_eq!(l.window.lifetime_shares, 102);
    assert_eq!(l.window.lifetime_work, 107);
    assert_eq!(l.window.identities(), &["x".to_string(), "y".to_string()]);
    // the whole point: a reload lands on the same rows the process was paying from
    assert_eq!(l.window.total_work(), before.0, "reloaded window work must match");
    assert_eq!(l.window.len(), before.1, "reloaded row count must match");
    assert_eq!(l.window.credits(), before.2, "rows must match");
    let tail = *l.window.credits().last().unwrap();
    assert_eq!(tail.work, 4, "the last credit is its own row, not merged into 3+4");
    assert_eq!(tail.ts, 99);
    // the file holds only what the window holds after compaction
    assert!(l.differs_from_disk());
    let file = l.compact();
    assert_eq!(file.len(), l.window.len() * Credit::SIZE);
    assert!(!l.differs_from_disk());
}

#[test]
fn persist_window_makes_restart_a_noop() {
    let (mut l, mut d) = empty();
    l.set_target(10_000);
    for i in 0..500u32 {
        credit(&mut l, &mut d, if i % 5 == 0 { "slow" } else { "fast" }, 40, 1, 1000 + i, SOURCE_DATUM);
    }
    d.credits = l.compact();
    d.meta = l.flush().unwrap();
    assert_eq!(d.credits.len() / Credit::SIZE, l.window.len(), "credits.bin must be exactly the live window");
    let miners: Vec<(String, u64)> = l.window.miners().into_iter().map(|m| (m.identity, m.work)).collect();
    let again = reopen(&d);
    assert_eq!(again.window.total_work(), l.window.total_work());
    assert_eq!(again.window.len(), l.window.len());
    let after: Vec<(String, u64)> = again.window.miners().into_iter().map(|m| (m.identity, m.work)).collect();
    assert_eq!(after, miners);
}

#[test]
fn interleaved_same_second_credits_reload_exactly() {
    let names = ["gwA", "gwB", "gwC", "gwD"];
    let (mut l, mut d) = empty();
    l.set_target(400_000);
    // same ts for a whole burst, rotating owners, so tails churn constantly
    for ts in 0..60u32 {
        for i in 0..40usize {
            let who = names[(i * 7 + ts as usize) % names.len()];
            credit(&mut l, &mut d, who, 512, 1, 5000 + ts, SOURCE_DATUM);
            // same miner twice in a row -> exercises the coalesce path
            credit(&mut l, &mut d, who, 512, 1, 5000 + ts, SOURCE_DATUM);
        }
    }
    d.meta = l.flush().unwrap();
    let before = work_by_name(&l.window);
    assert_eq!(before.iter().map(|x| x.1).sum::<u64>(), l.window.total_work());
    let again = reopen(&d);
    assert_eq!(work_by_name(&again.window), before, "per-miner work must be identical after reload");
}

#[test]
fn import_legacy_json() {
    let (mut l, _) = empty();
    let rows = vec![
        ImportRow { ts: 1, identity: "bc1qa".to_string(), work: 56, height: 0 },
        ImportRow { ts: 2, identity: "1Fw8".to_string(), work: 8192, height: 0 },
    ];
    assert_eq!(l.import(&rows).len(), 2);
    assert_eq!(l.window.work_of("1Fw8"), 8192);
    assert_eq!(l.window.total_work(), 8248);
}

#[test]
fn a_torn_row_and_an_unknown_identity_are_left_out() {
    let (mut l, mut d) = empty();
    credit(&mut l, &mut d, "a", 5, 1, 10, SOURCE_DATUM);
    credit(&mut l, &mut d, "b", 6, 1, 11, SOURCE_DATUM);
    d.lines.pop();
    d.credits.push(0xff);
    let again = reopen(&d);
    assert_eq!(again.window.len(), 1);
    assert_eq!(again.window.total_work(), 5);
    assert_eq!(again.rows_on_disk, 1);
}

#[test]
fn the_credit_file_is_rewritten_once_it_is_far_ahead() {
    let (mut l, mut d) = empty();
    l.set_target(1);
    for i in 0..8193u32 {
        credit(&mut l, &mut d, "a", 1, 1, i, SOURCE_DATUM);
    }
    assert_eq!(l.window.len(), 1);
    assert!(!l.needs_compact());
    credit(&mut l, &mut d, "a", 1, 1, 9000, SOURCE_DATUM);
    assert!(l.needs_compact());
}

#[test]
fn a_credit_row_is_twenty_four_bytes_and_reads_back() {
    let c = Credit { ts: 0x0102_0304, ident: 7, work: 0x1122_3344_5566_7788, height: 900_000, source: SOURCE_STRATUM };
    let mut b = vec![9u8];
    c.write(&mut b);
    assert_eq!(b.len(), 1 + Credit::SIZE);
    assert_eq!(&b[1..5], &[4, 3, 2, 1]);
    assert_eq!(Credit::read(&b, 1), c);
}

fn stat(identity: &str, work: u64, stratum_work: u64) -> MinerStat {
    MinerStat { identity: identity.to_string(), work, stratum_work, credits: 1, last_ts: 1 }
}

fn params(fee_bps: u32) -> SplitParams {
    base_split(fee_bps, 2 * fee_bps, 1000, 0)
}

#[test]
fn a_split_is_proportional_after_the_fee_and_conserves_value() {
    let miners = vec![stat("a", 60, 0), stat("b", 40, 0)];
    let scripts = vec![Some(vec![1u8; 22]), Some(vec![2u8; 22])];
    let s = compute(&miners, &scripts, 100, 1_000_000, &params(100));
    assert_eq!(s.payees[0].sats, 594_000);
    assert_eq!(s.payees[1].sats, 396_000);
    assert_eq!(s.fee_sats, 10_000);
    assert_eq!(s.pool_sats, 10_000);
    assert_eq!(s.paid_sats() + s.pool_sats, 1_000_000);
    assert_eq!(fee_for(1_000_000, 100), 10_000);
}

#[test]
fn stratum_work_and_overrides_pay_their_own_fee() {
    let mut p = params(100);
    p.fee_overrides.insert("c", 0);
    let miners = vec![stat("a", 100, 100), stat("b", 100, 0), stat("c", 100, 100)];
    let scripts = vec![Some(vec![1u8; 22]), Some(vec![2u8; 22]), Some(vec![3u8; 22])];
    let s = compute(&miners, &scripts, 300, 3_000_000, &p);
    assert_eq!(s.payees.iter().map(|p| p.sats).collect::<Vec<_>>(), vec![980_000, 990_000, 1_000_000]);
    assert_eq!(s.fee_sats, 30_000);
}

#[test]
fn what_cannot_be_paid_stays_with_the_pool_and_says_why() {
    let mut p = params(0);
    p.max_outputs = 1;
    let miners = vec![stat("a", 900, 0), stat("b", 90, 0), stat("c", 9, 0), stat("d", 1, 0)];
    let scripts = vec![Some(vec![1u8; 22]), None, Some(vec![3u8; 22]), Some(vec![4u8; 22])];
    let s = compute(&miners, &scripts, 1000, 1_000_000, &p);
    assert_eq!(s.payees.len(), 1);
    assert_eq!(
        s.unpaid,
        vec![
            ("b".to_string(), 90_000, UnpaidReason::NoScript),
            ("c".to_string(), 9_000, UnpaidReason::BelowCut),
            ("d".to_string(), 1_000, UnpaidReason::BelowCut),
        ]
    );
    assert_eq!(s.pool_sats, 100_000);
    p.max_outputs = 10;
    p.min_payout = 5_000;
    let s = compute(&miners, &scripts, 1000, 1_000_000, &p);
    assert_eq!(s.payees.len(), 2);
    assert_eq!(s.unpaid[1], ("d".to_string(), 1_000, UnpaidReason::BelowMinimum));
    assert_eq!(s.paid_sats() + s.pool_sats, 1_000_000);
}

fn sats(s: &Split) -> Vec<u64> {
    s.payees.iter().map(|p| p.sats).collect()
}

#[test]
fn a_capped_split_pays_the_minimum_and_leaves_the_fee() {
    let mut p = params(0);
    p.max_payees = 100_000;
    let miners = vec![stat("a", 95, 0), stat("b", 5, 0)];
    let scripts = vec![Some(vec![1u8; 22]), Some(vec![2u8; 22])];
    let s = compute(&miners, &scripts, 100, 10_000, &p);
    assert_eq!((sats(&s), s.unpaid.len(), s.pool_sats), (vec![9_000, 1_000], 0, 0));
    let mut q = params(100);
    q.max_payees = 2;
    let s = compute(&miners, &scripts, 100, 10_000, &q);
    assert_eq!((sats(&s), s.fee_sats, s.pool_sats), (vec![8_900, 1_000], 100, 100));
    // without a cap, what is below the minimum stays with the pool
    let s = compute(&miners, &scripts, 100, 10_000, &params(0));
    assert_eq!((sats(&s), s.pool_sats), (vec![9_500], 500));
}

#[test]
fn a_capped_split_goes_by_work_beyond_the_minimum() {
    let mut p = params(0);
    p.max_payees = 10;
    let scripts: Vec<Option<Vec<u8>>> = (0..4u8).map(|i| Some(vec![i; 22])).collect();
    // lifting the last leaves the third short as well
    let miners = vec![stat("a", 600, 0), stat("b", 290, 0), stat("c", 101, 0), stat("d", 9, 0)];
    let s = compute(&miners, &scripts, 1000, 10_000, &p);
    assert_eq!(sats(&s), vec![5_393, 2_606, 1_000, 1_000]);
    assert_eq!((s.fee_sats, s.pool_sats), (0, 1));
    let even = vec![stat("a", 1, 0), stat("b", 1, 0), stat("c", 1, 0), stat("d", 0, 0)];
    let s = compute(&even, &scripts, 3, 10_000, &p);
    assert_eq!((sats(&s), s.pool_sats), (vec![3_333, 3_333, 3_333], 1));
    assert_eq!(s.unpaid, vec![("d".to_string(), 0, UnpaidReason::BelowMinimum)]);
}

#[test]
fn a_capped_split_leaves_nothing_owed_to_those_it_leaves_out() {
    let mut p = params(0);
    p.max_payees = 1;
    let miners = vec![stat("n", 60, 0), stat("a", 30, 0), stat("b", 10, 0)];
    let scripts = vec![None, Some(vec![1u8; 22]), Some(vec![2u8; 22])];
    let s = compute(&miners, &scripts, 100, 10_000, &p);
    assert_eq!((sats(&s), s.pool_sats), (vec![10_000], 0));
    assert_eq!(
        s.unpaid,
        vec![
            ("n".to_string(), 0, UnpaidReason::NoScript),
            ("b".to_string(), 0, UnpaidReason::BelowCut),
        ]
    );
    // the value has a minimum for one only
    p.max_payees = 5;
    let s = compute(&miners, &scripts, 100, 1_999, &p);
    assert_eq!((sats(&s), s.pool_sats), (vec![1_999], 0));
    assert_eq!(s.unpaid[1], ("b".to_string(), 0, UnpaidReason::BelowMinimum));
    let s = compute(&miners, &scripts, 100, 999, &p);
    assert_eq!((sats(&s), s.pool_sats, s.unpaid.len()), (vec![], 999, 3));
}

#[test]
fn a_value_is_divided_by_weight_above_a_floor() {
    assert_eq!(divide(&vec![95, 5], 10_000, 1_000), vec![9_000, 1_000]);
    assert_eq!(divide(&vec![3, 1], 100, 1), vec![75, 25]);
    assert_eq!(divide(&vec![5, 1, 1], 30, 10), vec![10, 10, 10]);
    assert_eq!(divide(&vec![], 30, 10), Vec::<u64>::new());
}

#[test]
fn carry_is_paid_from_the_remainder_above_the_fee() {
    let p = params(100);
    let miners = vec![stat("a", 50, 0), stat("n", 50, 0)];
    let scripts = vec![Some(vec![1u8; 22]), None];
    let mut carry: NameMap<u64> = NameMap::new();
    carry.insert("a", 5_000);
    carry.insert("z", 2_000);
    let s = compute_with_carry(&miners, &scripts, 100, 1_000_000, &p, &carry, &vec![Some(vec![1u8; 22]), Some(vec![9u8; 22])]);
    assert_eq!(s.payees[0].sats, 495_000 + 5_000);
    assert_eq!((s.payees[1].identity.as_str(), s.payees[1].sats, s.payees[1].work), ("z", 2_000, 0));
    assert_eq!(s.carry_paid, vec![("a".to_string(), 5_000), ("z".to_string(), 2_000)]);
    assert_eq!(s.paid_sats() + s.pool_sats, 1_000_000);
    assert!(s.pool_sats >= s.fee_sats);
}

#[test]
fn a_window_splits_to_the_addresses_of_its_identities() {
    let mut w = Window::new();
    w.set_target(1_000_000);
    w.credit("bc1qw508d6qejxtdg4y5r3zarvary0c5xw7kv8f3t4", 300, 1, 1, SOURCE_DATUM);
    w.credit("worker1", 100, 1, 2, SOURCE_DATUM);
    let s = w.split(1_000_000, &params(0), Network::Mainnet);
    assert_eq!(s.payees.len(), 1);
    assert_eq!(hex::encode(&s.payees[0].script), "0014751e76e8199196d454941c45d1b3a323f1433bd6");
    assert_eq!(s.payees[0].sats, 750_000);
    assert_eq!(s.unpaid, vec![("worker1".to_string(), 250_000, UnpaidReason::NoScript)]);
    assert_eq!(s.pool_sats, 250_000);
}

#[test]
fn an_empty_window_leaves_everything_to_the_pool() {
    let w = Window::new();
    assert!(w.is_empty());
    let s = w.split(500, &params(100), Network::Mainnet);
    assert_eq!((s.payees.len(), s.fee_sats, s.pool_sats), (0, 5, 500));
}

#[test]
fn names_are_kept_in_order() {
    let mut m: NameMap<u64> = NameMap::new();
    for (k, v) in [("b", 2), ("a", 1), ("c", 3), ("b", 9)] {
        m.insert(k, v);
    }
    assert_eq!(m.len(), 3);
    assert_eq!((0..3).map(|i| m.name_at(i).to_string()).collect::<Vec<_>>(), vec!["a", "b", "c"]);
    assert_eq!(m.get("b"), Some(9));
    m.remove("a");
    assert_eq!(m.get("a"), None);
    assert_eq!(m.value_at(1), 3);
    assert_eq!(m.duplicate(), m);
}

#[test]
fn a_credit_file_follows_a_shrinking_target_and_is_rewritten_for_a_growing_one() {
    let (mut l, mut d) = empty();
    l.set_target(100);
    for i in 0..40u32 {
        credit(&mut l, &mut d, "m", 10, 1, i, SOURCE_DATUM);
    }
    l.set_target(60);
    d.meta = l.flush().unwrap();
    assert_eq!(d.credits.len() / Credit::SIZE, 40);
    assert_eq!(reopen(&d).window.credits(), l.window.credits());
    // a larger target would bring trimmed rows back from the file
    l.set_target(200);
    d.meta = l.flush().unwrap();
    assert_eq!(l.window.len(), 6);
    assert_eq!(reopen(&d).window.len(), 20);
    d.credits = l.compact();
    assert_eq!(reopen(&d).window.credits(), l.window.credits());
}

#[test]
fn merging_changes_the_rows_and_not_the_work() {
    let (mut a, mut b) = (Window::new(), Window::new());
    for ts in [1, 1, 1, 2] {
        a.credit("x", 5, 9, ts, SOURCE_DATUM);
        b.credit_row("x", 5, 9, ts, SOURCE_DATUM);
    }
    assert_eq!((a.len(), b.len()), (2, 4));
    assert_eq!(a.total_work(), b.total_work());
    assert_eq!(a.work_of("x"), b.work_of("x"));
    assert_eq!(a.miners()[0].last_ts, b.miners()[0].last_ts);
}
