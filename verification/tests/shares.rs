//! Shares built the way a gateway builds them: verification, sessions and block candidates.

use primed::address::Network;
use primed::blocks::{
    block_record, display_hash, scale, submission, txcount_fits, PendingBlock, PendingBlocks,
    ValidationAction, ValidationReply,
};
use primed::classify::{classify_coinbase, CoinbaseKind};
use primed::coinbase::{parse, write_varint, TxOut, EXTRANONCE_SLOT};
use primed::coinbaser::Output;
use primed::controls::{Controls, ControlsFile};
use primed::issue::IssuedCoinbaser;
use primed::ledger::{Ledger, Meta};
use primed::mining::{
    Blake2bSection, CoinbaseSection, JobSection, PowSubmit, ACCEPTED, ACCEPTED_TENTATIVELY,
    FLAG_BLAKE2B, REJECTED, REJECT_BAD_COINBASE, REJECT_BAD_COINBASE_ID,
    REJECT_BAD_COINBASE_OUTPUTS, REJECT_BAD_JOB_ID, REJECT_BAD_NTIME, REJECT_BAD_TARGET,
    REJECT_BAD_USERNAME, REJECT_BAD_VERSION, REJECT_COINBASE_MISSING, REJECT_COINBASE_TOO_LARGE,
    REJECT_DUPLICATE_WORK, REJECT_HIGH_HASH, REJECT_STALE_BLOCK,
};
use primed::names::NameMap;
use primed::pow::{meets_target, sha256d};
use primed::seen::SeenShares;
use primed::session::{
    receipt, settle_share, Refusal, Session, ShareOutcome, ShareTerms, TipSeen, SECOND,
};
use primed::slots::{SlotTable, MAX_LIVE_SLOTS};
use primed::split::Payee;
use primed::startup::base_split;
use primed::tides::{Window, SOURCE_DATUM};
use primed::verify::{
    assemble_block, job_work_for, solves_block, time_is_off, verify, verify_with_target, Absorbed,
    JobSlot, Policy, VerifiedShare, MAX_COINBASES_PER_SLOT, MAX_COINBASE_SECTION_BYTES,
    MAX_TIME_AHEAD, MAX_TIME_BEHIND,
};

const HEIGHT: u32 = 966_267;
const VALUE: u64 = 312_538_966;
const NOW: u32 = 1_788_408_528;
const MINER: &str = "bc1qw508d6qejxtdg4y5r3zarvary0c5xw7kv8f3t4";

fn p2wpkh(fill: u8) -> Vec<u8> {
    let mut s = vec![0x00, 0x14];
    s.extend_from_slice(&[fill; 20]);
    s
}

fn pool_script() -> Vec<u8> {
    let mut s = vec![0x00, 0x20];
    s.extend_from_slice(&[0x5d; 32]);
    s
}

fn split() -> Vec<Output> {
    vec![
        Output { sats: 200_000_000, script: p2wpkh(0x11) },
        Output { sats: 100_000_000, script: p2wpkh(0x22) },
        Output { sats: 10_000_000, script: p2wpkh(0x33) },
    ]
}

fn txids(n: usize) -> Vec<[u8; 32]> {
    (0..n)
        .map(|i| {
            let mut a = [0u8; 32];
            a[..8].copy_from_slice(&(i as u64 + 1).to_le_bytes());
            a
        })
        .collect()
}

/// Outputs as the gateway lays them out: issued split, then pool remainder, then witness commitment.
fn gateway_outputs(issued: &[Output], pool: &[u8], value: u64) -> Vec<TxOut> {
    let mut outs: Vec<TxOut> = issued.iter().map(|o| TxOut { value: o.sats, script: o.script.clone() }).collect();
    let paid: u64 = issued.iter().map(|o| o.sats).sum();
    outs.push(TxOut { value: value - paid, script: pool.to_vec() });
    let mut wc = vec![0x6a, 0x24, 0xaa, 0x21, 0xa9, 0xed];
    wc.extend_from_slice(&[0x76; 32]);
    outs.push(TxOut { value: 0, script: wc });
    outs
}

/// A coinbase with its height, a tag, the target byte and room for the extranonce, and where the
/// target byte is.
fn build_coinbase(height: u32, tag: &[u8], outs: &[TxOut], pot: u8) -> (Vec<u8>, usize) {
    let mut sig = vec![3u8];
    sig.extend_from_slice(&height.to_le_bytes()[..3]);
    sig.push(tag.len() as u8);
    sig.extend_from_slice(tag);
    let target_at = sig.len();
    sig.push(pot);
    sig.extend_from_slice(&[0u8; EXTRANONCE_SLOT]);
    let mut b = vec![1, 0, 0, 0, 1];
    b.extend_from_slice(&[0u8; 32]);
    b.extend_from_slice(&[0xff; 4]);
    write_varint(&mut b, sig.len() as u64);
    let tidx = b.len() + target_at;
    b.extend_from_slice(&sig);
    b.extend_from_slice(&[0xff; 4]);
    write_varint(&mut b, outs.len() as u64);
    for o in outs {
        b.extend_from_slice(&o.value.to_le_bytes());
        write_varint(&mut b, o.script.len() as u64);
        b.extend_from_slice(&o.script);
    }
    b.extend_from_slice(&[0u8; 4]);
    (b, tidx)
}

fn pair_hash(a: &[u8; 32], b: &[u8; 32]) -> [u8; 32] {
    let mut v = a.to_vec();
    v.extend_from_slice(b);
    sha256d(&v)
}

fn merkle_branches(txs: &[[u8; 32]]) -> Vec<[u8; 32]> {
    let mut level = txs.to_vec();
    let mut out = vec![];
    while !level.is_empty() {
        out.push(level[0]);
        let rest = &level[1..];
        let mut next = vec![];
        let mut i = 0;
        while i < rest.len() {
            let b = if i + 1 < rest.len() { rest[i + 1] } else { rest[i] };
            next.push(pair_hash(&rest[i], &b));
            i += 2;
        }
        level = next;
    }
    out
}

/// A share for job slot `slot` with the given outputs and difficulty, plus the extranonce
/// and grinding fields. `pot` is the target byte the gateway wrote into the coinbase.
#[allow(clippy::too_many_arguments)]
fn share(
    slot: u8,
    cb_id: u8,
    coinbaser_id: u8,
    outs: &[TxOut],
    txs: &[[u8; 32]],
    pot: u8,
    nonce: [u8; 8],
    ntime: [u8; 8],
) -> PowSubmit {
    let (cb, tidx) = build_coinbase(HEIGHT, b"Lazarus", outs, 0);
    let split_at = tidx + 1;
    let coinb1 = cb[..split_at].to_vec();
    let coinb2 = cb[split_at + EXTRANONCE_SLOT..].to_vec();
    PowSubmit {
        job_id: slot,
        coinbase_id: cb_id,
        flags: FLAG_BLAKE2B,
        target_pot: pot,
        ntime32: u32::from_le_bytes(ntime[..4].try_into().unwrap()),
        nonce32: u32::from_le_bytes(nonce[..4].try_into().unwrap()),
        version: 0xa000_0000,
        extranonce: [0x0b, 0x10, 0xc0, 0xde, 1, 2, 3, 4, 5, 6, 7, 8],
        username: "bc1qminer.rig".to_string(),
        reserved: [0; 4],
        blake2b: Some(Blake2bSection { ntime, nonce }),
        time_on_wire: Some(NOW),
        job: Some(JobSection {
            prev_hash: [0x77; 32],
            target_byte_index: tidx as u16,
            nbits: 0x193c_2d40u32.to_le_bytes(),
            coinbaser_id,
            height: HEIGHT,
            coinbase_value: VALUE,
            txn_count: txs.len() as u32,
            txn_total_weight: 0,
            txn_total_size: 0,
            txn_total_sigops: 0,
            merkle_branches: merkle_branches(txs),
        }),
        coinbase: Some(CoinbaseSection { coinbase_id: cb_id, coinb1, coinb2 }),
    }
}

/// A target one in 2^12 hashes meets, so tests can grind real shares in milliseconds.
/// (A real difficulty-1 share is 2^32 hashes.)
fn easy_target() -> [u8; 32] {
    let mut t = [0xffu8; 32];
    t[31] = 0;
    t[30] = 0x0f;
    t
}

/// Grinds `s` until it meets `target`, using the txcount convention `includes_coinbase`.
fn grind_to(slot: &mut JobSlot, s: &mut PowSubmit, target: &[u8; 32], includes_coinbase: bool) {
    slot.absorb(s).unwrap();
    let jw = job_work_for(slot, s, includes_coinbase).unwrap();
    let b = s.blake2b.as_mut().unwrap();
    let mut n = u32::from_le_bytes(b.nonce[..4].try_into().unwrap());
    loop {
        b.nonce[..4].copy_from_slice(&n.to_le_bytes());
        if meets_target(&jw.hash(&b.nonce, &b.ntime), target) {
            s.nonce32 = n;
            return;
        }
        n = n.wrapping_add(1);
    }
}

fn grind(slot: &mut JobSlot, s: &mut PowSubmit) {
    grind_to(slot, s, &easy_target(), false)
}

fn policy<'a>(issued: &'a [Output], pool: &'a [u8]) -> Policy<'a> {
    Policy { pool_script: pool, issued: Some(issued), tolerance: 2, now: NOW, min_pot: 0 }
}

fn check(slot: &mut JobSlot, s: &PowSubmit, p: &Policy) -> Result<VerifiedShare, u16> {
    verify_with_target(slot, s, p, &easy_target())
}

#[test]
fn a_ground_share_verifies_and_repeat_shares_hit_the_cache() {
    let pool = pool_script();
    let iss = split();
    let outs = gateway_outputs(&iss, &pool, VALUE);
    let txs = txids(58);
    let mut slot = JobSlot::default();
    let mut s = share(2, 4, 9, &outs, &txs, 3, [0; 8], [0, 0, 0, 0, 0xef, 0xbe, 0xad, 0xde]);
    grind(&mut slot, &mut s);
    let v = check(&mut slot, &s, &policy(&iss, &pool)).expect("verifies");
    assert_eq!(v.work, 8);
    assert_eq!(v.height, HEIGHT);
    assert_eq!(v.coinbase_kind, CoinbaseKind::Split);
    assert_eq!(v.coinbase_value, VALUE);
    assert_eq!(v.paid_to_pool, VALUE - 310_000_000);
    assert!(!v.is_block_candidate);
    assert_eq!(v.commitment.txcount, 59);
    assert_eq!(v.ntime, NOW);

    // second share on the same job: no job/coinbase sections, different nonce
    let mut s2 = s.clone();
    s2.job = None;
    s2.coinbase = None;
    s2.blake2b.as_mut().unwrap().nonce[4..].copy_from_slice(&[9, 9, 9, 9]);
    grind(&mut slot, &mut s2);
    let v2 = check(&mut slot, &s2, &policy(&iss, &pool)).expect("cached job still verifies");
    assert_ne!(v2.hash, v.hash);
    assert_eq!(v2.commitment, v.commitment);
    assert_eq!(slot.commitments_len(), 1, "one commitment cached for (cb, pot, txcount, version)");
}

#[test]
fn work_must_actually_meet_the_claimed_target() {
    let pool = pool_script();
    let iss = split();
    let outs = gateway_outputs(&iss, &pool, VALUE);
    let mut slot = JobSlot::default();
    let mut s = share(0, 4, 1, &outs, &txids(3), 2, [0; 8], [0; 8]);
    grind(&mut slot, &mut s);
    // the real target for pot 2 needs 2^34 hashes; the easy grind will not have met it
    assert_eq!(verify(&mut slot, &s, &policy(&iss, &pool)), Err(REJECT_HIGH_HASH));
    // tampering with any grinding field breaks even the easy target
    let mut t = s.clone();
    t.extranonce[11] ^= 1;
    assert_eq!(check(&mut slot, &t, &policy(&iss, &pool)), Err(REJECT_HIGH_HASH));
    let mut t = s.clone();
    t.blake2b.as_mut().unwrap().ntime[0] ^= 1;
    assert_eq!(check(&mut slot, &t, &policy(&iss, &pool)), Err(REJECT_HIGH_HASH));
    let mut t = s.clone();
    t.version ^= 1;
    assert_eq!(check(&mut slot, &t, &policy(&iss, &pool)), Err(REJECT_HIGH_HASH));
}

#[test]
fn coinbase_that_underpays_or_diverts_is_rejected() {
    let pool = pool_script();
    let iss = split();
    let mut robbed = iss.clone();
    robbed[1].sats = 1;
    let outs = gateway_outputs(&robbed, &pool, VALUE);
    let mut slot = JobSlot::default();
    let mut s = share(0, 4, 1, &outs, &txids(3), 1, [0; 8], [0; 8]);
    grind(&mut slot, &mut s);
    assert_eq!(check(&mut slot, &s, &policy(&iss, &pool)), Err(REJECT_BAD_COINBASE_OUTPUTS));

    let thief = vec![Output { sats: VALUE, script: p2wpkh(0xee) }];
    let outs = gateway_outputs(&thief, &pool, VALUE);
    let mut slot = JobSlot::default();
    let mut s = share(0, 4, 1, &outs, &txids(3), 1, [0; 8], [0; 8]);
    grind(&mut slot, &mut s);
    assert_eq!(check(&mut slot, &s, &policy(&iss, &pool)), Err(REJECT_BAD_COINBASE_OUTPUTS));

    // a smaller coinbase size class carries only the first issued outputs: Partial
    let outs = gateway_outputs(&iss[..2], &pool, VALUE);
    let mut slot = JobSlot::default();
    let mut s = share(0, 2, 1, &outs, &txids(3), 1, [0; 8], [0; 8]);
    grind(&mut slot, &mut s);
    let v = check(&mut slot, &s, &policy(&iss, &pool)).unwrap();
    assert_eq!(v.coinbase_kind, CoinbaseKind::Partial(2));
    assert_eq!(v.paid_to_pool, VALUE - 300_000_000);
    // ...but a partial coinbase that shorts one of the outputs it does carry is not
    let mut short = iss[..2].to_vec();
    short[1].sats -= 1_000;
    let outs = gateway_outputs(&short, &pool, VALUE);
    let mut slot = JobSlot::default();
    let mut s = share(0, 2, 1, &outs, &txids(3), 1, [0; 8], [0; 8]);
    grind(&mut slot, &mut s);
    assert_eq!(check(&mut slot, &s, &policy(&iss, &pool)), Err(REJECT_BAD_COINBASE_OUTPUTS));

    // a gateway may rescale slightly (dust rounding), within tolerance
    let mut near = iss.clone();
    near[0].sats -= 2;
    let outs = gateway_outputs(&near, &pool, VALUE);
    let mut slot = JobSlot::default();
    let mut s = share(0, 4, 1, &outs, &txids(3), 1, [0; 8], [0; 8]);
    grind(&mut slot, &mut s);
    assert_eq!(check(&mut slot, &s, &policy(&iss, &pool)).unwrap().coinbase_kind, CoinbaseKind::Split);
}

/// A gateway that pays every issued miner output in full and then sends the pool's
/// remainder — fee, rounding, unplaced dust — to a miner's address instead of
/// `pool_script` is not a Split; it is the remainder being diverted.
#[test]
fn coinbase_that_diverts_the_pool_remainder_to_a_miner_is_rejected() {
    let pool = pool_script();
    let mut iss = split();
    let miners_paid: u64 = iss.iter().map(|o| o.sats).sum();
    iss.push(Output { sats: VALUE - miners_paid, script: pool.clone() });

    // every miner exact, pool output missing, first miner takes the remainder
    let mut outs: Vec<TxOut> = iss[..3].iter().map(|o| TxOut { value: o.sats, script: o.script.clone() }).collect();
    outs[0].value += VALUE - miners_paid;
    let mut slot = JobSlot::default();
    let mut s = share(0, 4, 1, &outs, &txids(3), 1, [0; 8], [0; 8]);
    grind(&mut slot, &mut s);
    assert_eq!(check(&mut slot, &s, &policy(&iss, &pool)), Err(REJECT_BAD_COINBASE_OUTPUTS));

    // same with a token pool output present, so "pool_paid" alone cannot be the tell
    let mut outs: Vec<TxOut> = iss[..3].iter().map(|o| TxOut { value: o.sats, script: o.script.clone() }).collect();
    outs[1].value += VALUE - miners_paid - 1_000;
    outs.push(TxOut { value: 1_000, script: pool.clone() });
    let mut slot = JobSlot::default();
    let mut s = share(0, 4, 1, &outs, &txids(3), 1, [0; 8], [0; 8]);
    grind(&mut slot, &mut s);
    assert_eq!(check(&mut slot, &s, &policy(&iss, &pool)), Err(REJECT_BAD_COINBASE_OUTPUTS));

    // a Partial coinbase (smaller size class) that pads the one output it carries
    let outs = vec![
        TxOut { value: iss[0].sats + 5_000_000, script: iss[0].script.clone() },
        TxOut { value: VALUE - iss[0].sats - 5_000_000, script: pool.clone() },
    ];
    let mut slot = JobSlot::default();
    let mut s = share(0, 1, 1, &outs, &txids(3), 1, [0; 8], [0; 8]);
    grind(&mut slot, &mut s);
    assert_eq!(check(&mut slot, &s, &policy(&iss, &pool)), Err(REJECT_BAD_COINBASE_OUTPUTS));

    // one sat over, within the per-output rounding slack, is still a Split
    let mut outs: Vec<TxOut> = iss.iter().map(|o| TxOut { value: o.sats, script: o.script.clone() }).collect();
    outs[0].value += 1;
    outs[3].value -= 1;
    let mut slot = JobSlot::default();
    let mut s = share(0, 4, 1, &outs, &txids(3), 1, [0; 8], [0; 8]);
    grind(&mut slot, &mut s);
    assert_eq!(check(&mut slot, &s, &policy(&iss, &pool)).unwrap().coinbase_kind, CoinbaseKind::Split);
}

/// Two window identities can resolve to one scriptPubKey (a bech32 address that was
/// interned in two casings, before that was folded). The pool issues two outputs to the
/// same script; a gateway pays the sum to that script. That is honest and must verify;
/// the bound is per script, not per identity.
#[test]
fn two_issued_outputs_to_one_script_paid_as_their_sum_is_a_split() {
    let pool = pool_script();
    let iss = vec![
        Output { sats: 200_000_000, script: p2wpkh(0x11) },
        Output { sats: 50_000_000, script: p2wpkh(0x11) },
        Output { sats: 10_000_000, script: p2wpkh(0x33) },
        Output { sats: VALUE - 260_000_000, script: pool.clone() },
    ];
    let outs = vec![
        TxOut { value: 250_000_000, script: p2wpkh(0x11) },
        TxOut { value: 10_000_000, script: p2wpkh(0x33) },
        TxOut { value: VALUE - 260_000_000, script: pool.clone() },
    ];
    let mut slot = JobSlot::default();
    let mut s = share(0, 4, 1, &outs, &txids(3), 1, [0; 8], [0; 8]);
    grind(&mut slot, &mut s);
    assert_eq!(check(&mut slot, &s, &policy(&iss, &pool)).unwrap().coinbase_kind, CoinbaseKind::Split);

    // ...but paying that script the pool's remainder too is still diversion
    let outs = vec![
        TxOut { value: 250_000_000 + 20_000_000, script: p2wpkh(0x11) },
        TxOut { value: 10_000_000, script: p2wpkh(0x33) },
        TxOut { value: VALUE - 280_000_000, script: pool.clone() },
    ];
    let mut slot = JobSlot::default();
    let mut s = share(0, 4, 1, &outs, &txids(3), 1, [0; 8], [0; 8]);
    grind(&mut slot, &mut s);
    assert_eq!(check(&mut slot, &s, &policy(&iss, &pool)), Err(REJECT_BAD_COINBASE_OUTPUTS));
}

/// lazarus-gateway rescales the issued list when the template turns out to be worth
/// *more* than the split assumed (fees arrived). Every output grows by the same ratio,
/// the pool's included, so it verifies; growing one miner output past that ratio does not.
#[test]
fn proportional_upscaling_verifies_but_a_lopsided_one_does_not() {
    let pool = pool_script();
    let mut iss = split();
    let miners_paid: u64 = iss.iter().map(|o| o.sats).sum();
    iss.push(Output { sats: VALUE - miners_paid, script: pool.clone() });

    let bigger = VALUE + VALUE / 50; // +2% fees
    let mut scaled: Vec<TxOut> = iss
        .iter()
        .map(|o| TxOut {
            value: (u128::from(o.sats) * u128::from(bigger) / u128::from(VALUE)) as u64,
            script: o.script.clone(),
        })
        .collect();
    let paid: u64 = scaled.iter().map(|o| o.value).sum();
    scaled.last_mut().unwrap().value += bigger - paid;
    let mut slot = JobSlot::default();
    let mut s = share(0, 4, 1, &scaled, &txids(3), 1, [0; 8], [0; 8]);
    grind(&mut slot, &mut s);
    assert_eq!(check(&mut slot, &s, &policy(&iss, &pool)).unwrap().coinbase_kind, CoinbaseKind::Split);

    // the pool's scaled share moved onto a miner: rejected even though the total matches
    let mut cheat = scaled.clone();
    cheat[0].value += 1_000_000;
    cheat[3].value -= 1_000_000;
    let mut slot = JobSlot::default();
    let mut s = share(0, 4, 1, &cheat, &txids(3), 1, [0; 8], [0; 8]);
    grind(&mut slot, &mut s);
    assert_eq!(check(&mut slot, &s, &policy(&iss, &pool)), Err(REJECT_BAD_COINBASE_OUTPUTS));
}

#[test]
fn oversized_and_surplus_coinbase_sections_are_refused() {
    let pool = pool_script();
    let iss = split();
    let outs = gateway_outputs(&iss, &pool, VALUE);
    let mut slot = JobSlot::default();
    let mut s = share(0, 4, 1, &outs, &txids(3), 1, [0; 8], [0; 8]);
    let good = slot.absorb(&s).unwrap();
    assert!(good.job_changed);
    assert_eq!(good.coinbase_added, Some(4));
    assert_eq!(slot.absorb(&s).unwrap(), Absorbed::default(), "a repeat changes nothing");

    // padding in coinb2: refused, slot untouched
    let mut fat = s.clone();
    fat.coinbase.as_mut().unwrap().coinb2.extend(std::iter::repeat(0u8).take(MAX_COINBASE_SECTION_BYTES));
    assert_eq!(slot.absorb(&fat), Err(REJECT_COINBASE_TOO_LARGE));
    assert_eq!(slot.coinbases.len(), 1);

    // ids 0..=7 fit (4 is already there); a ninth distinct id does not
    for id in [0u8, 1, 2, 3, 5, 0xff, 6] {
        let mut c = s.clone();
        c.job = None;
        c.coinbase.as_mut().unwrap().coinbase_id = id;
        slot.absorb(&c).unwrap();
    }
    assert_eq!(slot.coinbases.len(), MAX_COINBASES_PER_SLOT);
    let mut ninth = s.clone();
    ninth.job = None;
    ninth.coinbase.as_mut().unwrap().coinbase_id = 7;
    assert_eq!(slot.absorb(&ninth), Err(REJECT_BAD_COINBASE_ID));
    // replacing an existing id is fine at the cap
    let mut again = s.clone();
    again.job = None;
    again.coinbase.as_mut().unwrap().coinb1.push(0);
    assert_eq!(slot.absorb(&again).unwrap().coinbase_added, Some(4));
    assert_eq!(slot.coinbases.len(), MAX_COINBASES_PER_SLOT);

    // forgetting a section drops it and its derived state
    assert!(slot.coinbase_bytes() > 0);
    slot.forget_coinbase(4);
    assert!(!slot.coinbases.contains_key(&4));
    grind(&mut slot, &mut s);
    let _ = check(&mut slot, &s, &policy(&iss, &pool)).unwrap();
    assert!(slot.has_parsed(4, 1));
    slot.forget_coinbase(4);
    assert!(slot.parsed_len() == 0 && slot.commitments_len() == 0);
}

#[test]
fn caches_stay_bounded_under_share_chosen_keys() {
    let pool = pool_script();
    let iss = split();
    let outs = gateway_outputs(&iss, &pool, VALUE);
    let mut slot = JobSlot::default();
    let s = share(0, 4, 1, &outs, &txids(3), 1, [0; 8], [0; 8]);
    slot.absorb(&s).unwrap();
    // every target byte parses a fresh coinbase before any work is checked
    for pot in 0..=255u8 {
        let mut t = s.clone();
        t.target_pot = pot;
        let _ = check(&mut slot, &t, &policy(&iss, &pool));
    }
    assert!(slot.parsed_len() <= 32, "cb_cache={}", slot.parsed_len());
    // a permissive target lets every version through; the H2 cache is keyed by it
    let all = [0xff; 32];
    for v in 0..200u32 {
        let mut t = s.clone();
        t.version = 0xa000_0000 | v;
        verify_with_target(&mut slot, &t, &policy(&iss, &pool), &all).unwrap();
    }
    assert!(slot.commitments_len() <= 64, "h2_cache={}", slot.commitments_len());
}

/// Once one share verifies on a job, the slot is pinned to that gateway's txcount
/// convention; a share that only passes under the other reading is refused.
#[test]
fn txcount_convention_is_pinned_after_the_first_share() {
    let pool = pool_script();
    let iss = split();
    let outs = gateway_outputs(&iss, &pool, VALUE);
    let txs = txids(5);
    let mut slot = JobSlot::default();
    let mut s = share(0, 4, 1, &outs, &txs, 1, [0; 8], [0; 8]);
    grind_to(&mut slot, &mut s, &easy_target(), false);
    assert_eq!(slot.txcount_convention(), None);
    let v = check(&mut slot, &s, &policy(&iss, &pool)).unwrap();
    assert_eq!(v.commitment.txcount, 6);
    assert_eq!(slot.txcount_convention(), Some(false));

    // a share ground under the *other* convention on the same job is now a high hash
    let mut other = share(0, 4, 1, &outs, &txs, 1, [1; 8], [0; 8]);
    other.job = None;
    other.coinbase = None;
    let mut scratch = JobSlot::default();
    let mut probe = share(0, 4, 1, &outs, &txs, 1, [1; 8], [0; 8]);
    loop {
        grind_to(&mut scratch, &mut probe, &easy_target(), true);
        // make sure it does not *also* pass under the pinned convention (1 in 4096)
        let jw = job_work_for(&scratch, &probe, false).unwrap();
        let b = probe.blake2b.as_ref().unwrap();
        if !meets_target(&jw.hash(&b.nonce, &b.ntime), &easy_target()) {
            break;
        }
        probe.blake2b.as_mut().unwrap().nonce[4] ^= 1;
    }
    other.nonce32 = probe.nonce32;
    other.blake2b = probe.blake2b;
    assert_eq!(check(&mut slot, &other, &policy(&iss, &pool)), Err(REJECT_HIGH_HASH));

    // a new job on the slot forgets the pin
    let mut next = share(0, 4, 2, &outs, &txids(7), 1, [0; 8], [0; 8]);
    grind_to(&mut slot, &mut next, &easy_target(), true);
    assert_eq!(slot.txcount_convention(), None);
    let v = check(&mut slot, &next, &policy(&iss, &pool)).unwrap();
    assert_eq!(v.commitment.txcount, 7);
    assert_eq!(slot.txcount_convention(), Some(true));
}

/// Prime's list is complete — the pool's own output comes last — and a gateway whose
/// template is worth less than the value the split was computed for may scale the whole
/// list down proportionally (lazarus-gateway) or drop the pool output (stock). Either
/// verifies; a miner output scaled below its share does not.
#[test]
fn complete_list_and_proportional_scaling() {
    let pool = pool_script();
    let mut iss = split();
    let miners_paid: u64 = iss.iter().map(|o| o.sats).sum();
    iss.push(Output { sats: VALUE - miners_paid, script: pool.clone() });
    assert_eq!(iss.iter().map(|o| o.sats).sum::<u64>(), VALUE);

    // exact template value: paid verbatim
    let outs: Vec<TxOut> = iss.iter().map(|o| TxOut { value: o.sats, script: o.script.clone() }).collect();
    let mut slot = JobSlot::default();
    let mut s = share(0, 4, 1, &outs, &txids(3), 1, [0; 8], [0; 8]);
    grind(&mut slot, &mut s);
    let v = check(&mut slot, &s, &policy(&iss, &pool)).unwrap();
    assert_eq!(v.coinbase_kind, CoinbaseKind::Split);
    assert_eq!(v.paid_to_pool, VALUE - miners_paid);

    // template worth 1% less: every output scaled by the same ratio (lazarus-gateway)
    let smaller = VALUE - VALUE / 100;
    let mut scaled: Vec<TxOut> = iss
        .iter()
        .map(|o| TxOut {
            value: (u128::from(o.sats) * u128::from(smaller) / u128::from(VALUE)) as u64,
            script: o.script.clone(),
        })
        .collect();
    let paid: u64 = scaled.iter().map(|o| o.value).sum();
    scaled.last_mut().unwrap().value += smaller - paid;
    let mut slot = JobSlot::default();
    let mut s = share(0, 4, 1, &scaled, &txids(3), 1, [0; 8], [0; 8]);
    grind(&mut slot, &mut s);
    assert_eq!(check(&mut slot, &s, &policy(&iss, &pool)).unwrap().coinbase_kind, CoinbaseKind::Split);

    // template worth a little less: stock gateway keeps the miner outputs whole, our
    // pool output no longer fits, and its own leftover output replaces it
    let stock = gateway_outputs(&iss[..3], &pool, VALUE - 1_000_000);
    let mut slot = JobSlot::default();
    let mut s = share(0, 4, 1, &stock, &txids(3), 1, [0; 8], [0; 8]);
    grind(&mut slot, &mut s);
    assert_eq!(check(&mut slot, &s, &policy(&iss, &pool)).unwrap().coinbase_kind, CoinbaseKind::Split);

    // scaling one miner output harder than the ratio is still a short payment
    let mut cheat = scaled.clone();
    cheat[0].value -= 1_000;
    cheat[3].value += 1_000;
    let mut slot = JobSlot::default();
    let mut s = share(0, 4, 1, &cheat, &txids(3), 1, [0; 8], [0; 8]);
    grind(&mut slot, &mut s);
    assert_eq!(check(&mut slot, &s, &policy(&iss, &pool)), Err(REJECT_BAD_COINBASE_OUTPUTS));
}

#[test]
fn pool_only_coinbase_is_credited_but_flagged() {
    let pool = pool_script();
    let outs = gateway_outputs(&[], &pool, VALUE);
    let mut slot = JobSlot::default();
    let mut s = share(0, 0, 0, &outs, &txids(0), 1, [0; 8], [0; 8]);
    grind(&mut slot, &mut s);
    let p = Policy { pool_script: &pool, issued: None, tolerance: 0, now: NOW, min_pot: 0 };
    let v = check(&mut slot, &s, &p).expect("pool-only is valid work");
    assert_eq!(v.coinbase_kind, CoinbaseKind::PoolOnly);
    assert_eq!(v.paid_to_pool, VALUE);
    assert_eq!(v.commitment.txcount, 1);
    // with an issued split that this coinbase ignores, it is still pool-only, not foreign
    let iss = split();
    let v = check(&mut slot, &s, &policy(&iss, &pool)).unwrap();
    assert_eq!(v.coinbase_kind, CoinbaseKind::PoolOnly);
}

#[test]
fn missing_sections_and_bad_times_are_rejected() {
    let pool = pool_script();
    let iss = split();
    let outs = gateway_outputs(&iss, &pool, VALUE);
    let mut slot = JobSlot::default();
    let mut s = share(1, 4, 1, &outs, &txids(2), 1, [0; 8], [0; 8]);
    grind(&mut slot, &mut s);

    let mut fresh = JobSlot::default();
    let mut no_job = s.clone();
    no_job.job = None;
    fresh.absorb(&no_job).unwrap();
    assert_eq!(check(&mut fresh, &no_job, &policy(&iss, &pool)), Err(REJECT_BAD_JOB_ID));

    let mut fresh = JobSlot::default();
    let mut no_cb = s.clone();
    no_cb.coinbase = None;
    fresh.absorb(&no_cb).unwrap();
    assert_eq!(check(&mut fresh, &no_cb, &policy(&iss, &pool)), Err(REJECT_COINBASE_MISSING));

    // a SHA256d share carries neither the flag nor the 0x03 section
    let mut sha = s.clone();
    sha.flags = 0;
    sha.blake2b = None;
    assert_eq!(check(&mut slot, &sha, &policy(&iss, &pool)), Err(REJECT_BAD_VERSION));
    // flag clear but section present (iohzrd lineage) still verifies
    let mut flagless = s.clone();
    flagless.flags = 0;
    assert!(check(&mut slot, &flagless, &policy(&iss, &pool)).is_ok());

    let mut p = policy(&iss, &pool);
    p.now = NOW + MAX_TIME_BEHIND + 10;
    assert_eq!(check(&mut slot, &s, &p), Err(REJECT_BAD_NTIME));
    p.now = NOW - MAX_TIME_AHEAD - 10;
    assert_eq!(check(&mut slot, &s, &p), Err(REJECT_BAD_NTIME));

    let mut p = policy(&iss, &pool);
    p.min_pot = 5;
    assert_eq!(verify(&mut slot, &s, &p), Err(REJECT_BAD_TARGET));

    // a height mismatch between coinbase and job section
    let mut wrong_h = s.clone();
    wrong_h.job.as_mut().unwrap().height += 1;
    let mut fresh = JobSlot::default();
    fresh.absorb(&wrong_h).unwrap();
    assert_eq!(check(&mut fresh, &wrong_h, &policy(&iss, &pool)), Err(REJECT_BAD_JOB_ID));
}

#[test]
fn a_gateway_that_counts_the_coinbase_itself_still_verifies() {
    let pool = pool_script();
    let iss = split();
    let outs = gateway_outputs(&iss, &pool, VALUE);
    let mut slot = JobSlot::default();
    let mut s = share(0, 4, 1, &outs, &txids(5), 1, [0; 8], [0; 8]);
    grind_to(&mut slot, &mut s, &easy_target(), true);
    let v = check(&mut slot, &s, &policy(&iss, &pool)).expect("alternate txcount convention");
    assert_eq!(v.commitment.txcount, 5);
}

#[test]
fn slot_replaces_job_and_coinbases_when_the_job_changes() {
    let pool = pool_script();
    let iss = split();
    let outs = gateway_outputs(&iss, &pool, VALUE);
    let mut slot = JobSlot::default();
    let a = share(0, 4, 1, &outs, &txids(5), 1, [0; 8], [0; 8]);
    slot.absorb(&a).unwrap();
    let mut b = share(0, 4, 2, &outs, &txids(6), 1, [0; 8], [0; 8]);
    b.coinbase = None; // a real gateway resends it, but the slot must not keep stale ones
    slot.absorb(&b).unwrap();
    assert_eq!(slot.job.as_ref().unwrap().coinbaser_id, 2);
    assert!(slot.coinbases.is_empty());
}

#[test]
fn block_assembly_has_header_count_coinbase_and_transactions() {
    let pool = pool_script();
    let iss = split();
    let outs = gateway_outputs(&iss, &pool, VALUE);
    let txs = txids(2);
    let mut slot = JobSlot::default();
    let mut s = share(0, 4, 1, &outs, &txs, 1, [0; 8], [0; 8]);
    grind(&mut slot, &mut s);
    let v = check(&mut slot, &s, &policy(&iss, &pool)).unwrap();
    let raw = vec![vec![0xaa; 100], vec![0xbb; 60]];
    let block = assemble_block(&v, &s, &raw);
    assert_eq!(block.len(), 164 + 1 + (v.coinbase_legacy.len() + 2 + 34) + 160);
    assert_eq!(block[164], 3);
    assert_eq!(&block[..4], &0xa000_0000u32.to_le_bytes());
    assert_eq!(&block[4..36], &[0x77; 32]);
    assert_eq!(&block[36..68], &v.commitment.merkle_root);
    assert_eq!(&block[block.len() - 60..], &raw[1][..]);
}

#[test]
fn a_coinbase_that_does_not_parse_or_that_pays_a_stranger_is_refused() {
    let pool = pool_script();
    let iss = split();
    let outs = gateway_outputs(&iss, &pool, VALUE);
    let mut s = share(0, 4, 1, &outs, &txids(3), 1, [0; 8], [0; 8]);
    s.coinbase.as_mut().unwrap().coinb2.pop();
    let mut slot = JobSlot::default();
    slot.absorb(&s).unwrap();
    assert_eq!(check(&mut slot, &s, &policy(&iss, &pool)), Err(REJECT_BAD_COINBASE));
    let mut outs = gateway_outputs(&iss, &pool, VALUE);
    outs[3].script = p2wpkh(0x77);
    let s = share(0, 4, 1, &outs, &txids(3), 1, [0; 8], [0; 8]);
    let mut slot = JobSlot::default();
    slot.absorb(&s).unwrap();
    assert_eq!(check(&mut slot, &s, &policy(&iss, &pool)), Err(REJECT_BAD_COINBASE_OUTPUTS));
}

#[test]
fn header_times_and_block_targets() {
    assert!(!time_is_off(NOW, 0));
    assert!(!time_is_off(NOW + MAX_TIME_AHEAD, NOW));
    assert!(time_is_off(NOW + MAX_TIME_AHEAD + 1, NOW));
    assert!(!time_is_off(NOW - MAX_TIME_BEHIND, NOW));
    assert!(time_is_off(NOW - MAX_TIME_BEHIND - 1, NOW));
    let mut h = [0u8; 32];
    assert!(solves_block(&h, 0x193c_2d40));
    h[31] = 1;
    assert!(!solves_block(&h, 0x193c_2d40));
    assert!(!solves_block(&[0; 32], 0));
}

#[test]
fn sections_are_held_to_the_budget_and_old_slots_lose_theirs() {
    let pool = pool_script();
    let outs = gateway_outputs(&split(), &pool, VALUE);
    let mut t = SlotTable::new();
    assert_eq!((t.len(), t.coinbase_bytes()), (256, 0));
    let first = share(0, 4, 1, &outs, &txids(3), 1, [0; 8], [0; 8]);
    t.take_sections(0, &first, 1 << 20).unwrap();
    let one = t.coinbase_bytes();
    assert!(one > 0);
    assert_eq!(t.job_terms(0), Some((HEIGHT, 1)));
    // a second id on the slot goes over a budget of one section: refused, the first stays
    let mut second = first.clone();
    second.coinbase.as_mut().unwrap().coinbase_id = 5;
    assert_eq!(t.take_sections(0, &second, one), Err(REJECT_COINBASE_TOO_LARGE));
    assert_eq!(t.coinbase_bytes(), one);
    // a repeat brings nothing and is never over the budget
    assert_eq!(t.take_sections(0, &first, 0), Ok(()));
    // only the most recently started slots keep their sections
    for i in 1..=MAX_LIVE_SLOTS as u8 {
        let s = share(i, 4, 1, &outs, &txids(3), 1, [0; 8], [0; 8]);
        t.take_sections(i as usize, &s, 1 << 20).unwrap();
    }
    assert_eq!(t.coinbase_bytes(), MAX_LIVE_SLOTS * one);
    assert_eq!(t.job_terms(0), Some((HEIGHT, 1)), "an evicted slot keeps its job");
    let p = Policy { pool_script: &pool, issued: None, tolerance: 0, now: NOW, min_pot: 0 };
    let mut bare = first.clone();
    bare.job = None;
    bare.coinbase = None;
    assert_eq!(t.verify_share(0, &bare, &p), Err(REJECT_COINBASE_MISSING));
}

fn terms(pool: &[u8]) -> ShareTerms<'_> {
    ShareTerms {
        pool_script: pool,
        network: Network::Mainnet,
        tolerance: 2,
        min_pot: 0,
        coinbase_budget: 4 << 20,
        stale_grace_secs: 30,
        house: false,
        ts: u64::from(NOW),
        tip: Some(TipSeen { height: HEIGHT - 1, age: 0 }),
    }
}

fn ledger() -> Ledger {
    Ledger::replay(Meta { target_work: 1_000_000, lifetime_shares: 0, lifetime_work: 0 }, &vec![], &[])
}

fn refusal(r: &ShareOutcome) -> Option<Refusal> {
    match r {
        ShareOutcome::Refused(why) => Some(*why),
        ShareOutcome::Credited { .. } => None,
    }
}

#[test]
fn a_session_refuses_in_order_and_credits_nobody() {
    let pool = pool_script();
    let outs = gateway_outputs(&split(), &pool, VALUE);
    let mut session = Session::new(0);
    let mut seen = SeenShares::default();
    let mut l = ledger();
    let mut c = Controls::default();
    let mut t = terms(&pool);
    let good = |user: &str| {
        let mut s = share(0, 4, 1, &outs, &txids(3), 1, [0; 8], [0; 8]);
        s.username = user.to_string();
        s
    };
    let mut go = |s: &PowSubmit, t: &ShareTerms, c: &Controls| {
        let r = session.on_pow(s, t, c, &mut seen, &mut l);
        assert_eq!(l.window.len(), 0);
        assert_eq!(seen.len(), 0);
        let rec = receipt(s, &r);
        assert_eq!(rec.status, REJECTED);
        (refusal(&r).unwrap(), rec.code)
    };
    assert_eq!(go(&good("~x"), &t, &c), (Refusal::Malformed, REJECT_BAD_USERNAME));
    assert_eq!(go(&good("worker1"), &t, &c), (Refusal::NotPayable, REJECT_BAD_USERNAME));
    let mut f = ControlsFile {
        fee_bps: None,
        stratum_fee_bps: None,
        fee_overrides: NameMap::new(),
        banned_identities: vec![MINER.to_ascii_uppercase()],
        banned_ips: vec![],
        updated: None,
    };
    c = Controls::from_file(&f).unwrap();
    assert_eq!(go(&good(MINER), &t, &c), (Refusal::Banned, REJECT_BAD_USERNAME));
    f.banned_identities.clear();
    c = Controls::from_file(&f).unwrap();
    let mut jobless = good(MINER);
    jobless.job = None;
    assert_eq!(go(&jobless, &t, &c), (Refusal::NoJob, REJECT_BAD_JOB_ID));
    t.coinbase_budget = 10;
    assert_eq!(go(&good(MINER), &t, &c).1, REJECT_COINBASE_TOO_LARGE);
    t.coinbase_budget = 4 << 20;
    t.tip = Some(TipSeen { height: HEIGHT + 1, age: 0 });
    assert_eq!(go(&good(MINER), &t, &c), (Refusal::Stale, REJECT_STALE_BLOCK));
    t.tip = Some(TipSeen { height: HEIGHT - 3, age: 0 });
    assert_eq!(go(&good(MINER), &t, &c), (Refusal::NodeBehind, REJECT_STALE_BLOCK));
    t.tip = Some(TipSeen { height: HEIGHT, age: 30 * SECOND });
    assert_eq!(go(&good(MINER), &t, &c), (Refusal::Stale, REJECT_STALE_BLOCK));
    // no split was issued under the job's coinbaser, so that paying one is foreign
    t.tip = Some(TipSeen { height: HEIGHT, age: 29 * SECOND });
    assert_eq!(go(&good(MINER), &t, &c).1, REJECT_BAD_COINBASE_OUTPUTS);
    // on the issued split the coinbase is right, and the work is what is missing
    session.coinbasers.record(IssuedCoinbaser {
        id: 1,
        value: VALUE,
        outputs: split(),
        payees: vec![],
        unpaid: vec![],
        carry_paid: vec![],
        snapshot: String::new(),
    });
    let r = session.on_pow(&good(MINER), &t, &c, &mut seen, &mut l);
    assert_eq!(refusal(&r), Some(Refusal::Share(REJECT_HIGH_HASH)));
}

#[test]
fn a_share_that_verified_is_credited_exactly_once() {
    let pool = pool_script();
    let iss = split();
    let outs = gateway_outputs(&iss, &pool, VALUE);
    let mut slot = JobSlot::default();
    let mut s = share(0, 4, 1, &outs, &txids(3), 3, [0; 8], [0; 8]);
    grind(&mut slot, &mut s);
    let v = check(&mut slot, &s, &policy(&iss, &pool));
    let t = terms(&pool);
    let mut seen = SeenShares::default();
    let mut l = ledger();
    let first = settle_share(MINER.to_string(), v.clone(), &t, &mut seen, &mut l);
    match &first {
        ShareOutcome::Credited { identity, share, appended } => {
            assert_eq!(identity, MINER);
            assert_eq!(share.work, 8);
            assert!(appended.new_identity);
            assert_eq!(appended.row.len(), 24);
        }
        ShareOutcome::Refused(why) => panic!("{why:?}"),
    }
    assert_eq!(receipt(&s, &first).status, ACCEPTED);
    assert_eq!(receipt(&s, &first).code, 0);
    assert_eq!(l.window.work_of(MINER), 8);
    for _ in 0..14 {
        let again = settle_share(MINER.to_string(), v.clone(), &t, &mut seen, &mut l);
        assert_eq!(refusal(&again), Some(Refusal::Duplicate));
        assert_eq!(receipt(&s, &again).code, REJECT_DUPLICATE_WORK);
    }
    assert_eq!(l.window.work_of(MINER), 8);
    assert_eq!(l.window.credits()[0].source, SOURCE_DATUM);
}

#[test]
fn a_coinbase_short_of_the_split_is_accepted_tentatively() {
    let pool = pool_script();
    let outs = gateway_outputs(&[], &pool, VALUE);
    let mut slot = JobSlot::default();
    let mut s = share(0, 0, 0, &outs, &txids(0), 1, [0; 8], [0; 8]);
    grind(&mut slot, &mut s);
    let p = Policy { pool_script: &pool, issued: None, tolerance: 0, now: NOW, min_pot: 0 };
    let v = check(&mut slot, &s, &p);
    let mut seen = SeenShares::default();
    let mut l = ledger();
    let r = settle_share(MINER.to_string(), v, &terms(&pool), &mut seen, &mut l);
    let rec = receipt(&s, &r);
    assert_eq!((rec.status, rec.code, rec.job_id, rec.target_pot), (ACCEPTED_TENTATIVELY, 0, 0, 1));
}

fn issued() -> IssuedCoinbaser {
    let payee = |fill: u8, sats: u64| Payee { identity: format!("m{fill:x}"), work: 1, sats, script: p2wpkh(fill) };
    IssuedCoinbaser {
        id: 1,
        value: VALUE,
        outputs: split(),
        payees: vec![payee(0x11, 200_000_000), payee(0x22, 100_000_000), payee(0x33, 10_000_000)],
        unpaid: vec![("dust".to_string(), 7)],
        carry_paid: vec![("m11".to_string(), 3)],
        snapshot: "aa".to_string(),
    }
}

fn verified(outs: &[TxOut], iss: Option<&[Output]>, pool: &[u8]) -> (PowSubmit, VerifiedShare) {
    let mut slot = JobSlot::default();
    let mut s = share(3, 4, 1, outs, &txids(2), 1, [0; 8], [0; 8]);
    grind(&mut slot, &mut s);
    let p = Policy { pool_script: pool, issued: iss, tolerance: 2, now: NOW, min_pot: 0 };
    let v = check(&mut slot, &s, &p).unwrap();
    (s, v)
}

fn named(v: &[(&str, u64)]) -> Vec<(String, u64)> {
    v.iter().map(|(n, s)| (n.to_string(), *s)).collect()
}

#[test]
fn a_block_is_recorded_with_what_its_coinbase_left_over() {
    let pool = pool_script();
    let iss = split();
    let params = base_split(100, 200, 1000, 0);
    let mut w = Window::new();
    w.set_target(1_000_000);
    w.credit(MINER, 10, 1, 1, SOURCE_DATUM);
    let c = issued();
    let all = named(&[("m11", 200_000_000), ("m22", 100_000_000), ("m33", 10_000_000)]);

    let (_, v) = verified(&gateway_outputs(&iss, &pool, VALUE), Some(&iss), &pool);
    let r = block_record(&v, Some(&c), &w, &params, Network::Mainnet, 9, "f", "gw");
    assert_eq!((r.kind.as_str(), r.owed_sats, r.pool_sats), ("split", 0, VALUE - 310_000_000));
    assert_eq!(r.split, all);
    assert_eq!(r.unpaid, named(&[("dust", 7)]));
    assert_eq!(r.carry_paid, named(&[("m11", 3)]));
    assert_eq!((r.submit.as_str(), r.snapshot.as_str(), r.settled, r.carried), ("pending", "aa", false, false));
    assert_eq!(r.hash, display_hash(&v.hash));

    let (_, v) = verified(&gateway_outputs(&iss[..1], &pool, VALUE), Some(&iss), &pool);
    let r = block_record(&v, Some(&c), &w, &params, Network::Mainnet, 9, "f", "gw");
    assert_eq!((r.kind.as_str(), r.owed_sats), ("partial", 110_000_000));
    assert_eq!(r.unpaid, named(&[("dust", 7), ("m22", 100_000_000), ("m33", 10_000_000)]));
    let r = block_record(&v, None, &w, &params, Network::Mainnet, 9, "f", "gw");
    assert_eq!((r.kind.as_str(), r.owed_sats, r.unpaid.len()), ("unknown", 0, 0));

    let half = VALUE / 2;
    let (_, v) = verified(&gateway_outputs(&[], &pool, half), Some(&iss), &pool);
    let r = block_record(&v, Some(&c), &w, &params, Network::Mainnet, 9, "f", "gw");
    assert_eq!((r.kind.as_str(), r.owed_sats), ("pool-only", 155_000_000));
    assert_eq!(r.split, named(&[("m11", 100_000_000), ("m22", 50_000_000), ("m33", 5_000_000)]));

    let (_, v) = verified(&gateway_outputs(&[], &pool, 1_000_000), None, &pool);
    let r = block_record(&v, None, &w, &params, Network::Mainnet, 9, "f", "gw");
    assert_eq!((r.kind.as_str(), r.owed_sats), ("pool-only", 990_000));
    assert_eq!(r.unpaid, named(&[(MINER, 990_000)]));
    assert_eq!(r.finder.as_deref(), Some("f"));
}

#[test]
fn amounts_scale_with_the_block() {
    assert_eq!(scale(100, 50, 200), 25);
    assert_eq!(scale(7, 3, 2), 10);
    assert_eq!(scale(7, 3, 0), 7);
    assert_eq!(scale(u64::MAX, u64::MAX, u64::MAX), u64::MAX);
}

#[test]
fn every_candidate_of_a_job_waits_for_its_transactions() {
    let pool = pool_script();
    let iss = split();
    let (s, v) = verified(&gateway_outputs(&iss, &pool, VALUE), Some(&iss), &pool);
    let pending = |job: u8, name: &str, at: u64| PendingBlock {
        job,
        share: v.clone(),
        submit: s.clone(),
        hash_hex: name.to_string(),
        at,
    };
    let mut p = PendingBlocks::new();
    p.push(pending(3, "a", 0));
    p.push(pending(4, "b", 0));
    p.push(pending(3, "c", 5));
    assert!(matches!(p.on_validation(&ValidationReply::ShortIds { job: 3 }), ValidationAction::Nothing));
    assert!(matches!(
        p.on_validation(&ValidationReply::Transactions { job: 9, ok: true }),
        ValidationAction::Nothing
    ));
    match p.on_validation(&ValidationReply::Transactions { job: 3, ok: true }) {
        ValidationAction::Submit(v) => {
            assert_eq!(v.iter().map(|x| x.hash_hex.as_str()).collect::<Vec<_>>(), vec!["a", "c"]);
        }
        _ => panic!("both candidates are to be submitted"),
    }
    match p.on_validation(&ValidationReply::Transactions { job: 4, ok: false }) {
        ValidationAction::NoTransactions(v) => assert_eq!(v[0].hash_hex, "b"),
        _ => panic!("the candidate is lost"),
    }
    assert_eq!(p.take_job(4).len(), 0);
    p.push(pending(1, "old", 0));
    p.push(pending(1, "new", 50 * SECOND));
    p.expire(120 * SECOND);
    let left = p.take_job(1);
    assert_eq!(left.len(), 1);
    assert_eq!(left[0].hash_hex, "new");
}

#[test]
fn a_submission_is_the_block_in_hexadecimal() {
    let pool = pool_script();
    let iss = split();
    let (s, v) = verified(&gateway_outputs(&iss, &pool, VALUE), Some(&iss), &pool);
    let raw = vec![vec![0xaa; 10], vec![0xbb; 6]];
    let want = hex::encode(assemble_block(&v, &s, &raw));
    let p = PendingBlock { job: 3, share: v, submit: s, hash_hex: String::new(), at: 0 };
    assert_eq!(submission(&p, &raw), want);
    assert!(txcount_fits(3, 2) && txcount_fits(3, 3) && !txcount_fits(3, 1));
    assert!(txcount_fits(0, 0));
}

#[test]
fn a_built_coinbase_parses_to_its_outputs() {
    let pool = pool_script();
    let outs = gateway_outputs(&split(), &pool, VALUE);
    let (b, _) = build_coinbase(HEIGHT, b"Lazarus", &outs, 7);
    let c = parse(&b).unwrap();
    assert_eq!(c.outputs, outs);
    assert_eq!(c.height, Some(HEIGHT));
    assert_eq!(c.total_output_value(), VALUE);
    assert_eq!(c.paid_to(&pool), VALUE - 310_000_000);
    assert!(c.outputs[4].is_op_return());
    assert!(parse(&b[..b.len() - 1]).is_err());
}

/// The kind of a coinbase that pays `outs`, for a pool whose script is `[0x51]`.
fn kind(iss: &[(u64, &[u8])], outs: &[(u64, &[u8])], tolerance: u64) -> CoinbaseKind {
    let outs: Vec<TxOut> =
        outs.iter().map(|(value, script)| TxOut { value: *value, script: script.to_vec() }).collect();
    let iss: Vec<Output> =
        iss.iter().map(|(sats, script)| Output { sats: *sats, script: script.to_vec() }).collect();
    let (raw, _) = build_coinbase(966_267, b"tag", &outs, 0);
    classify_coinbase(&parse(&raw).unwrap(), &[0x51], Some(&iss), tolerance)
}

const P: &[u8] = &[0x51];
const A: &[u8] = &[0x52];
const B: &[u8] = &[0x53];
const R: &[u8] = &[0x6a, 1, 0xaa];

#[test]
fn a_coinbase_without_its_commitment_is_still_held_to_the_amounts() {
    let iss: &[(u64, &[u8])] = &[(0, R), (100, A), (50, P)];
    assert_eq!(kind(iss, &[(0, R), (100, A), (50, P)], 0), CoinbaseKind::Split);
    assert_eq!(kind(iss, &[(100, A), (50, P)], 0), CoinbaseKind::Partial(1));
    assert_eq!(kind(iss, &[(1, A), (149, P)], 0), CoinbaseKind::Foreign);
    assert_eq!(kind(iss, &[(140, A), (10, P)], 0), CoinbaseKind::Foreign);
    assert_eq!(kind(iss, &[(150, P)], 0), CoinbaseKind::PoolOnly);
    assert_eq!(kind(iss, &[(0, R), (150, P)], 0), CoinbaseKind::PoolOnly);
}

#[test]
fn a_script_is_owed_the_sum_of_what_was_issued_to_it() {
    let iss: &[(u64, &[u8])] = &[(200, A), (50, A), (10, B), (40, P)];
    assert_eq!(kind(iss, &[(250, A), (10, B), (40, P)], 0), CoinbaseKind::Split);
    assert_eq!(kind(iss, &[(200, A), (50, A), (10, B), (40, P)], 0), CoinbaseKind::Split);
    assert_eq!(kind(iss, &[(200, A), (10, B), (90, P)], 0), CoinbaseKind::Foreign);
    assert_eq!(kind(iss, &[(249, A), (10, B), (41, P)], 0), CoinbaseKind::Foreign);
    // the tolerance is for each issued output
    assert_eq!(kind(iss, &[(246, A), (10, B), (44, P)], 2), CoinbaseKind::Split);
    assert_eq!(kind(iss, &[(245, A), (10, B), (45, P)], 2), CoinbaseKind::Foreign);
    assert_eq!(kind(iss, &[(250, A), (50, P)], 0), CoinbaseKind::Partial(2));
}

#[test]
fn a_small_output_lends_no_tolerance_to_a_large_one() {
    let iss: &[(u64, &[u8])] = &[(10, A), (1, A), (89, P)];
    assert_eq!(kind(iss, &[(3, A), (97, P)], 4), CoinbaseKind::Foreign);
    assert_eq!(kind(iss, &[(5, A), (95, P)], 4), CoinbaseKind::Foreign);
    assert_eq!(kind(iss, &[(6, A), (94, P)], 4), CoinbaseKind::Split);
    assert_eq!(kind(iss, &[(10, A), (1, A), (89, P)], 4), CoinbaseKind::Split);
}

#[test]
fn a_list_rescaled_by_one_ratio_is_a_split() {
    let iss: &[(u64, &[u8])] = &[(0, R), (333, A), (21, A), (100, B), (46, P)];
    for value in [7u64, 50, 250, 499, 500, 501, 777, 5_000] {
        let part = |sats: u64| sats * value / 500;
        let rest = value - part(333) - part(21) - part(100);
        let outs: &[(u64, &[u8])] =
            &[(0, R), (part(333), A), (part(21), A), (part(100), B), (rest, P)];
        assert_eq!(kind(iss, outs, 0), CoinbaseKind::Split, "{value}");
    }
}
