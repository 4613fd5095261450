//! The set of credited share hashes, and connection limits.

use primed::ip::parse_ip;
use primed::seen::{Seen, SeenShares};
use primed::session::{freshness, Freshness, TipSeen};
use primed::state::Connections;
use primed::stats::forget_below;

fn h(n: u64) -> [u8; 32] {
    let mut a = [0u8; 32];
    a[..8].copy_from_slice(&n.to_le_bytes());
    a
}

#[test]
fn a_share_is_credited_once_regardless_of_who_resubmits_it() {
    let mut s = SeenShares::default();
    assert_eq!(s.insert(100, h(1)), Seen::Fresh);
    // alternate job sections, resubmit the same share forever
    for _ in 0..10 {
        assert_eq!(s.insert(100, h(1)), Seen::Duplicate);
    }
    // a reconnect is the same set
    assert_eq!(s.insert(100, h(1)), Seen::Duplicate);
    // different height is different work (the hash commits to the height anyway)
    assert_eq!(s.insert(101, h(1)), Seen::Fresh);
    assert_eq!(s.len(), 2);
    assert_eq!(s.heights(), 2);
}

#[test]
fn pruning_forgets_only_old_heights() {
    let mut s = SeenShares::default();
    for height in 95..=101u32 {
        for i in 0..3 {
            s.insert(height, h(u64::from(height) * 10 + i));
        }
    }
    assert_eq!(s.len(), 21);
    s.prune_below(99);
    assert_eq!(s.heights(), 3);
    assert_eq!(s.len(), 9);
    assert_eq!(s.insert(99, h(990)), Seen::Duplicate);
    assert_eq!(s.insert(98, h(980)), Seen::Fresh, "an old height can be re-entered; the stale check gates it");
    s.prune_below(200);
    assert_eq!(s.len(), 0);
}

#[test]
fn a_full_set_refuses_rather_than_forgets() {
    let mut s = SeenShares::default();
    for i in 0..SeenShares::MAX_PER_HEIGHT as u64 {
        assert_eq!(s.insert(7, h(i)), Seen::Fresh);
    }
    assert_eq!(s.insert(7, h(u64::MAX)), Seen::Full);
    // everything already there is still remembered
    assert_eq!(s.insert(7, h(0)), Seen::Duplicate);
    assert_eq!(s.insert(7, h(SeenShares::MAX_PER_HEIGHT as u64 - 1)), Seen::Duplicate);
    // another height still has room until the total cap
    assert_eq!(s.insert(8, h(1)), Seen::Fresh);
}

#[test]
fn hashes_with_equal_low_bytes_are_told_apart() {
    let mut s = SeenShares::default();
    let mut a = h(5);
    let mut b = h(5);
    a[31] = 1;
    b[31] = 2;
    assert_eq!(s.insert(1, a), Seen::Fresh);
    assert_eq!(s.insert(1, b), Seen::Fresh);
    assert_eq!(s.insert(1, a), Seen::Duplicate);
    assert_eq!(s.len(), 2);
}

#[test]
fn connection_limits_are_per_ip_and_total() {
    let mut c = Connections::default();
    let a = parse_ip("10.0.0.1").unwrap();
    let b = parse_ip("10.0.0.2").unwrap();
    assert!(c.admit_ip(a, 3, 2).is_ok());
    assert!(c.admit_ip(a, 3, 2).is_ok());
    assert_eq!(c.admit_ip(a, 3, 2), Err("per-address connection limit reached"));
    assert!(c.admit_ip(b, 3, 2).is_ok());
    assert_eq!(c.admit_ip(b, 3, 2), Err("connection limit reached"));
    c.release(a);
    assert!(c.admit_ip(b, 3, 2).is_ok());
    assert_eq!(c.total(), 3);
    c.release(a);
    c.release(b);
    c.release(b);
    assert_eq!(c.total(), 0);
    c.release(b); // over-release is harmless
    assert_eq!(c.total(), 0);
}

#[test]
fn a_place_that_was_never_taken_cannot_be_given_back() {
    let mut c = Connections::default();
    let a = parse_ip("10.0.0.1").unwrap();
    let b = parse_ip("10.0.0.2").unwrap();
    assert!(c.admit_ip(a, 3, 2).is_ok());
    c.release(b);
    assert_eq!(c.total(), 1);
    c.release(a);
    assert_eq!(c.total(), 0);
}

#[test]
fn what_housekeeping_forgets_is_too_old_to_be_credited() {
    for back in 0..=2u32 {
        let mut s = SeenShares::default();
        for height in 90..=101u32 {
            assert_eq!(s.insert(height, h(u64::from(height))), Seen::Fresh);
        }
        s.prune_below(forget_below(100));
        let tip = Some(TipSeen { height: 100 - back, age: 0 });
        for height in 90..=101u32 {
            if freshness(height, tip, 30) != Freshness::Stale {
                assert_eq!(s.insert(height, h(u64::from(height))), Seen::Duplicate, "{height}");
            }
        }
        assert_eq!(s.insert(97, h(97)), Seen::Fresh);
    }
}
