//! Hashes, targets and the coinbase's wire form.

use primed::bytes::{push_le, read_le, reversed, starts_with};
use primed::coinbase::{assemble, parse, with_witness, write_varint, Coinbase, ParseError, TxOut};
use primed::mining::{reject_name, REJECT_BAD_JOB_ID, REJECT_STALE_BLOCK};
use primed::pow::{
    meets_target, merkle_root, nbits_to_target_le, pow_hash_le, serialize_header_v2, sha256d,
    share_ntime, share_target_le, sia_prevhash, tagged_sha256, work_header, work_root, Commitment,
    JobWork,
};
use sha2::Digest;

fn commitment() -> Commitment {
    Commitment {
        version: 0xa000_0000,
        prev_hash: [7; 32],
        height: 9,
        merkle_root: [8; 32],
        time_on_wire: 10,
        nbits: 0x1d00_ffff,
        txcount: 3,
        flags: 0,
        xor_clear_bits: 0,
        xor_key: [0; 16],
        rhs: [0; 32],
    }
}

#[test]
fn double_sha256_of_nothing() {
    assert_eq!(
        hex::encode(sha256d(b"")),
        "5df6e0e2761359d30a8275058e299fcc0381534545f55cf43e41983f5d4c9456"
    );
}

#[test]
fn tagged_hashes_prefix_the_tag_twice() {
    let t = sha2::Sha256::digest(b"Bitcoin block header 1");
    let mut v = t.to_vec();
    v.extend_from_slice(&t);
    v.extend_from_slice(b"msg");
    assert_eq!(tagged_sha256(b"Bitcoin block header 1", b"msg")[..], sha2::Sha256::digest(&v)[..]);
}

#[test]
fn a_merkle_root_folds_the_branches_from_the_left() {
    assert_eq!(merkle_root([1; 32], &[]), [1; 32]);
    let mut v = vec![1u8; 32];
    v.extend_from_slice(&[2u8; 32]);
    let one = sha256d(&v);
    assert_eq!(merkle_root([1; 32], &[[2; 32]]), one);
    let mut v = one.to_vec();
    v.extend_from_slice(&[3u8; 32]);
    assert_eq!(merkle_root([1; 32], &[[2; 32], [3; 32]]), sha256d(&v));
}

#[test]
fn share_targets_halve_with_each_power() {
    let t = share_target_le(0).unwrap();
    let mut want = [0u8; 32];
    want[26] = 0xff;
    want[27] = 0xff;
    assert_eq!(t, want);
    let t = share_target_le(1).unwrap();
    assert_eq!((t[25], t[26], t[27]), (0x80, 0xff, 0x7f));
    assert!(share_target_le(63).is_some());
    assert!(share_target_le(64).is_none());
}

#[test]
fn compact_targets_expand() {
    let t = nbits_to_target_le(0x1d00_ffff).unwrap();
    assert_eq!(t, share_target_le(0).unwrap());
    assert!(nbits_to_target_le(0).is_none());
    assert!(nbits_to_target_le(0x0180_0001 | 0x0080_0000).is_none());
}

#[test]
fn a_target_is_met_at_or_under() {
    let mut t = [0u8; 32];
    t[31] = 1;
    assert!(meets_target(&t, &t));
    let mut h = [0xffu8; 32];
    h[31] = 0;
    assert!(meets_target(&h, &t));
    h[31] = 1;
    assert!(!meets_target(&h, &t));
}

#[test]
fn the_work_is_eighty_bytes_over_the_job() {
    let c = commitment();
    let en = [5u8; 12];
    let h2 = c.h2();
    let mut leaf = vec![0u8, 0, 0, 0];
    leaf.extend_from_slice(&h2);
    leaf.extend_from_slice(&[0; 4]);
    leaf.extend_from_slice(&en);
    let b2 = |d: &[u8]| -> Vec<u8> {
        let mut h = blake2::Blake2b::<blake2::digest::consts::U32>::default();
        blake2::Digest::update(&mut h, d);
        blake2::Digest::finalize(h).to_vec()
    };
    let root = work_root(&h2, &en);
    assert_eq!(root[..], b2(&leaf)[..]);
    let prev = sia_prevhash(&c.prev_hash);
    let w = work_header(&prev, &[1; 8], &[2; 8], &root);
    assert_eq!(w.len(), 80);
    assert_eq!(&w[32..40], &[1; 8]);
    assert_eq!(&w[40..48], &[2; 8]);
    assert_eq!(&w[48..], &root[..]);
    let mut want = b2(&w);
    want.reverse();
    assert_eq!(pow_hash_le(&w)[..], want[..]);
    assert_eq!(JobWork::new(&c, &en).hash(&[1; 8], &[2; 8]), pow_hash_le(&w));
}

#[test]
fn a_header_starts_with_version_previous_and_root() {
    let h = serialize_header_v2(&commitment(), &[1; 8], &[2; 8], &[3; 12]);
    assert_eq!(h.len(), 164);
    assert_eq!(&h[..4], &0xa000_0000u32.to_le_bytes());
    assert_eq!(&h[4..36], &[7; 32]);
    assert_eq!(&h[36..68], &[8; 32]);
}

#[test]
fn the_time_offset_counts_only_under_its_flag() {
    let nt = [5, 0, 0, 0, 9, 9, 9, 9];
    assert_eq!(share_ntime(100, &nt, 0), 100);
    assert_eq!(share_ntime(100, &nt, 1), 105);
}

#[test]
fn little_endian_fields_read_back() {
    let mut v = vec![];
    push_le(&mut v, 0x0102_0304, 4);
    assert_eq!(v, vec![4, 3, 2, 1]);
    assert_eq!(read_le(&v, 0, 4), 0x0102_0304);
    assert_eq!(read_le(&v, 1, 2), 0x0203);
    let mut h = [0u8; 32];
    h[0] = 1;
    assert_eq!(reversed(&h)[31], 1);
    assert!(starts_with(b"abc", b"ab") && !starts_with(b"ab", b"abc") && starts_with(b"", b""));
}

#[test]
fn varints_take_the_shortest_form() {
    for (n, want) in [
        (0u64, vec![0u8]),
        (0xfc, vec![0xfc]),
        (0xfd, vec![0xfd, 0xfd, 0]),
        (0xffff, vec![0xfd, 0xff, 0xff]),
        (0x1_0000, vec![0xfe, 0, 0, 1, 0]),
        (0x1_0000_0000, vec![0xff, 0, 0, 0, 0, 1, 0, 0, 0]),
    ] {
        let mut v = vec![];
        write_varint(&mut v, n);
        assert_eq!(v, want);
    }
}

#[test]
fn a_coinbase_is_its_halves_round_the_extranonce() {
    let a = assemble(&[1, 2, 3], &[9, 9], 2, 7);
    let mut want = vec![1, 2, 7];
    want.extend_from_slice(&[0; 12]);
    want.extend_from_slice(&[9, 9]);
    assert_eq!(a, want);
    // a gateway that sends the whole coinbase as the first half
    assert_eq!(assemble(&[1, 2, 3], &[], 1, 7), vec![1, 7, 3]);
}

#[test]
fn what_is_no_coinbase_does_not_parse() {
    assert_eq!(parse(&[]), Err(ParseError::NotACoinbase));
    let mut b = vec![1, 0, 0, 0, 1];
    b.extend_from_slice(&[1; 36]);
    b.extend_from_slice(&[0; 20]);
    assert_eq!(parse(&b), Err(ParseError::NotACoinbase));
    // the input of a coinbase, but nothing behind it
    let mut b = vec![1, 0, 0, 0, 1];
    b.extend_from_slice(&[0; 32]);
    b.extend_from_slice(&[0xff; 4]);
    assert_eq!(parse(&b), Err(ParseError::Malformed));
}

#[test]
fn a_witness_is_added_only_where_outputs_commit_to_one() {
    let legacy: Vec<u8> = (0..60).collect();
    let mut cb = Coinbase {
        version: 1,
        script_sig: vec![],
        sequence: 0,
        outputs: vec![],
        lock_time: 0,
        height: None,
    };
    assert_eq!(with_witness(&legacy, &cb), legacy);
    let mut script = vec![0x6a, 0x24, 0xaa, 0x21, 0xa9, 0xed];
    script.extend_from_slice(&[1; 32]);
    cb.outputs.push(TxOut { value: 0, script });
    let w = with_witness(&legacy, &cb);
    assert_eq!(w.len(), 60 + 2 + 34);
    assert_eq!(&w[4..6], &[0, 1]);
    assert_eq!(&w[w.len() - 4..], &legacy[56..]);
}

#[test]
fn reject_codes_have_names() {
    assert_eq!(reject_name(REJECT_BAD_JOB_ID), "bad-job-id");
    assert_eq!(reject_name(REJECT_STALE_BLOCK), "stale-block");
    assert_eq!(reject_name(9999), "other");
}
