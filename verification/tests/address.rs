//! Addresses, identities and networks.

use primed::address::{
    base58_output, canonical_identity, decode_script, identity_of, rdts_output_ok, segwit_output,
    segwit_script, to_script, worker_of, Network, RDTS_MAX_OUTPUT_DATA, RDTS_MAX_OUTPUT_SCRIPT,
};

#[test]
fn segwit_and_legacy() {
    let s = to_script("bc1qw508d6qejxtdg4y5r3zarvary0c5xw7kv8f3t4", Network::Mainnet).unwrap();
    assert_eq!(hex::encode(s), "0014751e76e8199196d454941c45d1b3a323f1433bd6");
    let s = to_script("bc1p0xlxvlhemja6c4dqv22uapctqupfhlxm9h8z3k2e72q4k9hcz7vqzk5jj0", Network::Mainnet).unwrap();
    assert_eq!(hex::encode(s), "512079be667ef9dcbbac55a06295ce870b07029bfcdb2dce28d959f2815b16f81798");
    let s = to_script("1BvBMSEYstWetqTFn5Au4m4GFg7xJaNVN2", Network::Mainnet).unwrap();
    assert_eq!(hex::encode(s), "76a91477bff20c60e522dfaa3350c39b030a5d004e839a88ac");
    let s = to_script("3J98t1WpEZ73CNmQviecrnyiWrnqRhWNLy", Network::Mainnet).unwrap();
    assert_eq!(hex::encode(s), "a914b472a266d0bd89c13706a4132ccfb16f7c3b9fcb87");
    assert!(to_script("tb1qw508d6qejxtdg4y5r3zarvary0c5xw7kxpjzsx", Network::Mainnet).is_none());
    assert!(to_script("tb1qw508d6qejxtdg4y5r3zarvary0c5xw7kxpjzsx", Network::Testnet).is_some());
    assert!(to_script("worker1", Network::Mainnet).is_none());
    assert!(to_script("bc1qw508d6qejxtdg4y5r3zarvary0c5xw7kv8f3t5", Network::Mainnet).is_none());
}

#[test]
fn rdts_rejects_output_scripts_a_coinbase_cannot_carry() {
    assert!(rdts_output_ok(&[]));
    assert!(rdts_output_ok(&[0x6a; RDTS_MAX_OUTPUT_DATA]));
    assert!(!rdts_output_ok(&[0x6a; RDTS_MAX_OUTPUT_DATA + 1]));
    assert!(rdts_output_ok(&[0x51; RDTS_MAX_OUTPUT_SCRIPT]));
    assert!(!rdts_output_ok(&[0x51; RDTS_MAX_OUTPUT_SCRIPT + 1]));

    // A 40-byte witness program is a valid address but a 42-byte output script, which
    // no block may carry once RDTS is enforced, so it is not payable.
    let hrp = bech32::Hrp::parse("bc").unwrap();
    let long = bech32::segwit::encode(hrp, bech32::Fe32::Z, &[0xab; 40]).unwrap();
    assert!(to_script(&long, Network::Mainnet).is_none());
    // 32 bytes is the largest program that still fits.
    let fits = bech32::segwit::encode(hrp, bech32::Fe32::P, &[0xab; 32]).unwrap();
    assert_eq!(to_script(&fits, Network::Mainnet).unwrap().len(), RDTS_MAX_OUTPUT_SCRIPT);
}

#[test]
fn identity_strips_worker() {
    assert_eq!(identity_of("bc1qabc.rig1"), "bc1qabc");
    assert_eq!(identity_of(" bc1qabc "), "bc1qabc");
    assert_eq!(identity_of("plain"), "plain");
    assert_eq!(identity_of("bc1qabc~x.rig1"), "bc1qabc");
    assert_eq!(identity_of("bc1qabc.rig1~x"), "bc1qabc");
    assert_eq!(identity_of("~x"), "");
}

#[test]
fn bech32_identities_fold_to_one_case_and_the_same_script() {
    let lower = "bc1qw508d6qejxtdg4y5r3zarvary0c5xw7kv8f3t4";
    let upper = lower.to_ascii_uppercase();
    assert_eq!(canonical_identity(&upper), lower);
    assert_eq!(canonical_identity(lower), lower);
    assert_eq!(canonical_identity(&canonical_identity(&upper)), lower, "idempotent");
    assert_eq!(to_script(&upper, Network::Mainnet), to_script(lower, Network::Mainnet));
    let taproot = "bc1p0xlxvlhemja6c4dqv22uapctqupfhlxm9h8z3k2e72q4k9hcz7vqzk5jj0";
    assert_eq!(canonical_identity(&taproot.to_ascii_uppercase()), taproot);
    // base58 stays byte-exact: changing case changes the address
    let legacy = "1BvBMSEYstWetqTFn5Au4m4GFg7xJaNVN2";
    assert_eq!(canonical_identity(legacy), legacy);
    assert_eq!(canonical_identity(&legacy.to_ascii_lowercase()), legacy.to_ascii_lowercase());
    // a mixed-case bech32 string is not an address and is not folded
    let mixed = "bc1QW508D6QEJXTDG4Y5R3ZARVARY0C5XW7KV8F3T4";
    assert_eq!(canonical_identity(mixed), mixed);
    assert_eq!(canonical_identity("worker1"), "worker1");
    assert_eq!(canonical_identity("BC1QNOTREALLYANADDRESS"), "BC1QNOTREALLYANADDRESS");
}

#[test]
fn an_address_with_white_space_around_it_is_paid_but_not_folded() {
    let padded = " BC1QW508D6QEJXTDG4Y5R3ZARVARY0C5XW7KV8F3T4 ";
    assert_eq!(canonical_identity(padded), padded);
    assert!(to_script(padded, Network::Mainnet).is_some());
    assert_eq!(to_script(&canonical_identity(padded), Network::Mainnet), to_script(padded, Network::Mainnet));
}

#[test]
fn worker_is_what_follows_the_identity() {
    assert_eq!(worker_of("bc1qabc.rig1"), "rig1");
    assert_eq!(worker_of("bc1qabc.rig1.a"), "rig1.a");
    assert_eq!(worker_of("bc1qabc"), "");
    assert_eq!(worker_of("bc1qabc~x"), "x");
}

#[test]
fn networks_by_name_prefix_and_version() {
    assert_eq!(Network::parse("nowhere"), None);
    let main = Network::Mainnet;
    assert_eq!((main.hrp(), main.p2pkh_version(), main.p2sh_version()), ("bc", 0x00, 0x05));
    let test = Network::Testnet;
    assert_eq!((test.hrp(), test.p2pkh_version(), test.p2sh_version()), ("tb", 0x6f, 0xc4));
    assert_eq!(Network::Regtest.hrp(), "bcrt");
}

#[test]
fn witness_scripts_push_version_and_program() {
    assert_eq!(segwit_script(0, &[1, 2]), vec![0x00, 2, 1, 2]);
    assert_eq!(segwit_script(1, &[9; 3]), vec![0x51, 3, 9, 9, 9]);
    assert_eq!(segwit_script(16, &[7]), vec![0x60, 1, 7]);
}

#[test]
fn decoded_parts_become_outputs_of_their_network_only() {
    assert_eq!(segwit_output("bc", 0, &[3; 20], Network::Mainnet), Some(segwit_script(0, &[3; 20])));
    assert_eq!(segwit_output("tb", 0, &[3; 20], Network::Mainnet), None);
    let mut raw = vec![0x00];
    raw.extend_from_slice(&[8; 20]);
    let mut want = vec![0x76, 0xa9, 0x14];
    want.extend_from_slice(&[8; 20]);
    want.extend_from_slice(&[0x88, 0xac]);
    assert_eq!(base58_output(&raw, Network::Mainnet), Some(want));
    assert_eq!(base58_output(&raw, Network::Testnet), None);
    assert_eq!(base58_output(&raw[..20], Network::Mainnet), None);
}

#[test]
fn an_address_can_decode_and_still_not_be_payable() {
    let hrp = bech32::Hrp::parse("bc").unwrap();
    let long = bech32::segwit::encode(hrp, bech32::Fe32::Z, &[0xab; 40]).unwrap();
    assert_eq!(decode_script(&long, Network::Mainnet).unwrap().len(), 42);
    assert!(to_script(&long, Network::Mainnet).is_none());
}
