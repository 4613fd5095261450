//! What is settled before the pool opens: where its own output goes, how blocks are split, and
//! which secret it signs with.

use crate::address::{decode_script, rdts_ok, rdts_output_ok, script_of, Network};
use crate::base16::{from_hex, hex_of, hex_value, lemma_hex_round_trip, to_hex, NotHex};
use crate::bytes::{bytes_eq, push_bytes, slice_of};
use crate::names::NameMap;
use crate::split::{ParamsView, SplitParams, WHOLE_BPS};
use crate::text::{is_space, text_of, trim_end_of, trim_of, trim_start_of, trimmed_chars};
use vstd::prelude::*;
use vstd::utf8::encode_utf8;

verus! {

/// Most miner outputs of a coinbaser: a gateway takes 512, and one is the pool's.
pub const MAX_OUTPUTS: usize = 511;

/// Most bytes of miner outputs: what a gateway's largest coinbase takes, less the pool's output.
pub const OUTPUT_BUDGET_BYTES: usize = 13_927;

/// Why the pool's own output cannot be made.
#[derive(Clone, Copy, Debug, PartialEq, Eq, Structural)]
pub enum PayoutError {
    UnknownNetwork,
    /// The address is none of the network's.
    NotAnAddress,
    /// The output script is longer than a coinbase can carry.
    TooLong(usize),
}

/// The network and the pool's output script, or why the configuration cannot be used.
pub open spec fn payout_of(network: Seq<char>, address: Seq<char>) -> Result<
    (Network, Seq<u8>),
    PayoutError,
> {
    match Network::named(network) {
        None => Err(PayoutError::UnknownNetwork),
        Some(net) => match script_of(address, net) {
            None => Err(PayoutError::NotAnAddress),
            Some(s) => if rdts_ok(s) {
                Ok((net, s))
            } else {
                Err(PayoutError::TooLong(s.len() as usize))
            },
        },
    }
}

/// Finds the network and the pool's output script. An output that a coinbase cannot carry is
/// refused: the pool's holds what the split could not place, so that a gateway cannot leave it out.
pub fn pool_payout_script(network: &str, payout_address: &str) -> (r: Result<
    (Network, Vec<u8>),
    PayoutError,
>)
    ensures
        match payout_of(network@, payout_address@) {
            Ok((net, s)) => r matches Ok(x) && x.0 == net && x.1@ == s,
            Err(e) => r == Err::<(Network, Vec<u8>), PayoutError>(e),
        },
{
    let net: Network = match Network::parse(network) {
        Some(n) => n,
        None => {
            return Err(PayoutError::UnknownNetwork);
        },
    };
    match decode_script(payout_address, net) {
        Some(s) => {
            if !rdts_output_ok(s.as_slice()) {
                return Err(PayoutError::TooLong(s.len()));
            }
            Ok((net, s))
        },
        None => Err(PayoutError::NotAnAddress),
    }
}

/// The split parameters of a configuration.
pub fn base_split(fee_bps: u32, stratum_fee_bps: u32, min_payout: u64, max_payees: usize) -> (p:
    SplitParams)
    ensures
        p@ == (ParamsView {
            fee_bps,
            stratum_fee_bps,
            min_payout,
            max_outputs: MAX_OUTPUTS as nat,
            output_budget_bytes: OUTPUT_BUDGET_BYTES as nat,
            max_payees: max_payees as nat,
            fee_overrides: Map::empty(),
        }),
        p.max_outputs == 511,
        p.output_budget_bytes == 13_927,
        fee_bps <= WHOLE_BPS && stratum_fee_bps <= WHOLE_BPS ==> p.wf(),
{
    let p = SplitParams {
        fee_bps,
        stratum_fee_bps,
        min_payout,
        max_outputs: MAX_OUTPUTS,
        output_budget_bytes: OUTPUT_BUDGET_BYTES,
        max_payees,
        fee_overrides: NameMap::new(),
    };
    assert(p@.fee_overrides =~= Map::empty());
    p
}

/// What a key file holds.
#[derive(Clone, Debug, PartialEq, Eq)]
pub enum KeyFile {
    /// The signing seed and the box secret, 32 bytes each.
    Secret(Vec<u8>),
    /// The same, and the public keys kept with them, which they must match.
    WithPublic { secret: Vec<u8>, sign_pk: Vec<u8>, box_pk: Vec<u8> },
    /// Neither, by its length.
    WrongLength(usize),
}

impl KeyFile {
    /// Whether this is what some bytes of a key file hold: either the two secrets, or the older
    /// layout of signing key, signing secret (seed and key), box key and box secret.
    pub open spec fn is_of(&self, b: Seq<u8>) -> bool {
        &&& b.len() == 64 ==> (self matches KeyFile::Secret(s) && s@ == b)
        &&& b.len() == 160 ==> (self matches KeyFile::WithPublic { secret, sign_pk, box_pk }
            && secret@ == b.subrange(32, 64) + b.subrange(128, 160) && sign_pk@ == b.subrange(0, 32)
            && box_pk@ == b.subrange(96, 128))
        &&& b.len() != 64 && b.len() != 160 ==> *self == KeyFile::WrongLength(b.len() as usize)
    }
}

/// Reads the bytes of a key file.
pub fn read_key(b: &[u8]) -> (k: KeyFile)
    ensures
        k.is_of(b@),
{
    let n: usize = b.len();
    if n == 64 {
        let s: Vec<u8> = slice_of(b, 0, 64);
        assert(s@ =~= b@);
        return KeyFile::Secret(s);
    }
    if n == 160 {
        let mut secret: Vec<u8> = slice_of(b, 32, 64);
        let rest: Vec<u8> = slice_of(b, 128, 160);
        push_bytes(&mut secret, rest.as_slice());
        return KeyFile::WithPublic {
            secret,
            sign_pk: slice_of(b, 0, 32),
            box_pk: slice_of(b, 96, 128),
        };
    }
    KeyFile::WrongLength(n)
}

/// Reads a key file: its bytes in hexadecimal, with any white space around them.
pub fn read_key_file(text: &str) -> (r: Result<KeyFile, NotHex>)
    ensures
        match hex_value(encode_utf8(trim_of(text@))) {
            Ok(b) => r matches Ok(k) && k.is_of(b),
            Err(e) => r == Err::<KeyFile, NotHex>(e),
        },
{
    let chars: Vec<char> = trimmed_chars(text);
    match from_hex(text_of(chars.as_slice()).as_str()) {
        Ok(b) => Ok(read_key(b.as_slice())),
        Err(e) => Err(e),
    }
}

/// The key file of a secret.
pub open spec fn key_file_of(secret: Seq<u8>) -> Seq<char> {
    hex_of(secret).push('\n')
}

/// Writes the key file of a secret: hexadecimal on a line.
pub fn key_file(secret: &[u8]) -> (s: String)
    ensures
        s@ == key_file_of(secret@),
{
    let mut s: String = to_hex(secret);
    s.push('\n');
    s
}

/// The secret that a key file was written of is read back from it.
pub proof fn lemma_key_file_round_trip(secret: Seq<u8>)
    ensures
        hex_value(encode_utf8(trim_of(key_file_of(secret)))) == Ok::<Seq<u8>, NotHex>(secret),
{
    let h = hex_of(secret);
    let t = key_file_of(secret);
    assert(t.drop_last() =~= h);
    assert(t.last() == '\n' && is_space('\n'));
    if h.len() == 0 {
        assert(t.drop_first() =~= Seq::<char>::empty());
        assert(trim_start_of(t) == trim_start_of(t.drop_first()));
        assert(trim_of(t) =~= h);
    } else {
        assert(!is_space(h[0]) && !is_space(h.last()));
        assert(t[0] == h[0]);
        assert(trim_start_of(t) == t);
        assert(trim_end_of(t) == trim_end_of(h));
        assert(trim_end_of(h) == h);
    }
    lemma_hex_round_trip(secret);
}

/// Tells whether a secret's public keys are those kept with it.
pub fn keys_match(k: &KeyFile, sign_pk: &[u8], box_pk: &[u8]) -> (r: bool)
    ensures
        r == match k {
            KeyFile::WithPublic { secret: _, sign_pk: s, box_pk: b } => s@ == sign_pk@ && b@
                == box_pk@,
            KeyFile::Secret(_) => true,
            KeyFile::WrongLength(_) => false,
        },
{
    match k {
        KeyFile::WithPublic { secret: _, sign_pk: s, box_pk: b } => bytes_eq(s.as_slice(), sign_pk)
            && bytes_eq(b.as_slice(), box_pk),
        KeyFile::Secret(_) => true,
        KeyFile::WrongLength(_) => false,
    }
}

/// The pool can be paid if and only if the network is known, the address is one of it, and a
/// coinbase can carry its output; and each of these is told apart.
pub proof fn lemma_pool_payout(network: Seq<char>, address: Seq<char>)
    ensures
        ({
            let r = payout_of(network, address);
            let net = Network::named(network);
            &&& net.is_none() ==> r == Err::<(Network, Seq<u8>), PayoutError>(
                PayoutError::UnknownNetwork,
            )
            &&& net matches Some(n) ==> {
                let s = script_of(address, n);
                &&& s.is_none() ==> r == Err::<(Network, Seq<u8>), PayoutError>(
                    PayoutError::NotAnAddress,
                )
                &&& s matches Some(x) ==> {
                    let fits = x.len() <= 34 || (x[0] == 0x6a && x.len() <= 83);
                    &&& fits ==> r == Ok::<(Network, Seq<u8>), PayoutError>((n, x))
                    &&& !fits ==> r == Err::<(Network, Seq<u8>), PayoutError>(
                        PayoutError::TooLong(x.len() as usize),
                    )
                }
            }
        }),
{
}

/// A key file of 64 bytes is the two secrets. One of 160 holds each secret and each public key in
/// its place: signing key, signing seed, a copy of the signing key, box key, box secret. No other
/// length holds keys.
pub proof fn lemma_key_files(k: KeyFile, b: Seq<u8>)
    requires
        k.is_of(b),
        b.len() <= usize::MAX,
    ensures
        k is Secret <==> b.len() == 64,
        k is WithPublic <==> b.len() == 160,
        k matches KeyFile::Secret(s) ==> s@ == b,
        k matches KeyFile::WithPublic { secret, sign_pk, box_pk } ==> {
            &&& secret@.len() == 64
            &&& b == sign_pk@ + secret@.take(32) + b.subrange(64, 96) + box_pk@ + secret@.skip(32)
            &&& sign_pk@.len() == 32 && box_pk@.len() == 32
        },
        k matches KeyFile::WrongLength(n) ==> n == b.len(),
{
    if b.len() == 160 {
        let secret = b.subrange(32, 64) + b.subrange(128, 160);
        assert(secret.take(32) =~= b.subrange(32, 64));
        assert(secret.skip(32) =~= b.subrange(128, 160));
        assert(b =~= b.subrange(0, 32) + b.subrange(32, 64) + b.subrange(64, 96) + b.subrange(
            96,
            128,
        ) + b.subrange(128, 160));
    }
}

} // verus!
