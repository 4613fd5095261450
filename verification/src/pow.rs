//! The BLAKE2b proof of work: targets, the merkle fold, the header commitment and the
//! 80-byte pass the hardware grinds.

use crate::bytes::{
    le_bytes, le_nat, lemma_le_bytes_len, lemma_le_nat_bound, lemma_le_nat_push, push_bytes,
    push_le, push_zeros, read_le, reversed, to_hash, zeros,
};
use crate::digest::{blake2b256, blake2b256_of, sha256, sha256_of};
use vstd::arithmetic::power::{lemma_pow_adds, lemma_pow_positive, pow};
use vstd::arithmetic::power2::pow2;
use vstd::prelude::*;

pub use crate::bytes::Hash32;

verus! {

/// Header flag: the header time is the time on the wire plus the offset in the nTime field.
pub const FLAG_USE_TIME_OFFSET: u16 = 1;

/// Largest power-of-two difficulty whose work fits in 64 bits.
pub const MAX_POT: u8 = 63;

/// The target of difficulty 1.
pub open spec fn difficulty_one() -> nat {
    0xffff * pow(256, 26) as nat
}

/// Whether `hash` is at or under `target`, both little-endian.
pub fn meets_target(hash: &Hash32, target: &Hash32) -> (r: bool)
    ensures
        r == (le_nat(hash@) <= le_nat(target@)),
{
    let mut i: usize = 32;
    while i > 0
        invariant
            i <= 32,
            hash@.skip(i as int) == target@.skip(i as int),
        decreases i,
    {
        i = i - 1;
        let a: u8 = hash[i];
        let b: u8 = target[i];
        proof {
            lemma_top_byte_decides(hash@, target@, i as int);
            assert(hash@.skip(i as int) =~= seq![a] + hash@.skip(i + 1));
            assert(target@.skip(i as int) =~= seq![b] + target@.skip(i + 1));
        }
        if a < b {
            return true;
        }
        if a > b {
            return false;
        }
    }
    assert(hash@.skip(0) =~= hash@);
    assert(target@.skip(0) =~= target@);
    true
}

/// The highest byte in which two strings of one length differ decides which is larger.
proof fn lemma_top_byte_decides(a: Seq<u8>, b: Seq<u8>, i: int)
    requires
        a.len() == b.len(),
        0 <= i < a.len(),
        a.skip(i + 1) == b.skip(i + 1),
    ensures
        a[i] < b[i] ==> le_nat(a) < le_nat(b),
        a[i] > b[i] ==> le_nat(a) > le_nat(b),
{
    lemma_le_nat_concat(a.take(i), a.skip(i));
    lemma_le_nat_concat(b.take(i), b.skip(i));
    assert(a.take(i) + a.skip(i) =~= a);
    assert(b.take(i) + b.skip(i) =~= b);
    lemma_le_nat_bound(a.take(i));
    lemma_le_nat_bound(b.take(i));
    assert(a.skip(i).drop_first() =~= a.skip(i + 1));
    assert(b.skip(i).drop_first() =~= b.skip(i + 1));
    let p = pow(256, i as nat);
    let x = le_nat(a.skip(i)) as int;
    let y = le_nat(b.skip(i)) as int;
    if a[i] < b[i] {
        assert(p * x + p <= p * y) by (nonlinear_arith)
            requires
                x + 1 <= y,
                p >= 0,
        ;
    }
    if a[i] > b[i] {
        assert(p * y + p <= p * x) by (nonlinear_arith)
            requires
                y + 1 <= x,
                p >= 0,
        ;
    }
}

/// Concatenation puts the second string above the first.
pub proof fn lemma_le_nat_concat(a: Seq<u8>, b: Seq<u8>)
    ensures
        le_nat(a + b) == le_nat(a) + pow(256, a.len()) * le_nat(b),
        pow(256, a.len()) > 0,
    decreases b.len(),
{
    lemma_pow_positive(256, a.len());
    if b.len() == 0 {
        assert(a + b =~= a);
        assert(pow(256, a.len()) * 0 == 0);
    } else {
        let t = b.last();
        let b0 = b.drop_last();
        lemma_le_nat_concat(a, b0);
        lemma_le_nat_push(a + b0, t);
        lemma_le_nat_push(b0, t);
        assert((a + b0).push(t) =~= a + b);
        assert(b0.push(t) =~= b);
        lemma_pow_adds(256, a.len(), b0.len());
        let p = pow(256, a.len());
        let q = pow(256, b0.len());
        let n = le_nat(b0) as int;
        assert(p * (n + t * q) == p * n + t * (p * q)) by (nonlinear_arith);
    }
}

/// Halves a little-endian number, dropping the remainder.
fn halve(h: &Hash32) -> (r: Hash32)
    ensures
        le_nat(r@) == le_nat(h@) / 2,
{
    let mut r: Hash32 = [0u8; 32];
    let mut i: usize = 32;
    let mut carry: u8 = 0;
    assert(h@.skip(32) =~= Seq::<u8>::empty());
    assert(r@.skip(32) =~= Seq::<u8>::empty());
    while i > 0
        invariant
            i <= 32,
            carry <= 1,
            2 * le_nat(r@.skip(i as int)) + carry == le_nat(h@.skip(i as int)),
        decreases i,
    {
        let ghost before = r@;
        i = i - 1;
        let b: u8 = h[i];
        let half: u8 = b / 2 + 128 * carry;
        r[i] = half;
        carry = b % 2;
        proof {
            assert(r@.skip(i as int).drop_first() =~= before.skip(i + 1));
            assert(h@.skip(i as int).drop_first() =~= h@.skip(i + 1));
        }
    }
    assert(h@.skip(0) =~= h@);
    assert(r@.skip(0) =~= r@);
    r
}

/// The share target of difficulty `2^pot`.
pub open spec fn share_target_of(pot: u8) -> Seq<u8> {
    le_bytes(difficulty_one() / pow2(pot as nat), 32)
}

/// The share target of difficulty `2^pot`, or `None` when its work does not fit in 64 bits.
pub fn share_target_le(pot: u8) -> (r: Option<Hash32>)
    ensures
        r.is_some() == (pot <= MAX_POT),
        r matches Some(t) ==> t@ == share_target_of(pot) && le_nat(t@) == difficulty_one() / pow2(
            pot as nat,
        ),
{
    if pot > MAX_POT {
        return None;
    }
    let mut v: Vec<u8> = Vec::new();
    push_zeros(&mut v, 26);
    push_le(&mut v, 0xffff, 2);
    push_zeros(&mut v, 4);
    proof {
        let mid = le_bytes(0xffff, 2);
        crate::bytes::lemma_le_bytes_len(0xffff, 2);
        crate::bytes::lemma_pow_256(2);
        crate::bytes::lemma_le_nat_of_bytes(0xffff, 2);
        assert(v@ == Seq::<u8>::empty() + zeros(26) + mid + zeros(4));
        assert(Seq::<u8>::empty() + zeros(26) =~= zeros(26));
        lemma_le_nat_concat(zeros(26) + mid, zeros(4));
        lemma_le_nat_concat(zeros(26), mid);
        lemma_le_nat_zeros(26);
        lemma_le_nat_zeros(4);
    }
    let mut t: Hash32 = to_hash(v.as_slice());
    let mut i: u8 = 0;
    proof {
        vstd::arithmetic::power2::lemma2_to64();
        assert(pow(256, 26) * 0xffff == 0xffff * pow(256, 26)) by (nonlinear_arith);
        assert(difficulty_one() / 1 == difficulty_one());
    }
    while i < pot
        invariant
            i <= pot,
            le_nat(t@) == difficulty_one() / pow2(i as nat),
        decreases pot - i,
    {
        t = halve(&t);
        proof {
            let p = pow2(i as nat) as int;
            vstd::arithmetic::power2::lemma_pow2_pos(i as nat);
            vstd::arithmetic::power2::lemma_pow2_unfold((i + 1) as nat);
            vstd::arithmetic::div_mod::lemma_div_denominator(difficulty_one() as int, p, 2);
            assert(p * 2 == 2 * p);
        }
        i = i + 1;
    }
    proof {
        crate::bytes::lemma_le_bytes_of_nat(t@);
    }
    Some(t)
}

pub proof fn lemma_le_nat_zeros(n: nat)
    ensures
        le_nat(zeros(n)) == 0,
    decreases n,
{
    if n > 0 {
        assert(zeros(n).drop_first() =~= zeros((n - 1) as nat));
        lemma_le_nat_zeros((n - 1) as nat);
    }
}

/// The number a compact target stands for: a 23-bit mantissa and a base-256 exponent.
pub open spec fn compact_value(nbits: u32) -> nat {
    let exp = (nbits / 0x100_0000) as nat;
    let mant = (nbits % 0x80_0000) as nat;
    if exp >= 3 {
        mant * pow(256, (exp - 3) as nat) as nat
    } else {
        mant / (pow(256, (3 - exp) as nat) as nat)
    }
}

/// Whether the sign bit of a compact target is set.
pub open spec fn compact_negative(nbits: u32) -> bool {
    nbits % 0x100_0000 >= 0x80_0000
}

/// The 256-bit target a compact `nbits` stands for; `None` for one that is negative, zero or
/// does not fit.
pub fn nbits_to_target_le(nbits: u32) -> (r: Option<Hash32>)
    ensures
        r.is_some() == (!compact_negative(nbits) && 0 < compact_value(nbits) < pow(256, 32)),
        r matches Some(t) ==> le_nat(t@) == compact_value(nbits),
{
    if nbits % 0x100_0000 >= 0x80_0000 {
        return None;
    }
    let exp: u32 = nbits / 0x100_0000;
    let mant: u32 = nbits % 0x80_0000;
    let mut v: Vec<u8> = Vec::new();
    if exp >= 3 {
        push_zeros(&mut v, (exp - 3) as usize);
        push_le(&mut v, mant as u64, 4);
        proof {
            let e = (exp - 3) as nat;
            assert(v@ =~= zeros(e) + le_bytes(mant as nat, 4));
            crate::bytes::lemma_pow_256(4);
            crate::bytes::lemma_le_nat_of_bytes(mant as nat, 4);
            lemma_le_nat_concat(zeros(e), le_bytes(mant as nat, 4));
            lemma_le_nat_zeros(e);
            assert(pow(256, e) * mant == mant * pow(256, e)) by (nonlinear_arith);
        }
    } else {
        let shifted: u32 = if exp == 2 {
            mant / 0x100
        } else if exp == 1 {
            mant / 0x1_0000
        } else {
            mant / 0x100_0000
        };
        push_le(&mut v, shifted as u64, 4);
        proof {
            assert(v@ =~= le_bytes(shifted as nat, 4));
            crate::bytes::lemma_pow_256(4);
            crate::bytes::lemma_le_nat_of_bytes(shifted as nat, 4);
            reveal_with_fuel(pow, 4);
            assert(pow(256, 1) == 0x100);
            assert(pow(256, 2) == 0x1_0000);
            assert(pow(256, 3) == 0x100_0000);
        }
    }
    assert(le_nat(v@) == compact_value(nbits));
    let t: Hash32 = match fit(&v) {
        Some(t) => t,
        None => {
            return None;
        },
    };
    let nothing: Hash32 = [0u8; 32];
    if meets_target(&t, &nothing) {
        proof {
            assert(nothing@ =~= zeros(32));
            lemma_le_nat_zeros(32);
        }
        return None;
    }
    proof {
        assert(nothing@ =~= zeros(32));
        lemma_le_nat_zeros(32);
        lemma_le_nat_bound(t@);
    }
    Some(t)
}

/// The same number in exactly 32 bytes, if it fits.
fn fit(v: &Vec<u8>) -> (r: Option<Hash32>)
    ensures
        r.is_some() == (le_nat(v@) < pow(256, 32)),
        r matches Some(t) ==> le_nat(t@) == le_nat(v@),
{
    let mut out: Vec<u8> = Vec::new();
    let mut i: usize = 0;
    assert(v@.take(0) =~= Seq::<u8>::empty());
    while i < v.len()
        invariant
            i <= v@.len(),
            out@.len() == if i < 32 { i as int } else { 32 },
            le_nat(out@) == le_nat(v@.take(i as int)),
        decreases v@.len() - i,
    {
        proof {
            assert(v@.take(i + 1) =~= v@.take(i as int).push(v@[i as int]));
            lemma_le_nat_push(v@.take(i as int), v@[i as int]);
            lemma_pow_positive(256, i as nat);
            assert(0 * pow(256, i as nat) == 0);
        }
        if i < 32 {
            proof {
                lemma_le_nat_push(out@, v@[i as int]);
                assert(out@.len() == i);
            }
            out.push(v[i]);
        } else if v[i] != 0 {
            proof {
                let d = v@[i as int] as int;
                let p = pow(256, i as nat);
                vstd::arithmetic::power::lemma_pow_increases(256, 32, i as nat);
                assert(d * p >= p) by (nonlinear_arith)
                    requires
                        d >= 1,
                        p > 0,
                ;
                lemma_le_nat_concat(v@.take(i + 1), v@.skip(i + 1));
                assert(v@.take(i + 1) + v@.skip(i + 1) =~= v@);
                let hi = le_nat(v@.skip(i + 1)) as int;
                let q = pow(256, (i + 1) as nat);
                assert(q * hi >= 0) by (nonlinear_arith)
                    requires
                        q > 0,
                        hi >= 0,
                ;
            }
            return None;
        }
        i = i + 1;
    }
    assert(v@.take(v@.len() as int) =~= v@);
    let ghost low = out@;
    let missing: usize = 32 - out.len();
    push_zeros(&mut out, missing);
    proof {
        lemma_le_nat_concat(low, zeros(missing as nat));
        lemma_le_nat_zeros(missing as nat);
        lemma_le_nat_bound(low);
        vstd::arithmetic::power::lemma_pow_increases(256, low.len(), 32);
    }
    Some(to_hash(out.as_slice()))
}

/// SHA-256 applied twice.
pub open spec fn sha256d_of(data: Seq<u8>) -> Seq<u8> {
    sha256_of(sha256_of(data))
}

/// SHA-256 applied twice: how transactions and merkle nodes are hashed.
pub fn sha256d(data: &[u8]) -> (h: Hash32)
    ensures
        h@ == sha256d_of(data@),
{
    let once: Hash32 = sha256(data);
    sha256(once.as_slice())
}

/// SHA-256 in the domain of `tag`.
pub open spec fn tagged_sha256_of(tag: Seq<u8>, msg: Seq<u8>) -> Seq<u8> {
    sha256_of(sha256_of(tag) + sha256_of(tag) + msg)
}

/// SHA-256 of `msg` prefixed with the digest of `tag` twice.
pub fn tagged_sha256(tag: &[u8], msg: &[u8]) -> (h: Hash32)
    ensures
        h@ == tagged_sha256_of(tag@, msg@),
{
    let t: Hash32 = sha256(tag);
    let mut v: Vec<u8> = Vec::new();
    push_bytes(&mut v, t.as_slice());
    push_bytes(&mut v, t.as_slice());
    push_bytes(&mut v, msg);
    assert(v@ =~= t@ + t@ + msg@);
    sha256(v.as_slice())
}

/// The merkle root reached from a leaf over its branches, nearest first.
pub open spec fn merkle_fold(leaf: Seq<u8>, branches: Seq<Hash32>) -> Seq<u8>
    decreases branches.len(),
{
    if branches.len() == 0 {
        leaf
    } else {
        sha256d_of(merkle_fold(leaf, branches.drop_last()) + branches.last()@)
    }
}

/// Folds the coinbase txid over the branches a gateway supplied.
pub fn merkle_root(txid: Hash32, branches: &[Hash32]) -> (root: Hash32)
    ensures
        root@ == merkle_fold(txid@, branches@),
{
    let mut root: Hash32 = txid;
    let mut i: usize = 0;
    assert(branches@.take(0) =~= Seq::<Hash32>::empty());
    while i < branches.len()
        invariant
            i <= branches@.len(),
            root@ == merkle_fold(txid@, branches@.take(i as int)),
        decreases branches@.len() - i,
    {
        let mut v: Vec<u8> = Vec::new();
        push_bytes(&mut v, root.as_slice());
        push_bytes(&mut v, branches[i].as_slice());
        proof {
            assert(branches@.take(i + 1).drop_last() =~= branches@.take(i as int));
            assert(v@ =~= root@ + branches@[i as int]@);
        }
        root = sha256d(v.as_slice());
        i = i + 1;
    }
    assert(branches@.take(branches@.len() as int) =~= branches@);
    root
}

/// What a header commits to before any nonce is chosen.
#[derive(Clone, Copy, Debug, PartialEq, Eq)]
pub struct Commitment {
    pub version: u32,
    pub prev_hash: Hash32,
    pub height: u32,
    pub merkle_root: Hash32,
    pub time_on_wire: u32,
    pub nbits: u32,
    /// Transactions in the block, the coinbase included.
    pub txcount: u32,
    pub flags: u16,
    pub xor_clear_bits: u8,
    pub xor_key: [u8; 16],
    pub rhs: Hash32,
}

/// Domain of the header hash.
pub fn header_tag() -> (t: [u8; 22])
    ensures
        t@ == header_tag_bytes(),
{
    let t: [u8; 22] = [
        0x42, 0x69, 0x74, 0x63, 0x6f, 0x69, 0x6e, 0x20, 0x62, 0x6c, 0x6f, 0x63, 0x6b, 0x20, 0x68,
        0x65, 0x61, 0x64, 0x65, 0x72, 0x20, 0x31,
    ];
    assert(t@ =~= header_tag_bytes());
    t
}

/// The ASCII bytes of `Bitcoin block header 1`.
pub open spec fn header_tag_bytes() -> Seq<u8> {
    seq![
        0x42u8, 0x69, 0x74, 0x63, 0x6f, 0x69, 0x6e, 0x20, 0x62, 0x6c, 0x6f, 0x63, 0x6b, 0x20,
        0x68, 0x65, 0x61, 0x64, 0x65, 0x72, 0x20, 0x31,
    ]
}

/// Domain of the merge-mining hash.
pub fn hook_tag() -> (t: [u8; 17])
    ensures
        t@ == hook_tag_bytes(),
{
    let t: [u8; 17] = [
        0x4d, 0x65, 0x72, 0x67, 0x65, 0x2d, 0x6d, 0x69, 0x6e, 0x69, 0x6e, 0x67, 0x20, 0x68, 0x6f,
        0x6f, 0x6b,
    ];
    assert(t@ =~= hook_tag_bytes());
    t
}

/// The ASCII bytes of `Merge-mining hook`.
pub open spec fn hook_tag_bytes() -> Seq<u8> {
    seq![
        0x4du8, 0x65, 0x72, 0x67, 0x65, 0x2d, 0x6d, 0x69, 0x6e, 0x69, 0x6e, 0x67, 0x20, 0x68,
        0x6f, 0x6f, 0x6b,
    ]
}

/// What a [`Commitment`] holds.
#[verifier::ext_equal]
pub struct CommitmentView {
    pub version: u32,
    pub prev_hash: Seq<u8>,
    pub height: u32,
    pub merkle_root: Seq<u8>,
    pub time_on_wire: u32,
    pub nbits: u32,
    pub txcount: u32,
    pub flags: u16,
    pub xor_clear_bits: u8,
    pub xor_key: Seq<u8>,
    pub rhs: Seq<u8>,
}

impl View for Commitment {
    type V = CommitmentView;

    open spec fn view(&self) -> CommitmentView {
        CommitmentView {
            version: self.version,
            prev_hash: self.prev_hash@,
            height: self.height,
            merkle_root: self.merkle_root@,
            time_on_wire: self.time_on_wire,
            nbits: self.nbits,
            txcount: self.txcount,
            flags: self.flags,
            xor_clear_bits: self.xor_clear_bits,
            xor_key: self.xor_key@,
            rhs: self.rhs@,
        }
    }
}

impl CommitmentView {
    /// The bytes under the header hash.
    pub open spec fn h1_preimage(&self) -> Seq<u8> {
        le_bytes(self.version as nat, 4) + self.prev_hash + le_bytes(self.height as nat, 4)
            + self.merkle_root + le_bytes(self.time_on_wire as nat, 4) + zeros(1) + le_bytes(
            self.nbits as nat,
            4,
        ) + le_bytes(self.txcount as nat, 4) + le_bytes(self.flags as nat, 2) + le_bytes(
            self.xor_clear_bits as nat,
            1,
        ) + tagged_sha256_of(header_tag_bytes(), self.xor_key)
    }

    /// The job commitment: the header hash bound into the merge-mining hook.
    pub open spec fn h2_of(&self) -> Seq<u8> {
        tagged_sha256_of(
            hook_tag_bytes(),
            tagged_sha256_of(header_tag_bytes(), self.h1_preimage()) + zeros(32) + self.rhs,
        )
    }

    /// The header as it goes on the wire in a block: the commitment and the grinding fields.
    pub open spec fn header_bytes(
        &self,
        nonce: Seq<u8>,
        ntime: Seq<u8>,
        extranonce: Seq<u8>,
    ) -> Seq<u8> {
        le_bytes(self.version as nat, 4) + self.prev_hash + self.merkle_root + le_bytes(
            self.time_on_wire as nat,
            4,
        ) + zeros(1) + le_bytes(self.nbits as nat, 4) + le_bytes(self.height as nat, 4) + le_bytes(
            self.txcount as nat,
            4,
        ) + le_bytes(self.flags as nat, 2) + le_bytes(self.xor_clear_bits as nat, 1) + self.xor_key
            + self.rhs + nonce + ntime + extranonce
    }
}

impl Commitment {
    /// Computes the job commitment.
    pub fn h2(&self) -> (h: Hash32)
        ensures
            h@ == self@.h2_of(),
    {
        let tag: [u8; 22] = header_tag();
        let key: Hash32 = tagged_sha256(tag.as_slice(), self.xor_key.as_slice());
        let mut v: Vec<u8> = Vec::new();
        push_le(&mut v, self.version as u64, 4);
        push_bytes(&mut v, self.prev_hash.as_slice());
        push_le(&mut v, self.height as u64, 4);
        push_bytes(&mut v, self.merkle_root.as_slice());
        push_le(&mut v, self.time_on_wire as u64, 4);
        push_zeros(&mut v, 1);
        push_le(&mut v, self.nbits as u64, 4);
        push_le(&mut v, self.txcount as u64, 4);
        push_le(&mut v, self.flags as u64, 2);
        push_le(&mut v, self.xor_clear_bits as u64, 1);
        push_bytes(&mut v, key.as_slice());
        assert(v@ =~= self@.h1_preimage());
        let h1: Hash32 = tagged_sha256(tag.as_slice(), v.as_slice());
        let mut w: Vec<u8> = Vec::new();
        push_bytes(&mut w, h1.as_slice());
        push_zeros(&mut w, 32);
        push_bytes(&mut w, self.rhs.as_slice());
        assert(w@ =~= h1@ + zeros(32) + self.rhs@);
        let hook: [u8; 17] = hook_tag();
        tagged_sha256(hook.as_slice(), w.as_slice())
    }
}

/// Serializes the 164-byte header of a block.
pub fn serialize_header_v2(
    c: &Commitment,
    nonce: &[u8; 8],
    ntime: &[u8; 8],
    extranonce: &[u8; 12],
) -> (v: Vec<u8>)
    ensures
        v@ == c@.header_bytes(nonce@, ntime@, extranonce@),
        v@.len() == 164,
{
    let mut v: Vec<u8> = Vec::new();
    push_le(&mut v, c.version as u64, 4);
    push_bytes(&mut v, c.prev_hash.as_slice());
    push_bytes(&mut v, c.merkle_root.as_slice());
    push_le(&mut v, c.time_on_wire as u64, 4);
    push_zeros(&mut v, 1);
    push_le(&mut v, c.nbits as u64, 4);
    push_le(&mut v, c.height as u64, 4);
    push_le(&mut v, c.txcount as u64, 4);
    push_le(&mut v, c.flags as u64, 2);
    push_le(&mut v, c.xor_clear_bits as u64, 1);
    push_bytes(&mut v, c.xor_key.as_slice());
    push_bytes(&mut v, c.rhs.as_slice());
    push_bytes(&mut v, nonce.as_slice());
    push_bytes(&mut v, ntime.as_slice());
    push_bytes(&mut v, extranonce.as_slice());
    proof {
        assert(v@ =~= c@.header_bytes(nonce@, ntime@, extranonce@));
        lemma_le_bytes_len(c.version as nat, 4);
        lemma_le_bytes_len(c.time_on_wire as nat, 4);
        lemma_le_bytes_len(c.nbits as nat, 4);
        lemma_le_bytes_len(c.height as nat, 4);
        lemma_le_bytes_len(c.txcount as nat, 4);
        lemma_le_bytes_len(c.flags as nat, 2);
        lemma_le_bytes_len(c.xor_clear_bits as nat, 1);
    }
    v
}

/// The root field of a pass: the job commitment framed as a Sia coinbase, with the extranonce.
pub open spec fn work_root_of(h2: Seq<u8>, extranonce: Seq<u8>) -> Seq<u8> {
    blake2b256_of(zeros(1) + (zeros(3) + h2 + zeros(4)) + extranonce)
}

/// Computes what the hardware calls the merkle root.
pub fn work_root(h2: &Hash32, extranonce: &[u8; 12]) -> (r: Hash32)
    ensures
        r@ == work_root_of(h2@, extranonce@),
{
    let mut v: Vec<u8> = Vec::new();
    push_zeros(&mut v, 1);
    push_zeros(&mut v, 3);
    push_bytes(&mut v, h2.as_slice());
    push_zeros(&mut v, 4);
    push_bytes(&mut v, extranonce.as_slice());
    assert(v@ =~= zeros(1) + (zeros(3) + h2@ + zeros(4)) + extranonce@);
    blake2b256(v.as_slice())
}

/// The previous block's hash in the byte order the hardware is given it.
pub fn sia_prevhash(prev: &Hash32) -> (r: Hash32)
    ensures
        r@ == prev@.reverse(),
{
    reversed(prev)
}

/// The 80 bytes of one pass.
pub open spec fn work_header_of(
    prev: Seq<u8>,
    nonce: Seq<u8>,
    ntime: Seq<u8>,
    root: Seq<u8>,
) -> Seq<u8> {
    prev + nonce + ntime + root
}

/// Lays out the 80 bytes the hardware hashes.
pub fn work_header(prev: &Hash32, nonce: &[u8; 8], ntime: &[u8; 8], root: &Hash32) -> (v: Vec<u8>)
    ensures
        v@ == work_header_of(prev@, nonce@, ntime@, root@),
        v@.len() == 80,
{
    let mut v: Vec<u8> = Vec::new();
    push_bytes(&mut v, prev.as_slice());
    push_bytes(&mut v, nonce.as_slice());
    push_bytes(&mut v, ntime.as_slice());
    push_bytes(&mut v, root.as_slice());
    assert(v@ =~= work_header_of(prev@, nonce@, ntime@, root@));
    v
}

/// The hash of one pass as a little-endian number. The XOR key of every share is zero, so the
/// digest is not masked.
pub fn pow_hash_le(work: &[u8]) -> (h: Hash32)
    ensures
        h@ == blake2b256_of(work@).reverse(),
{
    let d: Hash32 = blake2b256(work);
    reversed(&d)
}

/// The hash of a share: the pass over the previous block, the nonces and the commitment.
pub open spec fn share_hash_of(
    prev: Seq<u8>,
    h2: Seq<u8>,
    extranonce: Seq<u8>,
    nonce: Seq<u8>,
    ntime: Seq<u8>,
) -> Seq<u8> {
    blake2b256_of(
        work_header_of(prev.reverse(), nonce, ntime, work_root_of(h2, extranonce)),
    ).reverse()
}

/// The header time of a share: the time on the wire, plus the offset in the low half of the
/// nTime field when the header says so.
pub open spec fn share_ntime_of(time_on_wire: u32, ntime: Seq<u8>, flags: u16) -> u32 {
    if flags == FLAG_USE_TIME_OFFSET {
        ((time_on_wire + le_nat(ntime.take(4))) % 0x1_0000_0000) as u32
    } else {
        time_on_wire
    }
}

/// Computes the header time of a share.
pub fn share_ntime(time_on_wire: u32, ntime: &[u8; 8], flags: u16) -> (t: u32)
    ensures
        t == share_ntime_of(time_on_wire, ntime@, flags),
{
    if flags == FLAG_USE_TIME_OFFSET {
        let off: u64 = read_le(ntime.as_slice(), 0, 4);
        proof {
            assert(ntime@.subrange(0, 4) =~= ntime@.take(4));
            lemma_le_nat_bound(ntime@.take(4));
            crate::bytes::lemma_pow_256(4);
        }
        ((time_on_wire as u64 + off) % 0x1_0000_0000) as u32
    } else {
        time_on_wire
    }
}

/// The hashing state of a job, ready for a search over nonces.
#[derive(Clone, Copy, Debug, PartialEq, Eq)]
pub struct JobWork {
    prev: Hash32,
    root: Hash32,
}

impl JobWork {
    /// The previous block as the hardware is given it.
    pub closed spec fn spec_prev(&self) -> Seq<u8> {
        self.prev@
    }

    /// The root field of every pass on the job.
    pub closed spec fn spec_root(&self) -> Seq<u8> {
        self.root@
    }

    /// Does the hashing that is the same for every nonce.
    pub fn new(c: &Commitment, extranonce: &[u8; 12]) -> (w: JobWork)
        ensures
            w.spec_prev() == c.prev_hash@.reverse(),
            w.spec_root() == work_root_of(c@.h2_of(), extranonce@),
    {
        let h2: Hash32 = c.h2();
        JobWork { prev: sia_prevhash(&c.prev_hash), root: work_root(&h2, extranonce) }
    }

    /// The hash of one pass.
    pub fn hash(&self, nonce: &[u8; 8], ntime: &[u8; 8]) -> (h: Hash32)
        ensures
            h@ == blake2b256_of(
                work_header_of(self.spec_prev(), nonce@, ntime@, self.spec_root()),
            ).reverse(),
    {
        let w: Vec<u8> = work_header(&self.prev, nonce, ntime, &self.root);
        pow_hash_le(w.as_slice())
    }
}

proof fn lemma_field(s: Seq<u8>, x: nat, len: nat)
    requires
        s == le_bytes(x, len),
        len == 1 || len == 2 || len == 4,
        len == 1 ==> x < 0x100,
        len == 2 ==> x < 0x1_0000,
        len == 4 ==> x < 0x1_0000_0000,
    ensures
        s.len() == len,
        le_nat(s) == x,
{
    lemma_le_bytes_len(x, len);
    crate::bytes::lemma_pow_256(len);
    crate::bytes::lemma_le_nat_of_bytes(x, len);
}

/// Where each field of a commitment stands in the bytes under the header hash: version, previous
/// block, height, merkle root, time, a zero byte, compact target, transaction count, flags, clear
/// bits and the hash of the key.
pub proof fn lemma_commitment_layout(c: CommitmentView)
    requires
        c.prev_hash.len() == 32,
        c.merkle_root.len() == 32,
    ensures
        ({
            let b = c.h1_preimage();
            let tag = sha256_of(header_tag_bytes());
            &&& b.len() >= 88
            &&& le_nat(b.subrange(0, 4)) == c.version
            &&& b.subrange(4, 36) == c.prev_hash
            &&& le_nat(b.subrange(36, 40)) == c.height
            &&& b.subrange(40, 72) == c.merkle_root
            &&& le_nat(b.subrange(72, 76)) == c.time_on_wire
            &&& b[76] == 0
            &&& le_nat(b.subrange(77, 81)) == c.nbits
            &&& le_nat(b.subrange(81, 85)) == c.txcount
            &&& le_nat(b.subrange(85, 87)) == c.flags
            &&& b[87] == c.xor_clear_bits
            &&& b.skip(88) == sha256_of(tag + tag + c.xor_key)
        }),
{
    let b = c.h1_preimage();
    let version = le_bytes(c.version as nat, 4);
    let height = le_bytes(c.height as nat, 4);
    let time = le_bytes(c.time_on_wire as nat, 4);
    let nbits = le_bytes(c.nbits as nat, 4);
    let txcount = le_bytes(c.txcount as nat, 4);
    let flags = le_bytes(c.flags as nat, 2);
    let clear = le_bytes(c.xor_clear_bits as nat, 1);
    lemma_field(version, c.version as nat, 4);
    lemma_field(height, c.height as nat, 4);
    lemma_field(time, c.time_on_wire as nat, 4);
    lemma_field(nbits, c.nbits as nat, 4);
    lemma_field(txcount, c.txcount as nat, 4);
    lemma_field(flags, c.flags as nat, 2);
    lemma_field(clear, c.xor_clear_bits as nat, 1);
    assert(b.subrange(0, 4) =~= version);
    assert(b.subrange(4, 36) =~= c.prev_hash);
    assert(b.subrange(36, 40) =~= height);
    assert(b.subrange(40, 72) =~= c.merkle_root);
    assert(b.subrange(72, 76) =~= time);
    assert(b.subrange(77, 81) =~= nbits);
    assert(b.subrange(81, 85) =~= txcount);
    assert(b.subrange(85, 87) =~= flags);
    assert(clear.drop_first() =~= Seq::empty());
    assert(b[87] == clear[0]);
    assert(b.skip(88) =~= tagged_sha256_of(header_tag_bytes(), c.xor_key));
}

/// The header hash covers every field: what two commitments differ in shows in the bytes under it,
/// the key by its hash.
pub proof fn lemma_commitment_covers_every_field(a: CommitmentView, b: CommitmentView)
    requires
        a.prev_hash.len() == 32,
        a.merkle_root.len() == 32,
        b.prev_hash.len() == 32,
        b.merkle_root.len() == 32,
        a.h1_preimage() == b.h1_preimage(),
    ensures
        a.version == b.version,
        a.prev_hash == b.prev_hash,
        a.height == b.height,
        a.merkle_root == b.merkle_root,
        a.time_on_wire == b.time_on_wire,
        a.nbits == b.nbits,
        a.txcount == b.txcount,
        a.flags == b.flags,
        a.xor_clear_bits == b.xor_clear_bits,
        tagged_sha256_of(header_tag_bytes(), a.xor_key) == tagged_sha256_of(
            header_tag_bytes(),
            b.xor_key,
        ),
{
    lemma_commitment_layout(a);
    lemma_commitment_layout(b);
}

/// The tags are the ASCII texts `Bitcoin block header 1` and `Merge-mining hook`.
pub proof fn lemma_tags()
    ensures
        header_tag_bytes().len() == "Bitcoin block header 1"@.len() == 22,
        forall|i: int|
            0 <= i < 22 ==> #[trigger] header_tag_bytes()[i] == "Bitcoin block header 1"@[i] as u8,
        hook_tag_bytes().len() == "Merge-mining hook"@.len() == 17,
        forall|i: int|
            0 <= i < 17 ==> #[trigger] hook_tag_bytes()[i] == "Merge-mining hook"@[i] as u8,
{
    reveal_strlit("Bitcoin block header 1");
    reveal_strlit("Merge-mining hook");
}

/// The job commitment binds the header hash, with 32 zero bytes and the right-hand side, into the
/// merge-mining hook. Each of the two hashes is a SHA-256 over its tag's digest twice and the
/// message.
pub proof fn lemma_job_commitment(c: CommitmentView, empty: Seq<u8>)
    requires
        empty.len() == 32,
        forall|i: int| 0 <= i < 32 ==> #[trigger] empty[i] == 0,
    ensures
        ({
            let header = sha256_of(header_tag_bytes());
            let hook = sha256_of(hook_tag_bytes());
            let h1 = sha256_of(header + header + c.h1_preimage());
            c.h2_of() == sha256_of(hook + hook + (h1 + empty + c.rhs))
        }),
{
    assert(empty =~= zeros(32));
}

/// Where each field stands in the 164 bytes of a header on the wire.
pub proof fn lemma_header_layout(
    c: CommitmentView,
    nonce: Seq<u8>,
    ntime: Seq<u8>,
    extranonce: Seq<u8>,
)
    requires
        c.prev_hash.len() == 32,
        c.merkle_root.len() == 32,
        c.xor_key.len() == 16,
        c.rhs.len() == 32,
        nonce.len() == 8,
        ntime.len() == 8,
        extranonce.len() == 12,
    ensures
        ({
            let b = c.header_bytes(nonce, ntime, extranonce);
            &&& b.len() == 164
            &&& le_nat(b.subrange(0, 4)) == c.version
            &&& b.subrange(4, 36) == c.prev_hash
            &&& b.subrange(36, 68) == c.merkle_root
            &&& le_nat(b.subrange(68, 72)) == c.time_on_wire
            &&& b[72] == 0
            &&& le_nat(b.subrange(73, 77)) == c.nbits
            &&& le_nat(b.subrange(77, 81)) == c.height
            &&& le_nat(b.subrange(81, 85)) == c.txcount
            &&& le_nat(b.subrange(85, 87)) == c.flags
            &&& b[87] == c.xor_clear_bits
            &&& b.subrange(88, 104) == c.xor_key
            &&& b.subrange(104, 136) == c.rhs
            &&& b.subrange(136, 144) == nonce
            &&& b.subrange(144, 152) == ntime
            &&& b.subrange(152, 164) == extranonce
        }),
{
    let b = c.header_bytes(nonce, ntime, extranonce);
    let version = le_bytes(c.version as nat, 4);
    let height = le_bytes(c.height as nat, 4);
    let time = le_bytes(c.time_on_wire as nat, 4);
    let nbits = le_bytes(c.nbits as nat, 4);
    let txcount = le_bytes(c.txcount as nat, 4);
    let flags = le_bytes(c.flags as nat, 2);
    let clear = le_bytes(c.xor_clear_bits as nat, 1);
    lemma_field(version, c.version as nat, 4);
    lemma_field(height, c.height as nat, 4);
    lemma_field(time, c.time_on_wire as nat, 4);
    lemma_field(nbits, c.nbits as nat, 4);
    lemma_field(txcount, c.txcount as nat, 4);
    lemma_field(flags, c.flags as nat, 2);
    lemma_field(clear, c.xor_clear_bits as nat, 1);
    assert(b.subrange(0, 4) =~= version);
    assert(b.subrange(4, 36) =~= c.prev_hash);
    assert(b.subrange(36, 68) =~= c.merkle_root);
    assert(b.subrange(68, 72) =~= time);
    assert(b.subrange(73, 77) =~= nbits);
    assert(b.subrange(77, 81) =~= height);
    assert(b.subrange(81, 85) =~= txcount);
    assert(b.subrange(85, 87) =~= flags);
    assert(clear.drop_first() =~= Seq::empty());
    assert(b[87] == clear[0]);
    assert(b.subrange(88, 104) =~= c.xor_key);
    assert(b.subrange(104, 136) =~= c.rhs);
    assert(b.subrange(136, 144) =~= nonce);
    assert(b.subrange(144, 152) =~= ntime);
    assert(b.subrange(152, 164) =~= extranonce);
}

/// The hash of a share is taken over a pass that holds the previous block reversed, the nonce, the
/// time and a root, which is taken over the job commitment and the extranonce at their places in a
/// Sia coinbase. Any such `pass` and `leaf` give the hash, its bytes reversed.
pub proof fn lemma_share_hash(
    prev: Seq<u8>,
    h2: Seq<u8>,
    extranonce: Seq<u8>,
    nonce: Seq<u8>,
    ntime: Seq<u8>,
    leaf: Seq<u8>,
    pass: Seq<u8>,
)
    requires
        prev.len() == 32,
        h2.len() == 32,
        extranonce.len() == 12,
        nonce.len() == 8,
        ntime.len() == 8,
        leaf.len() == 52,
        forall|i: int| 0 <= i < 4 ==> #[trigger] leaf[i] == 0,
        leaf.subrange(4, 36) == h2,
        forall|i: int| 36 <= i < 40 ==> #[trigger] leaf[i] == 0,
        leaf.subrange(40, 52) == extranonce,
        pass.len() >= 48,
        forall|i: int| 0 <= i < 32 ==> #[trigger] pass[i] == prev[31 - i],
        pass.subrange(32, 40) == nonce,
        pass.subrange(40, 48) == ntime,
        pass.skip(48) == blake2b256_of(leaf),
    ensures
        share_hash_of(prev, h2, extranonce, nonce, ntime) == blake2b256_of(pass).reverse(),
{
    assert(leaf =~= leaf.take(4) + leaf.subrange(4, 36) + leaf.subrange(36, 40) + leaf.subrange(
        40,
        52,
    ));
    assert(leaf =~= zeros(1) + (zeros(3) + h2 + zeros(4)) + extranonce);
    assert(pass.take(32) =~= prev.reverse());
    assert(pass =~= pass.take(32) + pass.subrange(32, 40) + pass.subrange(40, 48) + pass.skip(48));
    assert(pass =~= work_header_of(prev.reverse(), nonce, ntime, work_root_of(h2, extranonce)));
}

/// The merkle fold goes up one level for each branch: none leaves the leaf, one hashes it with the
/// branch on its right, and more are folded one after the other.
pub proof fn lemma_merkle_fold(leaf: Seq<u8>, a: Seq<Hash32>, branch: Hash32, b: Seq<Hash32>)
    ensures
        merkle_fold(leaf, Seq::empty()) == leaf,
        merkle_fold(leaf, seq![branch]) == sha256_of(sha256_of(leaf + branch@)),
        merkle_fold(leaf, a + b) == merkle_fold(merkle_fold(leaf, a), b),
    decreases b.len(),
{
    assert(seq![branch].drop_last() =~= Seq::empty());
    assert(merkle_fold(leaf, seq![branch].drop_last()) == leaf);
    if b.len() == 0 {
        assert(a + b =~= a);
    } else {
        lemma_merkle_fold(leaf, a, branch, b.drop_last());
        assert((a + b).drop_last() =~= a + b.drop_last());
    }
}

/// The time of a share is the time on the wire, and later by the low half of the nTime field,
/// around the end of 32 bits, where the header says so.
pub proof fn lemma_share_time(time_on_wire: u32, ntime: Seq<u8>)
    requires
        ntime.len() == 8,
    ensures
        share_ntime_of(time_on_wire, ntime, 0) == time_on_wire,
        ({
            let t = share_ntime_of(time_on_wire, ntime, 1);
            let late = time_on_wire + le_nat(ntime.take(4));
            t == late || t == late - 0x1_0000_0000
        }),
        share_ntime_of(time_on_wire, zeros(8), 1) == time_on_wire,
{
    lemma_le_nat_bound(ntime.take(4));
    crate::bytes::lemma_pow_256(4);
    assert(zeros(8).take(4) =~= zeros(4));
    lemma_le_nat_zeros(4);
}

/// Each step of difficulty halves the target, and difficulty 1 has the target that the compact
/// form `0x1d00ffff` stands for.
pub proof fn lemma_targets(pot: u8)
    requires
        pot < 255,
    ensures
        difficulty_one() == compact_value(0x1d00_ffff),
        le_nat(share_target_of(0)) == compact_value(0x1d00_ffff),
        le_nat(share_target_of((pot + 1) as u8)) == le_nat(share_target_of(pot)) / 2,
{
    let d = difficulty_one();
    let p = pow(256, 26);
    lemma_pow_positive(256, 26);
    lemma_pow_adds(256, 26, 6);
    assert(pow(256, 32) == p * pow(256, 6));
    reveal_with_fuel(pow, 7);
    assert(pow(256, 6) == 0x1_0000_0000_0000);
    assert(0xffff * p < p * 0x1_0000_0000_0000) by (nonlinear_arith)
        requires
            p > 0,
    ;
    assert(d < pow(256, 32));
    assert(0x1d00_ffffu32 / 0x100_0000 == 29);
    assert(0x1d00_ffffu32 % 0x80_0000 == 0xffff);
    vstd::arithmetic::power2::lemma2_to64();
    let a = pow2(pot as nat) as int;
    vstd::arithmetic::power2::lemma_pow2_pos(pot as nat);
    vstd::arithmetic::power2::lemma_pow2_pos((pot + 1) as nat);
    vstd::arithmetic::power2::lemma_pow2_unfold((pot + 1) as nat);
    vstd::arithmetic::div_mod::lemma_div_denominator(d as int, a, 2);
    assert(a * 2 == 2 * a);
    vstd::arithmetic::div_mod::lemma_div_is_ordered_by_denominator(d as int, 1, a);
    vstd::arithmetic::div_mod::lemma_div_is_ordered_by_denominator(d as int, 1, 2 * a);
    assert(d / 1 == d);
    crate::bytes::lemma_le_nat_of_bytes(d / pow2(0), 32);
    crate::bytes::lemma_le_nat_of_bytes(d / pow2(pot as nat), 32);
    crate::bytes::lemma_le_nat_of_bytes(d / pow2((pot + 1) as nat), 32);
}

/// A compact target is a mantissa of 23 bits and how many bytes it is long in all: one byte more
/// makes it 256 times as large.
pub proof fn lemma_compact_targets(mantissa: u32, len: u8)
    requires
        mantissa < 0x80_0000,
        3 <= len < 255,
    ensures
        ({
            let n = (len * 0x100_0000 + mantissa) as u32;
            let longer = ((len + 1) * 0x100_0000 + mantissa) as u32;
            &&& !compact_negative(n)
            &&& compact_negative((n + 0x80_0000) as u32)
            &&& len == 3 ==> compact_value(n) == mantissa
            &&& compact_value(longer) == 256 * compact_value(n)
        }),
        compact_value((0x200_0000 + mantissa) as u32) == mantissa / 0x100,
        compact_value((0x100_0000 + mantissa) as u32) == mantissa / 0x1_0000,
        compact_value(mantissa) == 0,
{
    let n = (len * 0x100_0000 + mantissa) as u32;
    let longer = ((len + 1) * 0x100_0000 + mantissa) as u32;
    let e = (len - 3) as nat;
    reveal_with_fuel(pow, 4);
    assert(pow(256, 1) == 0x100);
    assert(pow(256, 2) == 0x1_0000);
    assert(pow(256, 3) == 0x100_0000);
    lemma_pow_adds(256, 1, e);
    lemma_pow_positive(256, e);
    let p = pow(256, e);
    assert(pow(256, (e + 1) as nat) == 256 * p);
    assert(mantissa * (256 * p) == 256 * (mantissa * p)) by (nonlinear_arith);
    assert(n / 0x100_0000 == len && n % 0x80_0000 == mantissa);
    assert(longer / 0x100_0000 == len + 1 && longer % 0x80_0000 == mantissa);
    assert(compact_value(n) == mantissa * p);
    assert(compact_value(longer) == mantissa * pow(256, (e + 1) as nat));
    vstd::arithmetic::power::lemma_pow0(256);
}

} // verus!
