//! Messages of the mining command: a share as a gateway submits it, and the vocabulary of its
//! receipt.

use crate::bytes::{bytes_eq, le_nat, read_le, slice_of};
use crate::pow::Hash32;
use vstd::arithmetic::power2::pow2;
use vstd::prelude::*;

verus! {

pub const REJECT_BAD_JOB_ID: u16 = 10;

pub const REJECT_BAD_COINBASE_ID: u16 = 11;

pub const REJECT_BAD_TARGET: u16 = 13;

pub const REJECT_BAD_USERNAME: u16 = 14;

pub const REJECT_COINBASE_TOO_LARGE: u16 = 17;

pub const REJECT_COINBASE_MISSING: u16 = 18;

pub const REJECT_HIGH_HASH: u16 = 21;

pub const REJECT_BAD_NTIME: u16 = 23;

pub const REJECT_BAD_VERSION: u16 = 24;

pub const REJECT_STALE_BLOCK: u16 = 25;

pub const REJECT_BAD_COINBASE: u16 = 26;

pub const REJECT_BAD_COINBASE_OUTPUTS: u16 = 27;

pub const REJECT_DUPLICATE_WORK: u16 = 29;

pub const REJECT_OTHER: u16 = 30;

/// Receipt of a share that is credited.
pub const ACCEPTED: u8 = 0x50;

/// Receipt of a share that is credited although its coinbase does not pay the whole split.
pub const ACCEPTED_TENTATIVELY: u8 = 0x55;

/// Receipt of a share that is refused.
pub const REJECTED: u8 = 0x66;

/// The share is on the gateway's subsidy-only coinbase.
pub const FLAG_SUBSIDY_ONLY: u8 = 0x02;

/// The share's header takes its time from the nTime field.
pub const FLAG_TIME_OFFSET: u8 = 0x08;

/// The share is BLAKE2b work.
pub const FLAG_BLAKE2B: u8 = 0x10;

/// Job slots a gateway may use.
pub const MAX_JOB_SLOTS: usize = 256;

/// The coinbase id a subsidy-only share stands for.
pub const SUBSIDY_ONLY_COINBASE_ID: u8 = 0xff;

/// The name of a reject code.
pub fn reject_name(code: u16) -> (name: &'static str)
    ensures
        name@ == reject_name_of(code),
{
    if code == REJECT_BAD_JOB_ID {
        "bad-job-id"
    } else if code == REJECT_BAD_COINBASE_ID {
        "bad-coinbase-id"
    } else if code == REJECT_BAD_TARGET {
        "bad-target"
    } else if code == REJECT_BAD_USERNAME {
        "bad-username"
    } else if code == REJECT_COINBASE_TOO_LARGE {
        "coinbase-too-large"
    } else if code == REJECT_COINBASE_MISSING {
        "coinbase-missing"
    } else if code == REJECT_HIGH_HASH {
        "high-hash"
    } else if code == REJECT_BAD_NTIME {
        "bad-ntime"
    } else if code == REJECT_BAD_VERSION {
        "bad-version"
    } else if code == REJECT_STALE_BLOCK {
        "stale-block"
    } else if code == REJECT_BAD_COINBASE {
        "bad-coinbase"
    } else if code == REJECT_BAD_COINBASE_OUTPUTS {
        "bad-coinbase-outputs"
    } else if code == REJECT_DUPLICATE_WORK {
        "duplicate-work"
    } else {
        "other"
    }
}

/// The name each reject code goes by.
pub open spec fn reject_name_of(code: u16) -> Seq<char> {
    if code == REJECT_BAD_JOB_ID {
        "bad-job-id"@
    } else if code == REJECT_BAD_COINBASE_ID {
        "bad-coinbase-id"@
    } else if code == REJECT_BAD_TARGET {
        "bad-target"@
    } else if code == REJECT_BAD_USERNAME {
        "bad-username"@
    } else if code == REJECT_COINBASE_TOO_LARGE {
        "coinbase-too-large"@
    } else if code == REJECT_COINBASE_MISSING {
        "coinbase-missing"@
    } else if code == REJECT_HIGH_HASH {
        "high-hash"@
    } else if code == REJECT_BAD_NTIME {
        "bad-ntime"@
    } else if code == REJECT_BAD_VERSION {
        "bad-version"@
    } else if code == REJECT_STALE_BLOCK {
        "stale-block"@
    } else if code == REJECT_BAD_COINBASE {
        "bad-coinbase"@
    } else if code == REJECT_BAD_COINBASE_OUTPUTS {
        "bad-coinbase-outputs"@
    } else if code == REJECT_DUPLICATE_WORK {
        "duplicate-work"@
    } else {
        "other"@
    }
}

/// The template a job slot is mining: sent once, when the slot moves to it.
#[derive(Clone, Debug, PartialEq, Eq)]
pub struct JobSection {
    pub prev_hash: Hash32,
    /// Where in the coinbase the target byte stands.
    pub target_byte_index: u16,
    pub nbits: [u8; 4],
    pub coinbaser_id: u8,
    pub height: u32,
    pub coinbase_value: u64,
    pub txn_count: u32,
    pub txn_total_weight: u32,
    pub txn_total_size: u32,
    pub txn_total_sigops: u32,
    pub merkle_branches: Vec<Hash32>,
}

/// What a [`JobSection`] holds.
#[verifier::ext_equal]
pub struct JobView {
    pub prev_hash: Hash32,
    pub target_byte_index: u16,
    pub nbits: [u8; 4],
    pub coinbaser_id: u8,
    pub height: u32,
    pub coinbase_value: u64,
    pub txn_count: u32,
    pub txn_total_weight: u32,
    pub txn_total_size: u32,
    pub txn_total_sigops: u32,
    pub merkle_branches: Seq<Hash32>,
}

impl JobView {
    /// The network target in compact form.
    pub open spec fn nbits_u32(&self) -> u32 {
        le_nat(self.nbits@) as u32
    }
}

impl View for JobSection {
    type V = JobView;

    open spec fn view(&self) -> JobView {
        JobView {
            prev_hash: self.prev_hash,
            target_byte_index: self.target_byte_index,
            nbits: self.nbits,
            coinbaser_id: self.coinbaser_id,
            height: self.height,
            coinbase_value: self.coinbase_value,
            txn_count: self.txn_count,
            txn_total_weight: self.txn_total_weight,
            txn_total_size: self.txn_total_size,
            txn_total_sigops: self.txn_total_sigops,
            merkle_branches: self.merkle_branches@,
        }
    }
}

impl JobSection {
    /// The network target in compact form.
    pub fn nbits_u32(&self) -> (n: u32)
        ensures
            n == self@.nbits_u32(),
            n == le_nat(self.nbits@),
    {
        let n: u64 = read_le(self.nbits.as_slice(), 0, 4);
        proof {
            assert(self.nbits@.subrange(0, 4) =~= self.nbits@);
            crate::bytes::lemma_le_nat_bound(self.nbits@);
            crate::bytes::lemma_pow_256(4);
        }
        n as u32
    }

    /// Whether two sections describe the same job.
    pub fn same(&self, other: &JobSection) -> (r: bool)
        ensures
            r == (self@ == other@),
    {
        if !bytes_eq(self.prev_hash.as_slice(), other.prev_hash.as_slice()) || !bytes_eq(
            self.nbits.as_slice(),
            other.nbits.as_slice(),
        ) || self.target_byte_index != other.target_byte_index || self.coinbaser_id
            != other.coinbaser_id || self.height != other.height || self.coinbase_value
            != other.coinbase_value || self.txn_count != other.txn_count || self.txn_total_weight
            != other.txn_total_weight || self.txn_total_size != other.txn_total_size
            || self.txn_total_sigops != other.txn_total_sigops {
            return false;
        }
        proof {
            assert(self.prev_hash =~= other.prev_hash);
            assert(self.nbits =~= other.nbits);
        }
        if self.merkle_branches.len() != other.merkle_branches.len() {
            return false;
        }
        let mut i: usize = 0;
        while i < self.merkle_branches.len()
            invariant
                i <= self.merkle_branches@.len(),
                self.merkle_branches@.len() == other.merkle_branches@.len(),
                forall|j: int|
                    0 <= j < i ==> self.merkle_branches@[j] == other.merkle_branches@[j],
            decreases self.merkle_branches@.len() - i,
        {
            if !bytes_eq(self.merkle_branches[i].as_slice(), other.merkle_branches[i].as_slice()) {
                return false;
            }
            assert(self.merkle_branches@[i as int] =~= other.merkle_branches@[i as int]);
            i = i + 1;
        }
        assert(self.merkle_branches@ =~= other.merkle_branches@);
        true
    }

    /// A section that describes the same job.
    pub fn duplicate(&self) -> (r: JobSection)
        ensures
            r@ == self@,
    {
        let mut merkle_branches: Vec<Hash32> = Vec::new();
        let mut i: usize = 0;
        while i < self.merkle_branches.len()
            invariant
                i <= self.merkle_branches@.len(),
                merkle_branches@ == self.merkle_branches@.take(i as int),
            decreases self.merkle_branches@.len() - i,
        {
            merkle_branches.push(self.merkle_branches[i]);
            assert(self.merkle_branches@.take(i + 1) =~= self.merkle_branches@.take(i as int).push(
                self.merkle_branches@[i as int],
            ));
            i = i + 1;
        }
        assert(merkle_branches@ =~= self.merkle_branches@);
        JobSection {
            prev_hash: self.prev_hash,
            target_byte_index: self.target_byte_index,
            nbits: self.nbits,
            coinbaser_id: self.coinbaser_id,
            height: self.height,
            coinbase_value: self.coinbase_value,
            txn_count: self.txn_count,
            txn_total_weight: self.txn_total_weight,
            txn_total_size: self.txn_total_size,
            txn_total_sigops: self.txn_total_sigops,
            merkle_branches,
        }
    }
}

/// One coinbase variant of a job, around its extranonce.
#[derive(Clone, Debug, PartialEq, Eq)]
pub struct CoinbaseSection {
    pub coinbase_id: u8,
    pub coinb1: Vec<u8>,
    pub coinb2: Vec<u8>,
}

/// What a [`CoinbaseSection`] holds besides its id.
#[verifier::ext_equal]
pub struct HalvesView {
    pub coinb1: Seq<u8>,
    pub coinb2: Seq<u8>,
}

impl CoinbaseSection {
    /// The two halves.
    pub open spec fn halves(&self) -> HalvesView {
        HalvesView { coinb1: self.coinb1@, coinb2: self.coinb2@ }
    }

    /// Whether two sections are the same.
    pub fn same(&self, other: &CoinbaseSection) -> (r: bool)
        ensures
            r == (self.coinbase_id == other.coinbase_id && self.halves() == other.halves()),
    {
        self.coinbase_id == other.coinbase_id && bytes_eq(
            self.coinb1.as_slice(),
            other.coinb1.as_slice(),
        ) && bytes_eq(self.coinb2.as_slice(), other.coinb2.as_slice())
    }

    /// A copy of the section.
    pub fn duplicate(&self) -> (r: CoinbaseSection)
        ensures
            r.coinbase_id == self.coinbase_id,
            r.halves() == self.halves(),
    {
        let coinb1: Vec<u8> = slice_of(self.coinb1.as_slice(), 0, self.coinb1.len());
        let coinb2: Vec<u8> = slice_of(self.coinb2.as_slice(), 0, self.coinb2.len());
        assert(coinb1@ =~= self.coinb1@);
        assert(coinb2@ =~= self.coinb2@);
        CoinbaseSection { coinbase_id: self.coinbase_id, coinb1, coinb2 }
    }
}

/// The fields the hardware grinds.
#[derive(Clone, Copy, Debug, PartialEq, Eq)]
pub struct Blake2bSection {
    pub ntime: [u8; 8],
    pub nonce: [u8; 8],
}

/// A share as a gateway submits it.
#[derive(Clone, Debug, PartialEq, Eq)]
pub struct PowSubmit {
    pub job_id: u8,
    pub coinbase_id: u8,
    pub flags: u8,
    /// The share claims `2^target_pot` work.
    pub target_pot: u8,
    pub ntime32: u32,
    pub nonce32: u32,
    pub version: u32,
    pub extranonce: [u8; 12],
    pub username: String,
    pub reserved: [u8; 4],
    pub blake2b: Option<Blake2bSection>,
    pub time_on_wire: Option<u32>,
    pub job: Option<JobSection>,
    pub coinbase: Option<CoinbaseSection>,
}

impl PowSubmit {
    /// Whether the share is on the subsidy-only coinbase.
    pub open spec fn spec_subsidy_only(&self) -> bool {
        self.flags & FLAG_SUBSIDY_ONLY != 0
    }

    /// Whether the share is on the subsidy-only coinbase.
    pub fn subsidy_only(&self) -> (r: bool)
        ensures
            r == self.spec_subsidy_only(),
    {
        self.flags & FLAG_SUBSIDY_ONLY != 0
    }

    /// Whether the share's header takes its time from the nTime field.
    pub open spec fn spec_use_time_offset(&self) -> bool {
        self.flags & FLAG_TIME_OFFSET != 0
    }

    /// Whether the share's header takes its time from the nTime field.
    pub fn use_time_offset(&self) -> (r: bool)
        ensures
            r == self.spec_use_time_offset(),
    {
        self.flags & FLAG_TIME_OFFSET != 0
    }

    /// Whether the share is BLAKE2b work: its flag says so, or it carries the section.
    pub fn is_blake2b(&self) -> (r: bool)
        ensures
            r == (self.flags & FLAG_BLAKE2B != 0 || self.blake2b.is_some()),
    {
        self.flags & FLAG_BLAKE2B != 0 || self.blake2b.is_some()
    }

    /// The work a share claims, `2^target_pot`, as far as 64 bits can hold it.
    pub open spec fn spec_claimed_work(&self) -> u64 {
        if self.target_pot < 64 {
            pow2(self.target_pot as nat) as u64
        } else {
            u64::MAX
        }
    }

    /// The work a share claims.
    pub fn claimed_work(&self) -> (w: u64)
        ensures
            w == self.spec_claimed_work(),
            self.target_pot < 64 ==> w == pow2(self.target_pot as nat),
    {
        if self.target_pot >= 64 {
            return u64::MAX;
        }
        let mut w: u64 = 1;
        let mut i: u8 = 0;
        proof {
            vstd::arithmetic::power2::lemma2_to64();
        }
        while i < self.target_pot
            invariant
                i <= self.target_pot < 64,
                w == pow2(i as nat),
            decreases self.target_pot - i,
        {
            proof {
                vstd::arithmetic::power2::lemma_pow2_unfold((i + 1) as nat);
                vstd::arithmetic::power2::lemma2_to64();
                vstd::arithmetic::power2::lemma2_to64_rest();
                if i < 62 {
                    vstd::arithmetic::power2::lemma_pow2_strictly_increases(i as nat, 62);
                }
            }
            w = w * 2;
            i = i + 1;
        }
        w
    }
}

/// A share of difficulty `2^0` claims one unit of work, and each step of difficulty twice as much.
pub proof fn lemma_claimed_work(a: PowSubmit, b: PowSubmit)
    requires
        a.target_pot + 1 == b.target_pot,
        b.target_pot < 64,
    ensures
        b.spec_claimed_work() == 2 * a.spec_claimed_work(),
        a.target_pot == 0 ==> a.spec_claimed_work() == 1,
        a.spec_claimed_work() > 0,
{
    vstd::arithmetic::power2::lemma2_to64();
    vstd::arithmetic::power2::lemma2_to64_rest();
    vstd::arithmetic::power2::lemma_pow2_unfold(b.target_pot as nat);
    vstd::arithmetic::power2::lemma_pow2_pos(a.target_pot as nat);
    vstd::arithmetic::power2::lemma_pow2_strictly_increases(a.target_pot as nat, 64);
    vstd::arithmetic::power2::lemma_pow2_strictly_increases(b.target_pot as nat, 64);
}

/// Each reject code goes by a name of its own, and every other code by `other`.
pub proof fn lemma_reject_names(code: u16)
    ensures
        reject_name_of(10) == "bad-job-id"@,
        reject_name_of(11) == "bad-coinbase-id"@,
        reject_name_of(13) == "bad-target"@,
        reject_name_of(14) == "bad-username"@,
        reject_name_of(17) == "coinbase-too-large"@,
        reject_name_of(18) == "coinbase-missing"@,
        reject_name_of(21) == "high-hash"@,
        reject_name_of(23) == "bad-ntime"@,
        reject_name_of(24) == "bad-version"@,
        reject_name_of(25) == "stale-block"@,
        reject_name_of(26) == "bad-coinbase"@,
        reject_name_of(27) == "bad-coinbase-outputs"@,
        reject_name_of(29) == "duplicate-work"@,
        code < 10 || code == 12 || code == 15 || code == 16 || code == 19 || code == 20 || code
            == 22 || code == 28 || code >= 30 ==> reject_name_of(code) == "other"@,
{
}

/// Which bits of a share's flags say what.
pub proof fn lemma_flag_bits(s: PowSubmit)
    ensures
        s.spec_subsidy_only() <==> (s.flags / 2) % 2 == 1,
        s.spec_use_time_offset() <==> (s.flags / 8) % 2 == 1,
{
    let f = s.flags;
    assert((f & 0x02u8 != 0) <==> (f / 2u8) % 2u8 == 1) by (bit_vector);
    assert((f & 0x08u8 != 0) <==> (f / 8u8) % 2u8 == 1) by (bit_vector);
}

} // verus!
