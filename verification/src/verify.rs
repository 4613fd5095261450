//! Share verification.
//!
//! A gateway builds its own block template. A share carries (once per job slot) the previous
//! block hash, nBits, height, transaction count and merkle branches, plus (once per coinbase
//! variant) the coinbase in two halves. From those and the share's grinding fields the exact
//! header the miner hashed is rebuilt, so that the work and the coinbase can both be checked.

use crate::bytes::{le_nat, push_bytes, slice_of};
use crate::classify::{classify_coinbase, issued_view, kind_of, list_fits, CoinbaseKind};
use crate::coinbase::{
    assemble, assembled, block_form, paid_to_script, parse, read_coinbase, script_height,
    total_value, varint, with_witness, write_varint, Coinbase,
};
use crate::coinbaser::{Output, OutputView};
use crate::mining::{
    Blake2bSection, CoinbaseSection, HalvesView, JobSection, JobView, PowSubmit, REJECT_BAD_COINBASE,
    REJECT_BAD_COINBASE_ID, REJECT_BAD_COINBASE_OUTPUTS, REJECT_BAD_JOB_ID, REJECT_BAD_NTIME,
    REJECT_BAD_TARGET, REJECT_BAD_VERSION, REJECT_COINBASE_MISSING, REJECT_COINBASE_TOO_LARGE,
    REJECT_HIGH_HASH, SUBSIDY_ONLY_COINBASE_ID,
};
use crate::pow::{
    compact_negative, compact_value, meets_target, merkle_fold, merkle_root,
    nbits_to_target_le, pow_hash_le, serialize_header_v2, sha256d, sha256d_of, share_hash_of,
    share_ntime, share_ntime_of, share_target_le, share_target_of, sia_prevhash, work_header,
    work_root, work_root_of, Commitment, CommitmentView, Hash32, JobWork, FLAG_USE_TIME_OFFSET, MAX_POT,
};
use std::collections::HashMap;
use vstd::arithmetic::power::pow;
use vstd::prelude::*;

verus! {

broadcast use vstd::std_specs::hash::group_hash_axioms;

/// Allowed clock skew on the header time, in seconds.
pub const MAX_TIME_AHEAD: u32 = 7200;

/// A share's time may not be older than this many seconds.
pub const MAX_TIME_BEHIND: u32 = 3600;

/// Largest pair of halves a coinbase section may carry.
pub const MAX_COINBASE_SECTION_BYTES: usize = 20_000;

/// Distinct coinbase ids a slot keeps.
pub const MAX_COINBASES_PER_SLOT: usize = 8;

/// Coinbase bytes a slot can come to hold.
pub const MAX_SLOT_BYTES: usize = 160_000;

/// Coinbases a slot keeps parsed.
pub const MAX_CB_CACHE: usize = 32;

/// Job commitments a slot keeps.
pub const MAX_H2_CACHE: usize = 64;

/// What [`JobSlot::absorb`] changed.
#[derive(Clone, Copy, Debug, PartialEq, Eq)]
pub struct Absorbed {
    /// The slot moved to a new job.
    pub job_changed: bool,
    /// A coinbase section was inserted or replaced under this id.
    pub coinbase_added: Option<u8>,
}

impl Default for Absorbed {
    fn default() -> (r: Absorbed)
        ensures
            !r.job_changed,
            r.coinbase_added.is_none(),
    {
        Absorbed { job_changed: false, coinbase_added: None }
    }
}

/// Why [`JobSlot::absorb`] refused a section, as a reject code.
pub type AbsorbError = u16;

/// A coinbase kept parsed, under its id and target byte.
#[derive(Clone, Debug)]
struct CachedCoinbase {
    id: u8,
    pot: u8,
    legacy: Vec<u8>,
    parsed: Coinbase,
}

/// The share fields a job commitment depends on besides the job and the coinbase.
#[derive(Clone, Copy, Debug, PartialEq, Eq, Structural)]
struct H2Key {
    id: u8,
    pot: u8,
    txcount: u32,
    version: u32,
    time_on_wire: u32,
    flags: u16,
}

/// A job commitment kept, under the fields it depends on.
#[derive(Clone, Copy, Debug)]
struct CachedH2 {
    key: H2Key,
    h2: Hash32,
}

/// One of a gateway's job slots as the pool remembers it for a session.
#[derive(Clone, Debug)]
pub struct JobSlot {
    pub job: Option<JobSection>,
    pub coinbases: HashMap<u8, CoinbaseSection>,
    h2_cache: Vec<CachedH2>,
    cb_cache: Vec<CachedCoinbase>,
    txcount_includes_coinbase: Option<bool>,
}

/// What a [`JobSlot`] holds, its caches aside: those are derived from the rest.
#[verifier::ext_equal]
pub struct SlotView {
    pub job: Option<JobView>,
    pub coinbases: Map<u8, HalvesView>,
    /// Whether the job's transaction count includes the coinbase, once a share has told.
    pub includes_coinbase: Option<bool>,
}

/// The halves of each section.
pub open spec fn sections_view(m: Map<u8, CoinbaseSection>) -> Map<u8, HalvesView> {
    Map::new(|id: u8| m.contains_key(id), |id: u8| m[id].halves())
}

impl View for JobSlot {
    type V = SlotView;

    closed spec fn view(&self) -> SlotView {
        SlotView {
            job: match self.job {
                Some(j) => Some(j@),
                None => None,
            },
            coinbases: sections_view(self.coinbases@),
            includes_coinbase: self.txcount_includes_coinbase,
        }
    }
}

impl SlotView {
    /// A slot that has heard of nothing.
    pub open spec fn empty() -> SlotView {
        SlotView { job: None, coinbases: Map::empty(), includes_coinbase: None }
    }

    /// The slot after a job section: untouched when it describes the same job, else fresh.
    pub open spec fn with_job(self, job: Option<JobView>) -> SlotView {
        match job {
            Some(j) => if self.job == Some(j) {
                self
            } else {
                SlotView { job: Some(j), coinbases: Map::empty(), includes_coinbase: None }
            },
            None => self,
        }
    }

    /// The coinbase a share with this target byte was hashed with.
    pub open spec fn legacy(self, id: u8, pot: u8) -> Seq<u8> {
        let job = self.job.unwrap();
        let halves = self.coinbases[id];
        assembled(halves.coinb1, halves.coinb2, job.target_byte_index as int, pot)
    }
}

/// The job section a share carries.
pub open spec fn job_of(s: PowSubmit) -> Option<JobView> {
    match s.job {
        Some(j) => Some(j@),
        None => None,
    }
}

/// The reject code of a share whose sections a slot refuses, before anything else about it is
/// checked.
pub open spec fn absorb_reject(slot: SlotView, s: PowSubmit) -> Option<u16> {
    match s.coinbase {
        None => None,
        Some(c) => {
            let m = slot.with_job(job_of(s)).coinbases;
            if c.coinb1@.len() + c.coinb2@.len() > MAX_COINBASE_SECTION_BYTES {
                Some(REJECT_COINBASE_TOO_LARGE)
            } else if !m.contains_key(c.coinbase_id) && m.len() >= MAX_COINBASES_PER_SLOT {
                Some(REJECT_BAD_COINBASE_ID)
            } else {
                None
            }
        },
    }
}

/// The slot after a share whose sections it takes.
pub open spec fn absorb_slot(slot: SlotView, s: PowSubmit) -> SlotView {
    let moved = slot.with_job(job_of(s));
    match s.coinbase {
        None => moved,
        Some(c) => SlotView {
            coinbases: moved.coinbases.insert(c.coinbase_id, c.halves()),
            ..moved
        },
    }
}

/// Whether a share's coinbase section is news to the slot.
pub open spec fn brings_coinbase(slot: SlotView, s: PowSubmit) -> Option<u8> {
    match s.coinbase {
        None => None,
        Some(c) => {
            let m = slot.with_job(job_of(s)).coinbases;
            if m.contains_key(c.coinbase_id) && m[c.coinbase_id] == c.halves() {
                None
            } else {
                Some(c.coinbase_id)
            }
        },
    }
}

/// The coinbase id a share is on.
pub open spec fn coinbase_id_of(s: PowSubmit) -> u8 {
    if s.spec_subsidy_only() {
        SUBSIDY_ONLY_COINBASE_ID
    } else {
        s.coinbase_id
    }
}

/// What a header commits to, for a job, a coinbase and the share fields that enter it.
pub open spec fn commitment_for(
    job: JobView,
    legacy: Seq<u8>,
    version: u32,
    time_on_wire: u32,
    flags: u16,
    txcount: u32,
) -> CommitmentView {
    CommitmentView {
        version,
        prev_hash: job.prev_hash@,
        height: job.height,
        merkle_root: merkle_fold(sha256d_of(legacy), job.merkle_branches),
        time_on_wire,
        nbits: job.nbits_u32(),
        txcount,
        flags,
        xor_clear_bits: 0,
        xor_key: crate::bytes::zeros(16),
        rhs: crate::bytes::zeros(32),
    }
}

/// The header's transaction count under either reading of the job's.
pub open spec fn txcount_of(job: JobView, includes: bool) -> u32 {
    if includes {
        job.txn_count
    } else {
        ((job.txn_count + 1) % 0x1_0000_0000) as u32
    }
}

/// The header flags of a share.
pub open spec fn header_flags(s: PowSubmit) -> u16 {
    if s.spec_use_time_offset() {
        FLAG_USE_TIME_OFFSET
    } else {
        0
    }
}

impl CachedCoinbase {
    spec fn correct(&self, slot: SlotView) -> bool {
        &&& slot.job.is_some()
        &&& slot.coinbases.contains_key(self.id)
        &&& self.legacy@ == slot.legacy(self.id, self.pot)
        &&& read_coinbase(self.legacy@) == Some(self.parsed@)
        &&& self.parsed.wf()
        &&& self.parsed.height matches Some(h) ==> h == slot.job.unwrap().height
    }
}

impl CachedH2 {
    spec fn correct(&self, slot: SlotView) -> bool {
        &&& slot.job.is_some()
        &&& slot.coinbases.contains_key(self.key.id)
        &&& self.h2@ == commitment_for(
            slot.job.unwrap(),
            slot.legacy(self.key.id, self.key.pot),
            self.key.version,
            self.key.time_on_wire,
            self.key.flags,
            self.key.txcount,
        ).h2_of()
    }
}

impl Default for JobSlot {
    fn default() -> (r: JobSlot)
        ensures
            r.wf(),
            r@ == SlotView::empty(),
    {
        let r = JobSlot {
            job: None,
            coinbases: HashMap::new(),
            h2_cache: Vec::new(),
            cb_cache: Vec::new(),
            txcount_includes_coinbase: None,
        };
        assert(sections_view(r.coinbases@) =~= Map::empty());
        r
    }
}

impl JobSlot {
    /// At most eight sections, each under its own id; bounded caches that hold what the job and
    /// the sections give.
    pub closed spec fn wf(&self) -> bool {
        &&& self.coinbases@.len() <= MAX_COINBASES_PER_SLOT
        &&& forall|id: u8|
            self.coinbases@.contains_key(id) ==> (#[trigger] self.coinbases@[id]).coinbase_id == id
                && self.coinbases@[id].coinb1@.len() + self.coinbases@[id].coinb2@.len()
                <= MAX_COINBASE_SECTION_BYTES
        &&& self.cb_cache@.len() <= MAX_CB_CACHE
        &&& self.h2_cache@.len() <= MAX_H2_CACHE
        &&& forall|i: int|
            0 <= i < self.cb_cache@.len() ==> (#[trigger] self.cb_cache@[i]).correct(self@)
        &&& forall|i: int|
            0 <= i < self.h2_cache@.len() ==> (#[trigger] self.h2_cache@[i]).correct(self@)
    }

    /// Coinbases kept parsed.
    pub closed spec fn spec_parsed_len(&self) -> nat {
        self.cb_cache@.len()
    }

    /// Job commitments kept.
    pub closed spec fn spec_commitments_len(&self) -> nat {
        self.h2_cache@.len()
    }

    /// Whether a coinbase is kept parsed under `id` and `pot`.
    pub closed spec fn spec_has_parsed(&self, id: u8, pot: u8) -> bool {
        exists|i: int|
            0 <= i < self.cb_cache@.len() && (#[trigger] self.cb_cache@[i]).id == id
                && self.cb_cache@[i].pot == pot
    }

    /// How many coinbases are kept parsed.
    pub fn parsed_len(&self) -> (n: usize)
        ensures
            n == self.spec_parsed_len(),
    {
        self.cb_cache.len()
    }

    /// How many job commitments are kept.
    pub fn commitments_len(&self) -> (n: usize)
        ensures
            n == self.spec_commitments_len(),
    {
        self.h2_cache.len()
    }

    /// Whether the coinbase `id` with target byte `pot` is kept parsed.
    pub fn has_parsed(&self, id: u8, pot: u8) -> (r: bool)
        ensures
            r == self.spec_has_parsed(id, pot),
    {
        self.find_parsed(id, pot).is_some()
    }

    fn find_parsed(&self, id: u8, pot: u8) -> (r: Option<usize>)
        ensures
            r.is_some() == self.spec_has_parsed(id, pot),
            r matches Some(i) ==> i < self.cb_cache@.len() && self.cb_cache@[i as int].id == id
                && self.cb_cache@[i as int].pot == pot,
    {
        let mut i: usize = 0;
        while i < self.cb_cache.len()
            invariant
                i <= self.cb_cache@.len(),
                forall|j: int|
                    0 <= j < i ==> !((#[trigger] self.cb_cache@[j]).id == id
                        && self.cb_cache@[j].pot == pot),
            decreases self.cb_cache@.len() - i,
        {
            if self.cb_cache[i].id == id && self.cb_cache[i].pot == pot {
                return Some(i);
            }
            i = i + 1;
        }
        None
    }

    /// Whether the job commitment of these fields is kept.
    spec fn keeps_h2(&self, key: H2Key) -> bool {
        exists|i: int| 0 <= i < self.h2_cache@.len() && (#[trigger] self.h2_cache@[i]).key == key
    }

    /// The job commitment of these fields, if it is kept.
    fn find_h2(&self, key: H2Key) -> (r: Option<Hash32>)
        requires
            self.wf(),
        ensures
            r.is_some() == self.keeps_h2(key),
            r matches Some(h) ==> self@.job.is_some() && h@ == commitment_for(
                self@.job.unwrap(),
                self@.legacy(key.id, key.pot),
                key.version,
                key.time_on_wire,
                key.flags,
                key.txcount,
            ).h2_of(),
    {
        let mut i: usize = 0;
        while i < self.h2_cache.len()
            invariant
                i <= self.h2_cache@.len(),
                self.wf(),
                forall|j: int| 0 <= j < i ==> (#[trigger] self.h2_cache@[j]).key != key,
            decreases self.h2_cache@.len() - i,
        {
            if self.h2_cache[i].key == key {
                assert(self.h2_cache@[i as int].correct(self@));
                return Some(self.h2_cache[i].h2);
            }
            i = i + 1;
        }
        None
    }

    /// Drops what was derived from the section `id`.
    fn drop_derived(&mut self, id: u8)
        ensures
            final(self).job == old(self).job,
            final(self).coinbases == old(self).coinbases,
            final(self).txcount_includes_coinbase == old(self).txcount_includes_coinbase,
            final(self).cb_cache@.len() <= old(self).cb_cache@.len(),
            final(self).h2_cache@.len() <= old(self).h2_cache@.len(),
            forall|i: int|
                0 <= i < final(self).cb_cache@.len() ==> (#[trigger] final(self).cb_cache@[i]).id
                    != id && old(self).cb_cache@.contains(final(self).cb_cache@[i]),
            forall|i: int|
                0 <= i < final(self).h2_cache@.len() ==> (#[trigger] final(self).h2_cache@[i]).key.id
                    != id && old(self).h2_cache@.contains(final(self).h2_cache@[i]),
    {
        let ghost before = *self;
        let mut i: usize = 0;
        while i < self.cb_cache.len()
            invariant
                i <= self.cb_cache@.len() <= before.cb_cache@.len(),
                self.job == before.job,
                self.coinbases == before.coinbases,
                self.txcount_includes_coinbase == before.txcount_includes_coinbase,
                self.h2_cache == before.h2_cache,
                forall|j: int| 0 <= j < i ==> (#[trigger] self.cb_cache@[j]).id != id,
                forall|j: int|
                    0 <= j < self.cb_cache@.len() ==> before.cb_cache@.contains(
                        #[trigger] self.cb_cache@[j],
                    ),
            decreases self.cb_cache@.len() - i,
        {
            if self.cb_cache[i].id == id {
                let ghost prior = self.cb_cache@;
                let _ = self.cb_cache.swap_remove(i);
                proof {
                    assert forall|j: int|
                        0 <= j < self.cb_cache@.len() implies before.cb_cache@.contains(
                        #[trigger] self.cb_cache@[j],
                    ) by {
                        assert(self.cb_cache@[j] == prior[j] || self.cb_cache@[j] == prior.last());
                    }
                }
            } else {
                i = i + 1;
            }
        }
        let mut i: usize = 0;
        let ghost mid = *self;
        while i < self.h2_cache.len()
            invariant
                i <= self.h2_cache@.len() <= before.h2_cache@.len(),
                self.job == before.job,
                self.coinbases == before.coinbases,
                self.txcount_includes_coinbase == before.txcount_includes_coinbase,
                self.cb_cache == mid.cb_cache,
                forall|j: int| 0 <= j < i ==> (#[trigger] self.h2_cache@[j]).key.id != id,
                forall|j: int|
                    0 <= j < self.h2_cache@.len() ==> before.h2_cache@.contains(
                        #[trigger] self.h2_cache@[j],
                    ),
            decreases self.h2_cache@.len() - i,
        {
            if self.h2_cache[i].key.id == id {
                let ghost prior = self.h2_cache@;
                let _ = self.h2_cache.swap_remove(i);
                proof {
                    assert forall|j: int|
                        0 <= j < self.h2_cache@.len() implies before.h2_cache@.contains(
                        #[trigger] self.h2_cache@[j],
                    ) by {
                        assert(self.h2_cache@[j] == prior[j] || self.h2_cache@[j] == prior.last());
                    }
                }
            } else {
                i = i + 1;
            }
        }
    }

    /// Folds a share's optional sections into the slot. A job section that differs starts a
    /// fresh slot.
    ///
    /// A coinbase section over [`MAX_COINBASE_SECTION_BYTES`], or one that would be the slot's
    /// ninth id, is refused and nothing is changed.
    pub fn absorb(&mut self, s: &PowSubmit) -> (r: Result<Absorbed, AbsorbError>)
        requires
            old(self).wf(),
        ensures
            final(self).wf(),
            match absorb_reject(old(self)@, *s) {
                Some(code) => r == Err::<Absorbed, AbsorbError>(code) && final(self)@ == old(self)@,
                None => r == Ok::<Absorbed, AbsorbError>(
                    Absorbed {
                        job_changed: old(self)@.with_job(job_of(*s)) != old(self)@,
                        coinbase_added: brings_coinbase(old(self)@, *s),
                    },
                ) && final(self)@ == absorb_slot(old(self)@, *s),
            },
    {
        if let Some(c) = &s.coinbase {
            if c.coinb1.len() > MAX_COINBASE_SECTION_BYTES || c.coinb2.len()
                > MAX_COINBASE_SECTION_BYTES - c.coinb1.len() {
                return Err(REJECT_COINBASE_TOO_LARGE);
            }
        }
        let mut out = Absorbed { job_changed: false, coinbase_added: None };
        let ghost start = self@;
        if let Some(j) = &s.job {
            let same: bool = match &self.job {
                Some(mine) => mine.same(j),
                None => false,
            };
            if !same {
                self.job = Some(j.duplicate());
                self.coinbases.clear();
                self.h2_cache.clear();
                self.cb_cache.clear();
                self.txcount_includes_coinbase = None;
                out.job_changed = true;
                assert(sections_view(self.coinbases@) =~= Map::empty());
            }
        }
        assert(self@ == start.with_job(job_of(*s)));
        let ghost moved = *self;
        if let Some(c) = &s.coinbase {
            let id: u8 = c.coinbase_id;
            let known: bool = match self.coinbases.get(&id) {
                Some(mine) => mine.same(c),
                None => false,
            };
            if known {
                assert(self@.coinbases.insert(id, c.halves()) =~= self@.coinbases);
            }
            proof {
                lemma_sections_len(self.coinbases@);
            }
            if !known {
                if !self.coinbases.contains_key(&id) && self.coinbases.len()
                    >= MAX_COINBASES_PER_SLOT {
                    return Err(REJECT_BAD_COINBASE_ID);
                }
                self.coinbases.insert(id, c.duplicate());
                assert(sections_view(self.coinbases@) =~= moved@.coinbases.insert(id, c.halves()));
                let ghost inserted = *self;
                self.drop_derived(id);
                proof {
                    assert(self@ == inserted@);
                    lemma_caches_kept(moved, *self, id);
                }
                out.coinbase_added = Some(id);
            }
        }
        Ok(out)
    }

    /// Drops a coinbase section and everything derived from it.
    pub fn forget_coinbase(&mut self, id: u8)
        requires
            old(self).wf(),
        ensures
            final(self).wf(),
            final(self)@ == (SlotView {
                coinbases: old(self)@.coinbases.remove(id),
                ..old(self)@
            }),
            forall|pot: u8| !final(self).spec_has_parsed(id, pot),
    {
        let ghost before = *self;
        let _ = self.coinbases.remove(&id);
        assert(sections_view(self.coinbases@) =~= before@.coinbases.remove(id));
        let ghost removed = *self;
        self.drop_derived(id);
        proof {
            assert(self@ == removed@);
            lemma_caches_kept(before, *self, id);
        }
    }

    /// Drops every coinbase section and everything derived from them, but keeps the job.
    pub fn evict_sections(&mut self)
        requires
            old(self).wf(),
        ensures
            final(self).wf(),
            final(self)@ == (SlotView { coinbases: Map::empty(), ..old(self)@ }),
            final(self).spec_parsed_len() == 0,
            final(self).spec_commitments_len() == 0,
    {
        self.coinbases.clear();
        self.h2_cache.clear();
        self.cb_cache.clear();
        assert(sections_view(self.coinbases@) =~= Map::empty());
    }

    /// Bytes of coinbase sections the slot holds.
    pub fn coinbase_bytes(&self) -> (n: usize)
        requires
            self.wf(),
        ensures
            n == sections_bytes(self@.coinbases, 256),
            n <= MAX_SLOT_BYTES,
    {
        proof {
            self.lemma_bounded();
        }
        let mut n: usize = 0;
        let mut id: u16 = 0;
        let ghost m = self@.coinbases;
        while id < 256
            invariant
                id <= 256,
                m == sections_view(self.coinbases@),
                n == sections_bytes(m, id as nat),
                sections_bytes(m, 256) <= MAX_SLOT_BYTES,
            decreases 256 - id,
        {
            proof {
                lemma_sections_bytes_mono(m, (id + 1) as nat, 256);
            }
            if let Some(c) = self.coinbases.get(&(id as u8)) {
                n = n + (c.coinb1.len() + c.coinb2.len());
            }
            id = id + 1;
        }
        n
    }

    /// What a slot holds is bounded, whatever shares it has absorbed.
    pub proof fn lemma_bounded(&self)
        requires
            self.wf(),
        ensures
            self@.coinbases.len() <= MAX_COINBASES_PER_SLOT,
            sections_bytes(self@.coinbases, 256) <= MAX_SLOT_BYTES,
            self.spec_parsed_len() <= MAX_CB_CACHE,
            self.spec_commitments_len() <= MAX_H2_CACHE,
    {
        let m = self@.coinbases;
        lemma_sections_len(self.coinbases@);
        lemma_sections_bytes_bound(m, 256);
        assert(m.dom().filter(|id: u8| id < 256) =~= m.dom());
    }

    /// The height and the coinbaser of the slot's job.
    pub fn job_terms(&self) -> (r: Option<(u32, u8)>)
        ensures
            r == match self@.job {
                Some(j) => Some((j.height, j.coinbaser_id)),
                None => None,
            },
    {
        match &self.job {
            Some(j) => Some((j.height, j.coinbaser_id)),
            None => None,
        }
    }

    /// The transaction-count reading pinned for this job, if a share has verified on it.
    pub fn txcount_convention(&self) -> (r: Option<bool>)
        ensures
            r == self@.includes_coinbase,
    {
        self.txcount_includes_coinbase
    }

    /// The coinbase id a share is on.
    pub fn coinbase_id_for(s: &PowSubmit) -> (id: u8)
        ensures
            id == coinbase_id_of(*s),
    {
        if s.subsidy_only() {
            SUBSIDY_ONLY_COINBASE_ID
        } else {
            s.coinbase_id
        }
    }
}

/// Bytes of the sections with an id below `n`.
pub open spec fn sections_bytes(m: Map<u8, HalvesView>, n: nat) -> nat
    decreases n,
{
    if n == 0 {
        0
    } else {
        let id = (n - 1) as u8;
        sections_bytes(m, (n - 1) as nat) + if m.contains_key(id) {
            m[id].coinb1.len() + m[id].coinb2.len()
        } else {
            0
        }
    }
}

proof fn lemma_sections_bytes_bound(m: Map<u8, HalvesView>, n: nat)
    requires
        n <= 256,
        m.dom().finite(),
        forall|id: u8| #[trigger]
            m.contains_key(id) ==> m[id].coinb1.len() + m[id].coinb2.len()
                <= MAX_COINBASE_SECTION_BYTES,
    ensures
        sections_bytes(m, n) <= MAX_COINBASE_SECTION_BYTES * m.dom().filter(|id: u8| id < n).len(),
    decreases n,
{
    let here = m.dom().filter(|id: u8| id < n);
    if n > 0 {
        let before = m.dom().filter(|id: u8| id < n - 1);
        lemma_sections_bytes_bound(m, (n - 1) as nat);
        let id = (n - 1) as u8;
        assert(m.dom().filter(|id: u8| id < (n - 1) as nat) =~= before);
        if m.contains_key(id) {
            assert(here =~= before.insert(id));
            assert(!before.contains(id));
            assert(before.finite());
        } else {
            assert(here =~= before);
        }
    }
}

proof fn lemma_sections_bytes_mono(m: Map<u8, HalvesView>, a: nat, b: nat)
    requires
        a <= b,
    ensures
        sections_bytes(m, a) <= sections_bytes(m, b),
    decreases b - a,
{
    if a < b {
        lemma_sections_bytes_mono(m, a, (b - 1) as nat);
    }
}

proof fn lemma_sections_len(m: Map<u8, CoinbaseSection>)
    requires
        m.dom().finite(),
    ensures
        sections_view(m).len() == m.len(),
        sections_view(m).dom() == m.dom(),
{
    assert(sections_view(m).dom() =~= m.dom());
}

/// Cached values about other sections stay right when the section `id` changes.
proof fn lemma_caches_kept(before: JobSlot, after: JobSlot, id: u8)
    requires
        before.wf(),
        after@.job == before@.job,
        forall|k: u8|
            k != id && before@.coinbases.contains_key(k) ==> after@.coinbases.contains_key(k)
                && #[trigger] after@.coinbases[k] == before@.coinbases[k],
        forall|i: int|
            0 <= i < after.cb_cache@.len() ==> (#[trigger] after.cb_cache@[i]).id != id
                && before.cb_cache@.contains(after.cb_cache@[i]),
        forall|i: int|
            0 <= i < after.h2_cache@.len() ==> (#[trigger] after.h2_cache@[i]).key.id != id
                && before.h2_cache@.contains(after.h2_cache@[i]),
    ensures
        forall|i: int|
            0 <= i < after.cb_cache@.len() ==> (#[trigger] after.cb_cache@[i]).correct(after@),
        forall|i: int|
            0 <= i < after.h2_cache@.len() ==> (#[trigger] after.h2_cache@[i]).correct(after@),
{
    assert forall|i: int| 0 <= i < after.cb_cache@.len() implies (
    #[trigger] after.cb_cache@[i]).correct(after@) by {
        let e = after.cb_cache@[i];
        let j = choose|j: int| 0 <= j < before.cb_cache@.len() && before.cb_cache@[j] == e;
        assert(before.cb_cache@[j].correct(before@));
        assert(after@.coinbases[e.id] == before@.coinbases[e.id]);
    }
    assert forall|i: int| 0 <= i < after.h2_cache@.len() implies (
    #[trigger] after.h2_cache@[i]).correct(after@) by {
        let e = after.h2_cache@[i];
        let j = choose|j: int| 0 <= j < before.h2_cache@.len() && before.h2_cache@[j] == e;
        assert(before.h2_cache@[j].correct(before@));
        assert(after@.coinbases[e.key.id] == before@.coinbases[e.key.id]);
    }
}

/// A share that verified.
#[derive(Clone, Debug, PartialEq, Eq)]
pub struct VerifiedShare {
    pub hash: Hash32,
    /// Work in difficulty-1 units.
    pub work: u64,
    pub target_pot: u8,
    pub height: u32,
    pub ntime: u32,
    pub is_block_candidate: bool,
    pub coinbase_kind: CoinbaseKind,
    /// What the coinbase outputs are worth together: subsidy plus fees.
    pub coinbase_value: u64,
    pub paid_to_pool: u64,
    /// The header the miner ground, kept so that a block can be serialized.
    pub commitment: Commitment,
    pub coinbase_legacy: Vec<u8>,
    pub coinbase: Coinbase,
}

/// What shares are held to.
pub struct Policy<'a> {
    /// The pool's payout script.
    pub pool_script: &'a [u8],
    /// The outputs issued under the share's coinbaser id, if they are still known.
    pub issued: Option<&'a [Output]>,
    /// Slack per issued output, in satoshis.
    pub tolerance: u64,
    /// Unix seconds now; 0 disables the time check.
    pub now: u32,
    /// Smallest power-of-two difficulty the pool accepts.
    pub min_pot: u8,
}

/// What a [`Policy`] holds.
#[verifier::ext_equal]
pub struct PolicyView {
    pub pool_script: Seq<u8>,
    pub issued: Option<Seq<OutputView>>,
    pub tolerance: u64,
    pub now: u32,
    pub min_pot: u8,
}

impl<'a> View for Policy<'a> {
    type V = PolicyView;

    open spec fn view(&self) -> PolicyView {
        PolicyView {
            pool_script: self.pool_script@,
            issued: issued_view(self.issued),
            tolerance: self.tolerance,
            now: self.now,
            min_pot: self.min_pot,
        }
    }
}

impl PolicyView {
    /// The issued amounts and counts can be added up.
    pub open spec fn fits(self) -> bool {
        self.issued matches Some(iss) ==> list_fits(iss)
    }
}

/// Whether a header time is too far ahead of the clock or too far behind it.
pub open spec fn out_of_time(ntime: u32, now: u32) -> bool {
    now != 0 && (ntime > now + MAX_TIME_AHEAD || ntime + MAX_TIME_BEHIND < now)
}

/// Tells whether a header time is out of range.
pub fn time_is_off(ntime: u32, now: u32) -> (r: bool)
    ensures
        r == out_of_time(ntime, now),
{
    now != 0 && (ntime > now.saturating_add(MAX_TIME_AHEAD) || ntime.saturating_add(MAX_TIME_BEHIND)
        < now)
}

/// The header a share was ground on, under one reading of the job's transaction count.
pub open spec fn reading(slot: SlotView, s: PowSubmit, includes: bool) -> CommitmentView {
    let job = slot.job.unwrap();
    commitment_for(
        job,
        slot.legacy(coinbase_id_of(s), s.target_pot),
        s.version,
        s.time_on_wire.unwrap(),
        header_flags(s),
        txcount_of(job, includes),
    )
}

/// The hash of a share under one reading.
pub open spec fn reading_hash(slot: SlotView, s: PowSubmit, includes: bool) -> Seq<u8> {
    let b2 = s.blake2b.unwrap();
    share_hash_of(
        slot.job.unwrap().prev_hash@,
        reading(slot, s, includes).h2_of(),
        s.extranonce@,
        b2.nonce@,
        b2.ntime@,
    )
}

/// Which reading to go by, given which of the two meet the target: the pinned one, or before
/// any share verified on the job the first that meets it.
pub open spec fn chosen_reading(pinned: Option<bool>, plain_ok: bool, counted_ok: bool) -> Option<
    bool,
> {
    if plain_ok && pinned != Some(true) {
        Some(false)
    } else if counted_ok && pinned != Some(false) {
        Some(true)
    } else {
        None
    }
}

/// The reading a share is accepted under.
pub open spec fn accepted_reading(slot: SlotView, s: PowSubmit, target: Seq<u8>) -> Option<bool> {
    chosen_reading(
        slot.includes_coinbase,
        le_nat(reading_hash(slot, s, false)) <= le_nat(target),
        le_nat(reading_hash(slot, s, true)) <= le_nat(target),
    )
}

/// The reject code of a share whose coinbase cannot be rebuilt.
pub open spec fn coinbase_reject(slot: SlotView, id: u8, pot: u8) -> Option<u16> {
    if slot.job.is_none() {
        Some(REJECT_BAD_JOB_ID)
    } else if !slot.coinbases.contains_key(id) {
        Some(REJECT_COINBASE_MISSING)
    } else {
        match read_coinbase(slot.legacy(id, pot)) {
            None => Some(REJECT_BAD_COINBASE),
            Some(c) => match script_height(c.script_sig) {
                Some(h) if h != slot.job.unwrap().height => Some(REJECT_BAD_JOB_ID),
                _ => None,
            },
        }
    }
}

/// The reject code of a share, or `None` for one that verifies against `target`.
pub open spec fn share_reject(
    slot: SlotView,
    s: PowSubmit,
    p: PolicyView,
    target: Seq<u8>,
) -> Option<u16> {
    let id = coinbase_id_of(s);
    if s.blake2b.is_none() {
        Some(REJECT_BAD_VERSION)
    } else if s.time_on_wire.is_none() {
        Some(REJECT_BAD_NTIME)
    } else if coinbase_reject(slot, id, s.target_pot).is_some() {
        coinbase_reject(slot, id, s.target_pot)
    } else if kind_of(
        read_coinbase(slot.legacy(id, s.target_pot)).unwrap().outputs,
        p.pool_script,
        p.issued,
        p.tolerance,
    ) == CoinbaseKind::Foreign {
        Some(REJECT_BAD_COINBASE_OUTPUTS)
    } else if out_of_time(
        share_ntime_of(s.time_on_wire.unwrap(), s.blake2b.unwrap().ntime@, header_flags(s)),
        p.now,
    ) {
        Some(REJECT_BAD_NTIME)
    } else if accepted_reading(slot, s, target).is_none() {
        Some(REJECT_HIGH_HASH)
    } else {
        None
    }
}

/// Whether a hash is at or under the network target.
pub open spec fn is_block(hash: Seq<u8>, nbits: u32) -> bool {
    !compact_negative(nbits) && 0 < compact_value(nbits) < pow(256, 32) && le_nat(hash)
        <= compact_value(nbits)
}

/// Tells whether a hash is at or under the network target.
pub fn solves_block(hash: &Hash32, nbits: u32) -> (r: bool)
    ensures
        r == is_block(hash@, nbits),
{
    match nbits_to_target_le(nbits) {
        Some(t) => meets_target(hash, &t),
        None => false,
    }
}

/// Whether `v` is what a share that verifies comes to.
pub open spec fn is_verified(
    v: VerifiedShare,
    slot: SlotView,
    s: PowSubmit,
    p: PolicyView,
    target: Seq<u8>,
) -> bool {
    let includes = accepted_reading(slot, s, target).unwrap();
    let legacy = slot.legacy(coinbase_id_of(s), s.target_pot);
    let cb = read_coinbase(legacy).unwrap();
    &&& v.commitment@ == reading(slot, s, includes)
    &&& v.hash@ == reading_hash(slot, s, includes)
    &&& v.work == s.spec_claimed_work()
    &&& v.target_pot == s.target_pot
    &&& v.height == slot.job.unwrap().height
    &&& v.ntime == share_ntime_of(
        s.time_on_wire.unwrap(),
        s.blake2b.unwrap().ntime@,
        header_flags(s),
    )
    &&& v.is_block_candidate == is_block(v.hash@, slot.job.unwrap().nbits_u32())
    &&& v.coinbase_kind == kind_of(cb.outputs, p.pool_script, p.issued, p.tolerance)
    &&& v.coinbase_value == total_value(cb.outputs)
    &&& v.paid_to_pool == paid_to_script(cb.outputs, p.pool_script)
    &&& v.coinbase_legacy@ == legacy
    &&& v.coinbase@ == cb
    &&& v.coinbase.wf()
}

impl JobSlot {
    /// Makes sure the coinbase `id` with target byte `pot` is kept parsed; where it is kept.
    fn ensure_parsed(&mut self, id: u8, pot: u8) -> (r: Result<usize, u16>)
        requires
            old(self).wf(),
        ensures
            final(self).wf(),
            final(self)@ == old(self)@,
            match coinbase_reject(old(self)@, id, pot) {
                Some(code) => r == Err::<usize, u16>(code),
                None => r matches Ok(i) && i < final(self).cb_cache@.len()
                    && final(self).cb_cache@[i as int].id == id
                    && final(self).cb_cache@[i as int].pot == pot,
            },
    {
        if let Some(i) = self.find_parsed(id, pot) {
            assert(self.cb_cache@[i as int].correct(self@));
            return Ok(i);
        }
        let ghost before = *self;
        let job: &JobSection = match &self.job {
            Some(j) => j,
            None => {
                return Err(REJECT_BAD_JOB_ID);
            },
        };
        let sect: &CoinbaseSection = match self.coinbases.get(&id) {
            Some(c) => c,
            None => {
                return Err(REJECT_COINBASE_MISSING);
            },
        };
        let legacy: Vec<u8> = assemble(
            sect.coinb1.as_slice(),
            sect.coinb2.as_slice(),
            job.target_byte_index as usize,
            pot,
        );
        assert(legacy@ == self@.legacy(id, pot));
        let parsed: Coinbase = match parse(legacy.as_slice()) {
            Ok(c) => c,
            Err(_) => {
                return Err(REJECT_BAD_COINBASE);
            },
        };
        if let Some(h) = parsed.height {
            if h != job.height {
                return Err(REJECT_BAD_JOB_ID);
            }
        }
        if self.cb_cache.len() >= MAX_CB_CACHE {
            self.cb_cache.clear();
        }
        let i: usize = self.cb_cache.len();
        self.cb_cache.push(CachedCoinbase { id, pot, legacy, parsed });
        assert(self@ == before@);
        assert(self.cb_cache@[i as int].correct(self@));
        Ok(i)
    }

    /// The header a share was ground on, under one reading.
    fn commitment_under(&self, s: &PowSubmit, time_on_wire: u32, flags: u16, includes: bool, i: usize)
        -> (c: Commitment)
        requires
            self.wf(),
            self@.job.is_some(),
            i < self.cb_cache@.len(),
            self.cb_cache@[i as int].id == coinbase_id_of(*s),
            self.cb_cache@[i as int].pot == s.target_pot,
            s.time_on_wire == Some(time_on_wire),
            flags == header_flags(*s),
        ensures
            c@ == reading(self@, *s, includes),
    {
        let job: &JobSection = self.job.as_ref().unwrap();
        assert(self.cb_cache@[i as int].correct(self@));
        let txid: Hash32 = sha256d(self.cb_cache[i].legacy.as_slice());
        let txcount: u32 = if includes {
            job.txn_count
        } else if job.txn_count == u32::MAX {
            0
        } else {
            job.txn_count + 1
        };
        let c = Commitment {
            version: s.version,
            prev_hash: job.prev_hash,
            height: job.height,
            merkle_root: merkle_root(txid, job.merkle_branches.as_slice()),
            time_on_wire,
            nbits: job.nbits_u32(),
            txcount,
            flags,
            xor_clear_bits: 0,
            xor_key: [0u8; 16],
            rhs: [0u8; 32],
        };
        assert(c.xor_key@ =~= crate::bytes::zeros(16));
        assert(c.rhs@ =~= crate::bytes::zeros(32));
        c
    }

    /// Hashes a share under one reading and, when it meets the target, keeps the job commitment.
    fn try_reading(
        &mut self,
        s: &PowSubmit,
        b2: &Blake2bSection,
        time_on_wire: u32,
        flags: u16,
        includes: bool,
        i: usize,
        target: &Hash32,
    ) -> (r: Option<(Commitment, Hash32)>)
        requires
            old(self).wf(),
            old(self)@.job.is_some(),
            i < old(self).cb_cache@.len(),
            old(self).cb_cache@[i as int].id == coinbase_id_of(*s),
            old(self).cb_cache@[i as int].pot == s.target_pot,
            s.blake2b == Some(*b2),
            s.time_on_wire == Some(time_on_wire),
            flags == header_flags(*s),
        ensures
            final(self).wf(),
            final(self)@ == old(self)@,
            final(self).cb_cache == old(self).cb_cache,
            r.is_some() == (le_nat(reading_hash(old(self)@, *s, includes)) <= le_nat(target@)),
            r matches Some((c, h)) ==> c@ == reading(old(self)@, *s, includes) && h@
                == reading_hash(old(self)@, *s, includes),
    {
        let ghost before = *self;
        let job: &JobSection = self.job.as_ref().unwrap();
        assert(self.cb_cache@[i as int].correct(self@));
        let txcount: u32 = if includes {
            job.txn_count
        } else if job.txn_count == u32::MAX {
            0
        } else {
            job.txn_count + 1
        };
        let key = H2Key {
            id: self.cb_cache[i].id,
            pot: s.target_pot,
            txcount,
            version: s.version,
            time_on_wire,
            flags,
        };
        let sia_prev: Hash32 = sia_prevhash(&job.prev_hash);
        let cached: Option<Hash32> = self.find_h2(key);
        let known: Option<Commitment> = match cached {
            Some(_) => None,
            None => Some(self.commitment_under(s, time_on_wire, flags, includes, i)),
        };
        let h2: Hash32 = match cached {
            Some(h) => h,
            None => known.unwrap().h2(),
        };
        assert(h2@ == reading(self@, *s, includes).h2_of());
        let root: Hash32 = work_root(&h2, &s.extranonce);
        let work: Vec<u8> = work_header(&sia_prev, &b2.nonce, &b2.ntime, &root);
        let hash: Hash32 = pow_hash_le(work.as_slice());
        if !meets_target(&hash, target) {
            return None;
        }
        let commitment: Commitment = match known {
            Some(c) => c,
            None => self.commitment_under(s, time_on_wire, flags, includes, i),
        };
        if cached.is_none() {
            if self.h2_cache.len() >= MAX_H2_CACHE {
                self.h2_cache.clear();
            }
            self.h2_cache.push(CachedH2 { key, h2 });
            assert(self@ == before@);
            assert(self.h2_cache@.last().correct(self@));
        }
        Some((commitment, hash))
    }
}

/// Rebuilds the header from the share and checks the work and the coinbase.
///
/// `slot` must already have absorbed the share. On `Err` the code is a reject code.
pub fn verify(slot: &mut JobSlot, s: &PowSubmit, p: &Policy) -> (r: Result<VerifiedShare, u16>)
    requires
        old(slot).wf(),
        p@.fits(),
    ensures
        final(slot).wf(),
        is_share_outcome(r, old(slot)@, final(slot)@, *s, p@),
{
    if s.target_pot < p.min_pot {
        return Err(REJECT_BAD_TARGET);
    }
    let share_target: Hash32 = match share_target_le(s.target_pot) {
        Some(t) => t,
        None => {
            return Err(REJECT_BAD_TARGET);
        },
    };
    verify_with_target(slot, s, p, &share_target)
}

/// What checking a share against the target it claims comes to.
pub open spec fn is_share_outcome(
    r: Result<VerifiedShare, u16>,
    before: SlotView,
    after: SlotView,
    s: PowSubmit,
    p: PolicyView,
) -> bool {
    if s.target_pot < p.min_pot || s.target_pot > MAX_POT {
        r == Err::<VerifiedShare, u16>(REJECT_BAD_TARGET) && after == before
    } else {
        is_verify_outcome(r, before, after, s, p, share_target_of(s.target_pot))
    }
}

/// What checking a share against a target comes to: the result, and what the slot learns.
pub open spec fn is_verify_outcome(
    r: Result<VerifiedShare, u16>,
    before: SlotView,
    after: SlotView,
    s: PowSubmit,
    p: PolicyView,
    target: Seq<u8>,
) -> bool {
    match share_reject(before, s, p, target) {
        Some(code) => r == Err::<VerifiedShare, u16>(code) && after == before,
        None => r matches Ok(v) && is_verified(v, before, s, p, target) && after == (SlotView {
            includes_coinbase: accepted_reading(before, s, target),
            ..before
        }),
    }
}

/// [`verify`] against an explicit share target instead of the one the share claims.
pub fn verify_with_target(
    slot: &mut JobSlot,
    s: &PowSubmit,
    p: &Policy,
    share_target: &Hash32,
) -> (r: Result<VerifiedShare, u16>)
    requires
        old(slot).wf(),
        p@.fits(),
    ensures
        final(slot).wf(),
        is_verify_outcome(r, old(slot)@, final(slot)@, *s, p@, share_target@),
{
    if !s.is_blake2b() {
        return Err(REJECT_BAD_VERSION);
    }
    let b2: Blake2bSection = match s.blake2b {
        Some(b) => b,
        None => {
            return Err(REJECT_BAD_VERSION);
        },
    };
    let time_on_wire: u32 = match s.time_on_wire {
        Some(t) => t,
        None => {
            return Err(REJECT_BAD_NTIME);
        },
    };
    let cb_id: u8 = JobSlot::coinbase_id_for(s);
    let i: usize = match slot.ensure_parsed(cb_id, s.target_pot) {
        Ok(i) => i,
        Err(code) => {
            return Err(code);
        },
    };
    let ghost before = slot@;
    assert(slot.cb_cache@[i as int].correct(slot@));
    let coinbase_kind: CoinbaseKind = classify_coinbase(
        &slot.cb_cache[i].parsed,
        p.pool_script,
        p.issued,
        p.tolerance,
    );
    if coinbase_kind == CoinbaseKind::Foreign {
        return Err(REJECT_BAD_COINBASE_OUTPUTS);
    }
    let flags: u16 = if s.use_time_offset() {
        FLAG_USE_TIME_OFFSET
    } else {
        0
    };
    let ntime: u32 = share_ntime(time_on_wire, &b2.ntime, flags);
    if time_is_off(ntime, p.now) {
        return Err(REJECT_BAD_NTIME);
    }
    let pinned: Option<bool> = slot.txcount_includes_coinbase;
    let (try_plain, try_counted) = match pinned {
        Some(includes) => (!includes, includes),
        None => (true, true),
    };
    let mut includes: bool = false;
    let mut chosen: Option<(Commitment, Hash32)> = None;
    if try_plain {
        chosen = slot.try_reading(s, &b2, time_on_wire, flags, false, i, share_target);
    }
    if chosen.is_none() && try_counted {
        includes = true;
        chosen = slot.try_reading(s, &b2, time_on_wire, flags, true, i, share_target);
    }
    let (commitment, hash) = match chosen {
        Some(x) => x,
        None => {
            return Err(REJECT_HIGH_HASH);
        },
    };
    let height: u32 = match &slot.job {
        Some(j) => j.height,
        None => 0,
    };
    let ghost kept = *slot;
    slot.txcount_includes_coinbase = Some(includes);
    proof {
        lemma_pin_keeps_caches(kept, *slot);
        assert(slot.cb_cache@[i as int].correct(slot@));
    }
    let is_block_candidate: bool = solves_block(&hash, commitment.nbits);
    let entry: &CachedCoinbase = &slot.cb_cache[i];
    let coinbase_legacy: Vec<u8> = slice_of(entry.legacy.as_slice(), 0, entry.legacy.len());
    assert(coinbase_legacy@ =~= entry.legacy@);
    let v = VerifiedShare {
        hash,
        work: s.claimed_work(),
        target_pot: s.target_pot,
        height,
        ntime,
        is_block_candidate,
        coinbase_kind,
        coinbase_value: entry.parsed.total_output_value(),
        paid_to_pool: entry.parsed.paid_to(p.pool_script),
        commitment,
        coinbase_legacy,
        coinbase: entry.parsed.duplicate(),
    };
    assert(accepted_reading(before, *s, share_target@) == Some(includes));
    assert(is_verified(v, before, *s, p@, share_target@));
    Ok(v)
}

/// Pinning the reading leaves what was derived from the job right.
proof fn lemma_pin_keeps_caches(before: JobSlot, after: JobSlot)
    requires
        before.wf(),
        after.job == before.job,
        after.coinbases == before.coinbases,
        after.cb_cache == before.cb_cache,
        after.h2_cache == before.h2_cache,
    ensures
        after.wf(),
{
    assert forall|i: int| 0 <= i < after.cb_cache@.len() implies (
    #[trigger] after.cb_cache@[i]).correct(after@) by {
        assert(before.cb_cache@[i].correct(before@));
    }
    assert forall|i: int| 0 <= i < after.h2_cache@.len() implies (
    #[trigger] after.h2_cache@[i]).correct(after@) by {
        assert(before.h2_cache@[i].correct(before@));
    }
}

/// Transactions one after another.
pub open spec fn joined(txns: Seq<Vec<u8>>) -> Seq<u8>
    decreases txns.len(),
{
    if txns.len() == 0 {
        Seq::empty()
    } else {
        joined(txns.drop_last()) + txns.last()@
    }
}

/// Serializes a full block from a verified block candidate and the job's transactions (raw, in
/// template order, without the coinbase).
pub fn assemble_block(v: &VerifiedShare, s: &PowSubmit, txns: &[Vec<u8>]) -> (block: Vec<u8>)
    requires
        s.blake2b.is_some(),
        v.coinbase_legacy@.len() >= 8,
        txns@.len() < u64::MAX,
    ensures
        block@ == v.commitment@.header_bytes(
            s.blake2b.unwrap().nonce@,
            s.blake2b.unwrap().ntime@,
            s.extranonce@,
        ) + varint(txns@.len() + 1) + block_form(v.coinbase_legacy@, v.coinbase@.outputs) + joined(
            txns@,
        ),
{
    let b2: Blake2bSection = s.blake2b.unwrap();
    let mut out: Vec<u8> = serialize_header_v2(&v.commitment, &b2.nonce, &b2.ntime, &s.extranonce);
    let cb: Vec<u8> = with_witness(v.coinbase_legacy.as_slice(), &v.coinbase);
    write_varint(&mut out, txns.len() as u64 + 1);
    push_bytes(&mut out, cb.as_slice());
    let ghost head = out@;
    let mut i: usize = 0;
    assert(txns@.take(0) =~= Seq::<Vec<u8>>::empty());
    assert(head + Seq::<u8>::empty() =~= head);
    while i < txns.len()
        invariant
            i <= txns@.len(),
            out@ == head + joined(txns@.take(i as int)),
        decreases txns@.len() - i,
    {
        push_bytes(&mut out, txns[i].as_slice());
        proof {
            assert(txns@.take(i + 1).drop_last() =~= txns@.take(i as int));
            assert(head + joined(txns@.take(i + 1)) =~= head + joined(txns@.take(i as int))
                + txns@[i as int]@);
        }
        i = i + 1;
    }
    assert(txns@.take(txns@.len() as int) =~= txns@);
    out
}

/// The hashing state of a share's job, so that a grinder can search nonces as hardware does.
pub fn job_work_for(slot: &JobSlot, s: &PowSubmit, txcount_includes_coinbase: bool) -> (r: Option<
    JobWork,
>)
    requires
        slot.wf(),
        !txcount_includes_coinbase && slot@.job.is_some() ==> slot@.job.unwrap().txn_count
            < u32::MAX,
    ensures
        r.is_some() == (slot@.job.is_some() && slot@.coinbases.contains_key(coinbase_id_of(*s))
            && s.time_on_wire.is_some()),
        r matches Some(w) ==> w.spec_prev() == slot@.job.unwrap().prev_hash@.reverse()
            && w.spec_root() == work_root_of(
            reading(slot@, *s, txcount_includes_coinbase).h2_of(),
            s.extranonce@,
        ),
{
    let job: &JobSection = match &slot.job {
        Some(j) => j,
        None => {
            return None;
        },
    };
    let sect: &CoinbaseSection = match slot.coinbases.get(&JobSlot::coinbase_id_for(s)) {
        Some(c) => c,
        None => {
            return None;
        },
    };
    let time_on_wire: u32 = match s.time_on_wire {
        Some(t) => t,
        None => {
            return None;
        },
    };
    let legacy: Vec<u8> = assemble(
        sect.coinb1.as_slice(),
        sect.coinb2.as_slice(),
        job.target_byte_index as usize,
        s.target_pot,
    );
    let txid: Hash32 = sha256d(legacy.as_slice());
    let c = Commitment {
        version: s.version,
        prev_hash: job.prev_hash,
        height: job.height,
        merkle_root: merkle_root(txid, job.merkle_branches.as_slice()),
        time_on_wire,
        nbits: job.nbits_u32(),
        txcount: if txcount_includes_coinbase {
            job.txn_count
        } else {
            job.txn_count + 1
        },
        flags: if s.use_time_offset() {
            FLAG_USE_TIME_OFFSET
        } else {
            0
        },
        xor_clear_bits: 0,
        xor_key: [0u8; 16],
        rhs: [0u8; 32],
    };
    assert(c.xor_key@ =~= crate::bytes::zeros(16));
    assert(c.rhs@ =~= crate::bytes::zeros(32));
    assert(c@ == reading(slot@, *s, txcount_includes_coinbase));
    Some(JobWork::new(&c, &s.extranonce))
}

/// A share whose sections a slot has taken changes nothing when it comes again, and is never
/// refused for them.
pub proof fn lemma_absorb_twice(slot: SlotView, s: PowSubmit)
    requires
        absorb_reject(slot, s).is_none(),
    ensures
        absorb_slot(absorb_slot(slot, s), s) == absorb_slot(slot, s),
        absorb_reject(absorb_slot(slot, s), s).is_none(),
        brings_coinbase(absorb_slot(slot, s), s).is_none(),
{
    let moved = slot.with_job(job_of(s));
    let once = absorb_slot(slot, s);
    assert(once.job == moved.job);
    assert(once.with_job(job_of(s)) == once);
    if s.coinbase.is_some() {
        let c = s.coinbase.unwrap();
        assert(once.coinbases.insert(c.coinbase_id, c.halves()) =~= once.coinbases);
        assert(once.coinbases.contains_key(c.coinbase_id));
    }
}

/// Once a share has verified on a job, the gateway's way of counting transactions is settled: no
/// later share of the job is taken under the other reading.
pub proof fn lemma_reading_is_pinned(
    r: Result<VerifiedShare, u16>,
    before: SlotView,
    after: SlotView,
    s: PowSubmit,
    p: PolicyView,
    target: Seq<u8>,
    later: PowSubmit,
    later_target: Seq<u8>,
)
    requires
        is_verify_outcome(r, before, after, s, p, target),
        r.is_ok(),
    ensures
        after.includes_coinbase.is_some(),
        before.includes_coinbase.is_some() ==> after.includes_coinbase == before.includes_coinbase,
        accepted_reading(after, later, later_target).is_some() ==> accepted_reading(
            after,
            later,
            later_target,
        ) == after.includes_coinbase,
{
}

/// What verifies is work: its hash is that of the header it commits to, and is at or under the
/// target; and its coinbase is not foreign.
pub proof fn lemma_verified_is_work(
    r: Result<VerifiedShare, u16>,
    before: SlotView,
    after: SlotView,
    s: PowSubmit,
    p: PolicyView,
    target: Seq<u8>,
)
    requires
        is_verify_outcome(r, before, after, s, p, target),
        r.is_ok(),
    ensures
        le_nat(r.unwrap().hash@) <= le_nat(target),
        r.unwrap().hash@ == share_hash_of(
            before.job.unwrap().prev_hash@,
            r.unwrap().commitment@.h2_of(),
            s.extranonce@,
            s.blake2b.unwrap().nonce@,
            s.blake2b.unwrap().ntime@,
        ),
        r.unwrap().coinbase_kind != CoinbaseKind::Foreign,
        !out_of_time(r.unwrap().ntime, p.now),
{
}

/// A share verifies if and only if it claims a difficulty the pool takes, carries the fields the
/// header needs, is on a job and a coinbase the slot knows, the coinbase is one, is for the job's
/// height and pays as it may, its time is within an hour back and two hours ahead of the clock, and
/// its hash is at or under the target it claims, with the transaction count read as it is or as one
/// more, unless a share before it has settled which.
pub proof fn lemma_what_verifies(
    r: Result<VerifiedShare, u16>,
    before: SlotView,
    after: SlotView,
    s: PowSubmit,
    p: PolicyView,
)
    requires
        is_share_outcome(r, before, after, s, p),
    ensures
        r.is_ok() <==> {
            let id = coinbase_id_of(s);
            let cb = read_coinbase(before.legacy(id, s.target_pot));
            let job = before.job.unwrap();
            let target = le_nat(share_target_of(s.target_pot));
            let ntime = share_ntime_of(
                s.time_on_wire.unwrap(),
                s.blake2b.unwrap().ntime@,
                header_flags(s),
            );
            &&& p.min_pot <= s.target_pot <= 63
            &&& s.blake2b.is_some()
            &&& s.time_on_wire.is_some()
            &&& before.job.is_some()
            &&& before.coinbases.contains_key(id)
            &&& cb.is_some()
            &&& script_height(cb.unwrap().script_sig).is_none() || script_height(
                cb.unwrap().script_sig,
            ) == Some(job.height)
            &&& kind_of(cb.unwrap().outputs, p.pool_script, p.issued, p.tolerance)
                != CoinbaseKind::Foreign
            &&& p.now == 0 || (ntime - p.now <= 7200 && p.now - ntime <= 3600)
            &&& {
                ||| before.includes_coinbase != Some(true) && le_nat(reading_hash(before, s, false))
                    <= target
                ||| before.includes_coinbase != Some(false) && le_nat(reading_hash(before, s, true))
                    <= target
            }
        },
        r.is_err() ==> after == before,
        after.job == before.job && after.coinbases == before.coinbases,
{
}

/// What a share that verified is held to be: the header it was ground on names the job's previous
/// block, height and target, the coinbase by the merkle root that its txid and the job's branches
/// give, the share's version and time, and the transactions, with or without the coinbase counted.
/// Its hash is that header's; its work is what it claims; and it is a block where its hash is at or
/// under the network target.
pub proof fn lemma_what_a_verified_share_is(
    v: VerifiedShare,
    before: SlotView,
    after: SlotView,
    s: PowSubmit,
    p: PolicyView,
)
    requires
        is_share_outcome(Ok::<VerifiedShare, u16>(v), before, after, s, p),
    ensures
        ({
            let job = before.job.unwrap();
            let halves = before.coinbases[coinbase_id_of(s)];
            let legacy = assembled(
                halves.coinb1,
                halves.coinb2,
                job.target_byte_index as int,
                s.target_pot,
            );
            let c = v.commitment@;
            &&& c.version == s.version
            &&& c.prev_hash == job.prev_hash@
            &&& c.height == job.height
            &&& c.merkle_root == merkle_fold(
                crate::digest::sha256_of(crate::digest::sha256_of(legacy)),
                job.merkle_branches,
            )
            &&& Some(c.time_on_wire) == s.time_on_wire
            &&& c.nbits == le_nat(job.nbits@) as u32
            &&& c.txcount == job.txn_count || c.txcount == (job.txn_count + 1) % 0x1_0000_0000
            &&& after.includes_coinbase == Some(true) ==> c.txcount == job.txn_count
            &&& after.includes_coinbase == Some(false) ==> c.txcount == (job.txn_count + 1)
                % 0x1_0000_0000
            &&& after.includes_coinbase.is_some()
            &&& c.flags == if s.flags & 0x08 != 0 {
                1u16
            } else {
                0
            }
            &&& c.xor_clear_bits == 0
            &&& c.xor_key.len() == 16 && forall|i: int| 0 <= i < 16 ==> #[trigger] c.xor_key[i] == 0
            &&& c.rhs.len() == 32 && forall|i: int| 0 <= i < 32 ==> #[trigger] c.rhs[i] == 0
            &&& v.hash@ == share_hash_of(
                job.prev_hash@,
                c.h2_of(),
                s.extranonce@,
                s.blake2b.unwrap().nonce@,
                s.blake2b.unwrap().ntime@,
            )
            &&& le_nat(v.hash@) <= le_nat(share_target_of(s.target_pot))
            &&& v.work == vstd::arithmetic::power2::pow2(s.target_pot as nat)
            &&& v.target_pot == s.target_pot
            &&& v.height == job.height
            &&& v.is_block_candidate == is_block(v.hash@, c.nbits)
            &&& v.coinbase_legacy@ == legacy
            &&& read_coinbase(legacy) == Some(v.coinbase@)
            &&& v.coinbase_value == total_value(v.coinbase@.outputs)
            &&& v.paid_to_pool == paid_to_script(v.coinbase@.outputs, p.pool_script)
            &&& v.coinbase_kind == kind_of(
                v.coinbase@.outputs,
                p.pool_script,
                p.issued,
                p.tolerance,
            )
            &&& v.ntime == share_ntime_of(c.time_on_wire, s.blake2b.unwrap().ntime@, c.flags)
        }),
{
    vstd::arithmetic::power2::lemma2_to64();
    lemma_work_fits(s.target_pot);
    let c = v.commitment@;
    assert(c.xor_key == crate::bytes::zeros(16));
    assert(c.rhs == crate::bytes::zeros(32));
}

proof fn lemma_work_fits(pot: u8)
    requires
        pot < 64,
    ensures
        vstd::arithmetic::power2::pow2(pot as nat) <= u64::MAX,
{
    vstd::arithmetic::power2::lemma_pow2_strictly_increases(pot as nat, 64);
    vstd::arithmetic::power2::lemma2_to64();
    vstd::arithmetic::power2::lemma2_to64_rest();
}

/// Which code a share that does not verify is answered with, each where nothing before it is
/// amiss: the difficulty, the fields, the job, its coinbase and the height it states, where it
/// pays, its time, and the hash.
pub proof fn lemma_reject_codes(
    r: Result<VerifiedShare, u16>,
    before: SlotView,
    after: SlotView,
    s: PowSubmit,
    p: PolicyView,
)
    requires
        is_share_outcome(r, before, after, s, p),
    ensures
        ({
            let id = coinbase_id_of(s);
            let fields = p.min_pot <= s.target_pot <= 63 && s.blake2b.is_some()
                && s.time_on_wire.is_some();
            let cb = read_coinbase(before.legacy(id, s.target_pot));
            let known = fields && before.job.is_some() && before.coinbases.contains_key(id);
            let height = script_height(cb.unwrap().script_sig);
            let sound = known && cb.is_some() && (height.is_none() || height == Some(
                before.job.unwrap().height,
            ));
            let foreign = kind_of(cb.unwrap().outputs, p.pool_script, p.issued, p.tolerance)
                == CoinbaseKind::Foreign;
            &&& s.target_pot < p.min_pot || s.target_pot > 63 ==> r == Err::<VerifiedShare, u16>(13)
            &&& p.min_pot <= s.target_pot <= 63 && s.blake2b.is_none() ==> r == Err::<
                VerifiedShare,
                u16,
            >(24)
            &&& p.min_pot <= s.target_pot <= 63 && s.blake2b.is_some() && s.time_on_wire.is_none()
                ==> r == Err::<VerifiedShare, u16>(23)
            &&& fields && before.job.is_none() ==> r == Err::<VerifiedShare, u16>(10)
            &&& fields && before.job.is_some() && !before.coinbases.contains_key(id) ==> r == Err::<
                VerifiedShare,
                u16,
            >(18)
            &&& known && cb.is_none() ==> r == Err::<VerifiedShare, u16>(26)
            &&& known && cb.is_some() && !sound ==> r == Err::<VerifiedShare, u16>(10)
            &&& sound && foreign ==> r == Err::<VerifiedShare, u16>(27)
            &&& sound && !foreign && r.is_err() ==> r == Err::<VerifiedShare, u16>(23) || r
                == Err::<VerifiedShare, u16>(21)
        }),
{
}

/// What a share's sections do to a slot. A job section that differs from the slot's starts it
/// afresh; one that is the same, or none, leaves it. A coinbase section is kept under its id beside
/// the others. It is refused over 20 000 bytes, and as a ninth id, and only then.
pub proof fn lemma_sections(slot: SlotView, s: PowSubmit)
    ensures
        ({
            let n = absorb_slot(slot, s);
            let same = s.job.is_none() || slot.job == Some(s.job.unwrap()@);
            let kept = if same {
                slot.coinbases
            } else {
                Map::<u8, HalvesView>::empty()
            };
            &&& s.job.is_none() ==> n.job == slot.job
            &&& s.job.is_some() ==> n.job == Some(s.job.unwrap()@)
            &&& same ==> n.includes_coinbase == slot.includes_coinbase
            &&& !same ==> n.includes_coinbase.is_none()
            &&& s.coinbase.is_none() ==> n.coinbases == kept && absorb_reject(slot, s).is_none()
            &&& s.coinbase matches Some(c) ==> {
                let size = c.coinb1@.len() + c.coinb2@.len();
                &&& n.coinbases.contains_key(c.coinbase_id)
                &&& n.coinbases[c.coinbase_id].coinb1 == c.coinb1@
                &&& n.coinbases[c.coinbase_id].coinb2 == c.coinb2@
                &&& forall|id: u8|
                    id != c.coinbase_id ==> (#[trigger] n.coinbases.contains_key(id)
                        == kept.contains_key(id)) && n.coinbases[id] == kept[id]
                &&& absorb_reject(slot, s) == Some(17u16) <==> size > 20_000
                &&& absorb_reject(slot, s) == Some(11u16) <==> size <= 20_000
                    && !kept.contains_key(c.coinbase_id) && kept.len() >= 8
                &&& absorb_reject(slot, s).is_none() <==> size <= 20_000 && (kept.contains_key(
                    c.coinbase_id,
                ) || kept.len() < 8)
            }
        }),
{
}

/// A share on the subsidy-only coinbase is on id 255 whatever id it names; any other is on the id
/// it names.
pub proof fn lemma_coinbase_ids(s: PowSubmit)
    ensures
        s.flags & 0x02 != 0 ==> coinbase_id_of(s) == 255,
        s.flags & 0x02 == 0 ==> coinbase_id_of(s) == s.coinbase_id,
{
}

/// The transactions of a block follow one another in their order.
pub proof fn lemma_joined(a: Seq<Vec<u8>>, b: Seq<Vec<u8>>, t: Vec<u8>)
    ensures
        joined(Seq::empty()) == Seq::<u8>::empty(),
        joined(seq![t]) == t@,
        joined(a + b) == joined(a) + joined(b),
    decreases b.len(),
{
    assert(seq![t].drop_last() =~= Seq::empty());
    assert(joined(seq![t].drop_last()) == Seq::<u8>::empty());
    assert(joined(seq![t]) =~= t@);
    if b.len() == 0 {
        assert(a + b =~= a);
        assert(joined(a) + joined(b) =~= joined(a));
    } else {
        lemma_joined(a, b.drop_last(), t);
        assert((a + b).drop_last() =~= a + b.drop_last());
        assert(joined(a + b) =~= joined(a) + joined(b));
    }
}

/// A block is at or under the network target, and a target that is negative, zero or wider than 256
/// bits is met by none.
pub proof fn lemma_blocks(hash: Seq<u8>, nbits: u32)
    ensures
        is_block(hash, nbits) ==> le_nat(hash) <= compact_value(nbits) && compact_value(nbits) > 0
            && !compact_negative(nbits),
        le_nat(hash) <= compact_value(nbits) && 0 < compact_value(nbits) < pow(256, 32)
            && !compact_negative(nbits) ==> is_block(hash, nbits),
{
}

proof fn lemma_bytes_without(m: Map<u8, HalvesView>, id: u8, n: nat)
    requires
        n <= 256,
    ensures
        sections_bytes(m, n) == sections_bytes(m.remove(id), n) + if id < n && m.contains_key(id) {
            m[id].coinb1.len() + m[id].coinb2.len()
        } else {
            0
        },
    decreases n,
{
    if n > 0 {
        lemma_bytes_without(m, id, (n - 1) as nat);
        let k = (n - 1) as u8;
        assert(k != id ==> m.remove(id).contains_key(k) == m.contains_key(k));
    }
}

/// What a slot holds is the bytes of both halves of each of its sections: none without sections,
/// and with a section more by exactly its own.
pub proof fn lemma_bytes_of_sections(m: Map<u8, HalvesView>, id: u8, h: HalvesView)
    ensures
        sections_bytes(Map::empty(), 256) == 0,
        !m.contains_key(id) ==> sections_bytes(m.insert(id, h), 256) == sections_bytes(m, 256)
            + h.coinb1.len() + h.coinb2.len(),
        m.contains_key(id) ==> sections_bytes(m, 256) == sections_bytes(m.remove(id), 256)
            + m[id].coinb1.len() + m[id].coinb2.len(),
{
    lemma_no_bytes(256);
    let n = m.insert(id, h);
    lemma_bytes_without(n, id, 256);
    lemma_bytes_without(m, id, 256);
    if !m.contains_key(id) {
        assert(n.remove(id) =~= m);
    }
}

proof fn lemma_no_bytes(n: nat)
    ensures
        sections_bytes(Map::empty(), n) == 0,
    decreases n,
{
    if n > 0 {
        lemma_no_bytes((n - 1) as nat);
    }
}

/// What a header commits to for a job: its parent and its height, the coinbase folded through its
/// branches, what the share says of version, time, flags and count, and a mask that masks nothing.
pub proof fn lemma_what_is_committed_to(
    job: JobView,
    legacy: Seq<u8>,
    version: u32,
    time: u32,
    flags: u16,
    txcount: u32,
)
    ensures
        ({
            let c = commitment_for(job, legacy, version, time, flags, txcount);
            &&& c.prev_hash == job.prev_hash@ && c.height == job.height
            &&& c.merkle_root == merkle_fold(
                crate::digest::sha256_of(crate::digest::sha256_of(legacy)),
                job.merkle_branches,
            )
            &&& c.version == version && c.time_on_wire == time
            &&& c.flags == flags && c.txcount == txcount
            &&& c.xor_clear_bits == 0
            &&& c.xor_key.len() == 16 && forall|i: int| 0 <= i < 16 ==> #[trigger] c.xor_key[i] == 0
            &&& c.rhs.len() == 32 && forall|i: int| 0 <= i < 32 ==> #[trigger] c.rhs[i] == 0
        }),
{
}

/// The transaction count of a header is the job's, or one more where the job leaves the coinbase
/// out; its flag says whether the share takes its time from the nTime field.
pub proof fn lemma_header_terms(job: JobView, s: PowSubmit)
    ensures
        txcount_of(job, true) == job.txn_count,
        job.txn_count < u32::MAX ==> txcount_of(job, false) == job.txn_count + 1,
        s.flags & 0x08 != 0 ==> header_flags(s) == 1,
        s.flags & 0x08 == 0 ==> header_flags(s) == 0,
{
}

} // verus!
