//! Blocks the pool's coinbase paid, and what the pool carries forward for identities that a
//! coinbase could not pay.

use crate::names::NameMap;
use crate::split::{amounts_sum, amounts_view, listed_for};
use crate::text::{chars_of, copy_range, text_eq, text_of, texts_view};
use vstd::hash_map::StringHashMap;
use vstd::prelude::*;

verus! {

/// Blocks the pool remembers.
pub const MAX_BLOCKS: usize = 10_000;

/// A block found on this pool.
#[derive(Clone, Debug, PartialEq, Eq)]
pub struct BlockRecord {
    pub ts: u64,
    pub height: u32,
    /// Display-order hex.
    pub hash: String,
    /// Identity that submitted the winning share.
    pub finder: Option<String>,
    pub coinbase_value: u64,
    /// How its coinbase paid: `split`, `partial`, `pool-only`, or `orphan:` and one of these.
    pub kind: String,
    /// What the pool owes the window for it, after the fee.
    pub owed_sats: u64,
    /// The split that was, or should have been, paid.
    pub split: Vec<(String, u64)>,
    pub pool_sats: u64,
    /// Confirmed in the node's main chain.
    pub settled: bool,
    /// Outcome of the pool's own submission.
    pub submit: String,
    /// The gateway that sent the winning share.
    pub gateway: String,
    /// What the coinbase could not pay.
    pub unpaid: Vec<(String, u64)>,
    /// What of the carry the coinbase paid.
    pub carry_paid: Vec<(String, u64)>,
    /// Hex hash of the window snapshot the coinbase commits to.
    pub snapshot: String,
    /// Whether the carry ledger has been updated for it.
    pub carried: bool,
}

/// What a [`BlockRecord`] holds.
#[verifier::ext_equal]
pub struct RecordView {
    pub ts: u64,
    pub height: u32,
    pub hash: Seq<char>,
    pub finder: Option<Seq<char>>,
    pub coinbase_value: u64,
    pub kind: Seq<char>,
    pub owed_sats: u64,
    pub split: Seq<(Seq<char>, u64)>,
    pub pool_sats: u64,
    pub settled: bool,
    pub submit: Seq<char>,
    pub gateway: Seq<char>,
    pub unpaid: Seq<(Seq<char>, u64)>,
    pub carry_paid: Seq<(Seq<char>, u64)>,
    pub snapshot: Seq<char>,
    pub carried: bool,
}

impl View for BlockRecord {
    type V = RecordView;

    open spec fn view(&self) -> RecordView {
        RecordView {
            ts: self.ts,
            height: self.height,
            hash: self.hash@,
            finder: match self.finder {
                Some(s) => Some(s@),
                None => None,
            },
            coinbase_value: self.coinbase_value,
            kind: self.kind@,
            owed_sats: self.owed_sats,
            split: amounts_view(self.split@),
            pool_sats: self.pool_sats,
            settled: self.settled,
            submit: self.submit@,
            gateway: self.gateway@,
            unpaid: amounts_view(self.unpaid@),
            carry_paid: amounts_view(self.carry_paid@),
            snapshot: self.snapshot@,
            carried: self.carried,
        }
    }
}

/// Records as mathematical values.
pub open spec fn records_view(v: Seq<BlockRecord>) -> Seq<RecordView> {
    Seq::new(v.len(), |i: int| v[i]@)
}

/// A copy of named amounts.
pub fn copy_amounts(v: &Vec<(String, u64)>) -> (r: Vec<(String, u64)>)
    ensures
        amounts_view(r@) == amounts_view(v@),
{
    let mut r: Vec<(String, u64)> = Vec::new();
    let mut i: usize = 0;
    while i < v.len()
        invariant
            i <= v@.len(),
            r@.len() == i,
            forall|j: int|
                0 <= j < i ==> (#[trigger] r@[j]).0@ == v@[j].0@ && r@[j].1 == v@[j].1,
        decreases v@.len() - i,
    {
        r.push((v[i].0.clone(), v[i].1));
        i = i + 1;
    }
    assert(amounts_view(r@) =~= amounts_view(v@));
    r
}

impl BlockRecord {
    /// A copy of the record.
    pub fn duplicate(&self) -> (r: BlockRecord)
        ensures
            r@ == self@,
    {
        BlockRecord {
            ts: self.ts,
            height: self.height,
            hash: self.hash.clone(),
            finder: match &self.finder {
                Some(s) => Some(s.clone()),
                None => None,
            },
            coinbase_value: self.coinbase_value,
            kind: self.kind.clone(),
            owed_sats: self.owed_sats,
            split: copy_amounts(&self.split),
            pool_sats: self.pool_sats,
            settled: self.settled,
            submit: self.submit.clone(),
            gateway: self.gateway.clone(),
            unpaid: copy_amounts(&self.unpaid),
            carry_paid: copy_amounts(&self.carry_paid),
            snapshot: self.snapshot.clone(),
            carried: self.carried,
        }
    }
}

/// Where a block is recorded, or the number of records.
pub open spec fn record_index(v: Seq<RecordView>, hash: Seq<char>) -> nat
    decreases v.len(),
{
    if v.len() == 0 || v[0].hash == hash {
        0
    } else {
        1 + record_index(v.drop_first(), hash)
    }
}

/// The records after one more line of the log: a line about a known block replaces its record.
pub open spec fn with_line(v: Seq<RecordView>, r: RecordView) -> Seq<RecordView> {
    let i = record_index(v, r.hash);
    if i < v.len() {
        v.update(i as int, r)
    } else {
        v.push(r)
    }
}

/// The records that the lines of the log stand for.
pub open spec fn log_records(lines: Seq<RecordView>) -> Seq<RecordView>
    decreases lines.len(),
{
    if lines.len() == 0 {
        Seq::empty()
    } else {
        with_line(log_records(lines.drop_last()), lines.last())
    }
}

/// Whether no block is recorded twice.
pub open spec fn distinct_hashes(v: Seq<RecordView>) -> bool {
    forall|i: int, j: int|
        0 <= i < j < v.len() ==> (#[trigger] v[i]).hash != (#[trigger] v[j]).hash
}

pub proof fn lemma_record_index(v: Seq<RecordView>, hash: Seq<char>)
    ensures
        record_index(v, hash) <= v.len(),
        record_index(v, hash) < v.len() ==> v[record_index(v, hash) as int].hash == hash,
        forall|i: int| 0 <= i < record_index(v, hash) ==> (#[trigger] v[i]).hash != hash,
    decreases v.len(),
{
    if v.len() > 0 && v[0].hash != hash {
        let t = v.drop_first();
        lemma_record_index(t, hash);
        assert forall|i: int| 0 <= i < record_index(v, hash) implies (#[trigger] v[i]).hash
            != hash by {
            if i > 0 {
                assert(t[i - 1] == v[i]);
            }
        }
    }
}

/// The log yields each block once, with its latest line; and the records it already had keep
/// their places when more lines come.
pub proof fn lemma_log_records(lines: Seq<RecordView>)
    ensures
        distinct_hashes(log_records(lines)),
        forall|i: int|
            0 <= i < lines.len() ==> exists|k: int|
                0 <= k < log_records(lines).len() && (#[trigger] log_records(lines)[k]).hash == (
                #[trigger] lines[i]).hash,
        lines.len() > 0 ==> log_records(lines).contains(lines.last()),
        lines.len() > 0 ==> forall|k: int|
            0 <= k < log_records(lines.drop_last()).len() && log_records(lines.drop_last())[k].hash
                != lines.last().hash ==> #[trigger] log_records(lines)[k] == log_records(
                lines.drop_last(),
            )[k],
    decreases lines.len(),
{
    if lines.len() > 0 {
        let init = lines.drop_last();
        lemma_log_records(init);
        let v = log_records(init);
        let r = lines.last();
        let n = log_records(lines);
        let at = record_index(v, r.hash) as int;
        lemma_record_index(v, r.hash);
        assert forall|i: int, j: int| 0 <= i < j < n.len() implies (#[trigger] n[i]).hash != (
        #[trigger] n[j]).hash by {
            if at < v.len() {
                assert(v[i].hash != v[j].hash);
            } else if j < v.len() {
                assert(v[i].hash != v[j].hash);
            } else {
                assert(v[i].hash != r.hash);
            }
        }
        assert forall|i: int| 0 <= i < lines.len() implies exists|k: int|
            0 <= k < n.len() && (#[trigger] n[k]).hash == (#[trigger] lines[i]).hash by {
            if i < init.len() {
                assert(init[i] == lines[i]);
                let k = choose|k: int|
                    0 <= k < v.len() && (#[trigger] v[k]).hash == init[i].hash;
                assert(n[k].hash == lines[i].hash);
            } else {
                let k = if at < v.len() {
                    at
                } else {
                    v.len() as int
                };
                assert(n[k] == r);
            }
        }
        let k = if at < v.len() {
            at
        } else {
            v.len() as int
        };
        assert(n[k] == r);
    }
}

/// Reads the lines of the block log: each block once, in the order they were first seen, with
/// its latest line.
pub fn fold_log(lines: &Vec<BlockRecord>) -> (out: Vec<BlockRecord>)
    ensures
        records_view(out@) == log_records(records_view(lines@)),
{
    let mut out: Vec<BlockRecord> = Vec::new();
    let mut index: StringHashMap<usize> = StringHashMap::new();
    let ghost lv = records_view(lines@);
    let mut i: usize = 0;
    assert(records_view(out@) =~= Seq::empty());
    while i < lines.len()
        invariant
            i <= lines@.len(),
            lv == records_view(lines@),
            records_view(out@) == log_records(lv.take(i as int)),
            distinct_hashes(records_view(out@)),
            forall|h: Seq<char>| #[trigger]
                index@.contains_key(h) ==> index@[h] < out@.len() && out@[index@[h] as int].hash@
                    == h,
            forall|k: int| 0 <= k < out@.len() ==> index@.contains_key((#[trigger] out@[k]).hash@),
        decreases lines@.len() - i,
    {
        let r: BlockRecord = lines[i].duplicate();
        let ghost before = records_view(out@);
        proof {
            assert(lv.take(i + 1).drop_last() =~= lv.take(i as int));
            lemma_record_index(before, r@.hash);
            lemma_log_records(lv.take(i + 1));
        }
        let at: Option<usize> = match index.get(r.hash.as_str()) {
            Some(k) => Some(*k),
            None => None,
        };
        match at {
            Some(k) => {
                proof {
                    assert(before[k as int].hash == r@.hash);
                    let f = record_index(before, r@.hash) as int;
                    if f < k {
                        assert(before[f].hash != before[k as int].hash);
                    }
                }
                out.set(k, r);
                assert(records_view(out@) =~= before.update(k as int, lv[i as int]));
                proof {
                    assert forall|j: int| 0 <= j < out@.len() implies index@.contains_key(
                        (#[trigger] out@[j]).hash@,
                    ) by {
                        assert(records_view(out@)[j].hash == before[j].hash);
                    }
                    assert forall|h: Seq<char>| #[trigger]
                        index@.contains_key(h) implies index@[h] < out@.len()
                        && out@[index@[h] as int].hash@ == h by {
                        assert(records_view(out@)[index@[h] as int].hash
                            == before[index@[h] as int].hash);
                    }
                }
            },
            None => {
                proof {
                    let f = record_index(before, r@.hash) as int;
                    if f < before.len() {
                        assert(index@.contains_key(out@[f].hash@));
                    }
                }
                index.insert(r.hash.clone(), out.len());
                out.push(r);
                assert(records_view(out@) =~= before.push(lv[i as int]));
            },
        }
        i = i + 1;
    }
    assert(lv.take(lv.len() as int) =~= lv);
    out
}

/// What the pool holds that belongs to identities, because a coinbase could not pay it.
#[derive(Clone, Debug, PartialEq, Eq)]
pub struct Carry {
    pub owed: NameMap<u64>,
}

/// What is owed after `sats` more to `identity`.
pub open spec fn owed_plus(m: Map<Seq<char>, u64>, identity: Seq<char>, sats: u64) -> Map<
    Seq<char>,
    u64,
> {
    if sats == 0 {
        m
    } else if m.contains_key(identity) {
        m.insert(identity, crate::coinbase::sat_add(m[identity], sats))
    } else {
        m.insert(identity, sats)
    }
}

/// What is owed after `identity` was paid `sats`; nobody is owed nothing.
pub open spec fn owed_minus(m: Map<Seq<char>, u64>, identity: Seq<char>, sats: u64) -> Map<
    Seq<char>,
    u64,
> {
    if !m.contains_key(identity) {
        m
    } else if m[identity] <= sats {
        m.remove(identity)
    } else {
        m.insert(identity, (m[identity] - sats) as u64)
    }
}

/// What named amounts come to, as far as 64 bits can hold it.
pub open spec fn capped_sum(rows: Seq<(Seq<char>, u64)>) -> u64 {
    if amounts_sum(rows) > u64::MAX {
        u64::MAX
    } else {
        amounts_sum(rows) as u64
    }
}

/// Owing and paying the same amount changes nothing.
pub proof fn lemma_owe_and_pay(m: Map<Seq<char>, u64>, identity: Seq<char>, sats: u64)
    requires
        m.contains_key(identity) ==> 0 < m[identity] && m[identity] + sats <= u64::MAX,
        sats > 0,
    ensures
        owed_minus(owed_plus(m, identity, sats), identity, sats) == m,
{
    assert(owed_minus(owed_plus(m, identity, sats), identity, sats) =~= m);
}

impl Carry {
    /// A ledger that owes nothing.
    pub fn new() -> (c: Carry)
        ensures
            c.wf(),
            c.owed@ == Map::<Seq<char>, u64>::empty(),
            c.owed.rows() == Seq::<(Seq<char>, u64)>::empty(),
    {
        Carry { owed: NameMap::new() }
    }

    /// The names are in order.
    pub open spec fn wf(&self) -> bool {
        self.owed.wf()
    }

    /// What is owed to everyone together, saturating.
    pub fn total(&self) -> (t: u64)
        ensures
            t == capped_sum(self.owed.rows()),
    {
        let mut t: u64 = 0;
        let mut i: usize = 0;
        let n: usize = self.owed.len();
        let ghost rows = self.owed.rows();
        while i < n
            invariant
                i <= n == rows.len(),
                rows == self.owed.rows(),
                t == capped_sum(rows.take(i as int)),
            decreases n - i,
        {
            assert(rows.take(i + 1).drop_last() =~= rows.take(i as int));
            t = t.saturating_add(self.owed.value_at(i));
            i = i + 1;
        }
        assert(rows.take(n as int) =~= rows);
        t
    }

    /// Owes `sats` more to `identity`.
    pub fn add(&mut self, identity: &str, sats: u64)
        requires
            old(self).wf(),
        ensures
            final(self).wf(),
            final(self).owed@ == owed_plus(old(self).owed@, identity@, sats),
    {
        if sats == 0 {
            return ;
        }
        let held: u64 = match self.owed.get(identity) {
            Some(x) => x,
            None => 0,
        };
        self.owed.insert(identity, held.saturating_add(sats));
    }

    /// `identity` was paid `sats` of what it is owed.
    pub fn settle(&mut self, identity: &str, sats: u64)
        requires
            old(self).wf(),
        ensures
            final(self).wf(),
            final(self).owed@ == owed_minus(old(self).owed@, identity@, sats),
    {
        if let Some(held) = self.owed.get(identity) {
            if held <= sats {
                self.owed.remove(identity);
            } else {
                self.owed.insert(identity, held - sats);
            }
        }
    }
}

/// What is owed after payments, in turn.
pub open spec fn after_paid(m: Map<Seq<char>, u64>, v: Seq<(Seq<char>, u64)>) -> Map<
    Seq<char>,
    u64,
>
    decreases v.len(),
{
    if v.len() == 0 {
        m
    } else {
        owed_minus(after_paid(m, v.drop_last()), v.last().0, v.last().1)
    }
}

/// What is owed after more is owed, in turn.
pub open spec fn after_owed(m: Map<Seq<char>, u64>, v: Seq<(Seq<char>, u64)>) -> Map<
    Seq<char>,
    u64,
>
    decreases v.len(),
{
    if v.len() == 0 {
        m
    } else {
        owed_plus(after_owed(m, v.drop_last()), v.last().0, v.last().1)
    }
}

/// The newest record of a block that is settled and not yet carried.
pub open spec fn uncarried_index(v: Seq<RecordView>, hash: Seq<char>) -> Option<int>
    decreases v.len(),
{
    if v.len() == 0 {
        None
    } else if v.last().hash == hash && v.last().settled && !v.last().carried {
        Some(v.len() - 1)
    } else {
        uncarried_index(v.drop_last(), hash)
    }
}

/// The newest record of a block.
pub open spec fn newest_index(v: Seq<RecordView>, hash: Seq<char>) -> Option<int>
    decreases v.len(),
{
    if v.len() == 0 {
        None
    } else if v.last().hash == hash {
        Some(v.len() - 1)
    } else {
        newest_index(v.drop_last(), hash)
    }
}

/// Finds the newest record of a block.
pub fn find_block(blocks: &Vec<BlockRecord>, hash: &str) -> (r: Option<usize>)
    ensures
        r.is_some() == newest_index(records_view(blocks@), hash@).is_some(),
        r matches Some(i) ==> i < blocks@.len() && newest_index(records_view(blocks@), hash@)
            == Some(i as int) && blocks@[i as int].hash@ == hash@,
{
    let mut i: usize = blocks.len();
    let ghost v = records_view(blocks@);
    assert(v.take(v.len() as int) =~= v);
    while i > 0
        invariant
            i <= blocks@.len(),
            v == records_view(blocks@),
            newest_index(v, hash@) == newest_index(v.take(i as int), hash@),
        decreases i,
    {
        assert(v.take(i as int).drop_last() =~= v.take(i - 1));
        if text_eq(blocks[i - 1].hash.as_str(), hash) {
            return Some(i - 1);
        }
        i = i - 1;
    }
    None
}

fn find_uncarried(blocks: &Vec<BlockRecord>, hash: &str) -> (r: Option<usize>)
    ensures
        r.is_some() == uncarried_index(records_view(blocks@), hash@).is_some(),
        r matches Some(i) ==> i < blocks@.len() && uncarried_index(records_view(blocks@), hash@)
            == Some(i as int),
{
    let mut i: usize = blocks.len();
    let ghost v = records_view(blocks@);
    assert(v.take(v.len() as int) =~= v);
    while i > 0
        invariant
            i <= blocks@.len(),
            v == records_view(blocks@),
            uncarried_index(v, hash@) == uncarried_index(v.take(i as int), hash@),
        decreases i,
    {
        assert(v.take(i as int).drop_last() =~= v.take(i - 1));
        if text_eq(blocks[i - 1].hash.as_str(), hash) && blocks[i - 1].settled && !blocks[i
            - 1].carried {
            return Some(i - 1);
        }
        i = i - 1;
    }
    None
}

proof fn lemma_newest_index(v: Seq<RecordView>, hash: Seq<char>)
    ensures
        newest_index(v, hash) matches Some(i) ==> 0 <= i < v.len() && v[i].hash == hash,
        uncarried_index(v, hash) matches Some(i) ==> 0 <= i < v.len() && v[i].hash == hash
            && v[i].settled && !v[i].carried,
        uncarried_index(v, hash).is_some() ==> newest_index(v, hash).is_some(),
        newest_index(v, hash).is_none() ==> forall|i: int|
            0 <= i < v.len() ==> (#[trigger] v[i]).hash != hash,
        uncarried_index(v, hash).is_none() ==> forall|i: int|
            0 <= i < v.len() && (#[trigger] v[i]).hash == hash && v[i].settled ==> v[i].carried,
    decreases v.len(),
{
    if v.len() > 0 {
        lemma_newest_index(v.drop_last(), hash);
        let init = v.drop_last();
        assert forall|i: int| 0 <= i < init.len() implies init[i] == v[i] by {
        }
        if newest_index(v, hash).is_none() {
            assert forall|i: int| 0 <= i < v.len() implies (#[trigger] v[i]).hash != hash by {
                if i < init.len() {
                    assert(init[i].hash != hash);
                }
            }
        }
        if uncarried_index(v, hash).is_none() {
            assert forall|i: int|
                0 <= i < v.len() && (#[trigger] v[i]).hash == hash && v[i].settled implies
                v[i].carried by {
                if i < init.len() {
                    assert(init[i].hash == hash);
                }
            }
        }
    }
}

/// The records with the newest of a block marked as carried.
pub open spec fn marked_carried(v: Seq<RecordView>, hash: Seq<char>) -> Seq<RecordView> {
    match newest_index(v, hash) {
        Some(i) => v.update(i, RecordView { carried: true, ..v[i] }),
        None => v,
    }
}

/// Once a block is settled in the main chain, what its coinbase could not pay is carried and
/// the carry it did pay is deducted, and the block is marked. Returns whether it was.
pub fn apply_carry_for_settled(
    blocks: &mut Vec<BlockRecord>,
    carry: &mut Carry,
    hash: &str,
    carry_forward: bool,
) -> (applied: bool)
    requires
        old(carry).wf(),
    ensures
        final(carry).wf(),
        applied == (carry_forward && uncarried_index(
            records_view(old(blocks)@),
            hash@,
        ).is_some()),
        !applied ==> records_view(final(blocks)@) == records_view(old(blocks)@)
            && final(carry).owed@ == old(carry).owed@,
        applied ==> ({
            let v = records_view(old(blocks)@);
            let r = v[uncarried_index(v, hash@).unwrap()];
            &&& records_view(final(blocks)@) == marked_carried(v, hash@)
            &&& final(carry).owed@ == after_owed(
                after_paid(old(carry).owed@, r.carry_paid),
                r.unpaid,
            )
            &&& forall|name: Seq<char>|
                ({
                    let before = owed_to(old(carry).owed@, name) as int;
                    let after = #[trigger] owed_to(final(carry).owed@, name);
                    before + listed_for(r.unpaid, name) <= u64::MAX ==> {
                        &&& before >= listed_for(r.carry_paid, name) ==> after == before
                            - listed_for(r.carry_paid, name) + listed_for(r.unpaid, name)
                        &&& before <= listed_for(r.carry_paid, name) ==> after == listed_for(
                            r.unpaid,
                            name,
                        )
                    }
                })
        }),
{
    if !carry_forward {
        return false;
    }
    let ghost v = records_view(blocks@);
    proof {
        lemma_newest_index(v, hash@);
    }
    let i: usize = match find_uncarried(blocks, hash) {
        Some(i) => i,
        None => {
            return false;
        },
    };
    let ghost r = v[i as int];
    let ghost m = carry.owed@;
    assert(r == blocks@[i as int]@);
    let mut k: usize = 0;
    assert(r.carry_paid.take(0) =~= Seq::empty());
    while k < blocks[i].carry_paid.len()
        invariant
            i < blocks@.len(),
            r == blocks@[i as int]@,
            k <= r.carry_paid.len(),
            carry.wf(),
            carry.owed@ == after_paid(m, r.carry_paid.take(k as int)),
        decreases r.carry_paid.len() - k,
    {
        assert(r.carry_paid.take(k + 1).drop_last() =~= r.carry_paid.take(k as int));
        carry.settle(blocks[i].carry_paid[k].0.as_str(), blocks[i].carry_paid[k].1);
        k = k + 1;
    }
    assert(r.carry_paid.take(k as int) =~= r.carry_paid);
    let ghost paid = carry.owed@;
    let mut k: usize = 0;
    assert(r.unpaid.take(0) =~= Seq::empty());
    while k < blocks[i].unpaid.len()
        invariant
            i < blocks@.len(),
            r == blocks@[i as int]@,
            k <= r.unpaid.len(),
            carry.wf(),
            carry.owed@ == after_owed(paid, r.unpaid.take(k as int)),
        decreases r.unpaid.len() - k,
    {
        assert(r.unpaid.take(k + 1).drop_last() =~= r.unpaid.take(k as int));
        carry.add(blocks[i].unpaid[k].0.as_str(), blocks[i].unpaid[k].1);
        k = k + 1;
    }
    assert(r.unpaid.take(k as int) =~= r.unpaid);
    proof {
        assert forall|name: Seq<char>|
            ({
                let before = owed_to(m, name) as int;
                let after = #[trigger] owed_to(carry.owed@, name);
                before + listed_for(r.unpaid, name) <= u64::MAX ==> {
                    &&& before >= listed_for(r.carry_paid, name) ==> after == before - listed_for(
                        r.carry_paid,
                        name,
                    ) + listed_for(r.unpaid, name)
                    &&& before <= listed_for(r.carry_paid, name) ==> after == listed_for(
                        r.unpaid,
                        name,
                    )
                }
            }) by {
            if owed_to(m, name) + listed_for(r.unpaid, name) <= u64::MAX {
                lemma_settling_conserves_what_is_owed(m, r.carry_paid, r.unpaid, name);
            }
        }
    }
    if let Some(j) = find_block(blocks, hash) {
        let mut b: BlockRecord = blocks[j].duplicate();
        b.carried = true;
        let ghost bv = b@;
        blocks.set(j, b);
        assert(bv =~= (RecordView { carried: true, ..v[j as int] }));
        assert(records_view(blocks@) =~= marked_carried(v, hash@));
    }
    true
}

/// A settled block enters the carry once: where no block is recorded twice, applying it again
/// finds nothing to apply.
pub proof fn lemma_carried_once(v: Seq<RecordView>, hash: Seq<char>)
    requires
        distinct_hashes(v),
        uncarried_index(v, hash).is_some(),
    ensures
        uncarried_index(marked_carried(v, hash), hash).is_none(),
{
    let n = marked_carried(v, hash);
    lemma_newest_index(v, hash);
    lemma_newest_index(n, hash);
    let i = newest_index(v, hash).unwrap();
    if let Some(j) = uncarried_index(n, hash) {
        if j < i {
            assert(v[j].hash != v[i].hash);
        } else if i < j {
            assert(v[i].hash != v[j].hash);
        }
    }
}

/// The newest records, as many as are remembered.
pub open spec fn newest_records(v: Seq<RecordView>) -> Seq<RecordView> {
    if v.len() > MAX_BLOCKS {
        v.skip(v.len() - MAX_BLOCKS)
    } else {
        v
    }
}

/// Blocks stay recorded once: a record of a block that is not among the records keeps their hashes
/// distinct, with the oldest forgotten or not.
pub proof fn lemma_new_block_keeps_hashes_distinct(v: Seq<RecordView>, r: RecordView)
    requires
        distinct_hashes(v),
        record_index(v, r.hash) == v.len(),
    ensures
        distinct_hashes(newest_records(v.push(r))),
{
    lemma_record_index(v, r.hash);
    let n = v.push(r);
    assert forall|i: int, j: int| 0 <= i < j < n.len() implies (#[trigger] n[i]).hash != (
    #[trigger] n[j]).hash by {
        assert(n[i] == v[i]);
        if j < v.len() {
            assert(n[j] == v[j]);
        }
    }
}

/// Remembers a block, and forgets the oldest beyond [`MAX_BLOCKS`].
pub fn record_block(blocks: &mut Vec<BlockRecord>, r: BlockRecord)
    ensures
        records_view(final(blocks)@) == newest_records(records_view(old(blocks)@).push(r@)),
        final(blocks)@.len() <= MAX_BLOCKS,
{
    let ghost v = records_view(blocks@).push(r@);
    blocks.push(r);
    assert(records_view(blocks@) =~= v);
    if blocks.len() > MAX_BLOCKS {
        let excess: usize = blocks.len() - MAX_BLOCKS;
        let ghost all = blocks@;
        let kept: Vec<BlockRecord> = blocks.split_off(excess);
        *blocks = kept;
        assert(records_view(blocks@) =~= v.skip(v.len() - MAX_BLOCKS));
    }
}

/// The records with the outcome of submitting a block.
pub open spec fn with_outcome(v: Seq<RecordView>, hash: Seq<char>, outcome: Seq<char>) -> Seq<
    RecordView,
> {
    match newest_index(v, hash) {
        Some(i) => v.update(i, RecordView { submit: outcome, ..v[i] }),
        None => v,
    }
}

/// Notes the outcome of submitting a block on its newest record, which is returned.
pub fn set_outcome(blocks: &mut Vec<BlockRecord>, hash: &str, outcome: &str) -> (r: Option<
    BlockRecord,
>)
    ensures
        records_view(final(blocks)@) == with_outcome(
            records_view(old(blocks)@),
            hash@,
            outcome@,
        ),
        r.is_some() == newest_index(records_view(old(blocks)@), hash@).is_some(),
        r matches Some(b) ==> b@ == records_view(final(blocks)@)[newest_index(
            records_view(old(blocks)@),
            hash@,
        ).unwrap()],
{
    let ghost v = records_view(blocks@);
    match find_block(blocks, hash) {
        Some(j) => {
            let mut b: BlockRecord = blocks[j].duplicate();
            b.submit = outcome.to_owned();
            let copy: BlockRecord = b.duplicate();
            let ghost bv = b@;
            blocks.set(j, b);
            assert(bv =~= (RecordView { submit: outcome@, ..v[j as int] }));
            assert(records_view(blocks@) =~= with_outcome(v, hash@, outcome@));
            Some(copy)
        },
        None => None,
    }
}

/// Blocks for which a record labelled as an orphan is still checked.
pub const ORPHAN_RECHECK: u32 = 100;

/// Whether a kind says that the block is not in the main chain.
pub open spec fn is_labelled(kind: Seq<char>) -> bool {
    "orphan:"@.len() <= kind.len() && kind.take("orphan:"@.len() as int) == "orphan:"@
}

/// A kind labelled as that of an orphan.
pub open spec fn with_label(kind: Seq<char>) -> Seq<char> {
    if is_labelled(kind) {
        kind
    } else {
        "orphan:"@ + kind
    }
}

/// A kind without the label of an orphan.
pub open spec fn without_label(kind: Seq<char>) -> Seq<char> {
    if is_labelled(kind) {
        kind.skip("orphan:"@.len() as int)
    } else {
        kind
    }
}

/// Whether the node is asked for a block at a tip: until it is settled, and where it is labelled as
/// an orphan, for [`ORPHAN_RECHECK`] blocks.
pub open spec fn awaits_check(r: RecordView, tip_height: u32) -> bool {
    !r.settled && (!is_labelled(r.kind) || tip_height <= r.height + ORPHAN_RECHECK)
}

/// The hashes of the blocks that the node is asked for at a tip.
pub open spec fn awaiting(v: Seq<RecordView>, tip_height: u32) -> Seq<Seq<char>>
    decreases v.len(),
{
    if v.len() == 0 {
        Seq::empty()
    } else if awaits_check(v.last(), tip_height) {
        awaiting(v.drop_last(), tip_height).push(v.last().hash)
    } else {
        awaiting(v.drop_last(), tip_height)
    }
}

/// A record after the node told how many confirmations its block has: with any it is settled and
/// no orphan; with fewer than none it is not in the main chain.
pub open spec fn confirmed(r: RecordView, confirmations: i64) -> RecordView {
    if confirmations > 0 {
        RecordView { settled: true, kind: without_label(r.kind), ..r }
    } else if confirmations < 0 && !r.settled {
        RecordView { kind: with_label(r.kind), ..r }
    } else {
        r
    }
}

/// A block that a reorganisation took out of the main chain and another brought back is recorded
/// as if it had never left.
pub proof fn lemma_back_in_the_main_chain(r: RecordView, out: i64, back: i64)
    requires
        out < 0,
        back > 0,
    ensures
        confirmed(confirmed(r, out), back) == confirmed(r, back),
{
    if !is_labelled(r.kind) {
        let n = "orphan:"@.len() as int;
        assert(("orphan:"@ + r.kind).take(n) =~= "orphan:"@);
        assert(("orphan:"@ + r.kind).skip(n) =~= r.kind);
    }
    assert(confirmed(confirmed(r, out), back) =~= confirmed(r, back));
}

fn label_len(kind: &Vec<char>) -> (r: Option<usize>)
    ensures
        r.is_some() == is_labelled(kind@),
        r matches Some(n) ==> n == "orphan:"@.len() && n <= kind@.len(),
{
    let n: usize = chars_of("orphan:").len();
    if kind.len() < n {
        return None;
    }
    let head: Vec<char> = copy_range(kind.as_slice(), 0, n);
    assert(head@ =~= kind@.take(n as int));
    if text_eq(text_of(head.as_slice()).as_str(), "orphan:") {
        Some(n)
    } else {
        None
    }
}

fn label(kind: &str) -> (r: String)
    ensures
        r@ == with_label(kind@),
{
    let chars: Vec<char> = chars_of(kind);
    if label_len(&chars).is_some() {
        return kind.to_owned();
    }
    let mut r: String = "orphan:".to_owned();
    let mut i: usize = 0;
    assert("orphan:"@ + chars@.take(0) =~= "orphan:"@);
    while i < chars.len()
        invariant
            i <= chars@.len(),
            r@ == "orphan:"@ + chars@.take(i as int),
        decreases chars@.len() - i,
    {
        r.push(chars[i]);
        assert("orphan:"@ + chars@.take(i + 1) =~= ("orphan:"@ + chars@.take(i as int)).push(
            chars@[i as int],
        ));
        i = i + 1;
    }
    assert(chars@.take(i as int) =~= chars@);
    r
}

fn unlabel(kind: &str) -> (r: String)
    ensures
        r@ == without_label(kind@),
{
    let chars: Vec<char> = chars_of(kind);
    match label_len(&chars) {
        Some(n) => {
            let rest: Vec<char> = copy_range(chars.as_slice(), n, chars.len());
            assert(rest@ =~= chars@.skip(n as int));
            text_of(rest.as_slice())
        },
        None => kind.to_owned(),
    }
}

/// Tells which blocks the node is to be asked for at a tip, oldest first.
pub fn blocks_to_check(blocks: &Vec<BlockRecord>, tip_height: u32) -> (r: Vec<String>)
    ensures
        texts_view(r@) == awaiting(records_view(blocks@), tip_height),
{
    let mut r: Vec<String> = Vec::new();
    let mut i: usize = 0;
    let ghost v = records_view(blocks@);
    assert(texts_view(r@) =~= awaiting(v.take(0), tip_height));
    while i < blocks.len()
        invariant
            i <= blocks@.len(),
            v == records_view(blocks@),
            texts_view(r@) == awaiting(v.take(i as int), tip_height),
        decreases blocks@.len() - i,
    {
        let b: &BlockRecord = &blocks[i];
        proof {
            assert(v.take(i + 1).drop_last() =~= v.take(i as int));
            assert(v.take(i + 1).last() == b@);
        }
        let recent: bool = tip_height as u64 <= b.height as u64 + ORPHAN_RECHECK as u64;
        if !b.settled && (recent || label_len(&chars_of(b.kind.as_str())).is_none()) {
            let ghost before = texts_view(r@);
            r.push(b.hash.clone());
            assert(texts_view(r@) =~= before.push(b.hash@));
        }
        i = i + 1;
    }
    assert(v.take(v.len() as int) =~= v);
    r
}

/// The records after the node told the confirmations of a block.
pub open spec fn with_confirmations(v: Seq<RecordView>, hash: Seq<char>, confirmations: i64) -> Seq<
    RecordView,
> {
    match newest_index(v, hash) {
        Some(i) => v.update(i, confirmed(v[i], confirmations)),
        None => v,
    }
}

/// Whatever is noted of a block, the blocks stay recorded once.
pub proof fn lemma_notes_keep_hashes_distinct(
    v: Seq<RecordView>,
    hash: Seq<char>,
    outcome: Seq<char>,
    confirmations: i64,
)
    requires
        distinct_hashes(v),
    ensures
        distinct_hashes(marked_carried(v, hash)),
        distinct_hashes(with_outcome(v, hash, outcome)),
        distinct_hashes(with_confirmations(v, hash, confirmations)),
{
    lemma_newest_index(v, hash);
    let c = marked_carried(v, hash);
    let o = with_outcome(v, hash, outcome);
    let f = with_confirmations(v, hash, confirmations);
    assert forall|i: int| 0 <= i < v.len() implies (#[trigger] v[i]).hash == c[i].hash && v[i].hash
        == o[i].hash && v[i].hash == f[i].hash by {}
    assert forall|i: int, j: int| 0 <= i < j < c.len() implies (#[trigger] c[i]).hash != (
    #[trigger] c[j]).hash by {
        assert(v[i].hash != v[j].hash);
    }
    assert forall|i: int, j: int| 0 <= i < j < o.len() implies (#[trigger] o[i]).hash != (
    #[trigger] o[j]).hash by {
        assert(v[i].hash != v[j].hash);
    }
    assert forall|i: int, j: int| 0 <= i < j < f.len() implies (#[trigger] f[i]).hash != (
    #[trigger] f[j]).hash by {
        assert(v[i].hash != v[j].hash);
    }
}

/// Notes the confirmations of a block on its newest record, which is returned where it changed.
pub fn note_confirmations(
    blocks: &mut Vec<BlockRecord>,
    hash: &str,
    confirmations: i64,
) -> (r: Option<BlockRecord>)
    ensures
        records_view(final(blocks)@) == with_confirmations(
            records_view(old(blocks)@),
            hash@,
            confirmations,
        ),
        ({
            let v = records_view(old(blocks)@);
            match newest_index(v, hash@) {
                Some(i) => {
                    &&& r.is_some() == (confirmed(v[i], confirmations) != v[i])
                    &&& r matches Some(b) ==> b@ == confirmed(v[i], confirmations)
                },
                None => r.is_none(),
            }
        }),
{
    let ghost v = records_view(blocks@);
    let j: usize = match find_block(blocks, hash) {
        Some(j) => j,
        None => {
            return None;
        },
    };
    let mut b: BlockRecord = blocks[j].duplicate();
    let kind: String = if confirmations > 0 {
        unlabel(b.kind.as_str())
    } else if confirmations < 0 && !b.settled {
        label(b.kind.as_str())
    } else {
        b.kind.clone()
    };
    let settled: bool = b.settled || confirmations > 0;
    let same: bool = settled == b.settled && text_eq(kind.as_str(), b.kind.as_str());
    b.kind = kind;
    b.settled = settled;
    let ghost bv = b@;
    assert(bv =~= confirmed(v[j as int], confirmations));
    if same {
        assert(bv =~= v[j as int]);
        assert(with_confirmations(v, hash@, confirmations) =~= v);
        return None;
    }
    let copy: BlockRecord = b.duplicate();
    blocks.set(j, b);
    assert(records_view(blocks@) =~= with_confirmations(v, hash@, confirmations));
    Some(copy)
}

/// What is owed to an identity.
pub open spec fn owed_to(m: Map<Seq<char>, u64>, identity: Seq<char>) -> nat {
    if m.contains_key(identity) {
        m[identity] as nat
    } else {
        0
    }
}

proof fn lemma_after_paid(m: Map<Seq<char>, u64>, v: Seq<(Seq<char>, u64)>, name: Seq<char>)
    ensures
        owed_to(after_paid(m, v), name) == if owed_to(m, name) >= listed_for(v, name) {
            owed_to(m, name) - listed_for(v, name)
        } else {
            0
        },
    decreases v.len(),
{
    if v.len() > 0 {
        lemma_after_paid(m, v.drop_last(), name);
    }
}

proof fn lemma_after_owed(m: Map<Seq<char>, u64>, v: Seq<(Seq<char>, u64)>, name: Seq<char>)
    requires
        owed_to(m, name) + listed_for(v, name) <= u64::MAX,
    ensures
        owed_to(after_owed(m, v), name) == owed_to(m, name) + listed_for(v, name),
    decreases v.len(),
{
    if v.len() > 0 {
        lemma_after_owed(m, v.drop_last(), name);
    }
}

proof fn lemma_nobody_is_owed_nothing(
    m: Map<Seq<char>, u64>,
    paid: Seq<(Seq<char>, u64)>,
    unpaid: Seq<(Seq<char>, u64)>,
    name: Seq<char>,
)
    requires
        m.contains_key(name) ==> m[name] > 0,
    ensures
        after_paid(m, paid).contains_key(name) ==> after_paid(m, paid)[name] > 0,
        after_owed(m, unpaid).contains_key(name) ==> after_owed(m, unpaid)[name] > 0,
    decreases paid.len() + unpaid.len(),
{
    if paid.len() > 0 {
        lemma_nobody_is_owed_nothing(m, paid.drop_last(), unpaid, name);
    } else if unpaid.len() > 0 {
        lemma_nobody_is_owed_nothing(m, paid, unpaid.drop_last(), name);
    }
    if unpaid.len() > 0 {
        lemma_nobody_is_owed_nothing(m, Seq::empty(), unpaid.drop_last(), name);
    }
}

/// Settling a block conserves what is owed: afterwards an identity is owed what it was, less all
/// that the block's coinbase paid it of that, and more by all that the coinbase could not pay it.
/// Whoever is owed nothing in the end is not in the ledger.
pub proof fn lemma_settling_conserves_what_is_owed(
    m: Map<Seq<char>, u64>,
    paid: Seq<(Seq<char>, u64)>,
    unpaid: Seq<(Seq<char>, u64)>,
    name: Seq<char>,
)
    requires
        owed_to(m, name) + listed_for(unpaid, name) <= u64::MAX,
    ensures
        ({
            let after = after_owed(after_paid(m, paid), unpaid);
            let before = owed_to(m, name) as int;
            &&& before >= listed_for(paid, name) ==> owed_to(after, name) == before - listed_for(
                paid,
                name,
            ) + listed_for(unpaid, name)
            &&& before <= listed_for(paid, name) ==> owed_to(after, name) == listed_for(
                unpaid,
                name,
            )
            &&& (m.contains_key(name) ==> m[name] > 0) ==> (after.contains_key(name) <==> owed_to(
                after,
                name,
            ) > 0)
        }),
{
    let p = after_paid(m, paid);
    lemma_after_paid(m, paid, name);
    lemma_after_owed(p, unpaid, name);
    if m.contains_key(name) ==> m[name] > 0 {
        lemma_nobody_is_owed_nothing(m, paid, unpaid, name);
        lemma_nobody_is_owed_nothing(p, paid, unpaid, name);
    }
}

/// A list without the entries of a name.
spec fn without(v: Seq<(Seq<char>, u64)>, name: Seq<char>) -> Seq<(Seq<char>, u64)>
    decreases v.len(),
{
    if v.len() == 0 {
        v
    } else if v.last().0 == name {
        without(v.drop_last(), name)
    } else {
        without(v.drop_last(), name).push(v.last())
    }
}

proof fn lemma_without(v: Seq<(Seq<char>, u64)>, name: Seq<char>, other: Seq<char>)
    ensures
        without(v, name).len() <= v.len(),
        amounts_sum(v) == amounts_sum(without(v, name)) + listed_for(v, name),
        listed_for(without(v, name), name) == 0,
        other != name ==> listed_for(without(v, name), other) == listed_for(v, other),
    decreases v.len(),
{
    if v.len() > 0 {
        lemma_without(v.drop_last(), name, other);
        let w = without(v.drop_last(), name);
        assert(w.push(v.last()).drop_last() =~= w);
    }
}

/// Lists that hold the same for each name come to the same.
proof fn lemma_same_for_all(a: Seq<(Seq<char>, u64)>, b: Seq<(Seq<char>, u64)>)
    requires
        forall|name: Seq<char>| #[trigger] listed_for(a, name) == listed_for(b, name),
    ensures
        amounts_sum(a) == amounts_sum(b),
    decreases a.len(), b.len(),
{
    if a.len() == 0 && b.len() == 0 {
    } else {
        let n = if a.len() > 0 {
            a.last().0
        } else {
            b.last().0
        };
        lemma_without(a, n, n);
        lemma_without(b, n, n);
        if a.len() > 0 {
            lemma_without(a.drop_last(), n, n);
        } else {
            lemma_without(b.drop_last(), n, n);
        }
        assert forall|name: Seq<char>| #[trigger]
            listed_for(without(a, n), name) == listed_for(without(b, n), name) by {
            lemma_without(a, n, name);
            lemma_without(b, n, name);
            assert(listed_for(a, name) == listed_for(b, name));
        }
        assert(listed_for(a, n) == listed_for(b, n));
        lemma_same_for_all(without(a, n), without(b, n));
    }
}

proof fn lemma_listed_concat(
    a: Seq<(Seq<char>, u64)>,
    b: Seq<(Seq<char>, u64)>,
    name: Seq<char>,
)
    ensures
        listed_for(a + b, name) == listed_for(a, name) + listed_for(b, name),
        amounts_sum(a + b) == amounts_sum(a) + amounts_sum(b),
    decreases b.len(),
{
    if b.len() == 0 {
        assert(a + b =~= a);
    } else {
        assert((a + b).drop_last() =~= a + b.drop_last());
        lemma_listed_concat(a, b.drop_last(), name);
    }
}

proof fn lemma_listed_once(rows: Seq<(Seq<char>, u64)>, name: Seq<char>)
    requires
        crate::names::in_name_order(rows),
    ensures
        listed_for(rows, name) == owed_to(crate::names::map_of(rows), name),
    decreases rows.len(),
{
    let m = crate::names::map_of(rows);
    if rows.len() > 0 {
        let r = rows.drop_last();
        let q = crate::names::map_of(r);
        let n = rows.len() - 1;
        assert forall|i: int, j: int| 0 <= i < j < r.len() implies crate::text::text_before(
            (#[trigger] r[i]).0,
            (#[trigger] r[j]).0,
        ) by {
            assert(r[i] == rows[i] && r[j] == rows[j]);
        }
        lemma_listed_once(r, name);
        crate::names::lemma_row_unique(rows, n);
        if rows.last().0 == name {
            if q.contains_key(name) {
                let i = crate::names::row_of(r, name);
                assert(rows[i].0 == name);
                crate::names::lemma_row_unique(rows, i);
            }
        } else {
            if q.contains_key(name) {
                let i = crate::names::row_of(r, name);
                assert(r[i] == rows[i]);
                crate::names::lemma_row_unique(rows, i);
                crate::names::lemma_row_unique(r, i);
            }
            if m.contains_key(name) {
                let i = crate::names::row_of(rows, name);
                assert(i < n);
                assert(r[i].0 == name);
            }
        }
    } else {
        assert(!m.contains_key(name));
    }
}

/// The carry total moves by exactly what a settled block lists: with nothing of the carry paid it
/// grows by all that the block could not pay, and where carry was paid, no more than is owed, it
/// shrinks by that. `a` and `b` are the ledger's entries before and after.
pub proof fn lemma_carry_total_moves_by_the_block(
    a: Seq<(Seq<char>, u64)>,
    b: Seq<(Seq<char>, u64)>,
    paid: Seq<(Seq<char>, u64)>,
    unpaid: Seq<(Seq<char>, u64)>,
)
    requires
        crate::names::in_name_order(a),
        crate::names::in_name_order(b),
        crate::names::map_of(b) == after_owed(after_paid(crate::names::map_of(a), paid), unpaid),
        forall|name: Seq<char>| #[trigger]
            listed_for(paid, name) <= owed_to(crate::names::map_of(a), name),
        forall|name: Seq<char>| #[trigger]
            listed_for(unpaid, name) + owed_to(crate::names::map_of(a), name) <= u64::MAX,
    ensures
        amounts_sum(b) + amounts_sum(paid) == amounts_sum(a) + amounts_sum(unpaid),
        paid.len() == 0 ==> amounts_sum(b) == amounts_sum(a) + amounts_sum(unpaid),
{
    let m = crate::names::map_of(a);
    assert forall|name: Seq<char>| #[trigger]
        listed_for(b + paid, name) == listed_for(a + unpaid, name) by {
        lemma_listed_concat(b, paid, name);
        lemma_listed_concat(a, unpaid, name);
        lemma_listed_once(a, name);
        lemma_listed_once(b, name);
        assert(listed_for(unpaid, name) + owed_to(m, name) <= u64::MAX);
        assert(listed_for(paid, name) <= owed_to(m, name));
        lemma_settling_conserves_what_is_owed(m, paid, unpaid, name);
    }
    lemma_same_for_all(b + paid, a + unpaid);
    lemma_listed_concat(b, paid, Seq::empty());
    lemma_listed_concat(a, unpaid, Seq::empty());
}

/// Owing more to one identity leaves the others as they are, and so does paying it.
pub proof fn lemma_others_are_owed_the_same(
    m: Map<Seq<char>, u64>,
    identity: Seq<char>,
    sats: u64,
    other: Seq<char>,
)
    ensures
        other != identity ==> owed_to(owed_plus(m, identity, sats), other) == owed_to(m, other),
        other != identity ==> owed_to(owed_minus(m, identity, sats), other) == owed_to(m, other),
        owed_to(m, identity) + sats <= u64::MAX ==> owed_to(
            owed_plus(m, identity, sats),
            identity,
        ) == owed_to(m, identity) + sats,
        owed_to(m, identity) >= sats ==> owed_to(owed_minus(m, identity, sats), identity) + sats
            == owed_to(m, identity),
        owed_to(m, identity) <= sats ==> !owed_minus(m, identity, sats).contains_key(identity),
{
}

/// A settled block is applied to the ledger if and only if one of its records is settled and not
/// yet carried, and to the newest of these.
pub proof fn lemma_what_is_applied(v: Seq<RecordView>, hash: Seq<char>)
    ensures
        uncarried_index(v, hash).is_some() <==> exists|i: int|
            0 <= i < v.len() && (#[trigger] v[i]).hash == hash && v[i].settled && !v[i].carried,
        uncarried_index(v, hash) matches Some(i) ==> {
            &&& 0 <= i < v.len() && v[i].hash == hash && v[i].settled && !v[i].carried
            &&& forall|j: int|
                i < j < v.len() && (#[trigger] v[j]).hash == hash && v[j].settled ==> v[j].carried
        },
        newest_index(v, hash).is_some() <==> exists|i: int|
            0 <= i < v.len() && (#[trigger] v[i]).hash == hash,
        newest_index(v, hash) matches Some(i) ==> {
            &&& 0 <= i < v.len() && v[i].hash == hash
            &&& forall|j: int| i < j < v.len() ==> (#[trigger] v[j]).hash != hash
        },
    decreases v.len(),
{
    if v.len() > 0 {
        let u = v.drop_last();
        lemma_what_is_applied(u, hash);
        lemma_newest_index(v, hash);
        let n = v.len() - 1;
        assert forall|j: int| 0 <= j < n implies (#[trigger] v[j]) == u[j] by {}
        assert(v[n] == v.last());
        if exists|i: int|
            0 <= i < v.len() && (#[trigger] v[i]).hash == hash && v[i].settled && !v[i].carried {
            let i = choose|i: int|
                0 <= i < v.len() && (#[trigger] v[i]).hash == hash && v[i].settled
                    && !v[i].carried;
            if i < n {
                assert(u[i].hash == hash);
            }
        }
        if exists|i: int| 0 <= i < v.len() && (#[trigger] v[i]).hash == hash {
            let i = choose|i: int| 0 <= i < v.len() && (#[trigger] v[i]).hash == hash;
            if i < n {
                assert(u[i].hash == hash);
            }
        }
    }
}

/// Marking, an outcome and confirmations touch the newest record of the block alone, and in it
/// only what they are about.
pub proof fn lemma_notes_touch_one_record(
    v: Seq<RecordView>,
    hash: Seq<char>,
    outcome: Seq<char>,
    confirmations: i64,
    i: int,
)
    requires
        0 <= i < v.len(),
    ensures
        ({
            let c = marked_carried(v, hash);
            let o = with_outcome(v, hash, outcome);
            let f = with_confirmations(v, hash, confirmations);
            let newest = v[i].hash == hash && forall|j: int|
                i < j < v.len() ==> (#[trigger] v[j]).hash != hash;
            &&& c.len() == v.len() && o.len() == v.len() && f.len() == v.len()
            &&& !newest ==> c[i] == v[i] && o[i] == v[i] && f[i] == v[i]
            &&& newest ==> {
                &&& c[i].carried
                &&& c[i] == (RecordView { carried: c[i].carried, ..v[i] })
                &&& o[i].submit == outcome
                &&& o[i] == (RecordView { submit: o[i].submit, ..v[i] })
                &&& f[i] == (RecordView { settled: f[i].settled, kind: f[i].kind, ..v[i] })
                &&& f[i].settled == (v[i].settled || confirmations > 0)
            }
        }),
{
    lemma_what_is_applied(v, hash);
    let f = with_confirmations(v, hash, confirmations);
    if newest_index(v, hash) == Some(i) {
        assert(f[i] =~= (RecordView { settled: f[i].settled, kind: f[i].kind, ..v[i] }));
    }
}

/// What confirmations make of a kind: a block that is not in the main chain is labelled once, as
/// long as it has not settled, and one in the main chain is not labelled.
pub proof fn lemma_orphans_are_labelled(r: RecordView, confirmations: i64)
    ensures
        ({
            let n = confirmed(r, confirmations);
            &&& confirmations < 0 && !r.settled ==> is_labelled(n.kind) && (n.kind == r.kind
                || n.kind == "orphan:"@ + r.kind)
            &&& confirmations > 0 && !is_labelled(r.kind) ==> n.kind == r.kind
            &&& confirmations > 0 && is_labelled(r.kind) ==> r.kind == "orphan:"@ + n.kind
            &&& confirmations == 0 || (confirmations < 0 && r.settled) ==> n == r
        }),
{
    let label = "orphan:"@;
    let n = confirmed(r, confirmations);
    assert((label + r.kind).take(label.len() as int) =~= label);
    if is_labelled(r.kind) {
        assert(r.kind =~= label + r.kind.skip(label.len() as int));
    }
}

/// The node is asked for a block as long as it has not settled, and for one labelled as an orphan
/// for a hundred blocks; for each in the order recorded, and for no other.
pub proof fn lemma_who_is_checked(v: Seq<RecordView>, tip_height: u32)
    ensures
        awaiting(v, tip_height) == v.filter(
            |r: RecordView|
                !r.settled && (is_labelled(r.kind) ==> tip_height - r.height <= 100),
        ).map_values(|r: RecordView| r.hash),
    decreases v.len(),
{
    reveal(Seq::filter);
    let f = |r: RecordView|
        !r.settled && (is_labelled(r.kind) ==> tip_height - r.height <= 100);
    let h = |r: RecordView| r.hash;
    if v.len() > 0 {
        lemma_who_is_checked(v.drop_last(), tip_height);
        assert(awaiting(v, tip_height) =~= v.filter(f).map_values(h));
    } else {
        assert(awaiting(v, tip_height) =~= v.filter(f).map_values(h));
    }
}

/// Each block of the log is recorded with its latest line.
pub proof fn lemma_latest_lines(lines: Seq<RecordView>, i: int)
    requires
        0 <= i < lines.len(),
        forall|j: int| i < j < lines.len() ==> (#[trigger] lines[j]).hash != lines[i].hash,
    ensures
        log_records(lines).contains(lines[i]),
    decreases lines.len(),
{
    lemma_log_records(lines);
    let n = lines.len() - 1;
    if i == n {
        assert(lines[i] == lines.last());
    } else {
        let l = lines.drop_last();
        assert(l[i] == lines[i]);
        assert forall|j: int| i < j < l.len() implies (#[trigger] l[j]).hash != l[i].hash by {
            assert(l[j] == lines[j]);
        }
        lemma_latest_lines(l, i);
        lemma_record_index(log_records(l), lines.last().hash);
        assert(lines[n].hash != lines[i].hash);
        let k = choose|k: int| 0 <= k < log_records(l).len() && log_records(l)[k] == lines[i];
        assert(log_records(lines)[k] == log_records(l)[k]);
    }
}

/// Ten thousand blocks are remembered, and of more the newest.
pub proof fn lemma_newest_are_kept(v: Seq<RecordView>)
    ensures
        v.len() <= 10_000 ==> newest_records(v) == v,
        v.len() > 10_000 ==> newest_records(v).len() == 10_000 && newest_records(v) == v.skip(
            v.len() - 10_000,
        ),
{
}

} // verus!
