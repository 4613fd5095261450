//! The job slots of a session, and the bound on what a gateway can make the pool hold in them.

use crate::mining::{PowSubmit, MAX_JOB_SLOTS, REJECT_COINBASE_TOO_LARGE};
use crate::verify::{
    absorb_reject, absorb_slot, brings_coinbase, is_share_outcome, job_of, sections_bytes, verify,
    Absorbed, JobSlot, Policy, SlotView, VerifiedShare, MAX_SLOT_BYTES,
};
use vstd::prelude::*;

verus! {

/// Slots whose coinbase sections stay resident.
pub const MAX_LIVE_SLOTS: usize = 16;

/// The job slots of a session.
pub struct SlotTable {
    slots: Vec<JobSlot>,
    /// Slots in order of their last job change, oldest first.
    live: Vec<usize>,
    /// Coinbase section bytes held across all slots.
    bytes: usize,
}

/// What a [`SlotTable`] holds.
#[verifier::ext_equal]
pub struct TableView {
    pub slots: Seq<SlotView>,
    /// Slots in order of their last job change, oldest first.
    pub live: Seq<usize>,
}

/// What slots hold.
pub open spec fn slots_view(v: Seq<JobSlot>) -> Seq<SlotView> {
    Seq::new(v.len(), |i: int| v[i]@)
}

/// Coinbase bytes of a slot.
pub open spec fn slot_bytes(s: SlotView) -> nat {
    sections_bytes(s.coinbases, 256)
}

/// Coinbase bytes across slots.
pub open spec fn held_bytes(v: Seq<SlotView>) -> nat
    decreases v.len(),
{
    if v.len() == 0 {
        0
    } else {
        held_bytes(v.drop_last()) + slot_bytes(v.last())
    }
}

/// A list without a value.
pub open spec fn without(v: Seq<usize>, x: usize) -> Seq<usize>
    decreases v.len(),
{
    if v.len() == 0 {
        Seq::empty()
    } else if v.last() == x {
        without(v.drop_last(), x)
    } else {
        without(v.drop_last(), x).push(v.last())
    }
}

impl View for SlotTable {
    type V = TableView;

    closed spec fn view(&self) -> TableView {
        TableView { slots: slots_view(self.slots@), live: self.live@ }
    }
}

impl TableView {
    /// Nothing in any slot.
    pub open spec fn empty() -> TableView {
        TableView {
            slots: Seq::new(MAX_JOB_SLOTS as nat, |i: int| SlotView::empty()),
            live: Seq::empty(),
        }
    }

    /// The live list is short, names slots, and names none twice.
    pub open spec fn wf(self) -> bool {
        &&& self.slots.len() == MAX_JOB_SLOTS
        &&& self.live.len() <= MAX_LIVE_SLOTS
        &&& self.live.no_duplicates()
        &&& forall|i: int| 0 <= i < self.live.len() ==> (#[trigger] self.live[i]) < MAX_JOB_SLOTS
    }

    /// The table with one slot changed.
    pub open spec fn with_slot(self, i: usize, s: SlotView) -> TableView {
        TableView { slots: self.slots.update(i as int, s), ..self }
    }

    /// The table after the slot `i` started a new job: the slot that has gone longest without one
    /// loses its sections once more than [`MAX_LIVE_SLOTS`] are live.
    pub open spec fn touched(self, i: usize) -> TableView {
        let live = without(self.live, i).push(i);
        if live.len() > MAX_LIVE_SLOTS {
            let old = live[0] as int;
            TableView {
                slots: self.slots.update(
                    old,
                    SlotView { coinbases: Map::empty(), ..self.slots[old] },
                ),
                live: live.drop_first(),
            }
        } else {
            TableView { slots: self.slots, live }
        }
    }

    /// The table after a share's sections have been folded in, before the budget is held.
    pub open spec fn absorbed(self, i: usize, s: PowSubmit) -> TableView {
        let slot = self.slots[i as int];
        let t = self.with_slot(i, absorb_slot(slot, s));
        if slot.with_job(job_of(s)) != slot {
            t.touched(i)
        } else {
            t
        }
    }

    /// Whether folding a share's sections in would exceed the budget.
    pub open spec fn over_budget(self, i: usize, s: PowSubmit, budget: usize) -> bool {
        brings_coinbase(self.slots[i as int], s).is_some() && held_bytes(
            self.absorbed(i, s).slots,
        ) > budget
    }

    /// The reject code of a share whose sections are refused.
    pub open spec fn sections_reject(self, i: usize, s: PowSubmit, budget: usize) -> Option<u16> {
        if absorb_reject(self.slots[i as int], s).is_some() {
            absorb_reject(self.slots[i as int], s)
        } else if self.over_budget(i, s, budget) {
            Some(REJECT_COINBASE_TOO_LARGE)
        } else {
            None
        }
    }

    /// The table after a share's sections were taken or refused. A section over the budget goes;
    /// the job it came with stays.
    pub open spec fn after_sections(self, i: usize, s: PowSubmit, budget: usize) -> TableView {
        if absorb_reject(self.slots[i as int], s).is_some() {
            self
        } else if self.over_budget(i, s, budget) {
            let t = self.absorbed(i, s);
            let slot = t.slots[i as int];
            t.with_slot(
                i,
                SlotView {
                    coinbases: slot.coinbases.remove(
                        brings_coinbase(self.slots[i as int], s).unwrap(),
                    ),
                    ..slot
                },
            )
        } else {
            self.absorbed(i, s)
        }
    }
}

proof fn lemma_held_update(v: Seq<SlotView>, i: int, s: SlotView)
    requires
        0 <= i < v.len(),
    ensures
        held_bytes(v.update(i, s)) == held_bytes(v) - slot_bytes(v[i]) + slot_bytes(s),
        slot_bytes(v[i]) <= held_bytes(v),
    decreases v.len(),
{
    let u = v.update(i, s);
    if i == v.len() - 1 {
        assert(u.drop_last() =~= v.drop_last());
    } else {
        lemma_held_update(v.drop_last(), i, s);
        assert(u.drop_last() =~= v.drop_last().update(i, s));
    }
}

proof fn lemma_held_bound(v: Seq<SlotView>)
    requires
        forall|i: int| 0 <= i < v.len() ==> slot_bytes(#[trigger] v[i]) <= MAX_SLOT_BYTES,
    ensures
        held_bytes(v) <= MAX_SLOT_BYTES * v.len(),
    decreases v.len(),
{
    if v.len() > 0 {
        assert forall|i: int| 0 <= i < v.drop_last().len() implies slot_bytes(
            #[trigger] v.drop_last()[i],
        ) <= MAX_SLOT_BYTES by {
            assert(v.drop_last()[i] == v[i]);
        }
        lemma_held_bound(v.drop_last());
        assert(slot_bytes(v[v.len() - 1]) <= MAX_SLOT_BYTES);
    }
}

proof fn lemma_empty_bytes(n: nat)
    ensures
        sections_bytes(Map::empty(), n) == 0,
    decreases n,
{
    if n > 0 {
        lemma_empty_bytes((n - 1) as nat);
    }
}

proof fn lemma_remove_bytes(m: Map<u8, crate::mining::HalvesView>, id: u8, n: nat)
    requires
        n <= 256,
    ensures
        sections_bytes(m.remove(id), n) <= sections_bytes(m, n),
        sections_bytes(m.remove(id), n) <= sections_bytes(
            m.insert(id, m[id]).remove(id),
            n,
        ),
    decreases n,
{
    assert(m.insert(id, m[id]).remove(id) =~= m.remove(id));
    if n > 0 {
        lemma_remove_bytes(m, id, (n - 1) as nat);
    }
}

proof fn lemma_without(v: Seq<usize>, x: usize)
    requires
        v.no_duplicates(),
    ensures
        without(v, x).no_duplicates(),
        !without(v, x).contains(x),
        without(v, x).len() <= v.len(),
        forall|y: usize| #[trigger] without(v, x).contains(y) ==> v.contains(y),
    decreases v.len(),
{
    if v.len() > 0 {
        let w = v.drop_last();
        let last = v.last();
        assert(w.no_duplicates());
        lemma_without(w, x);
        assert(!w.contains(last)) by {
            if w.contains(last) {
                let k = choose|k: int| 0 <= k < w.len() && w[k] == last;
                assert(v[k] == v[v.len() - 1]);
            }
        }
        let r = without(w, x);
        assert forall|y: usize| #[trigger] without(v, x).contains(y) implies v.contains(y) by {
            if r.contains(y) {
                assert(w.contains(y));
                let k = choose|k: int| 0 <= k < w.len() && w[k] == y;
                assert(v[k] == y);
            } else {
                assert(y == last);
                assert(v[v.len() - 1] == y);
            }
        }
        if last != x {
            assert(!r.contains(last));
            assert(r.push(last).no_duplicates());
            assert(!r.push(last).contains(x));
        }
    }
}

/// What a session holds stays within its budget, whatever sections shares bring, and no more than
/// [`MAX_LIVE_SLOTS`] slots are live.
pub proof fn lemma_budget_holds(t: TableView, i: usize, s: PowSubmit, budget: usize)
    requires
        t.wf(),
        i < MAX_JOB_SLOTS,
        held_bytes(t.slots) <= budget,
    ensures
        held_bytes(t.after_sections(i, s, budget).slots) <= budget,
        t.after_sections(i, s, budget).wf(),
{
    lemma_after_sections(t, i, s, budget);
    let slot = t.slots[i as int];
    let a = t.absorbed(i, s);
    if absorb_reject(slot, s).is_none() {
        let moved = slot.with_job(job_of(s));
        let taken = absorb_slot(slot, s);
        let mid = t.with_slot(i, taken);
        lemma_held_update(t.slots, i as int, taken);
        lemma_empty_bytes(256);
        if brings_coinbase(slot, s).is_none() {
            if s.coinbase.is_some() {
                let c = s.coinbase.unwrap();
                assert(moved.coinbases.insert(c.coinbase_id, c.halves()) =~= moved.coinbases);
            }
            assert(slot_bytes(taken) == slot_bytes(moved));
            assert(held_bytes(mid.slots) <= budget);
        }
        if moved != slot {
            lemma_touched_bytes(mid, i);
        }
        if t.over_budget(i, s, budget) {
            let id = brings_coinbase(slot, s).unwrap();
            let c = s.coinbase.unwrap();
            let kept = a.slots[i as int];
            assert(kept == taken);
            lemma_held_update(a.slots, i as int, SlotView {
                coinbases: kept.coinbases.remove(id),
                ..kept
            });
            assert(taken.coinbases.remove(id) =~= moved.coinbases.remove(id));
            lemma_remove_bytes(moved.coinbases, id, 256);
        }
    }
}

/// Evicting can only lower what is held, and never touches the slot that just started a job.
proof fn lemma_touched_bytes(t: TableView, i: usize)
    requires
        t.wf(),
        i < MAX_JOB_SLOTS,
    ensures
        held_bytes(t.touched(i).slots) <= held_bytes(t.slots),
        t.touched(i).slots[i as int] == t.slots[i as int],
        t.touched(i).wf(),
{
    lemma_empty_bytes(256);
    lemma_without(t.live, i);
    let live = without(t.live, i).push(i);
    assert(live.no_duplicates());
    assert forall|k: int| 0 <= k < live.len() implies (#[trigger] live[k]) < MAX_JOB_SLOTS by {
        if k < live.len() - 1 {
            assert(without(t.live, i).contains(live[k]));
            assert(t.live.contains(live[k]));
        }
    }
    if live.len() > MAX_LIVE_SLOTS {
        let old = live[0];
        assert(without(t.live, i).contains(old));
        assert(old != i);
        lemma_held_update(
            t.slots,
            old as int,
            SlotView { coinbases: Map::empty(), ..t.slots[old as int] },
        );
        assert(live.drop_first().no_duplicates());
    }
}

proof fn lemma_after_sections(t: TableView, i: usize, s: PowSubmit, budget: usize)
    requires
        t.wf(),
        i < MAX_JOB_SLOTS,
    ensures
        t.absorbed(i, s).wf(),
        t.after_sections(i, s, budget).wf(),
{
    let slot = t.slots[i as int];
    let mid = t.with_slot(i, absorb_slot(slot, s));
    lemma_touched_bytes(mid, i);
}

impl SlotTable {
    /// The table is well-formed, and the running count is what is held.
    pub closed spec fn wf(&self) -> bool {
        &&& self@.wf()
        &&& forall|i: int| 0 <= i < self.slots@.len() ==> (#[trigger] self.slots@[i]).wf()
        &&& self.bytes == held_bytes(self@.slots)
    }

    /// Empty slots.
    pub fn new() -> (t: SlotTable)
        ensures
            t.wf(),
            t@ == TableView::empty(),
    {
        let mut slots: Vec<JobSlot> = Vec::new();
        let mut i: usize = 0;
        while i < MAX_JOB_SLOTS
            invariant
                i <= MAX_JOB_SLOTS,
                slots@.len() == i,
                forall|k: int|
                    0 <= k < i ==> (#[trigger] slots@[k]).wf() && slots@[k]@ == SlotView::empty(),
                held_bytes(slots_view(slots@)) == 0,
            decreases MAX_JOB_SLOTS - i,
        {
            let ghost before = slots_view(slots@);
            slots.push(JobSlot::default());
            proof {
                lemma_empty_bytes(256);
                assert(slots_view(slots@).drop_last() =~= before);
            }
            i = i + 1;
        }
        let t = SlotTable { slots, live: Vec::new(), bytes: 0 };
        assert(t@ =~= TableView::empty());
        t
    }

    /// How many slots there are.
    pub fn len(&self) -> (n: usize)
        requires
            self.wf(),
        ensures
            n == MAX_JOB_SLOTS,
            n == self@.slots.len(),
    {
        self.slots.len()
    }

    /// Coinbase bytes held across all slots.
    pub fn coinbase_bytes(&self) -> (n: usize)
        requires
            self.wf(),
        ensures
            n == held_bytes(self@.slots),
    {
        self.bytes
    }

    /// The height and the coinbaser of a slot's job.
    pub fn job_terms(&self, i: usize) -> (r: Option<(u32, u8)>)
        requires
            self.wf(),
            i < MAX_JOB_SLOTS,
        ensures
            r == match self@.slots[i as int].job {
                Some(j) => Some((j.height, j.coinbaser_id)),
                None => None,
            },
    {
        self.slots[i].job_terms()
    }

    /// Notes that the slot `i` just started a new job, and drops the sections of the slot that
    /// has gone longest without one once more than [`MAX_LIVE_SLOTS`] are live.
    fn touch_slot(&mut self, i: usize)
        requires
            old(self)@.wf(),
            forall|k: int| 0 <= k < old(self).slots@.len() ==> (#[trigger] old(self).slots@[k]).wf(),
            i < MAX_JOB_SLOTS,
        ensures
            final(self)@ == old(self)@.touched(i),
            final(self).slots@.len() == old(self).slots@.len(),
            forall|k: int|
                0 <= k < final(self).slots@.len() ==> (#[trigger] final(self).slots@[k]).wf(),
    {
        let ghost before = self@;
        let mut live: Vec<usize> = Vec::new();
        let mut k: usize = 0;
        assert(self.live@.take(0) =~= Seq::empty());
        while k < self.live.len()
            invariant
                k <= self.live@.len(),
                live@ == without(self.live@.take(k as int), i),
            decreases self.live@.len() - k,
        {
            let x: usize = self.live[k];
            assert(self.live@.take(k + 1).drop_last() =~= self.live@.take(k as int));
            if x != i {
                live.push(x);
            }
            k = k + 1;
        }
        assert(self.live@.take(self.live@.len() as int) =~= self.live@);
        proof {
            lemma_without(self.live@, i);
        }
        live.push(i);
        if live.len() > MAX_LIVE_SLOTS {
            let ghost all = live@;
            let old_slot: usize = live.remove(0);
            proof {
                assert(live@ =~= all.drop_first());
                assert(without(self.live@, i).contains(all[0]));
                assert(self.live@.contains(old_slot));
            }
            let ghost prior = self.slots@;
            self.slots[old_slot].evict_sections();
            proof {
                assert(slots_view(self.slots@) =~= slots_view(prior).update(
                    old_slot as int,
                    SlotView { coinbases: Map::empty(), ..slots_view(prior)[old_slot as int] },
                ));
            }
        }
        self.live = live;
        assert(self@ =~= before.touched(i));
    }

    /// Adds up what is held.
    fn recount(&mut self)
        requires
            old(self)@.slots.len() == MAX_JOB_SLOTS,
            forall|k: int| 0 <= k < old(self).slots@.len() ==> (#[trigger] old(self).slots@[k]).wf(),
        ensures
            final(self).slots == old(self).slots,
            final(self).live == old(self).live,
            final(self).bytes == held_bytes(old(self)@.slots),
    {
        let ghost v = self@.slots;
        let mut n: usize = 0;
        let mut k: usize = 0;
        assert(v.take(0) =~= Seq::empty());
        while k < self.slots.len()
            invariant
                k <= self.slots@.len() == MAX_JOB_SLOTS,
                v == slots_view(self.slots@),
                forall|j: int| 0 <= j < self.slots@.len() ==> (#[trigger] self.slots@[j]).wf(),
                n == held_bytes(v.take(k as int)),
                n <= MAX_SLOT_BYTES * k,
            decreases self.slots@.len() - k,
        {
            let b: usize = self.slots[k].coinbase_bytes();
            assert(v.take(k + 1).drop_last() =~= v.take(k as int));
            n = n + b;
            k = k + 1;
        }
        assert(v.take(v.len() as int) =~= v);
        self.bytes = n;
    }

    /// Folds a share's sections into its slot, within the budget.
    ///
    /// What a gateway can make the pool hold is bounded three ways: a section has a size cap and
    /// a slot an id cap, only the [`MAX_LIVE_SLOTS`] most recently started slots keep their
    /// sections, and the bytes across slots are budgeted.
    pub fn take_sections(&mut self, i: usize, s: &PowSubmit, budget: usize) -> (r: Result<(), u16>)
        requires
            old(self).wf(),
            i < MAX_JOB_SLOTS,
        ensures
            final(self).wf(),
            final(self)@ == old(self)@.after_sections(i, *s, budget),
            match old(self)@.sections_reject(i, *s, budget) {
                Some(code) => r == Err::<(), u16>(code),
                None => r == Ok::<(), u16>(()),
            },
    {
        let ghost before = *self;
        let ghost t = self@;
        let held_before: usize = self.slots[i].coinbase_bytes();
        proof {
            lemma_after_sections(t, i, *s, budget);
            lemma_held_update(t.slots, i as int, absorb_slot(t.slots[i as int], *s));
        }
        let absorbed: Absorbed = match self.slots[i].absorb(s) {
            Ok(a) => a,
            Err(code) => {
                assert(self@ =~= t);
                return Err(code);
            },
        };
        let ghost mid = t.with_slot(i, absorb_slot(t.slots[i as int], *s));
        assert(self@ =~= mid);
        if absorbed.job_changed {
            self.touch_slot(i);
            self.recount();
            proof {
                lemma_touched_bytes(mid, i);
            }
        } else {
            let held_after: usize = self.slots[i].coinbase_bytes();
            proof {
                self.lemma_all_bounded();
            }
            self.bytes = self.bytes - held_before + held_after;
        }
        assert(self@ =~= t.absorbed(i, *s));
        assert(self.bytes == held_bytes(self@.slots));
        if let Some(id) = absorbed.coinbase_added {
            if self.bytes > budget {
                let ghost a = self@;
                let held: usize = self.slots[i].coinbase_bytes();
                proof {
                    let kept = a.slots[i as int];
                    lemma_held_update(a.slots, i as int, SlotView {
                        coinbases: kept.coinbases.remove(id),
                        ..kept
                    });
                    lemma_remove_bytes(kept.coinbases, id, 256);
                }
                self.slots[i].forget_coinbase(id);
                let left: usize = self.slots[i].coinbase_bytes();
                self.bytes = self.bytes - (held - left);
                assert(self@ =~= t.after_sections(i, *s, budget));
                return Err(REJECT_COINBASE_TOO_LARGE);
            }
        }
        Ok(())
    }

    proof fn lemma_all_bounded(&self)
        requires
            self@.slots.len() == MAX_JOB_SLOTS,
            forall|k: int| 0 <= k < self.slots@.len() ==> (#[trigger] self.slots@[k]).wf(),
        ensures
            held_bytes(self@.slots) <= MAX_SLOT_BYTES * MAX_JOB_SLOTS,
    {
        assert forall|k: int| 0 <= k < self@.slots.len() implies slot_bytes(
            #[trigger] self@.slots[k],
        ) <= MAX_SLOT_BYTES by {
            self.slots@[k].lemma_bounded();
        }
        lemma_held_bound(self@.slots);
    }

    /// Checks a share whose sections its slot has taken.
    pub fn verify_share(&mut self, i: usize, s: &PowSubmit, p: &Policy) -> (r: Result<
        VerifiedShare,
        u16,
    >)
        requires
            old(self).wf(),
            i < MAX_JOB_SLOTS,
            p@.fits(),
        ensures
            final(self).wf(),
            final(self)@ == old(self)@.with_slot(i, final(self)@.slots[i as int]),
            is_share_outcome(
                r,
                old(self)@.slots[i as int],
                final(self)@.slots[i as int],
                *s,
                p@,
            ),
    {
        let ghost t = self@;
        let r: Result<VerifiedShare, u16> = verify(&mut self.slots[i], s, p);
        proof {
            let slot = self@.slots[i as int];
            assert(self@ =~= t.with_slot(i, slot));
            assert(slot.coinbases == t.slots[i as int].coinbases);
            lemma_held_update(t.slots, i as int, slot);
        }
        r
    }
}

/// A list without a value keeps all others, in their order.
pub proof fn lemma_without_is_a_filter(v: Seq<usize>, x: usize)
    ensures
        without(v, x) == v.filter(|y: usize| y != x),
    decreases v.len(),
{
    reveal(Seq::filter);
    if v.len() > 0 {
        lemma_without_is_a_filter(v.drop_last(), x);
    }
}

/// A slot that starts a job is the most recent. Of the others that are live, one goes only where
/// there are sixteen: the one that has gone longest without a new job. It loses its
/// coinbase sections and keeps its job; all other slots are as they were.
pub proof fn lemma_who_is_evicted(t: TableView, i: usize, k: usize)
    requires
        t.wf(),
        i < MAX_JOB_SLOTS,
        k < MAX_JOB_SLOTS,
    ensures
        ({
            let n = t.touched(i);
            let others = t.live.filter(|y: usize| y != i);
            let evicts = others.len() >= 16;
            &&& n.live.last() == i
            &&& !evicts ==> n.live == others.push(i)
            &&& evicts ==> n.live == others.drop_first().push(i)
            &&& n.slots.len() == t.slots.len()
            &&& !evicts || k != others[0] ==> n.slots[k as int] == t.slots[k as int]
            &&& evicts ==> n.slots[others[0] as int] == (SlotView {
                coinbases: Map::empty(),
                ..t.slots[others[0] as int]
            })
        }),
{
    lemma_without_is_a_filter(t.live, i);
    lemma_without(t.live, i);
    let others = without(t.live, i);
    let all = others.push(i);
    if all.len() > MAX_LIVE_SLOTS {
        assert(all[0] == others[0]);
        assert(others.contains(others[0]));
        assert(t.live.contains(others[0]));
        let j = choose|j: int| 0 <= j < t.live.len() && t.live[j] == others[0];
        assert(others[0] < MAX_JOB_SLOTS);
        assert(all.drop_first() =~= others.drop_first().push(i));
    }
}

/// What a share's sections do to the slots. Its own slot takes its job, and the coinbase section
/// unless that is refused. Another slot keeps its job and either all its sections or, where it is
/// evicted, none. A section that is refused for itself changes nothing at all.
pub proof fn lemma_sections_touch_one_slot(
    t: TableView,
    i: usize,
    s: PowSubmit,
    budget: usize,
    k: usize,
)
    requires
        t.wf(),
        i < MAX_JOB_SLOTS,
        k < MAX_JOB_SLOTS,
    ensures
        ({
            let n = t.after_sections(i, s, budget);
            let mine = t.slots[i as int];
            let full = absorb_slot(mine, s);
            &&& absorb_reject(mine, s).is_some() ==> n == t && t.sections_reject(i, s, budget)
                == absorb_reject(mine, s)
            &&& absorb_reject(mine, s).is_none() ==> {
                &&& n.slots[i as int].job == full.job
                &&& n.slots[i as int].includes_coinbase == full.includes_coinbase
                &&& t.sections_reject(i, s, budget).is_none() ==> n.slots[i as int] == full
                &&& t.sections_reject(i, s, budget) matches Some(code) ==> code == 17
                    && s.coinbase.is_some() && n.slots[i as int].coinbases == full.coinbases.remove(
                    s.coinbase.unwrap().coinbase_id,
                )
            }
            &&& k != i ==> n.slots[k as int].job == t.slots[k as int].job
                && n.slots[k as int].includes_coinbase == t.slots[k as int].includes_coinbase && (
            n.slots[k as int].coinbases == t.slots[k as int].coinbases
                || n.slots[k as int].coinbases == Map::<u8, crate::mining::HalvesView>::empty())
        }),
{
    let mine = t.slots[i as int];
    let a = t.with_slot(i, absorb_slot(mine, s));
    assert(a.wf());
    lemma_who_is_evicted(a, i, k);
    lemma_who_is_evicted(a, i, i);
    lemma_touched_bytes(a, i);
}

/// A section is taken as long as what all slots hold with it is within the budget: one that was
/// taken before is taken again, and a share without one is never refused for it.
pub proof fn lemma_sections_within_the_budget_are_taken(
    t: TableView,
    i: usize,
    s: PowSubmit,
    budget: usize,
)
    requires
        t.wf(),
        i < MAX_JOB_SLOTS,
        absorb_reject(t.slots[i as int], s).is_none(),
    ensures
        held_bytes(t.absorbed(i, s).slots) <= budget ==> t.sections_reject(i, s, budget).is_none(),
        s.coinbase.is_none() ==> t.sections_reject(i, s, budget).is_none(),
        t.sections_reject(i, s, budget).is_none() ==> held_bytes(t.absorbed(i, s).slots) <= budget
            || brings_coinbase(t.slots[i as int], s).is_none(),
{
}

/// What a session holds is what its slots hold together.
pub proof fn lemma_bytes_of_slots(v: Seq<SlotView>, s: SlotView)
    ensures
        held_bytes(Seq::empty()) == 0,
        held_bytes(v.push(s)) == held_bytes(v) + sections_bytes(s.coinbases, 256),
{
    assert(v.push(s).drop_last() =~= v);
}

} // verus!
