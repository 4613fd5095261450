//! Coinbasers: which requests are answered, what the answer lists, and what is remembered of it.

use crate::address::Network;
use crate::base16::{hex_of, to_hex};
use crate::bytes::{reversed, slice_of};
use crate::classify::list_fits;
use crate::coinbaser::{list_value, list_view, Output, OutputView};
use crate::digest::blake2b256_of;
use crate::names::NameMap;
use crate::pow::Hash32;
use crate::snapshot::{
    amounts_text, build, commitment_script, params_text, snapshot_text, split_text, window_text,
    Snapshot,
};
use crate::split::{
    amounts_view, carried_split_of, identities_of, lemma_miners_of, lemma_split_fits, miners_of,
    names_of, payees_sum, payees_view, scripts_for, unpaid_view, Payee, PayeeView, Split,
    SplitParams, SplitView, UnpaidReason,
};
use crate::tides::{miners_view, MinerStat, Window};
use vstd::prelude::*;
use vstd::utf8::encode_utf8;

verus! {

/// Coinbasers remembered of a session.
pub const COINBASERS_KEPT: usize = 16;

/// Coinbaser requests a session may make at once.
pub const COINBASER_BURST: u32 = 32;

/// Nanoseconds after which one more request may be made.
pub const COINBASER_REFILL: u64 = 1_000_000_000;

/// Most payees of a split that is listed: with the commitment and the pool they are as many as
/// 16 bits count.
pub const MAX_LISTED: usize = 65_533;

/// A coinbaser that was sent.
#[derive(Clone, Debug, PartialEq, Eq)]
pub struct IssuedCoinbaser {
    pub id: u8,
    /// What the template it was asked for is worth.
    pub value: u64,
    pub outputs: Vec<Output>,
    pub payees: Vec<Payee>,
    /// What the split could not pay but a later one can.
    pub unpaid: Vec<(String, u64)>,
    /// What of the carry the split pays.
    pub carry_paid: Vec<(String, u64)>,
    /// Hex hash of the window snapshot the list commits to; empty where it commits to none.
    pub snapshot: String,
}

/// What an [`IssuedCoinbaser`] holds.
#[verifier::ext_equal]
pub struct IssuedView {
    pub id: u8,
    pub value: u64,
    pub outputs: Seq<OutputView>,
    pub payees: Seq<PayeeView>,
    pub unpaid: Seq<(Seq<char>, u64)>,
    pub carry_paid: Seq<(Seq<char>, u64)>,
    pub snapshot: Seq<char>,
}

impl IssuedView {
    /// The list can be added up, and the payees get no more than the template is worth.
    pub open spec fn wf(self) -> bool {
        list_fits(self.outputs) && payees_sum(self.payees) <= self.value
    }
}

impl View for IssuedCoinbaser {
    type V = IssuedView;

    open spec fn view(&self) -> IssuedView {
        IssuedView {
            id: self.id,
            value: self.value,
            outputs: list_view(self.outputs@),
            payees: payees_view(self.payees@),
            unpaid: amounts_view(self.unpaid@),
            carry_paid: amounts_view(self.carry_paid@),
            snapshot: self.snapshot@,
        }
    }
}

/// Issued coinbasers as mathematical values.
pub open spec fn all_issued(v: Seq<IssuedCoinbaser>) -> Seq<IssuedView> {
    Seq::new(v.len(), |i: int| v[i]@)
}

/// The coinbaser side of a session.
pub struct Coinbasers {
    tokens: u32,
    refill_at: u64,
    next_id: u8,
    kept: Vec<IssuedCoinbaser>,
}

/// What [`Coinbasers`] hold.
#[verifier::ext_equal]
pub struct CoinbasersView {
    /// Requests that may be made at once.
    pub tokens: u32,
    /// Up to when they were added back, in nanoseconds of the session's clock.
    pub refill_at: u64,
    pub next_id: u8,
    /// The last coinbasers, oldest first.
    pub kept: Seq<IssuedView>,
}

impl View for Coinbasers {
    type V = CoinbasersView;

    closed spec fn view(&self) -> CoinbasersView {
        CoinbasersView {
            tokens: self.tokens,
            refill_at: self.refill_at,
            next_id: self.next_id,
            kept: all_issued(self.kept@),
        }
    }
}

/// The id after `id`: all but zero, in turn.
pub open spec fn id_after(id: u8) -> u8 {
    if id == 255 {
        1
    } else {
        (id + 1) as u8
    }
}

/// Where the newest coinbaser with an id is.
pub open spec fn newest_issued(v: Seq<IssuedView>, id: u8) -> Option<int>
    decreases v.len(),
{
    if v.len() == 0 {
        None
    } else if v.last().id == id {
        Some(v.len() - 1)
    } else {
        newest_issued(v.drop_last(), id)
    }
}

impl CoinbasersView {
    /// A full bucket and nothing issued, at `now`.
    pub open spec fn fresh(now: u64) -> CoinbasersView {
        CoinbasersView {
            tokens: COINBASER_BURST,
            refill_at: now,
            next_id: 1,
            kept: Seq::empty(),
        }
    }

    /// At most a burst of tokens and so many coinbasers; ids start at one.
    pub open spec fn wf(self) -> bool {
        &&& self.tokens <= COINBASER_BURST
        &&& self.next_id >= 1
        &&& self.kept.len() <= COINBASERS_KEPT
        &&& forall|i: int| 0 <= i < self.kept.len() ==> (#[trigger] self.kept[i]).wf()
    }

    /// The bucket with a token for each whole second since the last refill; what is left of a
    /// second counts toward the next.
    pub open spec fn refilled(self, now: u64) -> CoinbasersView {
        if now >= self.refill_at + COINBASER_REFILL {
            let secs = (now - self.refill_at) / COINBASER_REFILL as int;
            let n = self.tokens + secs;
            CoinbasersView {
                tokens: if n < COINBASER_BURST {
                    n as u32
                } else {
                    COINBASER_BURST
                },
                refill_at: (self.refill_at + secs * COINBASER_REFILL) as u64,
                ..self
            }
        } else {
            self
        }
    }

    /// Whether a request is answered.
    pub open spec fn answers(self, now: u64) -> bool {
        self.refilled(now).tokens > 0
    }

    /// The session after a request.
    pub open spec fn asked(self, now: u64) -> CoinbasersView {
        let r = self.refilled(now);
        if r.tokens == 0 {
            r
        } else {
            CoinbasersView {
                tokens: (r.tokens - 1) as u32,
                next_id: id_after(self.next_id),
                ..r
            }
        }
    }

    /// The session after a coinbaser was sent: the oldest beyond [`COINBASERS_KEPT`] is forgotten.
    pub open spec fn sent(self, c: IssuedView) -> CoinbasersView {
        let all = self.kept.push(c);
        CoinbasersView {
            kept: if all.len() > COINBASERS_KEPT {
                all.drop_first()
            } else {
                all
            },
            ..self
        }
    }

    /// The coinbaser a job was built on, if it is still known.
    pub open spec fn issued(self, id: u8) -> Option<IssuedView> {
        match newest_issued(self.kept, id) {
            Some(i) => Some(self.kept[i]),
            None => None,
        }
    }
}

/// How many of the requests made at `times` are answered.
pub open spec fn answered(c: CoinbasersView, times: Seq<u64>) -> nat
    decreases times.len(),
{
    if times.len() == 0 {
        0
    } else {
        answered(c, times.drop_last()) + if after_requests(c, times.drop_last()).answers(
            times.last(),
        ) {
            1nat
        } else {
            0
        }
    }
}

/// The session after the requests made at `times`.
pub open spec fn after_requests(c: CoinbasersView, times: Seq<u64>) -> CoinbasersView
    decreases times.len(),
{
    if times.len() == 0 {
        c
    } else {
        after_requests(c, times.drop_last()).asked(times.last())
    }
}

/// However many coinbasers a session asks for, it gets no more than the burst and one for each
/// second that has passed.
pub proof fn lemma_requests_are_limited(c: CoinbasersView, times: Seq<u64>)
    requires
        c.wf(),
        forall|i: int| 0 <= i < times.len() ==> c.refill_at <= #[trigger] times[i],
        forall|i: int, j: int| 0 <= i <= j < times.len() ==> times[i] <= times[j],
    ensures
        times.len() > 0 ==> answered(c, times) <= COINBASER_BURST + (times.last() - c.refill_at)
            / COINBASER_REFILL as int,
{
    lemma_answered(c, times);
    if times.len() > 0 {
        assert(c.refill_at <= times[times.len() - 1]);
    }
}

proof fn lemma_answered(c: CoinbasersView, times: Seq<u64>)
    requires
        c.wf(),
        forall|i: int| 0 <= i < times.len() ==> c.refill_at <= #[trigger] times[i],
        forall|i: int, j: int| 0 <= i <= j < times.len() ==> times[i] <= times[j],
    ensures
        ({
            let d = after_requests(c, times);
            &&& d.tokens <= COINBASER_BURST
            &&& c.refill_at <= d.refill_at
            &&& times.len() == 0 ==> d.refill_at == c.refill_at
            &&& times.len() > 0 ==> d.refill_at <= times.last()
            &&& COINBASER_REFILL * (answered(c, times) + d.tokens - COINBASER_BURST)
                <= d.refill_at - c.refill_at
        }),
    decreases times.len(),
{
    if times.len() > 0 {
        let init = times.drop_last();
        assert forall|i: int| 0 <= i < init.len() implies c.refill_at <= #[trigger] init[i] by {
            assert(init[i] == times[i]);
        }
        assert forall|i: int, j: int| 0 <= i <= j < init.len() implies init[i] <= init[j] by {
            assert(init[i] == times[i] && init[j] == times[j]);
        }
        lemma_answered(c, init);
        let d = after_requests(c, init);
        let now = times.last();
        assert(c.refill_at <= times[times.len() - 1]);
        if init.len() > 0 {
            assert(times[init.len() - 1] <= times[times.len() - 1]);
        }
        let n = (now - d.refill_at) / COINBASER_REFILL as int;
        if now >= d.refill_at + COINBASER_REFILL {
            assert(COINBASER_REFILL * n <= now - d.refill_at);
        }
    }
}

/// The bucket fills at one a second, whenever it is looked at: an earlier look changes nothing.
pub proof fn lemma_refill_is_steady(c: CoinbasersView, earlier: u64, now: u64)
    requires
        c.wf(),
        c.refill_at <= earlier <= now,
    ensures
        c.refilled(earlier).refilled(now) == c.refilled(now),
        ({
            let full = c.tokens + (now - c.refill_at) / COINBASER_REFILL as int;
            c.refilled(now).tokens == if full < COINBASER_BURST {
                full
            } else {
                COINBASER_BURST as int
            }
        }),
{
    let a = (earlier - c.refill_at) / COINBASER_REFILL as int;
    let rest = now - (c.refill_at + a * COINBASER_REFILL);
    assert(rest >= 0);
    assert((now - c.refill_at) / COINBASER_REFILL as int == a + rest / COINBASER_REFILL as int);
    assert(c.refilled(earlier).refilled(now) =~= c.refilled(now));
}

impl Coinbasers {
    /// See [`CoinbasersView::wf`].
    pub open spec fn wf(&self) -> bool {
        self@.wf()
    }

    /// A session that has asked for nothing.
    pub fn new(now: u64) -> (c: Coinbasers)
        ensures
            c.wf(),
            c@ == CoinbasersView::fresh(now),
    {
        let c = Coinbasers { tokens: COINBASER_BURST, refill_at: now, next_id: 1, kept: Vec::new() };
        assert(c@.kept =~= Seq::empty());
        c
    }

    /// Takes a request at `now`, in nanoseconds of the session's clock: the id of the answer, or
    /// `None` for a request over the rate, which stays unanswered.
    pub fn ask(&mut self, now: u64) -> (r: Option<u8>)
        requires
            old(self).wf(),
        ensures
            final(self).wf(),
            final(self)@ == old(self)@.asked(now),
            r == if old(self)@.answers(now) {
                Some(old(self)@.next_id)
            } else {
                None
            },
    {
        if now >= self.refill_at && now - self.refill_at >= COINBASER_REFILL {
            let n: u64 = (now - self.refill_at) / COINBASER_REFILL;
            self.tokens = if n >= COINBASER_BURST as u64 || self.tokens + n as u32
                >= COINBASER_BURST {
                COINBASER_BURST
            } else {
                self.tokens + n as u32
            };
            assert(n * COINBASER_REFILL <= now - self.refill_at);
            self.refill_at = self.refill_at + n * COINBASER_REFILL;
        }
        if self.tokens == 0 {
            return None;
        }
        self.tokens = self.tokens - 1;
        let id: u8 = self.next_id;
        self.next_id = if id == 255 {
            1
        } else {
            id + 1
        };
        Some(id)
    }

    /// Remembers a coinbaser that was sent.
    pub fn record(&mut self, c: IssuedCoinbaser)
        requires
            old(self).wf(),
            c@.wf(),
        ensures
            final(self).wf(),
            final(self)@ == old(self)@.sent(c@),
    {
        let ghost before = self@;
        self.kept.push(c);
        assert(all_issued(self.kept@) =~= before.kept.push(c@));
        if self.kept.len() > COINBASERS_KEPT {
            let ghost all = self.kept@;
            let _ = self.kept.remove(0);
            assert(all_issued(self.kept@) =~= all_issued(all).drop_first());
        }
        assert(self@ =~= before.sent(c@));
    }

    /// The coinbaser with an id, the newest if several had it.
    pub fn issued(&self, id: u8) -> (r: Option<&IssuedCoinbaser>)
        requires
            self.wf(),
        ensures
            match r {
                Some(c) => self@.issued(id) == Some(c@) && c@.wf(),
                None => self@.issued(id).is_none(),
            },
    {
        let ghost v = self@.kept;
        let mut n: usize = self.kept.len();
        assert(v.take(v.len() as int) =~= v);
        while n > 0
            invariant
                n <= self.kept@.len(),
                v == all_issued(self.kept@),
                self.wf(),
                v == self@.kept,
                newest_issued(v, id) == newest_issued(v.take(n as int), id),
            decreases n,
        {
            assert(v.take(n as int).drop_last() =~= v.take(n - 1));
            assert(v.take(n as int).last() == v[n - 1]);
            if self.kept[n - 1].id == id {
                return Some(&self.kept[n - 1]);
            }
            n = n - 1;
        }
        None
    }
}

/// The outputs of payees.
pub open spec fn payee_outputs(v: Seq<PayeeView>) -> Seq<OutputView> {
    Seq::new(v.len(), |i: int| OutputView { sats: v[i].sats, script: v[i].script })
}

/// The list a coinbaser dictates: the commitment, the payees, and last the pool with its fee and
/// whatever the split could not place. It has at least one output.
pub open spec fn dictated(split: SplitView, commitment: Option<Seq<u8>>, pool: Seq<u8>) -> Seq<
    OutputView,
> {
    let head = match commitment {
        Some(script) => seq![OutputView { sats: 0, script }],
        None => Seq::empty(),
    };
    let list = head + payee_outputs(split.payees);
    if split.pool_sats > 0 || list.len() == 0 {
        list.push(
            OutputView {
                sats: if split.pool_sats > 0 {
                    split.pool_sats
                } else {
                    1
                },
                script: pool,
            },
        )
    } else {
        list
    }
}

proof fn lemma_payee_outputs_value(v: Seq<PayeeView>)
    ensures
        list_value(payee_outputs(v)) == payees_sum(v),
    decreases v.len(),
{
    if v.len() > 0 {
        lemma_payee_outputs_value(v.drop_last());
        assert(payee_outputs(v).drop_last() =~= payee_outputs(v.drop_last()));
    }
}

proof fn lemma_list_value_append(a: Seq<OutputView>, b: Seq<OutputView>)
    ensures
        list_value(a + b) == list_value(a) + list_value(b),
    decreases b.len(),
{
    if b.len() > 0 {
        lemma_list_value_append(a, b.drop_last());
        assert((a + b).drop_last() =~= a + b.drop_last());
    } else {
        assert(a + b =~= a);
    }
}

/// The list is complete: its outputs sum to what the template is worth. (A template worth nothing
/// with no commitment gets a list of one satoshi, since a gateway takes an empty list for none.)
pub proof fn lemma_list_is_complete(
    split: SplitView,
    commitment: Option<Seq<u8>>,
    pool: Seq<u8>,
    value: u64,
)
    requires
        payees_sum(split.payees) + split.pool_sats == value,
        value > 0 || split.payees.len() > 0 || commitment.is_some(),
    ensures
        list_value(dictated(split, commitment, pool)) == value,
{
    let head = match commitment {
        Some(script) => seq![OutputView { sats: 0, script }],
        None => Seq::empty(),
    };
    if commitment.is_some() {
        assert(head.drop_last() =~= Seq::empty());
        assert(list_value(head.drop_last()) == 0);
    }
    let tail = payee_outputs(split.payees);
    lemma_list_value_append(head, tail);
    lemma_payee_outputs_value(split.payees);
    let list = head + tail;
    let all = dictated(split, commitment, pool);
    if all.len() > list.len() {
        assert(all.drop_last() =~= list);
    }
}

/// A list that is dictated can be added up.
proof fn lemma_dictated_fits(split: SplitView, commitment: Option<Seq<u8>>, pool: Seq<u8>, value: u64)
    requires
        payees_sum(split.payees) + split.pool_sats == value,
        split.payees.len() <= MAX_LISTED,
    ensures
        list_fits(dictated(split, commitment, pool)),
{
    if value > 0 || split.payees.len() > 0 || commitment.is_some() {
        lemma_list_is_complete(split, commitment, pool, value);
    } else {
        let list = dictated(split, commitment, pool);
        assert(list.drop_last() =~= Seq::empty());
        assert(list_value(list.drop_last()) == 0);
    }
}

/// Bytes, if there are any.
pub open spec fn opt_bytes(b: Option<Vec<u8>>) -> Option<Seq<u8>> {
    match b {
        Some(b) => Some(b@),
        None => None,
    }
}

/// Lists the outputs of a coinbaser.
pub fn dictate(split: &Split, commitment: Option<Vec<u8>>, pool_script: &[u8]) -> (outputs: Vec<
    Output,
>)
    ensures
        list_view(outputs@) == dictated(
            split@,
            opt_bytes(commitment),
            pool_script@,
        ),
{
    let mut outputs: Vec<Output> = Vec::new();
    if let Some(script) = commitment {
        outputs.push(Output { sats: 0, script });
    }
    let ghost head = list_view(outputs@);
    let ghost v = payees_view(split.payees@);
    let mut i: usize = 0;
    assert(head + payee_outputs(v.take(0)) =~= head);
    while i < split.payees.len()
        invariant
            i <= split.payees@.len(),
            v == payees_view(split.payees@),
            list_view(outputs@) == head + payee_outputs(v.take(i as int)),
        decreases split.payees@.len() - i,
    {
        let p: &Payee = &split.payees[i];
        let ghost before = list_view(outputs@);
        let script: Vec<u8> = slice_of(p.script.as_slice(), 0, p.script.len());
        assert(script@ =~= p.script@);
        outputs.push(Output { sats: p.sats, script });
        proof {
            let o = OutputView { sats: v[i as int].sats, script: v[i as int].script };
            assert(list_view(outputs@) =~= before.push(o));
            assert(payee_outputs(v.take(i + 1)) =~= payee_outputs(v.take(i as int)).push(o));
            assert(head + payee_outputs(v.take(i + 1)) =~= before.push(o));
        }
        i = i + 1;
    }
    assert(v.take(v.len() as int) =~= v);
    let ghost list = list_view(outputs@);
    if split.pool_sats > 0 || outputs.len() == 0 {
        let script: Vec<u8> = slice_of(pool_script, 0, pool_script.len());
        assert(script@ =~= pool_script@);
        let sats: u64 = if split.pool_sats > 0 {
            split.pool_sats
        } else {
            1
        };
        outputs.push(Output { sats, script });
        assert(list_view(outputs@) =~= list.push(OutputView { sats, script: pool_script@ }));
    }
    outputs
}

/// What a later coinbase can pay of what a split could not: an identity that is not an address
/// can never be paid, so nothing is carried for it.
pub open spec fn payable_later(v: Seq<(Seq<char>, u64, UnpaidReason)>) -> Seq<(Seq<char>, u64)>
    decreases v.len(),
{
    if v.len() == 0 {
        Seq::empty()
    } else {
        let before = payable_later(v.drop_last());
        if v.last().2 == UnpaidReason::NoScript {
            before
        } else {
            before.push((v.last().0, v.last().1))
        }
    }
}

fn later_amounts(unpaid: &Vec<(String, u64, UnpaidReason)>) -> (r: Vec<(String, u64)>)
    ensures
        amounts_view(r@) == payable_later(unpaid_view(unpaid@)),
{
    let mut r: Vec<(String, u64)> = Vec::new();
    let ghost v = unpaid_view(unpaid@);
    let mut i: usize = 0;
    assert(v.take(0) =~= Seq::empty());
    assert(amounts_view(r@) =~= Seq::empty());
    while i < unpaid.len()
        invariant
            i <= unpaid@.len(),
            v == unpaid_view(unpaid@),
            amounts_view(r@) == payable_later(v.take(i as int)),
        decreases unpaid@.len() - i,
    {
        let ghost before = amounts_view(r@);
        assert(v.take(i + 1).drop_last() =~= v.take(i as int));
        if unpaid[i].2 != UnpaidReason::NoScript {
            r.push((unpaid[i].0.clone(), unpaid[i].1));
            assert(amounts_view(r@) =~= before.push((v[i as int].0, v[i as int].1)));
        }
        i = i + 1;
    }
    assert(v.take(v.len() as int) =~= v);
    r
}

/// What a snapshot is taken of besides the window.
pub struct Commit<'a> {
    pub tag: &'a str,
    /// The height the template is for.
    pub height: u32,
    /// The previous block's hash, as hashed.
    pub prev_hash: Hash32,
    pub ts: u64,
}

/// A split for a request, and the snapshot of what it was computed from.
pub struct Quote {
    pub split: Split,
    pub snapshot: Option<Snapshot>,
}

/// Computes the split of a template worth `value` and, when it is to be committed to, the
/// snapshot of the window it was computed from.
pub fn quote(
    window: &Window,
    value: u64,
    params: &SplitParams,
    carry: &NameMap<u64>,
    net: Network,
    commit: Option<Commit>,
) -> (q: Quote)
    requires
        window.wf(),
        window@.exact(),
        params.wf(),
        params.max_outputs <= MAX_LISTED,
    ensures
        q.split@ == carried_split_of(
            miners_of(window@),
            scripts_for(identities_of(miners_of(window@)), net),
            window@.total_work,
            value,
            params@,
            carry.rows(),
            scripts_for(names_of(carry.rows()), net),
        ),
        payees_sum(q.split@.payees) + q.split.pool_sats == value,
        q.split.pool_sats >= q.split.fee_sats,
        q.split@.payees.len() <= MAX_LISTED,
        q.snapshot.is_some() == commit.is_some(),
        commit matches Some(c) ==> q.snapshot.unwrap().canonical@ == encode_utf8(
            snapshot_text(
                c.tag@,
                c.height,
                hex_of(c.prev_hash@.reverse()),
                c.ts,
                value,
                params_text(
                    params.fee_bps,
                    params.stratum_fee_bps,
                    params.min_payout,
                    params.max_outputs,
                    params.output_budget_bytes,
                    params.max_payees,
                    params.fee_overrides.rows(),
                ),
                window_text(window@.target_work, window@.total_work, miners_of(window@)),
                amounts_text(carry.rows()),
                split_text(q.split@),
            ),
        ) && q.snapshot.unwrap().hash@ == blake2b256_of(q.snapshot.unwrap().canonical@),
{
    let split: Split = window.split_with_carry(value, params, carry, net);
    let miners: Vec<MinerStat> = window.miners();
    proof {
        lemma_miners_of(window@, miners_view(miners@));
        let m = miners_of(window@);
        lemma_split_fits(
            m,
            scripts_for(identities_of(m), net),
            window@.total_work,
            value,
            params@,
            carry.rows(),
            scripts_for(names_of(carry.rows()), net),
        );
    }
    let snapshot: Option<Snapshot> = match commit {
        None => None,
        Some(c) => {
            let display: Hash32 = reversed(&c.prev_hash);
            let prev_hash_hex: String = to_hex(display.as_slice());
            Some(
                build(
                    c.tag,
                    c.height,
                    prev_hash_hex.as_str(),
                    c.ts,
                    value,
                    params.fee_bps,
                    params.stratum_fee_bps,
                    params.min_payout,
                    params.max_outputs,
                    params.output_budget_bytes,
                    params.max_payees,
                    &params.fee_overrides,
                    window.target_work(),
                    window.total_work(),
                    miners.as_slice(),
                    carry,
                    &split,
                ),
            )
        },
    };
    Quote { split, snapshot }
}

/// What is remembered of a coinbaser.
pub open spec fn issued_of(
    id: u8,
    value: u64,
    split: SplitView,
    committed: Option<(Seq<u8>, Seq<char>)>,
    pool: Seq<u8>,
) -> IssuedView {
    IssuedView {
        id,
        value,
        outputs: dictated(
            split,
            match committed {
                Some((hash, tag)) => Some(commitment_script(encode_utf8(tag), hash)),
                None => None,
            },
            pool,
        ),
        payees: split.payees,
        unpaid: payable_later(split.unpaid),
        carry_paid: split.carry_paid,
        snapshot: match committed {
            Some((hash, tag)) => hex_of(hash),
            None => Seq::empty(),
        },
    }
}

/// Makes the coinbaser for a quote. `stored` says whether the snapshot was published under `tag`;
/// a snapshot that was not is not committed to.
pub fn issue(id: u8, value: u64, q: Quote, stored: bool, tag: &str, pool_script: &[u8]) -> (c:
    IssuedCoinbaser)
    requires
        payees_sum(q.split@.payees) + q.split.pool_sats == value,
        q.split@.payees.len() <= MAX_LISTED,
    ensures
        c@ == issued_of(
            id,
            value,
            q.split@,
            if stored && q.snapshot.is_some() {
                Some((q.snapshot.unwrap().hash@, tag@))
            } else {
                None
            },
            pool_script@,
        ),
        c@.wf(),
        value > 0 ==> list_value(c@.outputs) == value,
{
    let (commitment, snapshot) = match &q.snapshot {
        Some(s) if stored => (Some(s.op_return(tag)), s.hex()),
        _ => (None, String::new()),
    };
    let ghost committed = opt_bytes(commitment);
    let outputs: Vec<Output> = dictate(&q.split, commitment, pool_script);
    let unpaid: Vec<(String, u64)> = later_amounts(&q.split.unpaid);
    proof {
        lemma_dictated_fits(q.split@, committed, pool_script@, value);
        if value > 0 {
            lemma_list_is_complete(q.split@, committed, pool_script@, value);
        }
        assert(""@ =~= Seq::<char>::empty()) by {
            reveal_strlit("");
        }
    }
    IssuedCoinbaser {
        id,
        value,
        outputs,
        payees: q.split.payees,
        unpaid,
        carry_paid: q.split.carry_paid,
        snapshot,
    }
}

/// What a coinbaser lists: first the commitment, worth nothing, where there is one; then each payee
/// with its amount and script, in the split's order; last the pool, with all the split leaves it. The
/// pool is left out only where it would get nothing and the list has other outputs.
pub proof fn lemma_what_is_listed(split: SplitView, commitment: Option<Seq<u8>>, pool: Seq<u8>)
    ensures
        ({
            let list = dictated(split, commitment, pool);
            let h: int = if commitment.is_some() {
                1
            } else {
                0
            };
            let n = h + split.payees.len();
            &&& commitment matches Some(script) ==> list[0].sats == 0 && list[0].script == script
            &&& forall|i: int|
                0 <= i < split.payees.len() ==> (#[trigger] list[h + i]).sats
                    == split.payees[i].sats && list[h + i].script == split.payees[i].script
            &&& split.pool_sats > 0 ==> list.len() == n + 1 && list[n].sats == split.pool_sats
                && list[n].script == pool
            &&& split.pool_sats == 0 && n > 0 ==> list.len() == n
            &&& split.pool_sats == 0 && n == 0 ==> list.len() == 1 && list[0].sats == 1
                && list[0].script == pool
        }),
{
}

/// What is carried of what a split could not pay: everything, in its order, but for those who are
/// no address.
pub proof fn lemma_what_is_payable_later(v: Seq<(Seq<char>, u64, UnpaidReason)>)
    ensures
        payable_later(v) == v.filter(
            |x: (Seq<char>, u64, UnpaidReason)| x.2 != UnpaidReason::NoScript,
        ).map_values(|x: (Seq<char>, u64, UnpaidReason)| (x.0, x.1)),
    decreases v.len(),
{
    reveal(Seq::filter);
    let f = |x: (Seq<char>, u64, UnpaidReason)| x.2 != UnpaidReason::NoScript;
    let g = |x: (Seq<char>, u64, UnpaidReason)| (x.0, x.1);
    if v.len() > 0 {
        lemma_what_is_payable_later(v.drop_last());
    }
    assert(payable_later(v) =~= v.filter(f).map_values(g));
}

/// Ids go from 1 to 255 and around; none is 0.
pub proof fn lemma_ids_go_around(id: u8)
    ensures
        id_after(id) != 0,
        1 <= id < 255 ==> id_after(id) == id + 1,
        id_after(255) == 1,
{
}

/// A session is answered thirty-two times at once, and once more for each second that has passed:
/// with a token left it is answered at any time, and without one when a second is over since the
/// last was added. An answer takes a token and the next id; a request that is not answered takes
/// nothing.
pub proof fn lemma_when_a_request_is_answered(c: CoinbasersView, now: u64)
    requires
        c.wf(),
    ensures
        CoinbasersView::fresh(now).tokens == 32,
        CoinbasersView::fresh(now).kept.len() == 0,
        CoinbasersView::fresh(now).next_id == 1,
        CoinbasersView::fresh(now).refill_at == now,
        c.tokens > 0 ==> c.answers(now),
        c.tokens == 0 ==> (c.answers(now) <==> now - c.refill_at >= 1_000_000_000),
        now - c.refill_at < 1_000_000_000 && c.tokens > 0 ==> c.asked(now).tokens == c.tokens - 1
            && c.asked(now).refill_at == c.refill_at,
        c.answers(now) ==> c.asked(now).next_id == id_after(c.next_id),
        !c.answers(now) ==> c.asked(now) == c,
        c.asked(now).kept == c.kept,
{
    if now >= c.refill_at + 1_000_000_000 {
        let secs = (now - c.refill_at) / 1_000_000_000;
        assert(secs >= 1);
    }
}

/// The last sixteen coinbasers are kept, in the order sent, and an id stands for the newest sent
/// under it.
pub proof fn lemma_what_is_kept(c: CoinbasersView, x: IssuedView, id: u8)
    requires
        c.wf(),
    ensures
        ({
            let n = c.sent(x);
            &&& c.kept.len() < 16 ==> n.kept == c.kept.push(x)
            &&& c.kept.len() == 16 ==> n.kept == c.kept.skip(1).push(x)
            &&& n.issued(x.id) == Some(x)
            &&& id != x.id && c.kept.len() < 16 ==> n.issued(id) == c.issued(id)
            &&& n.tokens == c.tokens && n.refill_at == c.refill_at && n.next_id == c.next_id
            &&& c.issued(id).is_some() <==> exists|i: int|
                0 <= i < c.kept.len() && (#[trigger] c.kept[i]).id == id
            &&& c.issued(id) matches Some(y) ==> y.id == id && c.kept.contains(y)
        }),
{
    let n = c.sent(x);
    let all = c.kept.push(x);
    if c.kept.len() == 16 {
        assert(all.drop_first() =~= c.kept.skip(1).push(x));
    }
    assert(n.kept.last() == x);
    assert(all.drop_last() =~= c.kept);
    lemma_newest_issued(c.kept, id);
}

proof fn lemma_newest_issued(v: Seq<IssuedView>, id: u8)
    ensures
        newest_issued(v, id).is_some() <==> exists|i: int|
            0 <= i < v.len() && (#[trigger] v[i]).id == id,
        newest_issued(v, id) matches Some(i) ==> 0 <= i < v.len() && v[i].id == id && forall|j: int|
            i < j < v.len() ==> (#[trigger] v[j]).id != id,
    decreases v.len(),
{
    if v.len() > 0 {
        let u = v.drop_last();
        lemma_newest_issued(u, id);
        let n = v.len() - 1;
        assert(v[n] == v.last());
        if exists|i: int| 0 <= i < v.len() && (#[trigger] v[i]).id == id {
            let i = choose|i: int| 0 <= i < v.len() && (#[trigger] v[i]).id == id;
            if i < n {
                assert(u[i].id == id);
            }
        }
        if let Some(i) = newest_issued(u, id) {
            assert(v[i] == u[i]);
            assert forall|j: int| i < j < n implies (#[trigger] v[j]).id != id || v[n].id == id by {
                assert(v[j] == u[j]);
            }
        }
    }
}

/// What is remembered of a coinbaser is what was sent: its id and worth, the list, whom it pays and
/// what of their carry, what is left for later, and the snapshot it commits to.
pub proof fn lemma_what_is_remembered(
    id: u8,
    value: u64,
    split: SplitView,
    committed: Option<(Seq<u8>, Seq<char>)>,
    pool: Seq<u8>,
)
    ensures
        ({
            let c = issued_of(id, value, split, committed, pool);
            &&& c.id == id && c.value == value
            &&& c.payees == split.payees
            &&& c.carry_paid == split.carry_paid
            &&& c.unpaid == payable_later(split.unpaid)
            &&& committed.is_none() ==> c.snapshot.len() == 0 && c.outputs == dictated(
                split,
                None,
                pool,
            )
            &&& committed matches Some((hash, tag)) ==> c.snapshot == hex_of(hash) && c.outputs
                == dictated(split, Some(commitment_script(encode_utf8(tag), hash)), pool)
        }),
{
}

} // verus!
