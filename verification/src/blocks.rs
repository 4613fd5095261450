//! Block candidates: what is recorded of one, and how it is assembled once the gateway has sent
//! the job's transactions.

use crate::address::Network;
use crate::base16::{hex_of, to_hex};
use crate::bytes::reversed;
use crate::classify::CoinbaseKind;
use crate::coinbase::{block_form, paid_to_script, varint, Coinbase, TxOutView};
use crate::issue::{IssuedCoinbaser, IssuedView};
use crate::mining::PowSubmit;
use crate::pow::Hash32;
use crate::records::{copy_amounts, BlockRecord, RecordView};
use crate::split::{
    amounts_sum, amounts_view, identities_of, miners_of, payees_sum, payees_view, scripts_for,
    split_of, ParamsView, Payee, PayeeView, Split, SplitParams, SplitView,
};
use crate::tides::{Window, WindowView};
use crate::verify::{assemble_block, joined, VerifiedShare};
use vstd::prelude::*;

verus! {

/// Nanoseconds a block candidate waits for the gateway's transactions.
pub const PENDING_BLOCK_TTL: u64 = 120_000_000_000;

/// An amount of a split for `issued_value`, scaled to a block worth `value`.
pub open spec fn scaled_sats(sats: u64, value: u64, issued_value: u64) -> u64 {
    if issued_value == 0 {
        sats
    } else {
        ((sats as nat * value as nat) / issued_value as nat) as u64
    }
}

/// Scales an amount of a split for `issued_value` to a block worth `value`.
pub fn scale(sats: u64, value: u64, issued_value: u64) -> (r: u64)
    ensures
        r == scaled_sats(sats, value, issued_value),
{
    if issued_value == 0 {
        return sats;
    }
    assert(sats as nat * value as nat <= u64::MAX * u64::MAX) by (nonlinear_arith)
        requires
            sats <= u64::MAX,
            value <= u64::MAX,
    ;
    #[verifier::truncate]
    (((sats as u128 * value as u128) / issued_value as u128) as u64)
}

/// Payees by name.
pub open spec fn named(v: Seq<PayeeView>) -> Seq<(Seq<char>, u64)> {
    Seq::new(v.len(), |i: int| (v[i].identity, v[i].sats))
}

/// Payees by name, scaled to what a block is worth.
pub open spec fn scaled(v: Seq<PayeeView>, value: u64, issued_value: u64) -> Seq<(Seq<char>, u64)> {
    Seq::new(v.len(), |i: int| (v[i].identity, scaled_sats(v[i].sats, value, issued_value)))
}

/// Payees by name that a coinbase does not pay.
pub open spec fn dropped(v: Seq<PayeeView>, outs: Seq<TxOutView>) -> Seq<(Seq<char>, u64)>
    decreases v.len(),
{
    if v.len() == 0 {
        Seq::empty()
    } else {
        let before = dropped(v.drop_last(), outs);
        if paid_to_script(outs, v.last().script) == 0 {
            before.push((v.last().identity, v.last().sats))
        } else {
            before
        }
    }
}

proof fn lemma_sum_push(v: Seq<(Seq<char>, u64)>, x: (Seq<char>, u64))
    ensures
        amounts_sum(v.push(x)) == amounts_sum(v) + x.1,
{
    assert(v.push(x).drop_last() =~= v);
}

proof fn lemma_dropped_sum(v: Seq<PayeeView>, outs: Seq<TxOutView>)
    ensures
        amounts_sum(dropped(v, outs)) <= payees_sum(v),
    decreases v.len(),
{
    if v.len() > 0 {
        lemma_dropped_sum(v.drop_last(), outs);
        lemma_sum_push(dropped(v.drop_last(), outs), (v.last().identity, v.last().sats));
    }
}

proof fn lemma_named_sum(v: Seq<PayeeView>)
    ensures
        amounts_sum(named(v)) == payees_sum(v),
    decreases v.len(),
{
    if v.len() > 0 {
        lemma_named_sum(v.drop_last());
        assert(named(v).drop_last() =~= named(v.drop_last()));
    }
}

/// Scaled amounts come to no more than the block is worth, and each is what its product comes to.
proof fn lemma_scaled_sum(v: Seq<PayeeView>, value: u64, issued_value: u64)
    requires
        payees_sum(v) <= issued_value,
    ensures
        issued_value > 0 ==> amounts_sum(scaled(v, value, issued_value)) * issued_value
            <= payees_sum(v) * value,
        amounts_sum(scaled(v, value, issued_value)) <= value,
        forall|i: int|
            0 <= i < v.len() && issued_value > 0 ==> ((#[trigger] v[i]).sats as nat * value as nat)
                / issued_value as nat <= value,
    decreases v.len(),
{
    let iv = issued_value as int;
    let val = value as int;
    if v.len() > 0 {
        let w = v.drop_last();
        let last = v.last();
        lemma_scaled_sum(w, value, issued_value);
        assert(scaled(v, value, issued_value).drop_last() =~= scaled(w, value, issued_value));
        if issued_value > 0 {
            let s = last.sats as int;
            let q = (s * val) / iv;
            assert(q * iv <= s * val && 0 <= q) by (nonlinear_arith)
                requires
                    q == (s * val) / iv,
                    iv > 0,
                    s >= 0,
                    val >= 0,
            ;
            assert(q <= val) by (nonlinear_arith)
                requires
                    q * iv <= s * val,
                    s <= iv,
                    iv > 0,
                    val >= 0,
            ;
            let a = amounts_sum(scaled(w, value, issued_value)) as int;
            let b = payees_sum(w) as int;
            assert((a + q) * iv <= (b + s) * val) by (nonlinear_arith)
                requires
                    a * iv <= b * val,
                    q * iv <= s * val,
            ;
            let t = a + q;
            let p = b + s;
            assert(t <= val) by (nonlinear_arith)
                requires
                    t * iv <= p * val,
                    p <= iv,
                    iv > 0,
                    val >= 0,
            ;
            assert(amounts_sum(scaled(v, value, issued_value)) == t);
            assert(payees_sum(v) == p);
            assert forall|i: int| 0 <= i < v.len() implies ((#[trigger] v[i]).sats as nat
                * value as nat) / issued_value as nat <= value by {
                if i < w.len() {
                    assert(w[i] == v[i]);
                }
            }
        }
    } else {
        assert(amounts_sum(scaled(v, value, issued_value)) == 0);
        assert(payees_sum(v) == 0);
        assert(0 * iv <= 0 * val);
    }
}

/// How a block paid, by name.
pub open spec fn kind_text(kind: CoinbaseKind, known: bool) -> Seq<char> {
    match kind {
        CoinbaseKind::Split => "split"@,
        CoinbaseKind::Partial(_) => if known {
            "partial"@
        } else {
            "unknown"@
        },
        CoinbaseKind::PoolOnly => "pool-only"@,
        CoinbaseKind::Foreign => "unknown"@,
    }
}

/// What a block's coinbase leaves to be carried besides what the issued split could not pay: the
/// payees a partial coinbase drops, or the whole split where the coinbase pays only the pool.
pub open spec fn left_over(
    kind: CoinbaseKind,
    issued: Option<IssuedView>,
    live: SplitView,
    outs: Seq<TxOutView>,
    value: u64,
) -> Seq<(Seq<char>, u64)> {
    match (kind, issued) {
        (CoinbaseKind::Partial(_), Some(c)) => dropped(c.payees, outs),
        (CoinbaseKind::PoolOnly, Some(c)) => scaled(c.payees, value, c.value),
        (CoinbaseKind::PoolOnly, None) => named(live.payees),
        _ => Seq::empty(),
    }
}

/// The split a block paid, or should have.
pub open spec fn split_for_record(
    kind: CoinbaseKind,
    issued: Option<IssuedView>,
    live: SplitView,
    value: u64,
) -> Seq<(Seq<char>, u64)> {
    match (kind, issued) {
        (CoinbaseKind::Split, Some(c)) => named(c.payees),
        (CoinbaseKind::Partial(_), Some(c)) => named(c.payees),
        (CoinbaseKind::PoolOnly, Some(c)) => scaled(c.payees, value, c.value),
        (CoinbaseKind::PoolOnly, None) => named(live.payees),
        _ => Seq::empty(),
    }
}

/// The record of a block candidate.
pub open spec fn candidate_record(
    v: VerifiedShare,
    issued: Option<IssuedView>,
    live: SplitView,
    ts: u64,
    finder: Seq<char>,
    gateway: Seq<char>,
) -> RecordView {
    let left = left_over(v.coinbase_kind, issued, live, v.coinbase@.outputs, v.coinbase_value);
    RecordView {
        ts,
        height: v.height,
        hash: hex_of(v.hash@.reverse()),
        finder: Some(finder),
        coinbase_value: v.coinbase_value,
        kind: kind_text(v.coinbase_kind, issued.is_some()),
        owed_sats: amounts_sum(left) as u64,
        split: split_for_record(v.coinbase_kind, issued, live, v.coinbase_value),
        pool_sats: v.paid_to_pool,
        settled: false,
        submit: "pending"@,
        gateway,
        unpaid: match issued {
            Some(c) => c.unpaid + left,
            None => left,
        },
        carry_paid: match issued {
            Some(c) => c.carry_paid,
            None => Seq::empty(),
        },
        snapshot: match issued {
            Some(c) => c.snapshot,
            None => Seq::empty(),
        },
        carried: false,
    }
}

/// What is owed for a block is what its coinbase left over of the split, and that is no more than
/// the block or the issued template is worth.
pub proof fn lemma_owed_is_left_over(
    kind: CoinbaseKind,
    issued: Option<IssuedView>,
    live: SplitView,
    outs: Seq<TxOutView>,
    value: u64,
)
    requires
        issued matches Some(c) ==> c.wf(),
        issued.is_none() ==> payees_sum(live.payees) <= value,
    ensures
        amounts_sum(left_over(kind, issued, live, outs, value)) <= u64::MAX,
        kind == CoinbaseKind::PoolOnly ==> amounts_sum(left_over(kind, issued, live, outs, value))
            <= value,
        kind == CoinbaseKind::Split ==> amounts_sum(left_over(kind, issued, live, outs, value)) == 0,
        issued matches Some(c) ==> kind is Partial ==> amounts_sum(
            left_over(kind, issued, live, outs, value),
        ) <= c.value,
{
    match (kind, issued) {
        (CoinbaseKind::Partial(_), Some(c)) => {
            lemma_dropped_sum(c.payees, outs);
        },
        (CoinbaseKind::PoolOnly, Some(c)) => {
            lemma_scaled_sum(c.payees, value, c.value);
        },
        (CoinbaseKind::PoolOnly, None) => {
            lemma_named_sum(live.payees);
        },
        _ => {},
    }
}

fn payees_named(v: &Vec<Payee>) -> (r: Vec<(String, u64)>)
    ensures
        amounts_view(r@) == named(payees_view(v@)),
{
    let mut r: Vec<(String, u64)> = Vec::new();
    let mut i: usize = 0;
    while i < v.len()
        invariant
            i <= v@.len(),
            r@.len() == i,
            forall|k: int|
                0 <= k < i ==> (#[trigger] r@[k]).0@ == v@[k].identity@ && r@[k].1 == v@[k].sats,
        decreases v@.len() - i,
    {
        r.push((v[i].identity.clone(), v[i].sats));
        i = i + 1;
    }
    assert(amounts_view(r@) =~= named(payees_view(v@)));
    r
}

fn payees_scaled(v: &Vec<Payee>, value: u64, issued_value: u64) -> (r: Vec<(String, u64)>)
    requires
        payees_sum(payees_view(v@)) <= issued_value,
    ensures
        amounts_view(r@) == scaled(payees_view(v@), value, issued_value),
{
    let mut r: Vec<(String, u64)> = Vec::new();
    let ghost p = payees_view(v@);
    proof {
        lemma_scaled_sum(p, value, issued_value);
    }
    let mut i: usize = 0;
    while i < v.len()
        invariant
            i <= v@.len(),
            p == payees_view(v@),
            forall|k: int|
                0 <= k < p.len() && issued_value > 0 ==> ((#[trigger] p[k]).sats as nat
                    * value as nat) / issued_value as nat <= value,
            r@.len() == i,
            forall|k: int|
                0 <= k < i ==> (#[trigger] r@[k]).0@ == v@[k].identity@ && r@[k].1 == scaled_sats(
                    v@[k].sats,
                    value,
                    issued_value,
                ),
        decreases v@.len() - i,
    {
        assert(p[i as int].sats == v@[i as int].sats);
        r.push((v[i].identity.clone(), scale(v[i].sats, value, issued_value)));
        i = i + 1;
    }
    assert(amounts_view(r@) =~= scaled(p, value, issued_value));
    r
}

fn payees_dropped(v: &Vec<Payee>, cb: &Coinbase) -> (r: Vec<(String, u64)>)
    ensures
        amounts_view(r@) == dropped(payees_view(v@), cb@.outputs),
{
    let mut r: Vec<(String, u64)> = Vec::new();
    let ghost p = payees_view(v@);
    let ghost outs = cb@.outputs;
    let mut i: usize = 0;
    assert(p.take(0) =~= Seq::empty());
    assert(amounts_view(r@) =~= Seq::empty());
    while i < v.len()
        invariant
            i <= v@.len(),
            p == payees_view(v@),
            outs == cb@.outputs,
            amounts_view(r@) == dropped(p.take(i as int), outs),
        decreases v@.len() - i,
    {
        let ghost before = amounts_view(r@);
        assert(p.take(i + 1).drop_last() =~= p.take(i as int));
        if cb.paid_to(v[i].script.as_slice()) == 0 {
            r.push((v[i].identity.clone(), v[i].sats));
            assert(amounts_view(r@) =~= before.push((p[i as int].identity, p[i as int].sats)));
        }
        i = i + 1;
    }
    assert(p.take(p.len() as int) =~= p);
    r
}

fn total_of(v: &Vec<(String, u64)>) -> (n: u64)
    requires
        amounts_sum(amounts_view(v@)) <= u64::MAX,
    ensures
        n == amounts_sum(amounts_view(v@)),
{
    let ghost a = amounts_view(v@);
    let mut n: u64 = 0;
    let mut i: usize = 0;
    assert(a.take(0) =~= Seq::empty());
    while i < v.len()
        invariant
            i <= v@.len(),
            a == amounts_view(v@),
            n == amounts_sum(a.take(i as int)),
            amounts_sum(a) <= u64::MAX,
        decreases v@.len() - i,
    {
        proof {
            assert(a.take(i + 1).drop_last() =~= a.take(i as int));
            lemma_amounts_prefix(a, i + 1);
        }
        n = n + v[i].1;
        i = i + 1;
    }
    assert(a.take(a.len() as int) =~= a);
    n
}

proof fn lemma_amounts_prefix(v: Seq<(Seq<char>, u64)>, i: int)
    requires
        0 <= i <= v.len(),
    ensures
        amounts_sum(v.take(i)) <= amounts_sum(v),
    decreases v.len() - i,
{
    if i < v.len() {
        lemma_amounts_prefix(v, i + 1);
        assert(v.take(i + 1).drop_last() =~= v.take(i));
    } else {
        assert(v.take(i) =~= v);
    }
}

fn append_amounts(out: &mut Vec<(String, u64)>, v: &Vec<(String, u64)>)
    ensures
        amounts_view(final(out)@) == amounts_view(old(out)@) + amounts_view(v@),
{
    let ghost head = amounts_view(out@);
    let ghost a = amounts_view(v@);
    let mut i: usize = 0;
    assert(head + a.take(0) =~= head);
    while i < v.len()
        invariant
            i <= v@.len(),
            a == amounts_view(v@),
            amounts_view(out@) == head + a.take(i as int),
        decreases v@.len() - i,
    {
        let ghost before = amounts_view(out@);
        out.push((v[i].0.clone(), v[i].1));
        proof {
            assert(amounts_view(out@) =~= before.push(a[i as int]));
            assert(head + a.take(i + 1) =~= before.push(a[i as int]));
        }
        i = i + 1;
    }
    assert(a.take(a.len() as int) =~= a);
}

/// The split of a block by the window as it is.
pub open spec fn live_split(w: WindowView, value: u64, p: ParamsView, net: Network) -> SplitView {
    split_of(
        miners_of(w),
        scripts_for(identities_of(miners_of(w)), net),
        w.total_work,
        value,
        p,
    )
}

/// The hash of a share in display order.
pub fn display_hash(hash: &Hash32) -> (s: String)
    ensures
        s@ == hex_of(hash@.reverse()),
{
    let d: Hash32 = reversed(hash);
    to_hex(d.as_slice())
}

/// Makes the record of a block candidate: how its coinbase paid, what the pool owes the window
/// for it, what it leaves for the carry ledger and what carry it pays.
///
/// `issued` is the coinbaser of the share's job, if it is known; where none is, a coinbase that
/// pays only the pool is settled by the window as it is.
pub fn block_record(
    v: &VerifiedShare,
    issued: Option<&IssuedCoinbaser>,
    window: &Window,
    params: &SplitParams,
    net: Network,
    ts: u64,
    finder: &str,
    gateway: &str,
) -> (r: BlockRecord)
    requires
        issued matches Some(c) ==> c@.wf(),
        window.wf(),
        window@.exact(),
        params.wf(),
    ensures
        r@ == candidate_record(
            *v,
            match issued {
                Some(c) => Some(c@),
                None => None,
            },
            live_split(window@, v.coinbase_value, params@, net),
            ts,
            finder@,
            gateway@,
        ),
{
    let ghost live = live_split(window@, v.coinbase_value, params@, net);
    let ghost iss: Option<IssuedView> = match issued {
        Some(c) => Some(c@),
        None => None,
    };
    let ghost outs = v.coinbase@.outputs;
    let (kind, left, split): (&str, Vec<(String, u64)>, Vec<(String, u64)>) = match (
        v.coinbase_kind,
        issued,
    ) {
        (CoinbaseKind::Split, Some(c)) => ("split", Vec::new(), payees_named(&c.payees)),
        (CoinbaseKind::Split, None) => ("split", Vec::new(), Vec::new()),
        (CoinbaseKind::Partial(_), Some(c)) => (
            "partial",
            payees_dropped(&c.payees, &v.coinbase),
            payees_named(&c.payees),
        ),
        (CoinbaseKind::PoolOnly, Some(c)) => {
            let list: Vec<(String, u64)> = payees_scaled(&c.payees, v.coinbase_value, c.value);
            let left: Vec<(String, u64)> = copy_amounts(&list);
            ("pool-only", left, list)
        },
        (CoinbaseKind::PoolOnly, None) => {
            let sp: Split = window.split(v.coinbase_value, params, net);
            let list: Vec<(String, u64)> = payees_named(&sp.payees);
            let left: Vec<(String, u64)> = copy_amounts(&list);
            assert(payees_sum(live.payees) <= v.coinbase_value);
            ("pool-only", left, list)
        },
        (CoinbaseKind::Partial(_), None) => ("unknown", Vec::new(), Vec::new()),
        (CoinbaseKind::Foreign, _) => ("unknown", Vec::new(), Vec::new()),
    };
    let ghost want = left_over(v.coinbase_kind, iss, live, outs, v.coinbase_value);
    proof {
        assert(amounts_view(left@) =~= want);
        assert(amounts_view(split@) =~= split_for_record(
            v.coinbase_kind,
            iss,
            live,
            v.coinbase_value,
        ));
        match (v.coinbase_kind, iss) {
            (CoinbaseKind::Partial(_), Some(c)) => {
                lemma_dropped_sum(c.payees, outs);
            },
            (CoinbaseKind::PoolOnly, Some(c)) => {
                lemma_scaled_sum(c.payees, v.coinbase_value, c.value);
            },
            (CoinbaseKind::PoolOnly, None) => {
                lemma_named_sum(live.payees);
            },
            _ => {},
        }
        reveal_strlit("");
        assert(""@ =~= Seq::<char>::empty());
    }
    let owed_sats: u64 = total_of(&left);
    let (unpaid, carry_paid, snapshot): (Vec<(String, u64)>, Vec<(String, u64)>, String) =
        match issued {
        Some(c) => {
            let mut unpaid: Vec<(String, u64)> = copy_amounts(&c.unpaid);
            append_amounts(&mut unpaid, &left);
            (unpaid, copy_amounts(&c.carry_paid), c.snapshot.clone())
        },
        None => (left, Vec::new(), String::new()),
    };
    let r = BlockRecord {
        ts,
        height: v.height,
        hash: display_hash(&v.hash),
        finder: Some(finder.to_owned()),
        coinbase_value: v.coinbase_value,
        kind: kind.to_owned(),
        owed_sats,
        split,
        pool_sats: v.paid_to_pool,
        settled: false,
        submit: "pending".to_owned(),
        gateway: gateway.to_owned(),
        unpaid,
        carry_paid,
        snapshot,
        carried: false,
    };
    assert(r@ =~= candidate_record(*v, iss, live, ts, finder@, gateway@));
    r
}

/// A block candidate that waits for the gateway's transactions.
pub struct PendingBlock {
    pub job: u8,
    pub share: VerifiedShare,
    pub submit: PowSubmit,
    pub hash_hex: String,
    /// When it was found, in nanoseconds of the session's clock.
    pub at: u64,
}

impl PendingBlock {
    /// The block can be assembled.
    pub open spec fn wf(&self) -> bool {
        self.submit.blake2b.is_some() && self.share.coinbase_legacy@.len() >= 8
    }
}

/// The candidates of a job, in the order they were found.
pub open spec fn of_job(v: Seq<PendingBlock>, job: u8) -> Seq<PendingBlock>
    decreases v.len(),
{
    if v.len() == 0 {
        Seq::empty()
    } else if v.last().job == job {
        of_job(v.drop_last(), job).push(v.last())
    } else {
        of_job(v.drop_last(), job)
    }
}

/// The candidates of other jobs.
pub open spec fn of_others(v: Seq<PendingBlock>, job: u8) -> Seq<PendingBlock>
    decreases v.len(),
{
    if v.len() == 0 {
        Seq::empty()
    } else if v.last().job == job {
        of_others(v.drop_last(), job)
    } else {
        of_others(v.drop_last(), job).push(v.last())
    }
}

/// Whether a candidate has not waited too long.
pub open spec fn still_waits(p: PendingBlock, now: u64) -> bool {
    now < p.at + PENDING_BLOCK_TTL
}

/// The candidates that have not waited too long.
pub open spec fn waiting(v: Seq<PendingBlock>, now: u64) -> Seq<PendingBlock>
    decreases v.len(),
{
    if v.len() == 0 {
        Seq::empty()
    } else if still_waits(v.last(), now) {
        waiting(v.drop_last(), now).push(v.last())
    } else {
        waiting(v.drop_last(), now)
    }
}

/// Every candidate solved on a job is kept for it: one more joins those before it, whatever else
/// waits, and none is lost between the job's and the others.
pub proof fn lemma_every_candidate_is_kept(v: Seq<PendingBlock>, p: PendingBlock, job: u8)
    ensures
        of_job(v.push(p), p.job) == of_job(v, p.job).push(p),
        of_others(v.push(p), p.job) == of_others(v, p.job),
        of_job(v, job).len() + of_others(v, job).len() == v.len(),
    decreases v.len(),
{
    assert(v.push(p).drop_last() =~= v);
    if v.len() > 0 {
        lemma_every_candidate_is_kept(v.drop_last(), p, job);
    }
}

/// Block candidates waiting for the gateway's transactions. A job can solve more than once, and
/// the gateway's reply names only the job, so that every candidate is kept and all of a job's are
/// assembled from the one set of transactions.
pub struct PendingBlocks {
    list: Vec<PendingBlock>,
}

impl View for PendingBlocks {
    type V = Seq<PendingBlock>;

    closed spec fn view(&self) -> Seq<PendingBlock> {
        self.list@
    }
}

impl PendingBlocks {
    /// Every candidate can be assembled.
    pub open spec fn wf(&self) -> bool {
        forall|i: int| 0 <= i < self@.len() ==> (#[trigger] self@[i]).wf()
    }

    /// No candidates.
    pub fn new() -> (p: PendingBlocks)
        ensures
            p.wf(),
            p@ == Seq::<PendingBlock>::empty(),
    {
        let p = PendingBlocks { list: Vec::new() };
        assert(p@ =~= Seq::empty());
        p
    }

    /// Keeps a candidate.
    pub fn push(&mut self, p: PendingBlock)
        requires
            old(self).wf(),
            p.wf(),
        ensures
            final(self).wf(),
            final(self)@ == old(self)@.push(p),
    {
        let ghost before = self@;
        self.list.push(p);
        assert forall|i: int| 0 <= i < self@.len() implies (#[trigger] self@[i]).wf() by {
            if i < before.len() {
                assert(self@[i] == before[i]);
            }
        }
    }

    /// Takes the candidates of a job.
    pub fn take_job(&mut self, job: u8) -> (r: Vec<PendingBlock>)
        requires
            old(self).wf(),
        ensures
            final(self).wf(),
            final(self)@ == of_others(old(self)@, job),
            r@ == of_job(old(self)@, job),
            forall|i: int| 0 <= i < r@.len() ==> (#[trigger] r@[i]).wf(),
    {
        let ghost all = self.list@;
        let mut mine: Vec<PendingBlock> = Vec::new();
        let mut others: Vec<PendingBlock> = Vec::new();
        let mut i: usize = 0;
        let n: usize = self.list.len();
        assert(all.take(0) =~= Seq::empty());
        assert(all.skip(0) =~= all);
        assert forall|k: int| 0 <= k < all.len() implies (#[trigger] all[k]).wf() by {
            assert(self@[k].wf());
        }
        while i < n
            invariant
                i <= n == all.len(),
                self.list@ == all.skip(i as int),
                forall|k: int| 0 <= k < all.len() ==> (#[trigger] all[k]).wf(),
                mine@ == of_job(all.take(i as int), job),
                others@ == of_others(all.take(i as int), job),
                forall|k: int| 0 <= k < mine@.len() ==> (#[trigger] mine@[k]).wf(),
                forall|k: int| 0 <= k < others@.len() ==> (#[trigger] others@[k]).wf(),
            decreases n - i,
        {
            let p: PendingBlock = self.list.remove(0);
            proof {
                assert(p == all[i as int]);
                assert(self.list@ =~= all.skip(i + 1));
                assert(all.take(i + 1).drop_last() =~= all.take(i as int));
            }
            if p.job == job {
                mine.push(p);
            } else {
                others.push(p);
            }
            i = i + 1;
        }
        assert(all.take(n as int) =~= all);
        self.list = others;
        mine
    }

    /// Drops the candidates that have waited too long.
    pub fn expire(&mut self, now: u64)
        requires
            old(self).wf(),
        ensures
            final(self).wf(),
            final(self)@ == waiting(old(self)@, now),
    {
        let ghost all = self.list@;
        let mut kept: Vec<PendingBlock> = Vec::new();
        let mut i: usize = 0;
        let n: usize = self.list.len();
        assert(all.take(0) =~= Seq::empty());
        assert(all.skip(0) =~= all);
        assert forall|k: int| 0 <= k < all.len() implies (#[trigger] all[k]).wf() by {
            assert(self@[k].wf());
        }
        while i < n
            invariant
                i <= n == all.len(),
                self.list@ == all.skip(i as int),
                forall|k: int| 0 <= k < all.len() ==> (#[trigger] all[k]).wf(),
                kept@ == waiting(all.take(i as int), now),
                forall|k: int| 0 <= k < kept@.len() ==> (#[trigger] kept@[k]).wf(),
            decreases n - i,
        {
            let p: PendingBlock = self.list.remove(0);
            proof {
                assert(p == all[i as int]);
                assert(self.list@ =~= all.skip(i + 1));
                assert(all.take(i + 1).drop_last() =~= all.take(i as int));
            }
            if now < p.at || now - p.at < PENDING_BLOCK_TTL {
                kept.push(p);
            }
            i = i + 1;
        }
        assert(all.take(n as int) =~= all);
        self.list = kept;
    }

    /// What a gateway's reply about a job's transactions calls for. A reply with only short ids
    /// leaves the candidates waiting.
    pub fn on_validation(&mut self, reply: &ValidationReply) -> (r: ValidationAction)
        requires
            old(self).wf(),
        ensures
            final(self).wf(),
            ({
                let mine = of_job(old(self)@, reply.spec_job());
                if mine.len() == 0 || reply is ShortIds {
                    &&& final(self)@ == old(self)@
                    &&& r is Nothing
                } else {
                    &&& final(self)@ == of_others(old(self)@, reply.spec_job())
                    &&& reply->ok ==> (r matches ValidationAction::Submit(v) && v@ == mine)
                    &&& !reply->ok ==> (r matches ValidationAction::NoTransactions(v) && v@ == mine)
                }
            }),
            r matches ValidationAction::Submit(v) ==> forall|i: int|
                0 <= i < v@.len() ==> (#[trigger] v@[i]).wf(),
    {
        match reply {
            ValidationReply::ShortIds { job } => ValidationAction::Nothing,
            ValidationReply::Transactions { job, ok } => {
                proof {
                    lemma_none_of_job(self@, *job);
                }
                let mine: Vec<PendingBlock> = self.take_job(*job);
                if mine.len() == 0 {
                    ValidationAction::Nothing
                } else if *ok {
                    ValidationAction::Submit(mine)
                } else {
                    ValidationAction::NoTransactions(mine)
                }
            },
        }
    }
}

proof fn lemma_none_of_job(v: Seq<PendingBlock>, job: u8)
    ensures
        of_job(v, job).len() == 0 ==> of_others(v, job) == v,
    decreases v.len(),
{
    if v.len() > 0 {
        lemma_none_of_job(v.drop_last(), job);
        assert(v.drop_last().push(v.last()) =~= v);
    } else {
        assert(of_others(v, job) =~= v);
    }
}

/// What a gateway replies about a job.
pub enum ValidationReply {
    /// The transactions themselves, or that they could not be had.
    Transactions { job: u8, ok: bool },
    /// Short ids of the transactions.
    ShortIds { job: u8 },
}

impl ValidationReply {
    /// The job replied about.
    pub open spec fn spec_job(self) -> u8 {
        match self {
            ValidationReply::Transactions { job, ok } => job,
            ValidationReply::ShortIds { job } => job,
        }
    }
}

/// What a reply calls for.
pub enum ValidationAction {
    Nothing,
    /// The candidates cannot be assembled.
    NoTransactions(Vec<PendingBlock>),
    /// The candidates are to be assembled and submitted.
    Submit(Vec<PendingBlock>),
}

/// Whether a set of transactions is one the header commits to: with or without the coinbase.
pub fn txcount_fits(txcount: u32, n: usize) -> (r: bool)
    ensures
        r == (n == txcount || n == if txcount > 0 {
            txcount - 1
        } else {
            0
        }),
        n == txcount || n + 1 == txcount ==> r,
        n > txcount || n + 1 < txcount ==> !r,
{
    let without: u32 = if txcount > 0 {
        txcount - 1
    } else {
        0
    };
    n == without as usize || n == txcount as usize
}

/// Serializes a candidate's block in hexadecimal, with the job's transactions.
pub fn submission(p: &PendingBlock, txns: &[Vec<u8>]) -> (s: String)
    requires
        p.wf(),
        txns@.len() < u64::MAX,
    ensures
        s@ == hex_of(
            p.share.commitment@.header_bytes(
                p.submit.blake2b.unwrap().nonce@,
                p.submit.blake2b.unwrap().ntime@,
                p.submit.extranonce@,
            ) + varint(txns@.len() + 1) + block_form(
                p.share.coinbase_legacy@,
                p.share.coinbase@.outputs,
            ) + joined(txns@),
        ),
{
    let block: Vec<u8> = assemble_block(&p.share, &p.submit, txns);
    to_hex(block.as_slice())
}

proof fn lemma_sum_concat(a: Seq<(Seq<char>, u64)>, b: Seq<(Seq<char>, u64)>)
    ensures
        amounts_sum(a + b) == amounts_sum(a) + amounts_sum(b),
    decreases b.len(),
{
    if b.len() == 0 {
        assert(a + b =~= a);
    } else {
        assert((a + b).drop_last() =~= a + b.drop_last());
        lemma_sum_concat(a, b.drop_last());
    }
}

proof fn lemma_dropped_all(v: Seq<PayeeView>, outs: Seq<TxOutView>)
    ensures
        forall|i: int|
            0 <= i < v.len() && paid_to_script(outs, (#[trigger] v[i]).script) == 0 ==> dropped(
                v,
                outs,
            ).contains((v[i].identity, v[i].sats)),
        forall|k: int|
            0 <= k < dropped(v, outs).len() ==> exists|i: int|
                0 <= i < v.len() && paid_to_script(outs, (#[trigger] v[i]).script) == 0 && (
                v[i].identity,
                v[i].sats,
            ) == #[trigger] dropped(v, outs)[k],
        (forall|i: int|
            0 <= i < v.len() ==> paid_to_script(outs, (#[trigger] v[i]).script) == 0)
            ==> dropped(v, outs) == named(v),
        (forall|i: int|
            0 <= i < v.len() ==> paid_to_script(outs, (#[trigger] v[i]).script) > 0)
            ==> dropped(v, outs).len() == 0,
    decreases v.len(),
{
    let d = dropped(v, outs);
    if v.len() > 0 {
        let u = v.drop_last();
        let n = v.len() - 1;
        let e = dropped(u, outs);
        lemma_dropped_all(u, outs);
        assert(v[n] == v.last());
        assert forall|k: int| 0 <= k < e.len() implies d[k] == #[trigger] e[k] by {}
        assert forall|i: int|
            0 <= i < v.len() && paid_to_script(outs, (#[trigger] v[i]).script) == 0 implies d.contains(
            (v[i].identity, v[i].sats),
        ) by {
            if i < n {
                assert(u[i] == v[i]);
                let x = (u[i].identity, u[i].sats);
                assert(e.contains(x));
                let k = choose|k: int| 0 <= k < e.len() && e[k] == x;
                assert(d[k] == x);
            } else {
                assert(d[d.len() - 1] == (v[i].identity, v[i].sats));
            }
        }
        assert forall|k: int| 0 <= k < d.len() implies exists|i: int|
            0 <= i < v.len() && paid_to_script(outs, (#[trigger] v[i]).script) == 0 && (
            v[i].identity,
            v[i].sats,
        ) == #[trigger] d[k] by {
            if k < e.len() {
                assert(d[k] == e[k]);
                let i = choose|i: int|
                    0 <= i < u.len() && paid_to_script(outs, (#[trigger] u[i]).script) == 0 && (
                    u[i].identity,
                    u[i].sats,
                ) == e[k];
                assert(v[i] == u[i]);
            } else {
                assert((v[n].identity, v[n].sats) == d[k]);
            }
        }
        if forall|i: int| 0 <= i < v.len() ==> paid_to_script(outs, (#[trigger] v[i]).script) == 0 {
            assert forall|i: int| 0 <= i < u.len() implies paid_to_script(
                outs,
                (#[trigger] u[i]).script,
            ) == 0 by {
                assert(u[i] == v[i]);
            }
            assert(d =~= named(v));
        }
        if forall|i: int| 0 <= i < v.len() ==> paid_to_script(outs, (#[trigger] v[i]).script) > 0 {
            assert forall|i: int| 0 <= i < u.len() implies paid_to_script(
                outs,
                (#[trigger] u[i]).script,
            ) > 0 by {
                assert(u[i] == v[i]);
            }
        }
    } else {
        assert(d =~= named(v));
    }
}

/// What a block's record says is owed is what it leaves to be carried: the amounts it lists as
/// unpaid come to what is owed and what the issued split itself could not pay.
pub proof fn lemma_owed_is_left_to_be_carried(
    v: VerifiedShare,
    issued: Option<IssuedView>,
    live: SplitView,
    ts: u64,
    finder: Seq<char>,
    gateway: Seq<char>,
)
    requires
        issued matches Some(c) ==> c.wf(),
        issued.is_none() ==> payees_sum(live.payees) <= v.coinbase_value,
    ensures
        ({
            let r = candidate_record(v, issued, live, ts, finder, gateway);
            &&& issued.is_none() ==> amounts_sum(r.unpaid) == r.owed_sats
            &&& issued matches Some(c) ==> {
                &&& amounts_sum(r.unpaid) == r.owed_sats + amounts_sum(c.unpaid)
                &&& forall|i: int|
                    0 <= i < c.unpaid.len() ==> r.unpaid.contains(#[trigger] c.unpaid[i])
                &&& r.carry_paid == c.carry_paid
                &&& r.snapshot == c.snapshot
            }
            &&& issued.is_none() ==> r.carry_paid.len() == 0
        }),
{
    let r = candidate_record(v, issued, live, ts, finder, gateway);
    let left = left_over(v.coinbase_kind, issued, live, v.coinbase@.outputs, v.coinbase_value);
    lemma_owed_is_left_over(
        v.coinbase_kind,
        issued,
        live,
        v.coinbase@.outputs,
        v.coinbase_value,
    );
    if let Some(c) = issued {
        lemma_sum_concat(c.unpaid, left);
        assert forall|i: int| 0 <= i < c.unpaid.len() implies r.unpaid.contains(
            #[trigger] c.unpaid[i],
        ) by {
            assert(r.unpaid[i] == c.unpaid[i]);
        }
    }
}

/// A block that paid only the pool owes everyone of its split, and leaves each amount to be
/// carried: of the issued split, each payee's amount in the proportion of what the block is worth
/// to what the split was issued for; where none was issued, of the split by the window.
pub proof fn lemma_pool_only_block_owes_the_split(
    v: VerifiedShare,
    issued: Option<IssuedView>,
    live: SplitView,
    ts: u64,
    finder: Seq<char>,
    gateway: Seq<char>,
)
    requires
        issued matches Some(c) ==> c.wf(),
        issued.is_none() ==> payees_sum(live.payees) <= v.coinbase_value,
        v.coinbase_kind == CoinbaseKind::PoolOnly,
    ensures
        ({
            let r = candidate_record(v, issued, live, ts, finder, gateway);
            let payees = match issued {
                Some(c) => c.payees,
                None => live.payees,
            };
            &&& r.kind == "pool-only"@
            &&& r.split.len() == payees.len()
            &&& r.owed_sats == amounts_sum(r.split)
            &&& r.owed_sats <= v.coinbase_value
            &&& forall|i: int| 0 <= i < r.split.len() ==> r.unpaid.contains(#[trigger] r.split[i])
            &&& forall|i: int|
                0 <= i < r.split.len() ==> (#[trigger] r.split[i]).0 == payees[i].identity
            &&& issued.is_none() ==> forall|i: int|
                0 <= i < r.split.len() ==> (#[trigger] r.split[i]).1 == payees[i].sats
            &&& issued matches Some(c) ==> forall|i: int|
                0 <= i < r.split.len() && c.value > 0 ==> (#[trigger] r.split[i]).1 * c.value
                    <= payees[i].sats * v.coinbase_value < (r.split[i].1 + 1) * c.value
        }),
{
    let r = candidate_record(v, issued, live, ts, finder, gateway);
    let value = v.coinbase_value;
    lemma_owed_is_left_over(v.coinbase_kind, issued, live, v.coinbase@.outputs, value);
    let left = left_over(v.coinbase_kind, issued, live, v.coinbase@.outputs, value);
    assert(left == r.split);
    assert forall|i: int| 0 <= i < r.split.len() implies r.unpaid.contains(
        #[trigger] r.split[i],
    ) by {
        match issued {
            Some(c) => {
                assert(r.unpaid[c.unpaid.len() + i] == left[i]);
            },
            None => {
                assert(r.unpaid[i] == left[i]);
            },
        }
    }
    if let Some(c) = issued {
        lemma_scaled_sum(c.payees, value, c.value);
        assert forall|i: int| 0 <= i < r.split.len() && c.value > 0 implies (
        #[trigger] r.split[i]).1 * c.value <= c.payees[i].sats * value < (r.split[i].1 + 1)
            * c.value by {
            let x = c.payees[i].sats as int * value as int;
            let d = c.value as int;
            let q = x / d;
            vstd::arithmetic::div_mod::lemma_fundamental_div_mod(x, d);
            vstd::arithmetic::div_mod::lemma_mod_bound(x, d);
            assert(c.payees[i].sats as nat * value as nat == x);
            assert(r.split[i].1 == q);
            assert(d * q == q * d) by (nonlinear_arith);
            assert((q + 1) * d == q * d + d) by (nonlinear_arith);
        }
    }
}

/// A block that paid a part of its split owes exactly those whose scripts its coinbase does not
/// pay, in full, and leaves each to be carried. One that paid the whole split owes nobody.
pub proof fn lemma_partial_block_owes_whom_it_dropped(
    v: VerifiedShare,
    c: IssuedView,
    live: SplitView,
    ts: u64,
    finder: Seq<char>,
    gateway: Seq<char>,
)
    requires
        c.wf(),
        v.coinbase_kind is Partial || v.coinbase_kind is Split,
    ensures
        ({
            let r = candidate_record(v, Some(c), live, ts, finder, gateway);
            let outs = v.coinbase@.outputs;
            &&& r.split.len() == c.payees.len()
            &&& forall|i: int|
                0 <= i < r.split.len() ==> (#[trigger] r.split[i]) == (
                c.payees[i].identity,
                c.payees[i].sats,
            )
            &&& v.coinbase_kind is Split ==> r.kind == "split"@ && r.owed_sats == 0 && r.unpaid
                == c.unpaid
            &&& v.coinbase_kind is Partial ==> {
                &&& r.kind == "partial"@
                &&& forall|i: int|
                    0 <= i < c.payees.len() && paid_to_script(
                        outs,
                        (#[trigger] c.payees[i]).script,
                    ) == 0 ==> r.unpaid.contains((c.payees[i].identity, c.payees[i].sats))
                &&& forall|k: int|
                    c.unpaid.len() <= k < r.unpaid.len() ==> exists|i: int|
                        0 <= i < c.payees.len() && paid_to_script(
                            outs,
                            (#[trigger] c.payees[i]).script,
                        ) == 0 && (c.payees[i].identity, c.payees[i].sats) == #[trigger] r.unpaid[k]
                &&& (forall|i: int|
                    0 <= i < c.payees.len() ==> paid_to_script(
                        outs,
                        (#[trigger] c.payees[i]).script,
                    ) == 0) ==> r.owed_sats == payees_sum(c.payees)
                &&& (forall|i: int|
                    0 <= i < c.payees.len() ==> paid_to_script(
                        outs,
                        (#[trigger] c.payees[i]).script,
                    ) > 0) ==> r.owed_sats == 0
            }
        }),
{
    let r = candidate_record(v, Some(c), live, ts, finder, gateway);
    let outs = v.coinbase@.outputs;
    lemma_dropped_all(c.payees, outs);
    lemma_dropped_sum(c.payees, outs);
    lemma_named_sum(c.payees);
    let left = left_over(v.coinbase_kind, Some(c), live, outs, v.coinbase_value);
    if v.coinbase_kind is Split {
        assert(r.unpaid =~= c.unpaid);
    } else {
        assert forall|i: int|
            0 <= i < c.payees.len() && paid_to_script(outs, (#[trigger] c.payees[i]).script)
                == 0 implies r.unpaid.contains((c.payees[i].identity, c.payees[i].sats)) by {
            let x = (c.payees[i].identity, c.payees[i].sats);
            assert(left.contains(x));
            let k = choose|k: int| 0 <= k < left.len() && left[k] == x;
            assert(r.unpaid[c.unpaid.len() + k] == x);
        }
        assert forall|k: int| c.unpaid.len() <= k < r.unpaid.len() implies exists|i: int|
            0 <= i < c.payees.len() && paid_to_script(outs, (#[trigger] c.payees[i]).script) == 0
                && (c.payees[i].identity, c.payees[i].sats) == #[trigger] r.unpaid[k] by {
            assert(r.unpaid[k] == left[k - c.unpaid.len()]);
        }
    }
}

/// A record says which block it is of: its height, worth and hash, who found it and through which
/// gateway, and what it paid the pool. It begins pending, neither settled nor carried.
pub proof fn lemma_record_names_the_block(
    v: VerifiedShare,
    issued: Option<IssuedView>,
    live: SplitView,
    ts: u64,
    finder: Seq<char>,
    gateway: Seq<char>,
)
    ensures
        ({
            let r = candidate_record(v, issued, live, ts, finder, gateway);
            &&& r.ts == ts
            &&& r.height == v.height
            &&& r.hash == hex_of(v.hash@.reverse())
            &&& r.finder == Some(finder)
            &&& r.coinbase_value == v.coinbase_value
            &&& r.pool_sats == v.paid_to_pool
            &&& r.gateway == gateway
            &&& r.submit == "pending"@
            &&& !r.settled && !r.carried
            &&& v.coinbase_kind is Foreign || (v.coinbase_kind is Partial && issued.is_none())
                ==> r.kind == "unknown"@ && r.owed_sats == 0 && r.split.len() == 0
        }),
{
}

/// The candidates of a job are the ones of the list that solved it, in its order, and the others
/// are the ones that did not.
pub proof fn lemma_candidates_by_job(v: Seq<PendingBlock>, job: u8)
    ensures
        of_job(v, job) == v.filter(|p: PendingBlock| p.job == job),
        of_others(v, job) == v.filter(|p: PendingBlock| p.job != job),
    decreases v.len(),
{
    reveal(Seq::filter);
    if v.len() > 0 {
        lemma_candidates_by_job(v.drop_last(), job);
    }
}

/// A candidate is dropped when it has waited two minutes, and not before; the others keep their
/// order.
pub proof fn lemma_candidates_wait_two_minutes(v: Seq<PendingBlock>, now: u64)
    ensures
        waiting(v, now) == v.filter(|p: PendingBlock| now - p.at < 120_000_000_000),
    decreases v.len(),
{
    reveal(Seq::filter);
    if v.len() > 0 {
        lemma_candidates_wait_two_minutes(v.drop_last(), now);
    }
}

} // verus!
