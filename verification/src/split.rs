//! The coinbase split: what each identity of the window is paid of a block.
//!
//! An identity is paid `value * work * (10000 - bps) / total_work / 10000`, rounded down, where
//! the fee `bps` depends on how the work arrived unless the identity has a rate of its own.
//! Largest work first, within the room a coinbase has; the pool's output is what is left.
//!
//! Under a cap on payees, those within it divide all that the fee leaves: by work, but each at
//! least the minimum.

use crate::address::{base58_view, payable_script, to_script, Network};
use crate::bytes::slice_of;
use crate::capped::{
    amounts, divide, lemma_amounts, lemma_more_weight_gets_no_less, weight_sum, weights_view,
};
use crate::names::NameMap;
use crate::text::text_eq;
use crate::tides::{
    lemma_miners_unique, listed_before, miners_view, work_sum, work_sum_of, Credit, MinerStat,
    MinerView, Window, WindowView,
};
use vstd::prelude::*;

verus! {

/// A whole in basis points.
pub const WHOLE_BPS: u32 = 10000;

/// Bytes of an output besides its script: the value and the script's length.
pub const OUTPUT_OVERHEAD: usize = 9;

/// How a split is computed.
#[derive(Clone, Debug, PartialEq, Eq)]
pub struct SplitParams {
    /// Fee on DATUM work, in basis points.
    pub fee_bps: u32,
    /// Fee on work of the pool's own stratum, in basis points.
    pub stratum_fee_bps: u32,
    /// Smallest amount an output is made for.
    pub min_payout: u64,
    /// Most outputs, the pool's aside.
    pub max_outputs: usize,
    /// Most bytes of outputs, the pool's aside.
    pub output_budget_bytes: usize,
    /// Most identities paid in a capped split, which pays everyone it can at least the minimum and
    /// leaves the pool its fee; 0 for a split without a cap.
    pub max_payees: usize,
    /// Fees of single identities, on both kinds of work.
    pub fee_overrides: NameMap<u32>,
}

/// What [`SplitParams`] hold.
#[verifier::ext_equal]
pub struct ParamsView {
    pub fee_bps: u32,
    pub stratum_fee_bps: u32,
    pub min_payout: u64,
    pub max_outputs: nat,
    pub output_budget_bytes: nat,
    pub max_payees: nat,
    pub fee_overrides: Map<Seq<char>, u32>,
}

impl View for SplitParams {
    type V = ParamsView;

    open spec fn view(&self) -> ParamsView {
        ParamsView {
            fee_bps: self.fee_bps,
            stratum_fee_bps: self.stratum_fee_bps,
            min_payout: self.min_payout,
            max_outputs: self.max_outputs as nat,
            output_budget_bytes: self.output_budget_bytes as nat,
            max_payees: self.max_payees as nat,
            fee_overrides: self.fee_overrides@,
        }
    }
}

impl ParamsView {
    /// The fees on an identity's stratum and DATUM work.
    pub open spec fn bps(self, identity: Seq<char>) -> (u32, u32) {
        if self.fee_overrides.contains_key(identity) {
            (self.fee_overrides[identity], self.fee_overrides[identity])
        } else {
            (self.stratum_fee_bps, self.fee_bps)
        }
    }

    /// No fee is more than the whole.
    pub open spec fn valid(self) -> bool {
        &&& self.fee_bps <= WHOLE_BPS
        &&& self.stratum_fee_bps <= WHOLE_BPS
        &&& forall|k: Seq<char>|
            self.fee_overrides.contains_key(k) ==> #[trigger] self.fee_overrides[k] <= WHOLE_BPS
    }

    /// Whether an output to `script` still fits beside `n` outputs of `bytes` bytes.
    pub open spec fn has_room(self, n: nat, bytes: nat, script: Seq<u8>) -> bool {
        n < self.max_outputs && (self.max_payees == 0 || n < self.max_payees) && bytes
            + OUTPUT_OVERHEAD + script.len() <= self.output_budget_bytes
    }
}

impl SplitParams {
    /// The overrides are in order and no fee is more than the whole.
    pub open spec fn wf(&self) -> bool {
        self.fee_overrides.wf() && self@.valid()
    }

    /// The fees, in basis points, on an identity's stratum and DATUM work.
    pub fn bps_for(&self, identity: &str) -> (r: (u32, u32))
        requires
            self.fee_overrides.wf(),
        ensures
            r == self@.bps(identity@),
    {
        match self.fee_overrides.get(identity) {
            Some(b) => (b, b),
            None => (self.stratum_fee_bps, self.fee_bps),
        }
    }

    /// The same parameters.
    pub fn duplicate(&self) -> (r: SplitParams)
        ensures
            r@ == self@,
            r.fee_overrides.rows() == self.fee_overrides.rows(),
    {
        SplitParams {
            fee_bps: self.fee_bps,
            stratum_fee_bps: self.stratum_fee_bps,
            min_payout: self.min_payout,
            max_outputs: self.max_outputs,
            output_budget_bytes: self.output_budget_bytes,
            max_payees: self.max_payees,
            fee_overrides: self.fee_overrides.duplicate(),
        }
    }

    fn room(&self, n: usize, bytes: usize, script: &[u8]) -> (r: bool)
        requires
            bytes <= self.output_budget_bytes,
        ensures
            r == self@.has_room(n as nat, bytes as nat, script@),
    {
        let left: usize = self.output_budget_bytes - bytes;
        n < self.max_outputs && (self.max_payees == 0 || n < self.max_payees) && script.len() <= left
            && OUTPUT_OVERHEAD <= left - script.len()
    }
}

/// Why an identity of the window gets no output.
#[derive(Clone, Copy, Debug, PartialEq, Eq, Structural)]
pub enum UnpaidReason {
    /// Its amount is below the minimum payout.
    BelowMinimum,
    /// It is not an address that can be paid.
    NoScript,
    /// Its output did not fit.
    BelowCut,
}

/// An identity that is paid.
#[derive(Clone, Debug, PartialEq, Eq)]
pub struct Payee {
    pub identity: String,
    pub work: u64,
    pub sats: u64,
    pub script: Vec<u8>,
}

/// What a [`Payee`] holds.
#[verifier::ext_equal]
pub struct PayeeView {
    pub identity: Seq<char>,
    pub work: u64,
    pub sats: u64,
    pub script: Seq<u8>,
}

impl View for Payee {
    type V = PayeeView;

    open spec fn view(&self) -> PayeeView {
        PayeeView {
            identity: self.identity@,
            work: self.work,
            sats: self.sats,
            script: self.script@,
        }
    }
}

/// A split of a block's value.
#[derive(Clone, Debug, PartialEq, Eq)]
pub struct Split {
    pub payees: Vec<Payee>,
    pub unpaid: Vec<(String, u64, UnpaidReason)>,
    /// What of each identity's carry the payees' amounts hold.
    pub carry_paid: Vec<(String, u64)>,
    /// The pool's fee.
    pub fee_sats: u64,
    /// What the pool's output holds: the fee and what could not be placed.
    pub pool_sats: u64,
}

/// What a [`Split`] holds.
#[verifier::ext_equal]
pub struct SplitView {
    pub payees: Seq<PayeeView>,
    pub unpaid: Seq<(Seq<char>, u64, UnpaidReason)>,
    pub carry_paid: Seq<(Seq<char>, u64)>,
    pub fee_sats: u64,
    pub pool_sats: u64,
}

/// Payees as mathematical values.
pub open spec fn payees_view(v: Seq<Payee>) -> Seq<PayeeView> {
    Seq::new(v.len(), |i: int| v[i]@)
}

/// Unpaid entries as mathematical values.
pub open spec fn unpaid_view(v: Seq<(String, u64, UnpaidReason)>) -> Seq<
    (Seq<char>, u64, UnpaidReason),
> {
    Seq::new(v.len(), |i: int| (v[i].0@, v[i].1, v[i].2))
}

/// Named amounts as mathematical values.
pub open spec fn amounts_view(v: Seq<(String, u64)>) -> Seq<(Seq<char>, u64)> {
    Seq::new(v.len(), |i: int| (v[i].0@, v[i].1))
}

impl View for Split {
    type V = SplitView;

    open spec fn view(&self) -> SplitView {
        SplitView {
            payees: payees_view(self.payees@),
            unpaid: unpaid_view(self.unpaid@),
            carry_paid: amounts_view(self.carry_paid@),
            fee_sats: self.fee_sats,
            pool_sats: self.pool_sats,
        }
    }
}

/// What payees are paid together.
pub open spec fn payees_sum(v: Seq<PayeeView>) -> nat
    decreases v.len(),
{
    if v.len() == 0 {
        0
    } else {
        payees_sum(v.drop_last()) + v.last().sats as nat
    }
}

/// Work weighted with what is left of it after the fee, in basis points.
pub open spec fn net_weight(m: MinerView, p: ParamsView) -> nat {
    let (s, d) = p.bps(m.identity);
    (m.stratum_work * (WHOLE_BPS - s) + (m.work - m.stratum_work) * (WHOLE_BPS - d)) as nat
}

/// Work weighted with the fee on it, in basis points.
pub open spec fn fee_weight(m: MinerView, p: ParamsView) -> nat {
    let (s, d) = p.bps(m.identity);
    (m.stratum_work * s + (m.work - m.stratum_work) * d) as nat
}

/// What `weight` of `total` work earns of `value`.
pub open spec fn part_of_value(value: u64, weight: nat, total: u64) -> nat {
    if total == 0 {
        0
    } else {
        value as nat * weight / total as nat / WHOLE_BPS as nat
    }
}

/// The fee weights of all miners.
pub open spec fn fee_weights(miners: Seq<MinerView>, p: ParamsView) -> nat
    decreases miners.len(),
{
    if miners.len() == 0 {
        0
    } else {
        fee_weights(miners.drop_last(), p) + fee_weight(miners.last(), p)
    }
}

/// The work of all miners.
pub open spec fn miners_work(miners: Seq<MinerView>) -> nat
    decreases miners.len(),
{
    if miners.len() == 0 {
        0
    } else {
        miners_work(miners.drop_last()) + miners.last().work as nat
    }
}

/// Stratum work is part of the work, and all of it is part of the total.
pub open spec fn miners_fit(miners: Seq<MinerView>, total: u64) -> bool {
    &&& miners_work(miners) <= total
    &&& forall|i: int|
        0 <= i < miners.len() ==> (#[trigger] miners[i]).stratum_work <= miners[i].work
}

/// Who has been placed so far, and the bytes of their outputs.
#[verifier::ext_equal]
pub struct Placed {
    pub payees: Seq<PayeeView>,
    pub unpaid: Seq<(Seq<char>, u64, UnpaidReason)>,
    pub bytes: nat,
}

/// Places one more identity.
pub open spec fn place_one(
    so_far: Placed,
    m: MinerView,
    script: Option<Seq<u8>>,
    sats: u64,
    p: ParamsView,
) -> Placed {
    match script {
        None => Placed {
            unpaid: so_far.unpaid.push((m.identity, sats, UnpaidReason::NoScript)),
            ..so_far
        },
        Some(s) => if sats < p.min_payout {
            Placed {
                unpaid: so_far.unpaid.push((m.identity, sats, UnpaidReason::BelowMinimum)),
                ..so_far
            }
        } else if !p.has_room(so_far.payees.len(), so_far.bytes, s) {
            Placed {
                unpaid: so_far.unpaid.push((m.identity, sats, UnpaidReason::BelowCut)),
                ..so_far
            }
        } else {
            Placed {
                payees: so_far.payees.push(
                    PayeeView { identity: m.identity, work: m.work, sats, script: s },
                ),
                bytes: (so_far.bytes + OUTPUT_OVERHEAD + s.len()) as nat,
                ..so_far
            }
        },
    }
}

/// Places the identities in turn.
pub open spec fn place_all(
    miners: Seq<MinerView>,
    scripts: Seq<Option<Seq<u8>>>,
    total: u64,
    value: u64,
    p: ParamsView,
) -> Placed
    decreases miners.len(),
{
    if miners.len() == 0 {
        Placed { payees: Seq::empty(), unpaid: Seq::empty(), bytes: 0 }
    } else {
        let m = miners.last();
        place_one(
            place_all(miners.drop_last(), scripts.drop_last(), total, value, p),
            m,
            scripts.last(),
            part_of_value(value, net_weight(m, p), total) as u64,
            p,
        )
    }
}

/// The pool's fee on a block of `value`.
pub open spec fn fee_of(miners: Seq<MinerView>, total: u64, value: u64, p: ParamsView) -> nat {
    if miners.len() == 0 {
        value as nat * p.fee_bps as nat / WHOLE_BPS as nat
    } else {
        part_of_value(value, fee_weights(miners, p), total)
    }
}

/// The least a payee of a capped split gets.
pub open spec fn floor_of(p: ParamsView) -> u64 {
    if p.min_payout == 0 {
        1
    } else {
        p.min_payout
    }
}

/// Who has been chosen for a capped split, before anyone's amount is known, and their weights.
#[verifier::ext_equal]
pub struct Chosen {
    pub placed: Placed,
    pub weights: Seq<nat>,
}

/// Looks at one more identity: it is chosen if it has work to be paid for, an address, and a place
/// among the `limit` that the value has a minimum for. What it would have earned goes to those
/// who are chosen.
pub open spec fn choose_one(
    so_far: Chosen,
    m: MinerView,
    script: Option<Seq<u8>>,
    limit: nat,
    p: ParamsView,
) -> Chosen {
    let c = so_far.placed;
    match script {
        None => Chosen {
            placed: Placed {
                unpaid: c.unpaid.push((m.identity, 0, UnpaidReason::NoScript)),
                ..c
            },
            ..so_far
        },
        Some(s) => if net_weight(m, p) == 0 || c.payees.len() >= limit {
            Chosen {
                placed: Placed {
                    unpaid: c.unpaid.push((m.identity, 0, UnpaidReason::BelowMinimum)),
                    ..c
                },
                ..so_far
            }
        } else if !p.has_room(c.payees.len(), c.bytes, s) {
            Chosen {
                placed: Placed {
                    unpaid: c.unpaid.push((m.identity, 0, UnpaidReason::BelowCut)),
                    ..c
                },
                ..so_far
            }
        } else {
            Chosen {
                placed: Placed {
                    payees: c.payees.push(
                        PayeeView { identity: m.identity, work: m.work, sats: 0, script: s },
                    ),
                    bytes: (c.bytes + OUTPUT_OVERHEAD + s.len()) as nat,
                    ..c
                },
                weights: so_far.weights.push(net_weight(m, p)),
            }
        },
    }
}

/// Looks at the identities in turn.
pub open spec fn choose_all(
    miners: Seq<MinerView>,
    scripts: Seq<Option<Seq<u8>>>,
    limit: nat,
    p: ParamsView,
) -> Chosen
    decreases miners.len(),
{
    if miners.len() == 0 {
        Chosen {
            placed: Placed { payees: Seq::empty(), unpaid: Seq::empty(), bytes: 0 },
            weights: Seq::empty(),
        }
    } else {
        choose_one(
            choose_all(miners.drop_last(), scripts.drop_last(), limit, p),
            miners.last(),
            scripts.last(),
            limit,
            p,
        )
    }
}

/// Payees with their amounts.
pub open spec fn with_amounts(v: Seq<PayeeView>, a: Seq<nat>) -> Seq<PayeeView> {
    Seq::new(v.len(), |i: int| PayeeView { sats: a[i] as u64, ..v[i] })
}

/// What is left of a value after the fee.
pub open spec fn after_fee(miners: Seq<MinerView>, total: u64, value: u64, p: ParamsView) -> u64 {
    (value - fee_of(miners, total, value, p)) as u64
}

/// Places the identities of a capped split: as many as the cap, the coinbase and the value have
/// room for, largest work first. They divide all that the fee leaves, by what the fee leaves of
/// their work, and nobody gets less than the minimum.
pub open spec fn place_capped(
    miners: Seq<MinerView>,
    scripts: Seq<Option<Seq<u8>>>,
    total: u64,
    value: u64,
    p: ParamsView,
) -> Placed {
    let left = after_fee(miners, total, value, p);
    let c = choose_all(miners, scripts, left as nat / floor_of(p) as nat, p);
    Placed { payees: with_amounts(c.placed.payees, amounts(c.weights, left, floor_of(p))), ..c.placed }
}

/// Places the identities, with a cap or without.
pub open spec fn placed_of(
    miners: Seq<MinerView>,
    scripts: Seq<Option<Seq<u8>>>,
    total: u64,
    value: u64,
    p: ParamsView,
) -> Placed {
    if p.max_payees == 0 {
        place_all(miners, scripts, total, value, p)
    } else {
        place_capped(miners, scripts, total, value, p)
    }
}

/// The fee on `value` at one rate.
pub fn fee_for(value: u64, bps: u32) -> (fee: u64)
    requires
        bps <= WHOLE_BPS,
    ensures
        fee == value as nat * bps as nat / WHOLE_BPS as nat,
        fee <= value,
{
    proof {
        assert(value * bps <= value * 10000) by (nonlinear_arith)
            requires
                0 <= value,
                bps <= 10000,
        ;
        assert(value * bps / 10000 <= value) by (nonlinear_arith)
            requires
                value * bps <= value * 10000,
        ;
    }
    ((value as u128 * bps as u128) / 10000) as u64
}

/// The weights of an identity add up to its work in basis points.
proof fn lemma_weights(m: MinerView, p: ParamsView)
    requires
        p.valid(),
        m.stratum_work <= m.work,
    ensures
        net_weight(m, p) + fee_weight(m, p) == m.work * 10000,
        net_weight(m, p) <= m.work * 10000,
        fee_weight(m, p) <= m.work * 10000,
        net_weight(m, p) == m.stratum_work * (10000 - p.bps(m.identity).0) + (m.work
            - m.stratum_work) * (10000 - p.bps(m.identity).1),
        fee_weight(m, p) == m.stratum_work * p.bps(m.identity).0 + (m.work - m.stratum_work)
            * p.bps(m.identity).1,
{
    let (s, d) = p.bps(m.identity);
    assert(s <= 10000 && d <= 10000);
    let a = m.stratum_work as int;
    let b = m.work - m.stratum_work;
    assert(a * (10000 - s) + a * s == a * 10000) by (nonlinear_arith);
    assert(b * (10000 - d) + b * d == b * 10000) by (nonlinear_arith);
    assert(a * (10000 - s) >= 0 && a * s >= 0) by (nonlinear_arith)
        requires
            a >= 0,
            0 <= s <= 10000,
    ;
    assert(b * (10000 - d) >= 0 && b * d >= 0) by (nonlinear_arith)
        requires
            b >= 0,
            0 <= d <= 10000,
    ;
}

/// A part is no more than its weight says.
proof fn lemma_part(value: u64, weight: nat, total: u64)
    requires
        total > 0,
    ensures
        10000 * total * part_of_value(value, weight, total) <= value * weight,
        weight <= 10000 * total ==> part_of_value(value, weight, total) <= value,
{
    let x = value as nat * weight;
    let t = total as nat;
    let q = x / t;
    let r = q / 10000nat;
    assert(x >= 0) by (nonlinear_arith)
        requires
            x == value as nat * weight,
    ;
    assert(t * q <= x) by (nonlinear_arith)
        requires
            q == x / t,
            t > 0,
    ;
    assert(10000 * r <= q);
    assert(10000 * t * r <= t * q) by (nonlinear_arith)
        requires
            10000 * r <= q,
            t > 0,
    ;
    if weight <= 10000 * total {
        assert(value * weight <= value * (10000 * total)) by (nonlinear_arith)
            requires
                0 <= value,
                weight <= 10000 * total,
        ;
        assert(r <= value) by (nonlinear_arith)
            requires
                10000 * t * r <= value * (10000 * t),
                t > 0,
        ;
    }
}

/// Computes what `weight` of `total` work earns of `value`.
fn part(value: u64, weight: u128, total: u64) -> (r: u64)
    requires
        weight <= 10000 * total,
    ensures
        r == part_of_value(value, weight as nat, total),
        r <= value,
{
    if total == 0 {
        return 0;
    }
    let q: u128 = weight / total as u128;
    let rem: u128 = weight % total as u128;
    proof {
        lemma_part(value, weight as nat, total);
        let t = total as int;
        let v = value as int;
        let w = weight as int;
        vstd::arithmetic::div_mod::lemma_fundamental_div_mod(w, t);
        assert(q <= 10000) by (nonlinear_arith)
            requires
                w == t * q + rem,
                w <= 10000 * t,
                rem >= 0,
                t > 0,
        ;
        assert(0 <= v * q <= 0xffff_ffff_ffff_ffff * 10000) by (nonlinear_arith)
            requires
                0 <= v <= 0xffff_ffff_ffff_ffff,
                0 <= q <= 10000,
        ;
        assert(0 <= v * rem <= 0xffff_ffff_ffff_ffff * 0xffff_ffff_ffff_ffff)
            by (nonlinear_arith)
            requires
                0 <= v <= 0xffff_ffff_ffff_ffff,
                0 <= rem < t <= 0xffff_ffff_ffff_ffff,
        ;
        assert(v * w == v * rem + (v * q) * t) by (nonlinear_arith)
            requires
                w == t * q + rem,
        ;
        vstd::arithmetic::div_mod::lemma_hoist_over_denominator(v * rem, v * q, t as nat);
        assert(v * rem / t <= v * rem) by (nonlinear_arith)
            requires
                v * rem >= 0,
                t > 0,
        ;
    }
    let whole: u128 = value as u128 * q + (value as u128 * rem) / total as u128;
    (whole / 10000) as u64
}

/// Scripts as mathematical values.
pub open spec fn scripts_view(v: Seq<Option<Vec<u8>>>) -> Seq<Option<Seq<u8>>> {
    Seq::new(
        v.len(),
        |i: int|
            match v[i] {
                Some(s) => Some(s@),
                None => None,
            },
    )
}

/// The net weights of all miners.
spec fn net_weights(miners: Seq<MinerView>, p: ParamsView) -> nat
    decreases miners.len(),
{
    if miners.len() == 0 {
        0
    } else {
        net_weights(miners.drop_last(), p) + net_weight(miners.last(), p)
    }
}

proof fn lemma_all_weights(miners: Seq<MinerView>, p: ParamsView)
    requires
        p.valid(),
        forall|i: int|
            0 <= i < miners.len() ==> (#[trigger] miners[i]).stratum_work <= miners[i].work,
    ensures
        net_weights(miners, p) + fee_weights(miners, p) == miners_work(miners) * 10000,
    decreases miners.len(),
{
    if miners.len() > 0 {
        lemma_all_weights(miners.drop_last(), p);
        assert(miners.last() == miners[miners.len() - 1]);
        lemma_weights(miners.last(), p);
    }
}

proof fn lemma_miners_work_prefix(miners: Seq<MinerView>, i: int)
    requires
        0 <= i <= miners.len(),
    ensures
        miners_work(miners.take(i)) <= miners_work(miners),
    decreases miners.len() - i,
{
    if i < miners.len() {
        lemma_miners_work_prefix(miners, i + 1);
        assert(miners.take(i + 1).drop_last() =~= miners.take(i));
    } else {
        assert(miners.take(i) =~= miners);
    }
}

/// What is placed stays within the weights of the identities and the room there is.
proof fn lemma_placed(
    miners: Seq<MinerView>,
    scripts: Seq<Option<Seq<u8>>>,
    total: u64,
    value: u64,
    p: ParamsView,
)
    requires
        p.valid(),
        miners.len() == scripts.len(),
        miners_fit(miners, total),
    ensures
        ({
            let r = place_all(miners, scripts, total, value, p);
            &&& 10000 * total * payees_sum(r.payees) <= value * net_weights(miners, p)
            &&& r.bytes <= p.output_budget_bytes
            &&& r.payees.len() <= miners.len()
        }),
    decreases miners.len(),
{
    if miners.len() > 0 {
        let m = miners.last();
        assert(m == miners[miners.len() - 1]);
        let init = miners.drop_last();
        assert forall|i: int| 0 <= i < init.len() implies (#[trigger] init[i]).stratum_work
            <= init[i].work by {
            assert(init[i] == miners[i]);
        }
        lemma_placed(init, scripts.drop_last(), total, value, p);
        let before = place_all(init, scripts.drop_last(), total, value, p);
        let after = place_all(miners, scripts, total, value, p);
        lemma_weights(m, p);
        let part = part_of_value(value, net_weight(m, p), total);
        let a = payees_sum(before.payees) as int;
        let n0 = net_weights(init, p) as int;
        let n1 = net_weight(m, p) as int;
        if total > 0 {
            lemma_part(value, net_weight(m, p), total);
        }
        assert(10000 * total * part <= value * n1) by {
            if total == 0 {
                assert(value * n1 >= 0) by (nonlinear_arith)
                    requires
                        value >= 0,
                        n1 >= 0,
                ;
            }
        }
        assert(m.work <= total);
        assert(part <= value && part as u64 == part);
        assert(10000 * total * (a + part) == 10000 * total * a + 10000 * total * part)
            by (nonlinear_arith);
        assert(value * (n0 + n1) == value * n0 + value * n1) by (nonlinear_arith);
        assert(10000 * total * part >= 0) by (nonlinear_arith)
            requires
                total >= 0,
                part >= 0,
        ;
        if after.payees.len() > before.payees.len() {
            assert(after.payees.drop_last() =~= before.payees);
        }
    } else {
        assert(10000 * total * 0 == 0);
        assert(value * 0 == 0);
    }
}

/// What is paid and the fee together are no more than the value.
proof fn lemma_paid_and_fee(
    miners: Seq<MinerView>,
    scripts: Seq<Option<Seq<u8>>>,
    total: u64,
    value: u64,
    p: ParamsView,
)
    requires
        p.valid(),
        miners.len() == scripts.len(),
        miners_fit(miners, total),
        miners.len() > 0,
    ensures
        payees_sum(place_all(miners, scripts, total, value, p).payees) + fee_of(
            miners,
            total,
            value,
            p,
        ) <= value || total == 0,
        total == 0 ==> fee_of(miners, total, value, p) == 0,
{
    lemma_placed(miners, scripts, total, value, p);
    lemma_all_weights(miners, p);
    if total > 0 {
        lemma_part(value, fee_weights(miners, p), total);
        let paid = payees_sum(place_all(miners, scripts, total, value, p).payees) as int;
        let fee = fee_of(miners, total, value, p) as int;
        let n = net_weights(miners, p) as int;
        let f = fee_weights(miners, p) as int;
        let w = miners_work(miners) as int;
        let t = total as int;
        let v = value as int;
        assert(10000 * t * (paid + fee) <= v * (n + f)) by (nonlinear_arith)
            requires
                10000 * t * paid <= v * n,
                10000 * t * fee <= v * f,
        ;
        assert(v * (n + f) <= v * (t * 10000)) by (nonlinear_arith)
            requires
                n + f == w * 10000,
                w <= t,
                v >= 0,
        ;
        assert(paid + fee <= v) by (nonlinear_arith)
            requires
                10000 * t * (paid + fee) <= v * (t * 10000),
                t > 0,
        ;
    }
}

/// When there is no work at all nothing is paid.
proof fn lemma_nothing_paid(
    miners: Seq<MinerView>,
    scripts: Seq<Option<Seq<u8>>>,
    value: u64,
    p: ParamsView,
)
    requires
        miners.len() == scripts.len(),
    ensures
        payees_sum(place_all(miners, scripts, 0, value, p).payees) == 0,
    decreases miners.len(),
{
    if miners.len() > 0 {
        lemma_nothing_paid(miners.drop_last(), scripts.drop_last(), value, p);
        let before = place_all(miners.drop_last(), scripts.drop_last(), 0, value, p);
        let after = place_all(miners, scripts, 0, value, p);
        if after.payees.len() > before.payees.len() {
            assert(after.payees.drop_last() =~= before.payees);
        }
    }
}

/// The fee is part of the value.
proof fn lemma_fee_bound(miners: Seq<MinerView>, total: u64, value: u64, p: ParamsView)
    requires
        p.valid(),
        miners_fit(miners, total),
    ensures
        fee_of(miners, total, value, p) <= value,
        fee_weights(miners, p) <= 10000 * total,
        net_weights(miners, p) <= 10000 * total,
{
    lemma_all_weights(miners, p);
    if miners.len() == 0 {
        assert(value * p.fee_bps / 10000 <= value) by (nonlinear_arith)
            requires
                value >= 0,
                p.fee_bps <= 10000,
        ;
        assert(value as nat * p.fee_bps as nat == value * p.fee_bps);
    } else if total > 0 {
        lemma_part(value, fee_weights(miners, p), total);
    }
}

/// Those who are chosen have a place, and everyone else is listed as unpaid.
proof fn lemma_chosen(
    miners: Seq<MinerView>,
    scripts: Seq<Option<Seq<u8>>>,
    limit: nat,
    p: ParamsView,
)
    requires
        miners.len() == scripts.len(),
    ensures
        ({
            let c = choose_all(miners, scripts, limit, p);
            let r = c.placed;
            &&& c.weights.len() == r.payees.len()
            &&& r.payees.len() <= limit
            &&& r.payees.len() <= p.max_outputs
            &&& p.max_payees > 0 ==> r.payees.len() <= p.max_payees
            &&& r.bytes == bytes_of(r.payees)
            &&& r.bytes <= p.output_budget_bytes
            &&& r.payees.len() + r.unpaid.len() == miners.len()
            &&& weight_sum(c.weights) <= net_weights(miners, p)
            &&& r.payees.len() > 0 ==> weight_sum(c.weights) > 0
            &&& forall|k: int| 0 <= k < r.unpaid.len() ==> (#[trigger] r.unpaid[k]).1 == 0
            &&& forall|k: int|
                0 <= k < r.payees.len() ==> exists|j: int|
                    #![trigger miners[j]]
                    0 <= j < miners.len() && is_payee(
                        #[trigger] r.payees[k],
                        miners[j],
                        scripts[j],
                    )
        }),
    decreases miners.len(),
{
    if miners.len() > 0 {
        let m = miners.drop_last();
        let sc = scripts.drop_last();
        lemma_chosen(m, sc, limit, p);
        let b = choose_all(m, sc, limit, p);
        let c = choose_all(miners, scripts, limit, p);
        let r = c.placed;
        if r.payees.len() > b.placed.payees.len() {
            assert(r.payees.drop_last() =~= b.placed.payees);
            assert(c.weights.drop_last() =~= b.weights);
        }
        assert forall|k: int| 0 <= k < r.payees.len() implies exists|j: int|
            #![trigger miners[j]]
            0 <= j < miners.len() && is_payee(#[trigger] r.payees[k], miners[j], scripts[j]) by {
            if k < b.placed.payees.len() {
                assert(r.payees[k] == b.placed.payees[k]);
                let j = choose|j: int|
                    #![trigger m[j]]
                    0 <= j < m.len() && is_payee(b.placed.payees[k], m[j], sc[j]);
                assert(miners[j] == m[j] && scripts[j] == sc[j]);
            } else {
                let j = miners.len() - 1;
                assert(is_payee(r.payees[k], miners[j], scripts[j]));
            }
        }
    }
}

proof fn lemma_with_amounts(v: Seq<PayeeView>, a: Seq<nat>)
    requires
        v.len() == a.len(),
        forall|i: int| 0 <= i < a.len() ==> (#[trigger] a[i]) <= u64::MAX,
    ensures
        payees_sum(with_amounts(v, a)) == weight_sum(a),
        bytes_of(with_amounts(v, a)) == bytes_of(v),
    decreases v.len(),
{
    if v.len() > 0 {
        let x = v.drop_last();
        let b = a.drop_last();
        assert forall|i: int| 0 <= i < b.len() implies (#[trigger] b[i]) <= u64::MAX by {
            assert(b[i] == a[i]);
        }
        lemma_with_amounts(x, b);
        assert(with_amounts(v, a).drop_last() =~= with_amounts(x, b));
        assert(a[a.len() - 1] == a.last());
    }
}

/// The amounts of a capped split: everyone chosen gets the floor, and together they get all that
/// the fee leaves but what rounding keeps.
proof fn lemma_capped_amounts(
    miners: Seq<MinerView>,
    scripts: Seq<Option<Seq<u8>>>,
    total: u64,
    value: u64,
    p: ParamsView,
)
    requires
        p.valid(),
        miners.len() == scripts.len(),
        miners_fit(miners, total),
    ensures
        ({
            let left = after_fee(miners, total, value, p);
            let floor = floor_of(p);
            let c = choose_all(miners, scripts, left as nat / floor as nat, p);
            let a = amounts(c.weights, left, floor);
            let r = place_capped(miners, scripts, total, value, p);
            &&& left + fee_of(miners, total, value, p) == value
            &&& floor * c.weights.len() <= left
            &&& a.len() == c.weights.len() == r.payees.len()
            &&& forall|i: int| 0 <= i < a.len() ==> floor <= #[trigger] a[i] <= left
            &&& forall|i: int|
                0 <= i < r.payees.len() ==> (#[trigger] r.payees[i]).sats >= floor
            &&& payees_sum(r.payees) == weight_sum(a)
            &&& payees_sum(r.payees) <= left
            &&& r.payees.len() > 0 ==> left < payees_sum(r.payees) + r.payees.len()
            &&& r.bytes == bytes_of(r.payees)
        }),
{
    lemma_fee_bound(miners, total, value, p);
    let left = after_fee(miners, total, value, p);
    let floor = floor_of(p);
    let limit = left as nat / floor as nat;
    lemma_chosen(miners, scripts, limit, p);
    let c = choose_all(miners, scripts, limit, p);
    let n = c.weights.len() as int;
    let f = floor as int;
    let l = left as int;
    assert(f * n <= l) by (nonlinear_arith)
        requires
            n <= l / f,
            f > 0,
            n >= 0,
    ;
    let a = amounts(c.weights, left, floor);
    if n > 0 {
        lemma_amounts(c.weights, left, floor);
    } else {
        assert(a =~= Seq::empty());
    }
    lemma_with_amounts(c.placed.payees, a);
    let r = place_capped(miners, scripts, total, value, p);
    assert forall|i: int| 0 <= i < r.payees.len() implies (#[trigger] r.payees[i]).sats
        >= floor by {
        assert(floor <= a[i] <= left);
    }
}

/// What is placed stays within the value and the room there is.
proof fn lemma_placed_of(
    miners: Seq<MinerView>,
    scripts: Seq<Option<Seq<u8>>>,
    total: u64,
    value: u64,
    p: ParamsView,
)
    requires
        p.valid(),
        miners.len() == scripts.len(),
        miners_fit(miners, total),
    ensures
        ({
            let r = placed_of(miners, scripts, total, value, p);
            &&& payees_sum(r.payees) + fee_of(miners, total, value, p) <= value
            &&& r.bytes <= p.output_budget_bytes
            &&& r.bytes == bytes_of(r.payees)
        }),
{
    lemma_fee_bound(miners, total, value, p);
    if p.max_payees == 0 {
        lemma_placed(miners, scripts, total, value, p);
        lemma_placed_bytes(miners, scripts, total, value, p);
        if miners.len() > 0 {
            lemma_paid_and_fee(miners, scripts, total, value, p);
            lemma_nothing_paid(miners, scripts, value, p);
        }
    } else {
        lemma_capped_amounts(miners, scripts, total, value, p);
        lemma_chosen(
            miners,
            scripts,
            after_fee(miners, total, value, p) as nat / floor_of(p) as nat,
            p,
        );
    }
}

/// A capped split leaves the pool its fee: whoever has a part in it gets at least the minimum, and
/// the pool's output holds less than one satoshi for each beyond the fee. Nothing stays owed to
/// those who have no part.
pub proof fn lemma_capped_split_leaves_the_fee(
    miners: Seq<MinerView>,
    scripts: Seq<Option<Seq<u8>>>,
    total: u64,
    value: u64,
    p: ParamsView,
)
    requires
        p.valid(),
        p.max_payees > 0,
        miners.len() == scripts.len(),
        miners_fit(miners, total),
    ensures
        ({
            let s = split_of(miners, scripts, total, value, p);
            &&& s.payees.len() <= p.max_payees
            &&& s.payees.len() > 0 ==> s.fee_sats <= s.pool_sats < s.fee_sats + s.payees.len()
            &&& forall|i: int|
                0 <= i < s.payees.len() ==> (#[trigger] s.payees[i]).sats >= p.min_payout
                    && s.payees[i].sats > 0
            &&& forall|i: int| 0 <= i < s.unpaid.len() ==> (#[trigger] s.unpaid[i]).1 == 0
        }),
{
    lemma_fee_bound(miners, total, value, p);
    lemma_capped_amounts(miners, scripts, total, value, p);
    lemma_chosen(
        miners,
        scripts,
        after_fee(miners, total, value, p) as nat / floor_of(p) as nat,
        p,
    );
}

/// The bytes of outputs to scripts.
pub open spec fn scripts_bytes(scripts: Seq<Option<Seq<u8>>>) -> nat
    decreases scripts.len(),
{
    if scripts.len() == 0 {
        0
    } else {
        (scripts_bytes(scripts.drop_last()) + OUTPUT_OVERHEAD + match scripts.last() {
            Some(s) => s.len(),
            None => 0,
        }) as nat
    }
}

proof fn lemma_all_chosen(
    miners: Seq<MinerView>,
    scripts: Seq<Option<Seq<u8>>>,
    limit: nat,
    p: ParamsView,
)
    requires
        miners.len() == scripts.len(),
        forall|i: int|
            0 <= i < miners.len() ==> net_weight(#[trigger] miners[i], p) > 0
                && scripts[i].is_some(),
        miners.len() <= limit,
        miners.len() <= p.max_payees,
        miners.len() <= p.max_outputs,
        scripts_bytes(scripts) <= p.output_budget_bytes,
    ensures
        ({
            let c = choose_all(miners, scripts, limit, p);
            &&& c.placed.payees.len() == miners.len()
            &&& c.placed.unpaid.len() == 0
            &&& c.placed.bytes == scripts_bytes(scripts)
            &&& c.weights.len() == miners.len()
            &&& forall|i: int|
                0 <= i < miners.len() ==> (#[trigger] c.weights[i]) == net_weight(miners[i], p)
            &&& forall|i: int|
                0 <= i < miners.len() ==> is_payee(
                    #[trigger] c.placed.payees[i],
                    miners[i],
                    scripts[i],
                )
        }),
    decreases miners.len(),
{
    if miners.len() > 0 {
        let m = miners.drop_last();
        let sc = scripts.drop_last();
        assert forall|i: int| 0 <= i < m.len() implies net_weight(#[trigger] m[i], p) > 0
            && sc[i].is_some() by {
            assert(m[i] == miners[i] && sc[i] == scripts[i]);
        }
        lemma_all_chosen(m, sc, limit, p);
        let j = miners.len() - 1;
        assert(miners[j] == miners.last() && scripts[j] == scripts.last());
        let b = choose_all(m, sc, limit, p);
        let c = choose_all(miners, scripts, limit, p);
        assert forall|i: int| 0 <= i < miners.len() implies (#[trigger] c.weights[i])
            == net_weight(miners[i], p) by {
            if i < m.len() {
                assert(c.weights[i] == b.weights[i]);
                assert(m[i] == miners[i]);
            }
        }
        assert forall|i: int| 0 <= i < miners.len() implies is_payee(
            #[trigger] c.placed.payees[i],
            miners[i],
            scripts[i],
        ) by {
            if i < m.len() {
                assert(c.placed.payees[i] == b.placed.payees[i]);
                assert(m[i] == miners[i] && sc[i] == scripts[i]);
            }
        }
    }
}

/// Under a cap that nobody reaches, everyone with work and an address is paid by work and at least
/// the minimum, as long as the value has a minimum for each and their outputs fit.
pub proof fn lemma_capped_split_pays_everyone(
    miners: Seq<MinerView>,
    scripts: Seq<Option<Seq<u8>>>,
    total: u64,
    value: u64,
    p: ParamsView,
)
    requires
        p.valid(),
        miners.len() == scripts.len(),
        miners_fit(miners, total),
        forall|i: int|
            0 <= i < miners.len() ==> net_weight(#[trigger] miners[i], p) > 0
                && scripts[i].is_some(),
        0 < miners.len() <= p.max_payees,
        miners.len() <= p.max_outputs,
        scripts_bytes(scripts) <= p.output_budget_bytes,
        floor_of(p) * miners.len() <= value - fee_of(miners, total, value, p),
    ensures
        ({
            let s = split_of(miners, scripts, total, value, p);
            &&& s.payees.len() == miners.len()
            &&& s.unpaid.len() == 0
            &&& forall|i: int|
                0 <= i < miners.len() ==> (#[trigger] s.payees[i]).identity == miners[i].identity
                    && scripts[i] == Some(s.payees[i].script) && s.payees[i].sats >= p.min_payout
            &&& forall|i: int, j: int|
                0 <= i < miners.len() && 0 <= j < miners.len() && net_weight(miners[i], p)
                    >= net_weight(miners[j], p) ==> (#[trigger] s.payees[i]).sats >= (
                #[trigger] s.payees[j]).sats
        }),
{
    lemma_fee_bound(miners, total, value, p);
    let left = after_fee(miners, total, value, p);
    let f = floor_of(p) as int;
    let n = miners.len() as int;
    let l = left as int;
    assert(n <= l / f) by (nonlinear_arith)
        requires
            f * n <= l,
            f > 0,
            n >= 0,
    ;
    lemma_all_chosen(miners, scripts, left as nat / floor_of(p) as nat, p);
    lemma_capped_amounts(miners, scripts, total, value, p);
    let c = choose_all(miners, scripts, left as nat / floor_of(p) as nat, p);
    let s = split_of(miners, scripts, total, value, p);
    assert forall|i: int| 0 <= i < miners.len() implies (#[trigger] s.payees[i]).identity
        == miners[i].identity && scripts[i] == Some(s.payees[i].script) && s.payees[i].sats
        >= p.min_payout by {
        assert(is_payee(c.placed.payees[i], miners[i], scripts[i]));
    }
    let a = amounts(c.weights, left, floor_of(p));
    lemma_chosen(miners, scripts, left as nat / floor_of(p) as nat, p);
    assert forall|i: int, j: int|
        0 <= i < miners.len() && 0 <= j < miners.len() && net_weight(miners[i], p) >= net_weight(
            miners[j],
            p,
        ) implies (#[trigger] s.payees[i]).sats >= (#[trigger] s.payees[j]).sats by {
        assert(c.weights[i] >= c.weights[j]);
        lemma_more_weight_gets_no_less(c.weights, left, floor_of(p), i, j);
        assert(a[i] <= left && a[j] <= left);
    }
}

/// The split of a block, without carry.
pub open spec fn split_of(
    miners: Seq<MinerView>,
    scripts: Seq<Option<Seq<u8>>>,
    total: u64,
    value: u64,
    p: ParamsView,
) -> SplitView {
    let r = placed_of(miners, scripts, total, value, p);
    SplitView {
        payees: r.payees,
        unpaid: r.unpaid,
        carry_paid: Seq::empty(),
        fee_sats: fee_of(miners, total, value, p) as u64,
        pool_sats: (value - payees_sum(r.payees)) as u64,
    }
}

/// The pool keeps its fee, and with it every satoshi that is not paid out: a split pays out
/// exactly the value.
pub proof fn lemma_split_conserves(
    miners: Seq<MinerView>,
    scripts: Seq<Option<Seq<u8>>>,
    total: u64,
    value: u64,
    p: ParamsView,
)
    requires
        p.valid(),
        miners.len() == scripts.len(),
        miners_fit(miners, total),
    ensures
        ({
            let s = split_of(miners, scripts, total, value, p);
            &&& payees_sum(s.payees) + s.pool_sats == value
            &&& s.pool_sats >= s.fee_sats
            &&& s.fee_sats == fee_of(miners, total, value, p)
        }),
{
    lemma_placed_of(miners, scripts, total, value, p);
}

proof fn lemma_payees_sum_push(v: Seq<PayeeView>, x: PayeeView)
    ensures
        payees_sum(v.push(x)) == payees_sum(v) + x.sats,
{
    assert(v.push(x).drop_last() =~= v);
}

impl Split {
    /// What the payees are paid together.
    pub fn paid_sats(&self) -> (n: u64)
        requires
            payees_sum(self@.payees) <= u64::MAX,
        ensures
            n == payees_sum(self@.payees),
    {
        let mut n: u64 = 0;
        let mut i: usize = 0;
        let ghost v = self@.payees;
        while i < self.payees.len()
            invariant
                i <= self.payees@.len(),
                v == payees_view(self.payees@),
                n == payees_sum(v.take(i as int)),
                payees_sum(v) <= u64::MAX,
            decreases self.payees@.len() - i,
        {
            proof {
                assert(v.take(i + 1).drop_last() =~= v.take(i as int));
                lemma_payees_sum_prefix(v, i + 1);
            }
            n = n + self.payees[i].sats;
            i = i + 1;
        }
        assert(v.take(v.len() as int) =~= v);
        n
    }
}

proof fn lemma_payees_sum_prefix(v: Seq<PayeeView>, i: int)
    requires
        0 <= i <= v.len(),
    ensures
        payees_sum(v.take(i)) <= payees_sum(v),
    decreases v.len() - i,
{
    if i < v.len() {
        lemma_payees_sum_prefix(v, i + 1);
        assert(v.take(i + 1).drop_last() =~= v.take(i));
    } else {
        assert(v.take(i) =~= v);
    }
}

/// What is left of an identity's work after the fee, and the fee on it, in basis points.
fn weights_of(m: &MinerStat, params: &SplitParams) -> (r: (u128, u128))
    requires
        params.wf(),
        m.stratum_work <= m.work,
    ensures
        r.0 == net_weight(m@, params@),
        r.1 == fee_weight(m@, params@),
{
    let ghost p = params@;
    let ghost x = m@;
    proof {
        lemma_weights(x, p);
        let st = m.stratum_work as int;
        let dt = m.work - m.stratum_work;
        let (bs, bd) = p.bps(x.identity);
        assert(0 <= st * (10000 - bs) <= 0xffff_ffff_ffff_ffff * 10000) by (nonlinear_arith)
            requires
                0 <= st <= 0xffff_ffff_ffff_ffff,
                0 <= bs <= 10000,
        ;
        assert(0 <= dt * (10000 - bd) <= 0xffff_ffff_ffff_ffff * 10000) by (nonlinear_arith)
            requires
                0 <= dt <= 0xffff_ffff_ffff_ffff,
                0 <= bd <= 10000,
        ;
        assert(0 <= st * bs <= 0xffff_ffff_ffff_ffff * 10000) by (nonlinear_arith)
            requires
                0 <= st <= 0xffff_ffff_ffff_ffff,
                0 <= bs <= 10000,
        ;
        assert(0 <= dt * bd <= 0xffff_ffff_ffff_ffff * 10000) by (nonlinear_arith)
            requires
                0 <= dt <= 0xffff_ffff_ffff_ffff,
                0 <= bd <= 10000,
        ;
    }
    let (sb, db) = params.bps_for(m.identity.as_str());
    let stratum: u128 = m.stratum_work as u128;
    let datum: u128 = (m.work - m.stratum_work) as u128;
    let net: u128 = stratum * (10000 - sb) as u128 + datum * (10000 - db) as u128;
    (net, stratum * sb as u128 + datum * db as u128)
}

/// The pool's fee.
fn fee_on(miners: &Vec<MinerStat>, total_work: u64, value: u64, params: &SplitParams) -> (fee: u64)
    requires
        params.wf(),
        miners_fit(miners_view(miners@), total_work),
    ensures
        fee == fee_of(miners_view(miners@), total_work, value, params@),
        fee <= value,
{
    let ghost mv = miners_view(miners@);
    let ghost p = params@;
    let mut fees: u128 = 0;
    let mut i: usize = 0;
    while i < miners.len()
        invariant
            i <= miners@.len(),
            params.wf(),
            p == params@,
            mv == miners_view(miners@),
            miners_fit(mv, total_work),
            fees == fee_weights(mv.take(i as int), p),
        decreases miners@.len() - i,
    {
        let ghost here = mv.take(i + 1);
        proof {
            assert(here.drop_last() =~= mv.take(i as int));
            lemma_miners_work_prefix(mv, i + 1);
            assert forall|j: int| 0 <= j < here.len() implies (#[trigger] here[j]).stratum_work
                <= here[j].work by {
                assert(here[j] == mv[j]);
            }
            lemma_all_weights(here, p);
            assert(mv[i as int] == miners@[i as int]@);
        }
        let (_, fee) = weights_of(&miners[i], params);
        fees = fees + fee;
        i = i + 1;
    }
    proof {
        assert(mv.take(mv.len() as int) =~= mv);
        lemma_fee_bound(mv, total_work, value, p);
    }
    if miners.len() == 0 {
        fee_for(value, params.fee_bps)
    } else {
        part(value, fees, total_work)
    }
}

/// Splits a block without a cap.
fn compute_plain(
    miners: &Vec<MinerStat>,
    scripts: &Vec<Option<Vec<u8>>>,
    total_work: u64,
    value: u64,
    params: &SplitParams,
) -> (split: Split)
    requires
        params.wf(),
        scripts@.len() == miners@.len(),
        miners_fit(miners_view(miners@), total_work),
        params.max_payees == 0,
    ensures
        split@ == split_of(
            miners_view(miners@),
            scripts_view(scripts@),
            total_work,
            value,
            params@,
        ),
{
    let ghost mv = miners_view(miners@);
    let ghost sv = scripts_view(scripts@);
    let ghost p = params@;
    let mut payees: Vec<Payee> = Vec::new();
    let mut unpaid: Vec<(String, u64, UnpaidReason)> = Vec::new();
    let mut bytes: usize = 0;
    let mut paid: u64 = 0;
    let mut i: usize = 0;
    assert(payees_view(payees@) =~= Seq::empty());
    assert(unpaid_view(unpaid@) =~= Seq::empty());
    while i < miners.len()
        invariant
            i <= miners@.len(),
            params.wf(),
            p == params@,
            p.max_payees == 0,
            scripts@.len() == miners@.len(),
            mv == miners_view(miners@),
            sv == scripts_view(scripts@),
            miners_fit(mv, total_work),
            place_all(mv.take(i as int), sv.take(i as int), total_work, value, p) == (Placed {
                payees: payees_view(payees@),
                unpaid: unpaid_view(unpaid@),
                bytes: bytes as nat,
            }),
            bytes <= params.output_budget_bytes,
            payees@.len() <= i,
            paid == payees_sum(payees_view(payees@)),
        decreases miners@.len() - i,
    {
        let m: &MinerStat = &miners[i];
        let ghost x = mv[i as int];
        let ghost here = mv.take(i + 1);
        let ghost shere = sv.take(i + 1);
        proof {
            assert(here.drop_last() =~= mv.take(i as int));
            assert(shere.drop_last() =~= sv.take(i as int));
            lemma_miners_work_prefix(mv, i + 1);
            lemma_weights(x, p);
            assert forall|j: int| 0 <= j < here.len() implies (#[trigger] here[j]).stratum_work
                <= here[j].work by {
                assert(here[j] == mv[j]);
            }
            lemma_all_weights(here, p);
            lemma_split_conserves(here, shere, total_work, value, p);
            lemma_placed(here, shere, total_work, value, p);
        }
        let (net, _) = weights_of(m, params);
        let sats: u64 = part(value, net, total_work);
        let ghost before_p = payees_view(payees@);
        let ghost before_u = unpaid_view(unpaid@);
        match &scripts[i] {
            None => {
                unpaid.push((m.identity.clone(), sats, UnpaidReason::NoScript));
                assert(unpaid_view(unpaid@) =~= before_u.push(
                    (x.identity, sats, UnpaidReason::NoScript),
                ));
            },
            Some(script) => {
                if sats < params.min_payout {
                    unpaid.push((m.identity.clone(), sats, UnpaidReason::BelowMinimum));
                    assert(unpaid_view(unpaid@) =~= before_u.push(
                        (x.identity, sats, UnpaidReason::BelowMinimum),
                    ));
                } else if !params.room(payees.len(), bytes, script.as_slice()) {
                    unpaid.push((m.identity.clone(), sats, UnpaidReason::BelowCut));
                    assert(unpaid_view(unpaid@) =~= before_u.push(
                        (x.identity, sats, UnpaidReason::BelowCut),
                    ));
                } else {
                    let copy: Vec<u8> = slice_of(script.as_slice(), 0, script.len());
                    assert(copy@ =~= script@);
                    bytes = bytes + OUTPUT_OVERHEAD + script.len();
                    payees.push(
                        Payee { identity: m.identity.clone(), work: m.work, sats, script: copy },
                    );
                    proof {
                        let y = payees@.last()@;
                        assert(payees_view(payees@) =~= before_p.push(y));
                        lemma_payees_sum_push(before_p, y);
                        assert(place_all(here, shere, total_work, value, p).payees
                            == payees_view(payees@));
                    }
                    paid = paid + sats;
                }
            },
        }
        i = i + 1;
    }
    proof {
        assert(mv.take(mv.len() as int) =~= mv);
        assert(sv.take(sv.len() as int) =~= sv);
        lemma_split_conserves(mv, sv, total_work, value, p);
        lemma_all_weights(mv, p);
    }
    let fee_sats: u64 = fee_on(miners, total_work, value, params);
    let split = Split { payees, unpaid, carry_paid: Vec::new(), fee_sats, pool_sats: value - paid };
    assert(split@.carry_paid =~= Seq::empty());
    split
}

/// Chooses who has a part in a capped split.
fn choose_payees(
    miners: &Vec<MinerStat>,
    scripts: &Vec<Option<Vec<u8>>>,
    limit: u64,
    params: &SplitParams,
) -> (r: (Vec<Payee>, Vec<(String, u64, UnpaidReason)>, Vec<u128>))
    requires
        params.wf(),
        scripts@.len() == miners@.len(),
        forall|i: int|
            0 <= i < miners@.len() ==> (#[trigger] miners@[i]).stratum_work <= miners@[i].work,
    ensures
        ({
            let c = choose_all(
                miners_view(miners@),
                scripts_view(scripts@),
                limit as nat,
                params@,
            );
            &&& payees_view(r.0@) == c.placed.payees
            &&& unpaid_view(r.1@) == c.placed.unpaid
            &&& weights_view(r.2@) == c.weights
        }),
{
    let ghost mv = miners_view(miners@);
    let ghost sv = scripts_view(scripts@);
    let ghost p = params@;
    let mut payees: Vec<Payee> = Vec::new();
    let mut unpaid: Vec<(String, u64, UnpaidReason)> = Vec::new();
    let mut weights: Vec<u128> = Vec::new();
    let mut bytes: usize = 0;
    let mut i: usize = 0;
    assert(payees_view(payees@) =~= Seq::empty());
    assert(unpaid_view(unpaid@) =~= Seq::empty());
    assert(weights_view(weights@) =~= Seq::empty());
    while i < miners.len()
        invariant
            i <= miners@.len(),
            params.wf(),
            p == params@,
            scripts@.len() == miners@.len(),
            mv == miners_view(miners@),
            sv == scripts_view(scripts@),
            forall|i: int|
                0 <= i < miners@.len() ==> (#[trigger] miners@[i]).stratum_work
                    <= miners@[i].work,
            choose_all(mv.take(i as int), sv.take(i as int), limit as nat, p) == (Chosen {
                placed: Placed {
                    payees: payees_view(payees@),
                    unpaid: unpaid_view(unpaid@),
                    bytes: bytes as nat,
                },
                weights: weights_view(weights@),
            }),
            bytes <= params.output_budget_bytes,
        decreases miners@.len() - i,
    {
        let m: &MinerStat = &miners[i];
        let ghost before_p = payees_view(payees@);
        let ghost before_u = unpaid_view(unpaid@);
        let ghost before_w = weights_view(weights@);
        proof {
            assert(mv.take(i + 1).drop_last() =~= mv.take(i as int));
            assert(sv.take(i + 1).drop_last() =~= sv.take(i as int));
            assert(mv[i as int] == m@);
        }
        match &scripts[i] {
            None => {
                unpaid.push((m.identity.clone(), 0, UnpaidReason::NoScript));
                assert(unpaid_view(unpaid@) =~= before_u.push(
                    (m.identity@, 0, UnpaidReason::NoScript),
                ));
            },
            Some(script) => {
                let (net, _) = weights_of(m, params);
                if net == 0 || payees.len() as u64 >= limit {
                    unpaid.push((m.identity.clone(), 0, UnpaidReason::BelowMinimum));
                    assert(unpaid_view(unpaid@) =~= before_u.push(
                        (m.identity@, 0, UnpaidReason::BelowMinimum),
                    ));
                } else if !params.room(payees.len(), bytes, script.as_slice()) {
                    unpaid.push((m.identity.clone(), 0, UnpaidReason::BelowCut));
                    assert(unpaid_view(unpaid@) =~= before_u.push(
                        (m.identity@, 0, UnpaidReason::BelowCut),
                    ));
                } else {
                    let copy: Vec<u8> = slice_of(script.as_slice(), 0, script.len());
                    assert(copy@ =~= script@);
                    bytes = bytes + OUTPUT_OVERHEAD + script.len();
                    payees.push(
                        Payee { identity: m.identity.clone(), work: m.work, sats: 0, script: copy },
                    );
                    weights.push(net);
                    assert(payees_view(payees@) =~= before_p.push(payees@.last()@));
                    assert(weights_view(weights@) =~= before_w.push(net as nat));
                }
            },
        }
        i = i + 1;
    }
    assert(mv.take(mv.len() as int) =~= mv);
    assert(sv.take(sv.len() as int) =~= sv);
    (payees, unpaid, weights)
}

/// Splits a block under a cap.
fn compute_capped(
    miners: &Vec<MinerStat>,
    scripts: &Vec<Option<Vec<u8>>>,
    total_work: u64,
    value: u64,
    params: &SplitParams,
) -> (split: Split)
    requires
        params.wf(),
        scripts@.len() == miners@.len(),
        miners_fit(miners_view(miners@), total_work),
        params.max_payees > 0,
    ensures
        split@ == split_of(
            miners_view(miners@),
            scripts_view(scripts@),
            total_work,
            value,
            params@,
        ),
{
    let ghost mv = miners_view(miners@);
    let ghost sv = scripts_view(scripts@);
    let ghost p = params@;
    let fee_sats: u64 = fee_on(miners, total_work, value, params);
    let left: u64 = value - fee_sats;
    let floor: u64 = if params.min_payout == 0 {
        1
    } else {
        params.min_payout
    };
    proof {
        assert forall|i: int| 0 <= i < miners@.len() implies (#[trigger] miners@[i]).stratum_work
            <= miners@[i].work by {
            assert(mv[i] == miners@[i]@);
        }
        lemma_fee_bound(mv, total_work, value, p);
        lemma_capped_amounts(mv, sv, total_work, value, p);
        lemma_chosen(mv, sv, left as nat / floor as nat, p);
    }
    let ghost chosen = choose_all(mv, sv, left as nat / floor as nat, p);
    let (mut payees, unpaid, weights) = choose_payees(miners, scripts, left / floor, params);
    let sats: Vec<u64> = divide(&weights, left, floor);
    let ghost a = amounts(chosen.weights, left, floor);
    let ghost goal = with_amounts(chosen.placed.payees, a);
    let ghost start = payees_view(payees@);
    let mut paid: u64 = 0;
    let mut i: usize = 0;
    assert(goal.take(0) =~= Seq::empty());
    while i < payees.len()
        invariant
            i <= payees@.len(),
            payees@.len() == sats@.len() == goal.len() == start.len() == a.len(),
            goal == with_amounts(start, a),
            forall|j: int| 0 <= j < sats@.len() ==> (#[trigger] sats@[j]) == a[j],
            forall|j: int| i <= j < payees@.len() ==> (#[trigger] payees@[j])@ == start[j],
            forall|j: int| 0 <= j < i ==> (#[trigger] payees@[j])@ == goal[j],
            paid == payees_sum(goal.take(i as int)),
            payees_sum(goal) <= left,
        decreases payees@.len() - i,
    {
        proof {
            assert(goal.take(i + 1).drop_last() =~= goal.take(i as int));
            lemma_payees_sum_prefix(goal, i + 1);
            assert(sats@[i as int] == a[i as int]);
        }
        let old_payee: &Payee = &payees[i];
        let copy: Vec<u8> = slice_of(old_payee.script.as_slice(), 0, old_payee.script.len());
        assert(copy@ =~= old_payee.script@);
        let x = Payee {
            identity: old_payee.identity.clone(),
            work: old_payee.work,
            sats: sats[i],
            script: copy,
        };
        assert(x@ =~= goal[i as int]);
        payees.set(i, x);
        paid = paid + sats[i];
        i = i + 1;
    }
    proof {
        assert(goal.take(goal.len() as int) =~= goal);
        assert(payees_view(payees@) =~= goal);
    }
    let split = Split { payees, unpaid, carry_paid: Vec::new(), fee_sats, pool_sats: value - paid };
    assert(split@.carry_paid =~= Seq::empty());
    split
}

/// Splits a block of `value` among the miners, largest work first; `scripts` holds the output
/// script of each, if it has one.
pub fn compute(
    miners: &Vec<MinerStat>,
    scripts: &Vec<Option<Vec<u8>>>,
    total_work: u64,
    value: u64,
    params: &SplitParams,
) -> (split: Split)
    requires
        params.wf(),
        scripts@.len() == miners@.len(),
        miners_fit(miners_view(miners@), total_work),
    ensures
        split@ == split_of(
            miners_view(miners@),
            scripts_view(scripts@),
            total_work,
            value,
            params@,
        ),
        payees_sum(split@.payees) + split.pool_sats == value,
        split.pool_sats >= split.fee_sats,
{
    proof {
        lemma_split_conserves(
            miners_view(miners@),
            scripts_view(scripts@),
            total_work,
            value,
            params@,
        );
    }
    if params.max_payees == 0 {
        compute_plain(miners, scripts, total_work, value, params)
    } else {
        compute_capped(miners, scripts, total_work, value, params)
    }
}

/// Where `identity` is among the payees, or their number.
pub open spec fn payee_index(v: Seq<PayeeView>, identity: Seq<char>) -> nat
    decreases v.len(),
{
    if v.len() == 0 || v[0].identity == identity {
        0
    } else {
        1 + payee_index(v.drop_first(), identity)
    }
}

/// How far the carry has been paid: the payees, what they got of it, what is left of the pool's
/// remainder above its fee, and the bytes of the outputs.
#[verifier::ext_equal]
pub struct Carried {
    pub payees: Seq<PayeeView>,
    pub carry_paid: Seq<(Seq<char>, u64)>,
    pub left: u64,
    pub bytes: nat,
}

/// The smaller of two amounts.
pub open spec fn least(a: u64, b: u64) -> u64 {
    if a < b {
        a
    } else {
        b
    }
}

/// Pays one identity's carry: onto its output, or as an output of its own when that is worth
/// one and fits.
pub open spec fn carry_one(
    c: Carried,
    identity: Seq<char>,
    owed: u64,
    script: Option<Seq<u8>>,
    p: ParamsView,
) -> Carried {
    let pay = least(owed, c.left);
    let k = payee_index(c.payees, identity);
    match script {
        Some(s) if pay > 0 => if k < c.payees.len() {
            let x = c.payees[k as int];
            Carried {
                payees: c.payees.update(
                    k as int,
                    PayeeView { sats: (x.sats + pay) as u64, ..x },
                ),
                carry_paid: c.carry_paid.push((identity, pay)),
                left: (c.left - pay) as u64,
                bytes: c.bytes,
            }
        } else if pay >= p.min_payout && p.has_room(c.payees.len(), c.bytes, s) {
            Carried {
                payees: c.payees.push(PayeeView { identity, work: 0, sats: pay, script: s }),
                carry_paid: c.carry_paid.push((identity, pay)),
                left: (c.left - pay) as u64,
                bytes: (c.bytes + OUTPUT_OVERHEAD + s.len()) as nat,
            }
        } else {
            c
        },
        _ => c,
    }
}

/// Pays the carry by identity name.
pub open spec fn carry_all(
    start: Carried,
    rows: Seq<(Seq<char>, u64)>,
    scripts: Seq<Option<Seq<u8>>>,
    p: ParamsView,
) -> Carried
    decreases rows.len(),
{
    if rows.len() == 0 {
        start
    } else {
        carry_one(
            carry_all(start, rows.drop_last(), scripts.drop_last(), p),
            rows.last().0,
            rows.last().1,
            scripts.last(),
            p,
        )
    }
}

/// The split of a block with the carry paid from the pool's remainder above its fee.
pub open spec fn carried_split_of(
    miners: Seq<MinerView>,
    scripts: Seq<Option<Seq<u8>>>,
    total: u64,
    value: u64,
    p: ParamsView,
    rows: Seq<(Seq<char>, u64)>,
    carry_scripts: Seq<Option<Seq<u8>>>,
) -> SplitView {
    let s = split_of(miners, scripts, total, value, p);
    let start = Carried {
        payees: s.payees,
        carry_paid: Seq::empty(),
        left: (s.pool_sats - s.fee_sats) as u64,
        bytes: placed_of(miners, scripts, total, value, p).bytes,
    };
    let c = carry_all(start, rows, carry_scripts, p);
    SplitView {
        payees: c.payees,
        carry_paid: c.carry_paid,
        pool_sats: (s.fee_sats + c.left) as u64,
        ..s
    }
}

/// What named amounts come to.
pub open spec fn amounts_sum(v: Seq<(Seq<char>, u64)>) -> nat
    decreases v.len(),
{
    if v.len() == 0 {
        0
    } else {
        amounts_sum(v.drop_last()) + v.last().1 as nat
    }
}

/// What a list holds for one name, all its entries together.
pub open spec fn listed_for(v: Seq<(Seq<char>, u64)>, name: Seq<char>) -> nat
    decreases v.len(),
{
    if v.len() == 0 {
        0
    } else {
        listed_for(v.drop_last(), name) + if v.last().0 == name {
            v.last().1 as nat
        } else {
            0
        }
    }
}

proof fn lemma_payees_sum_update(v: Seq<PayeeView>, k: int, x: PayeeView)
    requires
        0 <= k < v.len(),
    ensures
        payees_sum(v.update(k, x)) == payees_sum(v) - v[k].sats + x.sats,
        v[k].sats <= payees_sum(v),
    decreases v.len(),
{
    let u = v.update(k, x);
    if k == v.len() - 1 {
        assert(u.drop_last() =~= v.drop_last());
    } else {
        lemma_payees_sum_update(v.drop_last(), k, x);
        assert(u.drop_last() =~= v.drop_last().update(k, x));
    }
}

/// Paying carry moves satoshis from the remainder to the payees and makes none.
pub proof fn lemma_carry_one(
    c: Carried,
    identity: Seq<char>,
    owed: u64,
    script: Option<Seq<u8>>,
    p: ParamsView,
)
    requires
        payees_sum(c.payees) + c.left <= u64::MAX,
        c.bytes <= p.output_budget_bytes,
    ensures
        ({
            let d = carry_one(c, identity, owed, script, p);
            &&& payees_sum(d.payees) + d.left == payees_sum(c.payees) + c.left
            &&& amounts_sum(d.carry_paid) + d.left == amounts_sum(c.carry_paid) + c.left
            &&& d.bytes <= p.output_budget_bytes
        }),
{
    let d = carry_one(c, identity, owed, script, p);
    let k = payee_index(c.payees, identity) as int;
    let pay = least(owed, c.left);
    if script.is_some() && pay > 0 {
        if k < c.payees.len() {
            let x = c.payees[k];
            lemma_payees_sum_update(
                c.payees,
                k,
                PayeeView { sats: (x.sats + pay) as u64, ..x },
            );
        } else if d.payees.len() > c.payees.len() {
            lemma_payees_sum_push(c.payees, d.payees.last());
        }
        if d.carry_paid.len() > c.carry_paid.len() {
            assert(d.carry_paid.drop_last() =~= c.carry_paid);
        }
    }
}

/// Paying the whole carry moves satoshis from the remainder to the payees and makes none.
pub proof fn lemma_carry_all(
    start: Carried,
    rows: Seq<(Seq<char>, u64)>,
    scripts: Seq<Option<Seq<u8>>>,
    p: ParamsView,
)
    requires
        rows.len() == scripts.len(),
        payees_sum(start.payees) + start.left <= u64::MAX,
        start.bytes <= p.output_budget_bytes,
    ensures
        ({
            let d = carry_all(start, rows, scripts, p);
            &&& payees_sum(d.payees) + d.left == payees_sum(start.payees) + start.left
            &&& amounts_sum(d.carry_paid) + d.left == amounts_sum(start.carry_paid) + start.left
            &&& d.bytes <= p.output_budget_bytes
        }),
    decreases rows.len(),
{
    if rows.len() > 0 {
        lemma_carry_all(start, rows.drop_last(), scripts.drop_last(), p);
        lemma_carry_one(
            carry_all(start, rows.drop_last(), scripts.drop_last(), p),
            rows.last().0,
            rows.last().1,
            scripts.last(),
            p,
        );
    }
}

/// What an identity is owed is what of its carry can be paid, once.
proof fn lemma_carry_is_owed(
    start: Carried,
    rows: Seq<(Seq<char>, u64)>,
    scripts: Seq<Option<Seq<u8>>>,
    p: ParamsView,
)
    requires
        start.carry_paid.len() == 0,
        rows.len() == scripts.len(),
    ensures
        ({
            let d = carry_all(start, rows, scripts, p);
            &&& amounts_sum(d.carry_paid) <= amounts_sum(rows)
            &&& forall|k: int|
                0 <= k < d.carry_paid.len() ==> exists|j: int|
                    0 <= j < rows.len() && (#[trigger] rows[j]).0 == (
                    #[trigger] d.carry_paid[k]).0 && 0 < d.carry_paid[k].1 <= rows[j].1
        }),
    decreases rows.len(),
{
    if rows.len() > 0 {
        let init = rows.drop_last();
        lemma_carry_is_owed(start, init, scripts.drop_last(), p);
        let c = carry_all(start, init, scripts.drop_last(), p);
        let d = carry_all(start, rows, scripts, p);
        if d.carry_paid.len() > c.carry_paid.len() {
            assert(d.carry_paid.drop_last() =~= c.carry_paid);
        }
        assert forall|k: int| 0 <= k < d.carry_paid.len() implies exists|j: int|
            0 <= j < rows.len() && (#[trigger] rows[j]).0 == (#[trigger] d.carry_paid[k]).0 && 0
                < d.carry_paid[k].1 <= rows[j].1 by {
            if k < c.carry_paid.len() {
                assert(d.carry_paid[k] == c.carry_paid[k]);
                let j = choose|j: int|
                    0 <= j < init.len() && (#[trigger] init[j]).0 == c.carry_paid[k].0 && 0
                        < c.carry_paid[k].1 <= init[j].1;
                assert(rows[j] == init[j]);
            } else {
                assert(rows[rows.len() - 1] == rows.last());
            }
        }
    }
}

/// Carry is paid out of the pool's own output, satoshi for satoshi, and nobody is paid more of it
/// than is owed.
pub proof fn lemma_carry_comes_from_the_pool(
    miners: Seq<MinerView>,
    scripts: Seq<Option<Seq<u8>>>,
    total: u64,
    value: u64,
    p: ParamsView,
    rows: Seq<(Seq<char>, u64)>,
    carry_scripts: Seq<Option<Seq<u8>>>,
)
    requires
        p.valid(),
        miners.len() == scripts.len(),
        miners_fit(miners, total),
        rows.len() == carry_scripts.len(),
    ensures
        ({
            let plain = split_of(miners, scripts, total, value, p);
            let s = carried_split_of(miners, scripts, total, value, p, rows, carry_scripts);
            &&& s.pool_sats + amounts_sum(s.carry_paid) == plain.pool_sats
            &&& payees_sum(s.payees) == payees_sum(plain.payees) + amounts_sum(s.carry_paid)
            &&& s.fee_sats == plain.fee_sats
            &&& amounts_sum(s.carry_paid) <= amounts_sum(rows)
            &&& forall|k: int|
                0 <= k < s.carry_paid.len() ==> exists|j: int|
                    0 <= j < rows.len() && (#[trigger] rows[j]).0 == (
                    #[trigger] s.carry_paid[k]).0 && 0 < s.carry_paid[k].1 <= rows[j].1
        }),
{
    lemma_split_conserves(miners, scripts, total, value, p);
    lemma_placed_of(miners, scripts, total, value, p);
    let s = split_of(miners, scripts, total, value, p);
    let start = Carried {
        payees: s.payees,
        carry_paid: Seq::empty(),
        left: (s.pool_sats - s.fee_sats) as u64,
        bytes: placed_of(miners, scripts, total, value, p).bytes,
    };
    lemma_carry_all(start, rows, carry_scripts, p);
    lemma_carry_is_owed(start, rows, carry_scripts, p);
}

/// Whether a payee is `m`, paid to its own script.
pub open spec fn is_payee(payee: PayeeView, m: MinerView, script: Option<Seq<u8>>) -> bool {
    &&& payee.identity == m.identity
    &&& payee.work == m.work
    &&& script == Some(payee.script)
}

/// Whether a payee is `m`, paid to its own script: what its work earns, or at least the minimum
/// where the split is capped.
pub open spec fn is_paid_its_part(
    payee: PayeeView,
    m: MinerView,
    script: Option<Seq<u8>>,
    total: u64,
    value: u64,
    p: ParamsView,
) -> bool {
    &&& is_payee(payee, m, script)
    &&& p.max_payees == 0 ==> payee.sats == part_of_value(value, net_weight(m, p), total) as u64
    &&& payee.sats >= p.min_payout
}

proof fn lemma_all_accounted(
    miners: Seq<MinerView>,
    scripts: Seq<Option<Seq<u8>>>,
    total: u64,
    value: u64,
    p: ParamsView,
)
    requires
        miners.len() == scripts.len(),
        p.max_payees == 0,
    ensures
        ({
            let s = place_all(miners, scripts, total, value, p);
            &&& s.payees.len() + s.unpaid.len() == miners.len()
            &&& forall|k: int|
                0 <= k < s.payees.len() ==> exists|j: int|
                    #![trigger miners[j]]
                    0 <= j < miners.len() && is_paid_its_part(
                        #[trigger] s.payees[k],
                        miners[j],
                        scripts[j],
                        total,
                        value,
                        p,
                    )
        }),
    decreases miners.len(),
{
    if miners.len() > 0 {
        let m = miners.drop_last();
        let c = scripts.drop_last();
        lemma_all_accounted(m, c, total, value, p);
        let before = place_all(m, c, total, value, p);
        let s = place_all(miners, scripts, total, value, p);
        assert forall|k: int| 0 <= k < s.payees.len() implies exists|j: int|
            #![trigger miners[j]]
            0 <= j < miners.len() && is_paid_its_part(
                #[trigger] s.payees[k],
                miners[j],
                scripts[j],
                total,
                value,
                p,
            ) by {
            if k < before.payees.len() {
                assert(s.payees[k] == before.payees[k]);
                let j = choose|j: int|
                    #![trigger m[j]]
                    0 <= j < m.len() && is_paid_its_part(
                        before.payees[k],
                        m[j],
                        c[j],
                        total,
                        value,
                        p,
                    );
                assert(miners[j] == m[j] && scripts[j] == c[j]);
            } else {
                let j = miners.len() - 1;
                assert(is_paid_its_part(s.payees[k], miners[j], scripts[j], total, value, p));
            }
        }
    }
}

/// Everyone with work in the window is accounted for: each is either paid its part, which is worth
/// an output of its own, or listed as unpaid.
pub proof fn lemma_everyone_is_accounted_for(
    miners: Seq<MinerView>,
    scripts: Seq<Option<Seq<u8>>>,
    total: u64,
    value: u64,
    p: ParamsView,
)
    requires
        p.valid(),
        miners.len() == scripts.len(),
        miners_fit(miners, total),
    ensures
        ({
            let s = split_of(miners, scripts, total, value, p);
            &&& s.payees.len() + s.unpaid.len() == miners.len()
            &&& forall|k: int|
                0 <= k < s.payees.len() ==> exists|j: int|
                    #![trigger miners[j]]
                    0 <= j < miners.len() && is_paid_its_part(
                        #[trigger] s.payees[k],
                        miners[j],
                        scripts[j],
                        total,
                        value,
                        p,
                    )
        }),
{
    if p.max_payees == 0 {
        lemma_all_accounted(miners, scripts, total, value, p);
    } else {
        let limit = after_fee(miners, total, value, p) as nat / floor_of(p) as nat;
        lemma_chosen(miners, scripts, limit, p);
        lemma_capped_amounts(miners, scripts, total, value, p);
        let c = choose_all(miners, scripts, limit, p);
        let s = split_of(miners, scripts, total, value, p);
        assert forall|k: int| 0 <= k < s.payees.len() implies exists|j: int|
            #![trigger miners[j]]
            0 <= j < miners.len() && is_paid_its_part(
                #[trigger] s.payees[k],
                miners[j],
                scripts[j],
                total,
                value,
                p,
            ) by {
            let x = c.placed.payees[k];
            let j = choose|j: int|
                #![trigger miners[j]]
                0 <= j < miners.len() && is_payee(x, miners[j], scripts[j]);
            assert(is_paid_its_part(s.payees[k], miners[j], scripts[j], total, value, p));
        }
    }
}

/// A split that pays carry still pays out exactly the value and leaves the pool its fee.
pub proof fn lemma_carried_split_conserves(
    miners: Seq<MinerView>,
    scripts: Seq<Option<Seq<u8>>>,
    total: u64,
    value: u64,
    p: ParamsView,
    rows: Seq<(Seq<char>, u64)>,
    carry_scripts: Seq<Option<Seq<u8>>>,
)
    requires
        p.valid(),
        miners.len() == scripts.len(),
        miners_fit(miners, total),
        rows.len() == carry_scripts.len(),
    ensures
        ({
            let s = carried_split_of(miners, scripts, total, value, p, rows, carry_scripts);
            &&& payees_sum(s.payees) + s.pool_sats == value
            &&& s.pool_sats >= s.fee_sats
            &&& amounts_sum(s.carry_paid) <= value - s.fee_sats
        }),
{
    lemma_split_conserves(miners, scripts, total, value, p);
    lemma_placed_of(miners, scripts, total, value, p);
    let s = split_of(miners, scripts, total, value, p);
    let start = Carried {
        payees: s.payees,
        carry_paid: Seq::empty(),
        left: (s.pool_sats - s.fee_sats) as u64,
        bytes: placed_of(miners, scripts, total, value, p).bytes,
    };
    lemma_carry_all(start, rows, carry_scripts, p);
}

proof fn lemma_place_count(
    miners: Seq<MinerView>,
    scripts: Seq<Option<Seq<u8>>>,
    total: u64,
    value: u64,
    p: ParamsView,
)
    requires
        miners.len() == scripts.len(),
    ensures
        place_all(miners, scripts, total, value, p).payees.len() <= p.max_outputs,
    decreases miners.len(),
{
    if miners.len() > 0 {
        lemma_place_count(miners.drop_last(), scripts.drop_last(), total, value, p);
    }
}

proof fn lemma_carry_count(
    start: Carried,
    rows: Seq<(Seq<char>, u64)>,
    scripts: Seq<Option<Seq<u8>>>,
    p: ParamsView,
)
    requires
        rows.len() == scripts.len(),
        start.payees.len() <= p.max_outputs,
    ensures
        carry_all(start, rows, scripts, p).payees.len() <= p.max_outputs,
    decreases rows.len(),
{
    if rows.len() > 0 {
        lemma_carry_count(start, rows.drop_last(), scripts.drop_last(), p);
    }
}

/// A split never has more payees than a coinbase may have outputs.
pub proof fn lemma_split_fits(
    miners: Seq<MinerView>,
    scripts: Seq<Option<Seq<u8>>>,
    total: u64,
    value: u64,
    p: ParamsView,
    rows: Seq<(Seq<char>, u64)>,
    carry_scripts: Seq<Option<Seq<u8>>>,
)
    requires
        miners.len() == scripts.len(),
        rows.len() == carry_scripts.len(),
    ensures
        split_of(miners, scripts, total, value, p).payees.len() <= p.max_outputs,
        carried_split_of(
            miners,
            scripts,
            total,
            value,
            p,
            rows,
            carry_scripts,
        ).payees.len() <= p.max_outputs,
{
    lemma_place_count(miners, scripts, total, value, p);
    lemma_chosen(
        miners,
        scripts,
        after_fee(miners, total, value, p) as nat / floor_of(p) as nat,
        p,
    );
    let s = split_of(miners, scripts, total, value, p);
    let start = Carried {
        payees: s.payees,
        carry_paid: Seq::empty(),
        left: (s.pool_sats - s.fee_sats) as u64,
        bytes: placed_of(miners, scripts, total, value, p).bytes,
    };
    lemma_carry_count(start, rows, carry_scripts, p);
}

fn find_payee(payees: &Vec<Payee>, identity: &str) -> (k: usize)
    ensures
        k == payee_index(payees_view(payees@), identity@),
        k <= payees@.len(),
{
    let mut k: usize = 0;
    let ghost v = payees_view(payees@);
    assert(v.skip(0) =~= v);
    while k < payees.len() && !text_eq(payees[k].identity.as_str(), identity)
        invariant
            k <= payees@.len(),
            v == payees_view(payees@),
            payee_index(v, identity@) == k + payee_index(v.skip(k as int), identity@),
        decreases payees@.len() - k,
    {
        assert(v.skip(k as int).drop_first() =~= v.skip(k + 1));
        k = k + 1;
    }
    k
}

/// Splits a block and pays carry from the pool's remainder above its fee, by identity name;
/// `carry_scripts` holds the output script of each name, if it has one.
pub fn compute_with_carry(
    miners: &Vec<MinerStat>,
    scripts: &Vec<Option<Vec<u8>>>,
    total_work: u64,
    value: u64,
    params: &SplitParams,
    carry: &NameMap<u64>,
    carry_scripts: &Vec<Option<Vec<u8>>>,
) -> (split: Split)
    requires
        params.wf(),
        scripts@.len() == miners@.len(),
        carry_scripts@.len() == carry.rows().len(),
        miners_fit(miners_view(miners@), total_work),
    ensures
        split@ == carried_split_of(
            miners_view(miners@),
            scripts_view(scripts@),
            total_work,
            value,
            params@,
            carry.rows(),
            scripts_view(carry_scripts@),
        ),
        payees_sum(split@.payees) + split.pool_sats == value,
        split.pool_sats >= split.fee_sats,
{
    let ghost mv = miners_view(miners@);
    let ghost sv = scripts_view(scripts@);
    let ghost cv = scripts_view(carry_scripts@);
    let ghost rows = carry.rows();
    let ghost p = params@;
    let mut split: Split = compute(miners, scripts, total_work, value, params);
    let ghost s0 = split@;
    proof {
        lemma_carried_split_conserves(mv, sv, total_work, value, p, rows, cv);
        lemma_placed_of(mv, sv, total_work, value, p);
    }
    let mut left: u64 = split.pool_sats - split.fee_sats;
    let mut bytes: usize = outputs_bytes(&split.payees, params.output_budget_bytes);
    let ghost start = Carried {
        payees: s0.payees,
        carry_paid: Seq::empty(),
        left,
        bytes: bytes as nat,
    };
    let mut i: usize = 0;
    assert(rows.take(0) =~= Seq::empty());
    assert(cv.take(0) =~= Seq::empty());
    while i < carry.len()
        invariant
            i <= rows.len(),
            rows == carry.rows(),
            p == params@,
            cv == scripts_view(carry_scripts@),
            carry_scripts@.len() == rows.len(),
            split.fee_sats == s0.fee_sats,
            split@.unpaid == s0.unpaid,
            bytes <= params.output_budget_bytes,
            payees_sum(start.payees) + start.left <= value,
            start.bytes <= p.output_budget_bytes,
            carry_all(start, rows.take(i as int), cv.take(i as int), p) == (Carried {
                payees: split@.payees,
                carry_paid: split@.carry_paid,
                left,
                bytes: bytes as nat,
            }),
        decreases rows.len() - i,
    {
        let ghost before = split@;
        let ghost here = carry_all(start, rows.take(i as int), cv.take(i as int), p);
        proof {
            assert(rows.take(i + 1).drop_last() =~= rows.take(i as int));
            assert(cv.take(i + 1).drop_last() =~= cv.take(i as int));
            lemma_carry_all(start, rows.take(i as int), cv.take(i as int), p);
        }
        let owed: u64 = carry.value_at(i);
        let name: &str = carry.name_at(i);
        let pay: u64 = if owed < left {
            owed
        } else {
            left
        };
        if pay > 0 {
            if let Some(script) = &carry_scripts[i] {
                let k: usize = find_payee(&split.payees, name);
                if k < split.payees.len() {
                    proof {
                        lemma_payees_sum_update(before.payees, k as int, before.payees[k as int]);
                    }
                    let old_payee: &Payee = &split.payees[k];
                    let copy: Vec<u8> = slice_of(
                        old_payee.script.as_slice(),
                        0,
                        old_payee.script.len(),
                    );
                    assert(copy@ =~= old_payee.script@);
                    let paid = Payee {
                        identity: old_payee.identity.clone(),
                        work: old_payee.work,
                        sats: old_payee.sats + pay,
                        script: copy,
                    };
                    split.payees.set(k, paid);
                    split.carry_paid.push((name.to_owned(), pay));
                    left = left - pay;
                    assert(split@.payees =~= before.payees.update(
                        k as int,
                        PayeeView {
                            sats: (before.payees[k as int].sats + pay) as u64,
                            ..before.payees[k as int]
                        },
                    ));
                    assert(split@.carry_paid =~= before.carry_paid.push((name@, pay)));
                } else if pay >= params.min_payout && params.room(
                    split.payees.len(),
                    bytes,
                    script.as_slice(),
                ) {
                    let copy: Vec<u8> = slice_of(script.as_slice(), 0, script.len());
                    assert(copy@ =~= script@);
                    bytes = bytes + OUTPUT_OVERHEAD + script.len();
                    split.payees.push(
                        Payee { identity: name.to_owned(), work: 0, sats: pay, script: copy },
                    );
                    split.carry_paid.push((name.to_owned(), pay));
                    left = left - pay;
                    assert(split@.payees =~= before.payees.push(
                        PayeeView { identity: name@, work: 0, sats: pay, script: script@ },
                    ));
                    assert(split@.carry_paid =~= before.carry_paid.push((name@, pay)));
                }
            }
        }
        i = i + 1;
    }
    proof {
        assert(rows.take(rows.len() as int) =~= rows);
        assert(cv.take(cv.len() as int) =~= cv);
        lemma_carry_all(start, rows, cv, p);
    }
    split.pool_sats = split.fee_sats + left;
    split
}

/// The bytes of the outputs of payees.
pub open spec fn bytes_of(v: Seq<PayeeView>) -> nat
    decreases v.len(),
{
    if v.len() == 0 {
        0
    } else {
        (bytes_of(v.drop_last()) + OUTPUT_OVERHEAD + v.last().script.len()) as nat
    }
}

proof fn lemma_bytes_prefix(v: Seq<PayeeView>, i: int)
    requires
        0 <= i <= v.len(),
    ensures
        bytes_of(v.take(i)) <= bytes_of(v),
    decreases v.len() - i,
{
    if i < v.len() {
        lemma_bytes_prefix(v, i + 1);
        assert(v.take(i + 1).drop_last() =~= v.take(i));
    } else {
        assert(v.take(i) =~= v);
    }
}

proof fn lemma_placed_bytes(
    miners: Seq<MinerView>,
    scripts: Seq<Option<Seq<u8>>>,
    total: u64,
    value: u64,
    p: ParamsView,
)
    requires
        miners.len() == scripts.len(),
    ensures
        ({
            let r = place_all(miners, scripts, total, value, p);
            r.bytes == bytes_of(r.payees)
        }),
    decreases miners.len(),
{
    if miners.len() > 0 {
        lemma_placed_bytes(miners.drop_last(), scripts.drop_last(), total, value, p);
        let before = place_all(miners.drop_last(), scripts.drop_last(), total, value, p);
        let after = place_all(miners, scripts, total, value, p);
        if after.payees.len() > before.payees.len() {
            assert(after.payees.drop_last() =~= before.payees);
        }
    }
}

fn outputs_bytes(payees: &Vec<Payee>, budget: usize) -> (n: usize)
    requires
        bytes_of(payees_view(payees@)) <= budget,
    ensures
        n == bytes_of(payees_view(payees@)),
{
    let mut n: usize = 0;
    let mut i: usize = 0;
    let ghost v = payees_view(payees@);
    while i < payees.len()
        invariant
            i <= payees@.len(),
            v == payees_view(payees@),
            n == bytes_of(v.take(i as int)),
            bytes_of(v) <= budget,
        decreases payees@.len() - i,
    {
        proof {
            assert(v.take(i + 1).drop_last() =~= v.take(i as int));
            lemma_bytes_prefix(v, i + 1);
        }
        n = n + OUTPUT_OVERHEAD + payees[i].script.len();
        i = i + 1;
    }
    assert(v.take(v.len() as int) =~= v);
    n
}

/// The work of the rows of some identities together.
spec fn work_over(rows: Seq<Credit>, idents: Seq<u32>) -> nat
    decreases idents.len(),
{
    if idents.len() == 0 {
        0
    } else {
        work_over(rows, idents.drop_last()) + work_sum_of(rows, idents.last())
    }
}

/// How often an identity is listed.
spec fn times_listed(idents: Seq<u32>, ident: u32) -> nat
    decreases idents.len(),
{
    if idents.len() == 0 {
        0
    } else {
        times_listed(idents.drop_last(), ident) + if idents.last() == ident {
            1nat
        } else {
            0
        }
    }
}

proof fn lemma_times_listed(idents: Seq<u32>, ident: u32)
    requires
        idents.no_duplicates(),
    ensures
        times_listed(idents, ident) == if idents.contains(ident) {
            1nat
        } else {
            0
        },
    decreases idents.len(),
{
    if idents.len() > 0 {
        let init = idents.drop_last();
        lemma_times_listed(init, ident);
        if init.contains(ident) {
            let i = choose|i: int| 0 <= i < init.len() && init[i] == ident;
            assert(idents[i] == ident);
            assert(idents[idents.len() - 1] != ident);
        } else if idents.contains(ident) {
            let i = choose|i: int| 0 <= i < idents.len() && idents[i] == ident;
            if i < init.len() {
                assert(init[i] == ident);
            }
        }
        if idents.last() == ident {
            assert(idents[idents.len() - 1] == ident);
        }
    }
}

proof fn lemma_work_over_step(rows: Seq<Credit>, idents: Seq<u32>)
    requires
        rows.len() > 0,
    ensures
        work_over(rows, idents) == work_over(rows.drop_first(), idents) + rows[0].work
            * times_listed(idents, rows[0].ident),
    decreases idents.len(),
{
    if idents.len() > 0 {
        lemma_work_over_step(rows, idents.drop_last());
        let t = times_listed(idents.drop_last(), rows[0].ident) as int;
        let w = rows[0].work as int;
        assert(w * (t + 1) == w * t + w) by (nonlinear_arith);
    } else {
        assert(rows[0].work * 0 == 0);
    }
}

/// Identities that cover the rows hold all their work.
proof fn lemma_work_over_all(rows: Seq<Credit>, idents: Seq<u32>)
    requires
        idents.no_duplicates(),
        forall|i: int| 0 <= i < rows.len() ==> idents.contains((#[trigger] rows[i]).ident),
    ensures
        work_over(rows, idents) == work_sum(rows),
    decreases rows.len(),
{
    if rows.len() > 0 {
        let rest = rows.drop_first();
        assert forall|i: int| 0 <= i < rest.len() implies idents.contains(
            (#[trigger] rest[i]).ident,
        ) by {
            assert(rest[i] == rows[i + 1]);
        }
        lemma_work_over_all(rest, idents);
        lemma_work_over_step(rows, idents);
        lemma_times_listed(idents, rows[0].ident);
        assert(idents.contains(rows[0].ident));
        let w = rows[0].work as int;
        assert(w * 1 == w);
    } else {
        lemma_work_over_none(rows, idents);
    }
}

proof fn lemma_work_over_none(rows: Seq<Credit>, idents: Seq<u32>)
    requires
        rows.len() == 0,
    ensures
        work_over(rows, idents) == 0,
    decreases idents.len(),
{
    if idents.len() > 0 {
        lemma_work_over_none(rows, idents.drop_last());
    }
}

/// The identity a listed stat is about.
spec fn ident_of(w: WindowView, m: MinerView) -> u32 {
    choose|ident: u32|
        ident < w.idents.len() && #[trigger] w.totals.contains_key(ident) && m == w.stat_of(ident)
}

proof fn lemma_miners_work_over(w: WindowView, v: Seq<MinerView>, idents: Seq<u32>)
    requires
        w.exact(),
        v.len() == idents.len(),
        forall|i: int|
            0 <= i < v.len() ==> w.totals.contains_key(#[trigger] idents[i]) && v[i] == w.stat_of(
                idents[i],
            ),
    ensures
        miners_work(v) == work_over(w.rows, idents),
    decreases v.len(),
{
    if v.len() > 0 {
        let k = v.len() - 1;
        assert(w.totals.contains_key(idents[k]) && v[k] == w.stat_of(idents[k]));
        assert forall|i: int| 0 <= i < k implies w.totals.contains_key(
            #[trigger] idents.drop_last()[i],
        ) && v.drop_last()[i] == w.stat_of(idents.drop_last()[i]) by {
            assert(w.totals.contains_key(idents[i]));
        }
        lemma_miners_work_over(w, v.drop_last(), idents.drop_last());
        assert(w.totals[idents[k]].0 == work_sum_of(w.rows, idents[k]));
    }
}

/// The miners of a window hold together exactly the work of the window.
pub proof fn lemma_miners_hold_the_window(w: WindowView, v: Seq<MinerView>)
    requires
        w.wf(),
        w.exact(),
        w.lists_miners(v),
    ensures
        miners_work(v) == w.total_work,
        miners_fit(v, w.total_work),
{
    let idents = Seq::new(v.len(), |i: int| ident_of(w, v[i]));
    assert forall|i: int| 0 <= i < v.len() implies w.totals.contains_key(#[trigger] idents[i])
        && v[i] == w.stat_of(idents[i]) && idents[i] < w.idents.len() by {
        assert(w.has_stat(v[i], w.idents.len()));
    }
    assert forall|i: int, j: int| 0 <= i < idents.len() && 0 <= j < idents.len() && i != j implies (
    #[trigger] idents[i]) != (#[trigger] idents[j]) by {
        if idents[i] == idents[j] {
            assert(v[i] == v[j]);
            if i < j {
                assert(listed_before(v[i], v[j]));
            } else {
                assert(listed_before(v[j], v[i]));
            }
            crate::text::lemma_text_before_total(v[i].identity, v[i].identity);
        }
    }
    assert forall|i: int| 0 <= i < w.rows.len() implies idents.contains(
        (#[trigger] w.rows[i]).ident,
    ) by {
        let ident = w.rows[i].ident;
        crate::tides::lemma_row_counts(w.rows, i);
        assert(w.totals.contains_key(ident));
        let k = choose|k: int| 0 <= k < v.len() && v[k] == w.stat_of(ident);
        assert(v[k] == w.stat_of(ident) && 0 <= k < v.len()) by {
            assert(v.contains(w.stat_of(ident)));
        }
        let other = idents[k];
        assert(w.totals.contains_key(other));
        assert(w.idents[other as int] == w.idents[ident as int]);
        assert(other == ident);
    }
    lemma_work_over_all(w.rows, idents);
    lemma_miners_work_over(w, v, idents);
    assert forall|i: int| 0 <= i < v.len() implies (#[trigger] v[i]).stratum_work <= v[i].work by {
        assert(w.has_stat(v[i], w.idents.len()));
    }
}

/// The output scripts of some names.
pub open spec fn scripts_for(names: Seq<Seq<char>>, net: Network) -> Seq<Option<Seq<u8>>> {
    Seq::new(names.len(), |i: int| payable_script(names[i], net))
}

/// The identities of stats.
pub open spec fn identities_of(v: Seq<MinerView>) -> Seq<Seq<char>> {
    Seq::new(v.len(), |i: int| v[i].identity)
}

/// The names of entries.
pub open spec fn names_of<V>(v: Seq<(Seq<char>, V)>) -> Seq<Seq<char>> {
    Seq::new(v.len(), |i: int| v[i].0)
}

fn miner_scripts(miners: &Vec<MinerStat>, net: Network) -> (r: Vec<Option<Vec<u8>>>)
    ensures
        scripts_view(r@) == scripts_for(identities_of(miners_view(miners@)), net),
        r@.len() == miners@.len(),
{
    let mut r: Vec<Option<Vec<u8>>> = Vec::new();
    let mut i: usize = 0;
    while i < miners.len()
        invariant
            i <= miners@.len(),
            r@.len() == i,
            forall|j: int|
                0 <= j < i ==> base58_view(#[trigger] r@[j]) == payable_script(
                    miners@[j].identity@,
                    net,
                ),
        decreases miners@.len() - i,
    {
        r.push(to_script(miners[i].identity.as_str(), net));
        i = i + 1;
    }
    proof {
        let want = scripts_for(identities_of(miners_view(miners@)), net);
        assert forall|j: int| 0 <= j < r@.len() implies scripts_view(r@)[j] == want[j] by {
            assert(base58_view(r@[j]) == payable_script(miners@[j].identity@, net));
        }
        assert(scripts_view(r@) =~= want);
    }
    r
}

fn name_scripts(names: &NameMap<u64>, net: Network) -> (r: Vec<Option<Vec<u8>>>)
    ensures
        scripts_view(r@) == scripts_for(names_of(names.rows()), net),
        r@.len() == names.rows().len(),
{
    let mut r: Vec<Option<Vec<u8>>> = Vec::new();
    let mut i: usize = 0;
    let n: usize = names.len();
    while i < n
        invariant
            i <= n == names.rows().len(),
            r@.len() == i,
            forall|j: int|
                0 <= j < i ==> base58_view(#[trigger] r@[j]) == payable_script(
                    names.rows()[j].0,
                    net,
                ),
        decreases n - i,
    {
        r.push(to_script(names.name_at(i), net));
        i = i + 1;
    }
    proof {
        let want = scripts_for(names_of(names.rows()), net);
        assert forall|j: int| 0 <= j < r@.len() implies scripts_view(r@)[j] == want[j] by {
            assert(base58_view(r@[j]) == payable_script(names.rows()[j].0, net));
        }
        assert(scripts_view(r@) =~= want);
    }
    r
}

/// The miners of a window, in the order they are listed.
pub open spec fn miners_of(w: WindowView) -> Seq<MinerView> {
    choose|v: Seq<MinerView>| w.lists_miners(v)
}

/// The one list there is of a window's miners is the list of its miners.
pub proof fn lemma_miners_of(w: WindowView, v: Seq<MinerView>)
    requires
        w.lists_miners(v),
    ensures
        miners_of(w) == v,
{
    lemma_miners_unique(w, v, miners_of(w));
}

impl Window {
    /// The split of a block worth `value`, paid to the addresses of `net`.
    pub fn split(&self, value: u64, params: &SplitParams, net: Network) -> (split: Split)
        requires
            self.wf(),
            self@.exact(),
            params.wf(),
        ensures
            split@ == split_of(
                miners_of(self@),
                scripts_for(identities_of(miners_of(self@)), net),
                self@.total_work,
                value,
                params@,
            ),
            payees_sum(split@.payees) + split.pool_sats == value,
            split.pool_sats >= split.fee_sats,
    {
        let miners: Vec<MinerStat> = self.miners();
        proof {
            lemma_miners_of(self@, miners_view(miners@));
            self.lemma_view_wf();
            lemma_miners_hold_the_window(self@, miners_view(miners@));
        }
        let scripts: Vec<Option<Vec<u8>>> = miner_scripts(&miners, net);
        compute(&miners, &scripts, self.total_work(), value, params)
    }

    /// The split of a block worth `value`, with carry paid from the pool's remainder.
    pub fn split_with_carry(
        &self,
        value: u64,
        params: &SplitParams,
        carry: &NameMap<u64>,
        net: Network,
    ) -> (split: Split)
        requires
            self.wf(),
            self@.exact(),
            params.wf(),
        ensures
            split@ == carried_split_of(
                miners_of(self@),
                scripts_for(identities_of(miners_of(self@)), net),
                self@.total_work,
                value,
                params@,
                carry.rows(),
                scripts_for(names_of(carry.rows()), net),
            ),
            payees_sum(split@.payees) + split.pool_sats == value,
            split.pool_sats >= split.fee_sats,
    {
        let miners: Vec<MinerStat> = self.miners();
        proof {
            lemma_miners_of(self@, miners_view(miners@));
            self.lemma_view_wf();
            lemma_miners_hold_the_window(self@, miners_view(miners@));
        }
        let scripts: Vec<Option<Vec<u8>>> = miner_scripts(&miners, net);
        let carry_scripts: Vec<Option<Vec<u8>>> = name_scripts(carry, net);
        compute_with_carry(
            &miners,
            &scripts,
            self.total_work(),
            value,
            params,
            carry,
            &carry_scripts,
        )
    }
}

/// What is placed first stays where it is when more identities follow.
proof fn lemma_place_prefix(
    miners: Seq<MinerView>,
    scripts: Seq<Option<Seq<u8>>>,
    total: u64,
    value: u64,
    p: ParamsView,
    i: int,
)
    requires
        miners.len() == scripts.len(),
        0 <= i <= miners.len(),
    ensures
        ({
            let b = place_all(miners.take(i), scripts.take(i), total, value, p);
            let a = place_all(miners, scripts, total, value, p);
            &&& b.payees.len() <= a.payees.len() && a.payees.take(b.payees.len() as int) == b.payees
            &&& b.unpaid.len() <= a.unpaid.len() && a.unpaid.take(b.unpaid.len() as int) == b.unpaid
            &&& b.bytes <= a.bytes
        }),
    decreases miners.len(),
{
    let a = place_all(miners, scripts, total, value, p);
    if i == miners.len() {
        assert(miners.take(i) =~= miners && scripts.take(i) =~= scripts);
        assert(a.payees.take(a.payees.len() as int) =~= a.payees);
        assert(a.unpaid.take(a.unpaid.len() as int) =~= a.unpaid);
    } else {
        let m = miners.drop_last();
        let c = scripts.drop_last();
        lemma_place_prefix(m, c, total, value, p, i);
        assert(m.take(i) =~= miners.take(i) && c.take(i) =~= scripts.take(i));
        let b = place_all(miners.take(i), scripts.take(i), total, value, p);
        let d = place_all(m, c, total, value, p);
        assert(a.payees.take(b.payees.len() as int) =~= d.payees.take(b.payees.len() as int));
        assert(a.unpaid.take(b.unpaid.len() as int) =~= d.unpaid.take(b.unpaid.len() as int));
    }
}

/// Every identity of the window is either paid for its work or said to be unpaid and why. What
/// `m` earns of a block is its part of the work, each kind of it less the fee on it, or less the
/// fee of its own it has. It is unpaid without an address to pay, when the amount is below the
/// minimum, and when its output finds no room beside those of the identities before it.
pub proof fn lemma_everyone_is_paid_or_unpaid(
    miners: Seq<MinerView>,
    scripts: Seq<Option<Seq<u8>>>,
    total: u64,
    value: u64,
    p: ParamsView,
    i: int,
)
    requires
        p.valid(),
        p.max_payees == 0,
        miners.len() == scripts.len(),
        miners_fit(miners, total),
        total > 0,
        0 <= i < miners.len(),
    ensures
        ({
            let s = split_of(miners, scripts, total, value, p);
            let before = split_of(miners.take(i), scripts.take(i), total, value, p).payees;
            let m = miners[i];
            let amount = if p.fee_overrides.contains_key(m.identity) {
                value * (m.work * (10000 - p.fee_overrides[m.identity])) / (total as int) / 10000
            } else {
                value * (m.stratum_work * (10000 - p.stratum_fee_bps) + (m.work - m.stratum_work)
                    * (10000 - p.fee_bps)) / (total as int) / 10000
            };
            &&& 0 <= amount <= value
            &&& match scripts[i] {
                None => s.unpaid.contains((m.identity, amount as u64, UnpaidReason::NoScript)),
                Some(out) => if amount < p.min_payout {
                    s.unpaid.contains((m.identity, amount as u64, UnpaidReason::BelowMinimum))
                } else if before.len() < p.max_outputs && bytes_of(before) + 9 + out.len()
                    <= p.output_budget_bytes {
                    s.payees.contains(
                        (PayeeView {
                            identity: m.identity,
                            work: m.work,
                            sats: amount as u64,
                            script: out,
                        }),
                    )
                } else {
                    s.unpaid.contains((m.identity, amount as u64, UnpaidReason::BelowCut))
                },
            }
        }),
{
    let m = miners[i];
    let x = miners.take(i + 1);
    let c = scripts.take(i + 1);
    assert(x.drop_last() =~= miners.take(i) && c.drop_last() =~= scripts.take(i));
    lemma_place_prefix(miners, scripts, total, value, p, i + 1);
    lemma_placed_bytes(miners.take(i), scripts.take(i), total, value, p);
    let after = place_all(x, c, total, value, p);
    let s = split_of(miners, scripts, total, value, p);
    lemma_weights(m, p);
    lemma_work_of_one(miners, i);
    let w = net_weight(m, p);
    assert(w <= 10000 * total);
    lemma_part(value, w, total);
    if p.fee_overrides.contains_key(m.identity) {
        let r = p.fee_overrides[m.identity];
        assert(m.stratum_work * (10000 - r) + (m.work - m.stratum_work) * (10000 - r) == m.work * (
        10000 - r)) by (nonlinear_arith);
    }
    assert forall|k: int| 0 <= k < after.payees.len() implies s.payees.contains(
        #[trigger] after.payees[k],
    ) by {
        assert(s.payees.take(after.payees.len() as int)[k] == s.payees[k]);
    }
    assert forall|k: int| 0 <= k < after.unpaid.len() implies s.unpaid.contains(
        #[trigger] after.unpaid[k],
    ) by {
        assert(s.unpaid.take(after.unpaid.len() as int)[k] == s.unpaid[k]);
    }
    let b = place_all(miners.take(i), scripts.take(i), total, value, p);
    if after.payees.len() > b.payees.len() {
        assert(s.payees.contains(after.payees[b.payees.len() as int]));
    } else {
        assert(s.unpaid.contains(after.unpaid[b.unpaid.len() as int]));
    }
}

/// An identity's work is part of all work.
proof fn lemma_work_of_one(miners: Seq<MinerView>, i: int)
    requires
        0 <= i < miners.len(),
    ensures
        miners[i].work <= miners_work(miners),
    decreases miners.len(),
{
    if i < miners.len() - 1 {
        lemma_work_of_one(miners.drop_last(), i);
    }
}

proof fn lemma_bytes_of_short(v: Seq<PayeeView>, size: nat)
    requires
        forall|i: int| 0 <= i < v.len() ==> (#[trigger] v[i]).script.len() <= size,
    ensures
        bytes_of(v) <= v.len() * (9 + size),
    decreases v.len(),
{
    if v.len() > 0 {
        let n = v.len() as int;
        lemma_bytes_of_short(v.drop_last(), size);
        assert((n - 1) * (9 + size) + (9 + size) == n * (9 + size)) by (nonlinear_arith);
    } else {
        assert(0 * (9 + size) == 0);
    }
}

proof fn lemma_bytes_of_long(v: Seq<PayeeView>, size: nat)
    requires
        forall|i: int| 0 <= i < v.len() ==> (#[trigger] v[i]).script.len() >= size,
    ensures
        bytes_of(v) >= v.len() * (9 + size),
    decreases v.len(),
{
    if v.len() > 0 {
        let n = v.len() as int;
        lemma_bytes_of_long(v.drop_last(), size);
        assert((n - 1) * (9 + size) + (9 + size) == n * (9 + size)) by (nonlinear_arith);
    } else {
        assert(0 * (9 + size) == 0);
    }
}

proof fn lemma_payees_have_scripts(
    miners: Seq<MinerView>,
    scripts: Seq<Option<Seq<u8>>>,
    total: u64,
    value: u64,
    p: ParamsView,
    size: nat,
)
    requires
        miners.len() == scripts.len(),
        forall|i: int|
            0 <= i < scripts.len() ==> ((#[trigger] scripts[i]) matches Some(s) ==> s.len()
                <= size),
    ensures
        forall|k: int|
            0 <= k < place_all(miners, scripts, total, value, p).payees.len() ==> (
            #[trigger] place_all(miners, scripts, total, value, p).payees[k]).script.len() <= size,
    decreases miners.len(),
{
    if miners.len() > 0 {
        let c = scripts.drop_last();
        assert forall|i: int| 0 <= i < c.len() implies ((#[trigger] c[i]) matches Some(s) ==> s.len()
            <= size) by {
            assert(c[i] == scripts[i]);
        }
        lemma_payees_have_scripts(miners.drop_last(), c, total, value, p, size);
        let b = place_all(miners.drop_last(), c, total, value, p);
        let a = place_all(miners, scripts, total, value, p);
        let i = scripts.len() - 1;
        assert(scripts[i] == scripts.last());
        assert forall|k: int| 0 <= k < a.payees.len() implies (
        #[trigger] a.payees[k]).script.len() <= size by {
            if k < b.payees.len() {
                assert(a.payees[k] == b.payees[k]);
            }
        }
    }
}

/// When everyone has an address and earns the minimum, there are no more than a coinbase may have
/// outputs, and outputs of the size of theirs fit, then everyone is paid, in the order listed.
pub proof fn lemma_everyone_is_paid(
    miners: Seq<MinerView>,
    scripts: Seq<Option<Seq<u8>>>,
    total: u64,
    value: u64,
    p: ParamsView,
    size: nat,
)
    requires
        p.valid(),
        p.max_payees == 0,
        miners.len() == scripts.len(),
        miners_fit(miners, total),
        total > 0,
        forall|i: int|
            0 <= i < miners.len() ==> value * ((#[trigger] miners[i]).work * (10000 - (
            if p.fee_overrides.contains_key(miners[i].identity) {
                p.fee_overrides[miners[i].identity]
            } else if p.fee_bps < p.stratum_fee_bps {
                p.stratum_fee_bps
            } else {
                p.fee_bps
            }))) / (total as int) / 10000 >= p.min_payout,
        forall|i: int|
            0 <= i < scripts.len() ==> ((#[trigger] scripts[i]) matches Some(s) && s.len()
                <= size),
        miners.len() <= p.max_outputs,
        miners.len() * (9 + size) <= p.output_budget_bytes,
    ensures
        ({
            let s = split_of(miners, scripts, total, value, p);
            &&& s.payees.len() == miners.len()
            &&& s.unpaid.len() == 0
            &&& forall|i: int|
                0 <= i < miners.len() ==> (#[trigger] s.payees[i]).identity == miners[i].identity
                    && s.payees[i].work == miners[i].work && scripts[i] == Some(
                    s.payees[i].script,
                )
        }),
    decreases miners.len(),
{
    if miners.len() > 0 {
        let m = miners.drop_last();
        let c = scripts.drop_last();
        let n = miners.len() as int;
        assert forall|i: int| 0 <= i < m.len() implies (#[trigger] m[i]) == miners[i] by {}
        assert forall|i: int| 0 <= i < c.len() implies (#[trigger] c[i]) == scripts[i] by {}
        assert((n - 1) * (9 + size) + (9 + size) == n * (9 + size)) by (nonlinear_arith);
        lemma_everyone_is_paid(m, c, total, value, p, size);
        let last = miners[n - 1];
        assert(last == miners.last() && scripts[n - 1] == scripts.last());
        lemma_payees_have_scripts(m, c, total, value, p, size);
        let b = place_all(m, c, total, value, p);
        lemma_bytes_of_short(b.payees, size);
        lemma_placed_bytes(m, c, total, value, p);
        lemma_weights(last, p);
        lemma_work_of_one(miners, n - 1);
        let w = net_weight(last, p);
        lemma_part(value, w, total);
        let r = if p.fee_overrides.contains_key(last.identity) {
            p.fee_overrides[last.identity]
        } else if p.fee_bps < p.stratum_fee_bps {
            p.stratum_fee_bps
        } else {
            p.fee_bps
        };
        let (fs, fd) = p.bps(last.identity);
        let st = last.stratum_work as int;
        let dt = last.work - last.stratum_work;
        assert(st * (10000 - fs) + dt * (10000 - fd) >= (st + dt) * (10000 - r)) by (nonlinear_arith)
            requires
                st >= 0,
                dt >= 0,
                fs <= r,
                fd <= r,
        ;
        let least = last.work * (10000 - r);
        assert(value * w >= value * least) by (nonlinear_arith)
            requires
                w >= least,
                value >= 0,
        ;
        let t = total as int;
        vstd::arithmetic::div_mod::lemma_div_is_ordered(value * least, value * w, t);
        vstd::arithmetic::div_mod::lemma_div_is_ordered(
            value * least / t,
            value * w / t,
            10000,
        );
    }
}

/// The outputs of a split are within the bytes a coinbase has for them.
pub proof fn lemma_outputs_are_within_the_budget(
    miners: Seq<MinerView>,
    scripts: Seq<Option<Seq<u8>>>,
    total: u64,
    value: u64,
    p: ParamsView,
    rows: Seq<(Seq<char>, u64)>,
    carry_scripts: Seq<Option<Seq<u8>>>,
    size: nat,
)
    requires
        p.valid(),
        miners.len() == scripts.len(),
        rows.len() == carry_scripts.len(),
        miners_fit(miners, total),
    ensures
        ({
            let s = carried_split_of(miners, scripts, total, value, p, rows, carry_scripts);
            &&& bytes_of(s.payees) <= p.output_budget_bytes
            &&& (forall|i: int|
                0 <= i < s.payees.len() ==> (#[trigger] s.payees[i]).script.len() >= size)
                ==> s.payees.len() * (9 + size) <= p.output_budget_bytes
        }),
{
    let s = split_of(miners, scripts, total, value, p);
    lemma_split_conserves(miners, scripts, total, value, p);
    lemma_placed_of(miners, scripts, total, value, p);
    let start = Carried {
        payees: s.payees,
        carry_paid: Seq::empty(),
        left: (s.pool_sats - s.fee_sats) as u64,
        bytes: placed_of(miners, scripts, total, value, p).bytes,
    };
    lemma_carry_all(start, rows, carry_scripts, p);
    lemma_carry_bytes(start, rows, carry_scripts, p);
    let t = carried_split_of(miners, scripts, total, value, p, rows, carry_scripts);
    if forall|i: int| 0 <= i < t.payees.len() ==> (#[trigger] t.payees[i]).script.len() >= size {
        lemma_bytes_of_long(t.payees, size);
    }
}

proof fn lemma_bytes_update(v: Seq<PayeeView>, k: int, x: PayeeView)
    requires
        0 <= k < v.len(),
        x.script.len() == v[k].script.len(),
    ensures
        bytes_of(v.update(k, x)) == bytes_of(v),
    decreases v.len(),
{
    let n = v.update(k, x);
    if k < v.len() - 1 {
        assert(n.drop_last() =~= v.drop_last().update(k, x));
        lemma_bytes_update(v.drop_last(), k, x);
    } else {
        assert(n.drop_last() =~= v.drop_last());
    }
}

proof fn lemma_carry_bytes(
    start: Carried,
    rows: Seq<(Seq<char>, u64)>,
    scripts: Seq<Option<Seq<u8>>>,
    p: ParamsView,
)
    requires
        rows.len() == scripts.len(),
        start.bytes == bytes_of(start.payees),
    ensures
        ({
            let d = carry_all(start, rows, scripts, p);
            d.bytes == bytes_of(d.payees)
        }),
    decreases rows.len(),
{
    if rows.len() > 0 {
        lemma_carry_bytes(start, rows.drop_last(), scripts.drop_last(), p);
        let c = carry_all(start, rows.drop_last(), scripts.drop_last(), p);
        let d = carry_all(start, rows, scripts, p);
        let k = payee_index(c.payees, rows.last().0) as int;
        if d.payees.len() > c.payees.len() {
            assert(d.payees.drop_last() =~= c.payees);
        } else if k < c.payees.len() {
            lemma_bytes_update(c.payees, k, d.payees[k]);
            assert(d.payees =~= c.payees || d.payees =~= c.payees.update(k, d.payees[k]));
        }
    }
}

/// What is said to be unpaid, together.
pub open spec fn unpaid_sum(v: Seq<(Seq<char>, u64, UnpaidReason)>) -> nat
    decreases v.len(),
{
    if v.len() == 0 {
        0
    } else {
        unpaid_sum(v.drop_last()) + v.last().1 as nat
    }
}

/// What is placed is all the identities earn but for what rounding keeps.
proof fn lemma_placed_whole(
    miners: Seq<MinerView>,
    scripts: Seq<Option<Seq<u8>>>,
    total: u64,
    value: u64,
    p: ParamsView,
)
    requires
        p.valid(),
        miners.len() == scripts.len(),
        miners_fit(miners, total),
        total > 0,
    ensures
        ({
            let r = place_all(miners, scripts, total, value, p);
            let n = (payees_sum(r.payees) + unpaid_sum(r.unpaid)) as int;
            let t = 10000 * total;
            &&& t * n <= value * net_weights(miners, p)
            &&& value * net_weights(miners, p) <= t * (n + miners.len())
        }),
    decreases miners.len(),
{
    let t = 10000 * total;
    let v = value as int;
    if miners.len() > 0 {
        let a = miners.drop_last();
        let c = scripts.drop_last();
        lemma_miners_work_prefix(miners, miners.len() - 1);
        assert(miners.take(miners.len() - 1) =~= a);
        assert forall|i: int| 0 <= i < a.len() implies (#[trigger] a[i]).stratum_work
            <= a[i].work by {
            assert(a[i] == miners[i]);
        }
        lemma_placed_whole(a, c, total, value, p);
        let b = place_all(a, c, total, value, p);
        let r = place_all(miners, scripts, total, value, p);
        let m = miners.last();
        assert(m == miners[miners.len() - 1]);
        lemma_weights(m, p);
        lemma_work_of_one(miners, miners.len() - 1);
        let w = net_weight(m, p);
        lemma_part(value, w, total);
        lemma_part_floor(value, w, total);
        let x = part_of_value(value, w, total) as int;
        let n0 = (payees_sum(b.payees) + unpaid_sum(b.unpaid)) as int;
        let n = (payees_sum(r.payees) + unpaid_sum(r.unpaid)) as int;
        if r.payees.len() > b.payees.len() {
            assert(r.payees.drop_last() =~= b.payees);
        } else {
            assert(r.unpaid.drop_last() =~= b.unpaid);
        }
        assert(n == n0 + x);
        let w0 = net_weights(a, p) as int;
        let k = a.len() as int;
        assert(v * (w0 + w) == v * w0 + v * w) by (nonlinear_arith);
        assert(t * (n0 + x) == t * n0 + t * x) by (nonlinear_arith);
        assert(t * (n0 + x + (k + 1)) == t * (n0 + k) + t * (x + 1)) by (nonlinear_arith);
    } else {
        assert(v * 0 == 0) by (nonlinear_arith);
        assert(t * 0 == 0) by (nonlinear_arith);
    }
}

/// A part is short of its weight by less than one.
proof fn lemma_part_floor(value: u64, weight: nat, total: u64)
    requires
        total > 0,
    ensures
        value * weight < 10000 * total * (part_of_value(value, weight, total) + 1),
{
    let x = value as int * weight as int;
    let t = total as int;
    let q = x / t;
    let r = q / 10000;
    assert(x >= 0) by (nonlinear_arith)
        requires
            x == value as int * weight as int,
    ;
    vstd::arithmetic::div_mod::lemma_fundamental_div_mod(x, t);
    vstd::arithmetic::div_mod::lemma_mod_bound(x, t);
    assert(q < 10000 * (r + 1));
    assert(x < t * (q + 1)) by (nonlinear_arith)
        requires
            x == t * q + x % t,
            x % t < t,
    ;
    assert(t * (q + 1) <= 10000 * t * (r + 1)) by (nonlinear_arith)
        requires
            q + 1 <= 10000 * (r + 1),
            t > 0,
    ;
    assert(part_of_value(value, weight, total) == r);
}

/// Nothing of a block's value vanishes: what the identities are paid, what they earned and are not
/// paid, and the fee come to the whole value, but for less than one satoshi of each part that is
/// rounded. The pool's output holds the fee and all that is unpaid.
pub proof fn lemma_parts_come_to_the_value(
    miners: Seq<MinerView>,
    scripts: Seq<Option<Seq<u8>>>,
    total: u64,
    value: u64,
    p: ParamsView,
)
    requires
        p.valid(),
        p.max_payees == 0,
        miners.len() == scripts.len(),
        miners_fit(miners, total),
        miners_work(miners) == total,
        total > 0,
    ensures
        ({
            let s = split_of(miners, scripts, total, value, p);
            let all = payees_sum(s.payees) + unpaid_sum(s.unpaid) + s.fee_sats;
            &&& all <= value <= all + miners.len() + 1
            &&& s.pool_sats >= s.fee_sats + unpaid_sum(s.unpaid)
            &&& s.pool_sats <= s.fee_sats + unpaid_sum(s.unpaid) + miners.len() + 1
        }),
{
    lemma_placed_whole(miners, scripts, total, value, p);
    lemma_all_weights(miners, p);
    lemma_split_conserves(miners, scripts, total, value, p);
    let s = split_of(miners, scripts, total, value, p);
    let f = fee_weights(miners, p);
    let nw = net_weights(miners, p);
    lemma_part(value, f, total);
    lemma_part_floor(value, f, total);
    let v = value as int;
    let t = 10000 * total;
    let k = miners.len() as int;
    let n = (payees_sum(s.payees) + unpaid_sum(s.unpaid)) as int;
    let x = s.fee_sats as int;
    assert(v * (nw + f) == v * nw + v * f) by (nonlinear_arith);
    assert(nw + f == t);
    assert(t * (n + x) == t * n + t * x) by (nonlinear_arith);
    assert(t * (n + x + (k + 1)) == t * (n + k) + t * (x + 1)) by (nonlinear_arith);
    assert(n + x <= v) by (nonlinear_arith)
        requires
            t * (n + x) <= v * t,
            t > 0,
    ;
    assert(v <= n + x + (k + 1)) by (nonlinear_arith)
        requires
            v * t <= t * (n + x + (k + 1)),
            t > 0,
    ;
}

proof fn lemma_one_rate(miners: Seq<MinerView>, p: ParamsView, bps: u32)
    requires
        p.valid(),
        forall|i: int|
            0 <= i < miners.len() ==> (#[trigger] miners[i]).stratum_work <= miners[i].work,
        forall|i: int|
            0 <= i < miners.len() ==> if p.fee_overrides.contains_key(
                (#[trigger] miners[i]).identity,
            ) {
                p.fee_overrides[miners[i].identity] == bps
            } else {
                (miners[i].stratum_work == 0 || p.stratum_fee_bps == bps) && (
                miners[i].stratum_work == miners[i].work || p.fee_bps == bps)
            },
    ensures
        fee_weights(miners, p) == miners_work(miners) * bps,
    decreases miners.len(),
{
    if miners.len() > 0 {
        let a = miners.drop_last();
        assert forall|i: int| 0 <= i < a.len() implies (#[trigger] a[i]) == miners[i] by {}
        lemma_one_rate(a, p, bps);
        let m = miners[miners.len() - 1];
        assert(m == miners.last());
        lemma_weights(m, p);
        let (fs, fd) = p.bps(m.identity);
        let st = m.stratum_work as int;
        let dt = m.work - m.stratum_work;
        let r = bps as int;
        assert(st * fs == st * r) by (nonlinear_arith)
            requires
                st == 0 || fs == r,
        ;
        assert(dt * fd == dt * r) by (nonlinear_arith)
            requires
                dt == 0 || fd == r,
        ;
        assert(st * r + dt * r == (st + dt) * r) by (nonlinear_arith);
        let w0 = miners_work(a) as int;
        assert(w0 * r + m.work * r == (w0 + m.work) * r) by (nonlinear_arith);
    } else {
        assert(0 * bps == 0) by (nonlinear_arith);
    }
}

/// Where one rate holds for all the work, the fee is that part of the value: the DATUM fee on DATUM
/// work, the stratum fee on stratum work, and the fee of its own on the work of an identity that
/// has one. Without any work it is the DATUM fee.
pub proof fn lemma_fee_is_the_rate_of_the_value(
    miners: Seq<MinerView>,
    scripts: Seq<Option<Seq<u8>>>,
    total: u64,
    value: u64,
    p: ParamsView,
    bps: u32,
)
    requires
        p.valid(),
        miners.len() == scripts.len(),
        miners_fit(miners, total),
        miners.len() > 0 ==> total > 0 && miners_work(miners) == total,
        miners.len() == 0 ==> bps == p.fee_bps,
        forall|i: int|
            0 <= i < miners.len() ==> if p.fee_overrides.contains_key(
                (#[trigger] miners[i]).identity,
            ) {
                p.fee_overrides[miners[i].identity] == bps
            } else {
                (miners[i].stratum_work == 0 || p.stratum_fee_bps == bps) && (
                miners[i].stratum_work == miners[i].work || p.fee_bps == bps)
            },
    ensures
        split_of(miners, scripts, total, value, p).fee_sats == value * bps / 10000,
{
    lemma_split_conserves(miners, scripts, total, value, p);
    if miners.len() > 0 {
        lemma_one_rate(miners, p, bps);
        let t = total as int;
        let v = value as int;
        let r = bps as int;
        assert(v * (t * r) == t * (v * r)) by (nonlinear_arith);
        vstd::arithmetic::div_mod::lemma_div_multiples_vanish(v * r, t);
        assert((t * (v * r)) / t == v * r);
    } else {
        assert(value as nat * p.fee_bps as nat == value * bps);
    }
}

/// What payees of one name are paid together.
pub open spec fn paid_to_name(v: Seq<PayeeView>, name: Seq<char>) -> nat
    decreases v.len(),
{
    if v.len() == 0 {
        0
    } else {
        paid_to_name(v.drop_last(), name) + if v.last().identity == name {
            v.last().sats as nat
        } else {
            0
        }
    }
}

proof fn lemma_paid_to_name_update(v: Seq<PayeeView>, k: int, x: PayeeView, name: Seq<char>)
    requires
        0 <= k < v.len(),
        x.identity == v[k].identity,
        x.sats >= v[k].sats,
    ensures
        paid_to_name(v.update(k, x), name) == paid_to_name(v, name) + if x.identity == name {
            x.sats - v[k].sats
        } else {
            0
        },
    decreases v.len(),
{
    let n = v.update(k, x);
    if k < v.len() - 1 {
        assert(n.drop_last() =~= v.drop_last().update(k, x));
        lemma_paid_to_name_update(v.drop_last(), k, x, name);
    } else {
        assert(n.drop_last() =~= v.drop_last());
    }
}

proof fn lemma_payee_index(v: Seq<PayeeView>, name: Seq<char>)
    ensures
        payee_index(v, name) <= v.len(),
        payee_index(v, name) < v.len() ==> v[payee_index(v, name) as int].identity == name,
        payee_index(v, name) == v.len() ==> forall|i: int|
            0 <= i < v.len() ==> (#[trigger] v[i]).identity != name,
    decreases v.len(),
{
    if v.len() > 0 && v[0].identity != name {
        let t = v.drop_first();
        lemma_payee_index(t, name);
        assert forall|i: int|
            payee_index(v, name) == v.len() && 0 <= i < v.len() implies (#[trigger] v[i]).identity
            != name by {
            if i > 0 {
                assert(t[i - 1] == v[i]);
            }
        }
    }
}

/// What paying carry leaves as it is: those who were payees stay where they are, with their work
/// and script, and whoever joins them has a script in the list. Each name gets more by exactly what
/// is said to be paid of its carry.
proof fn lemma_carry_pays_names(
    start: Carried,
    rows: Seq<(Seq<char>, u64)>,
    scripts: Seq<Option<Seq<u8>>>,
    p: ParamsView,
    name: Seq<char>,
)
    requires
        rows.len() == scripts.len(),
        payees_sum(start.payees) + start.left <= u64::MAX,
        start.bytes <= p.output_budget_bytes,
    ensures
        ({
            let d = carry_all(start, rows, scripts, p);
            &&& paid_to_name(d.payees, name) + listed_for(start.carry_paid, name) == paid_to_name(
                start.payees,
                name,
            ) + listed_for(d.carry_paid, name)
            &&& start.payees.len() <= d.payees.len()
            &&& d.left <= start.left
            &&& start.bytes <= d.bytes
            &&& start.carry_paid.len() <= d.carry_paid.len() && d.carry_paid.take(
                start.carry_paid.len() as int,
            ) == start.carry_paid
            &&& forall|k: int|
                0 <= k < start.payees.len() ==> (#[trigger] d.payees[k]).identity
                    == start.payees[k].identity && d.payees[k].work == start.payees[k].work
                    && d.payees[k].script == start.payees[k].script && d.payees[k].sats
                    >= start.payees[k].sats
            &&& forall|k: int|
                start.payees.len() <= k < d.payees.len() ==> exists|j: int|
                    #![trigger rows[j]]
                    0 <= j < rows.len() && rows[j].0 == (#[trigger] d.payees[k]).identity
                        && scripts[j] == Some(d.payees[k].script) && d.payees[k].work == 0
        }),
    decreases rows.len(),
{
    let d = carry_all(start, rows, scripts, p);
    if rows.len() == 0 {
        assert(d.carry_paid.take(start.carry_paid.len() as int) =~= start.carry_paid);
    } else {
        let r = rows.drop_last();
        let q = scripts.drop_last();
        let n = rows.len() - 1;
        lemma_carry_pays_names(start, r, q, p, name);
        lemma_carry_all(start, r, q, p);
        let c = carry_all(start, r, q, p);
        let who = rows.last().0;
        assert(rows[n] == rows.last() && scripts[n] == scripts.last());
        let k = payee_index(c.payees, who) as int;
        lemma_payee_index(c.payees, who);
        if d.carry_paid.len() > c.carry_paid.len() {
            assert(d.carry_paid.drop_last() =~= c.carry_paid);
        }
        if d.payees.len() > c.payees.len() {
            assert(d.payees.drop_last() =~= c.payees);
        } else if k < c.payees.len() && d.carry_paid.len() > c.carry_paid.len() {
            lemma_payees_sum_update(c.payees, k, c.payees[k]);
            lemma_paid_to_name_update(c.payees, k, d.payees[k], name);
            assert(d.payees =~= c.payees.update(k, d.payees[k]));
        }
        assert(d.carry_paid.take(start.carry_paid.len() as int) =~= c.carry_paid.take(
            start.carry_paid.len() as int,
        ));
        assert forall|k: int| start.payees.len() <= k < d.payees.len() implies exists|j: int|
            #![trigger rows[j]]
            0 <= j < rows.len() && rows[j].0 == (#[trigger] d.payees[k]).identity && scripts[j]
                == Some(d.payees[k].script) && d.payees[k].work == 0 by {
            if k < c.payees.len() {
                let x = c.payees[k];
                let j = choose|j: int|
                    #![trigger r[j]]
                    0 <= j < r.len() && r[j].0 == x.identity && q[j] == Some(x.script) && x.work
                        == 0;
                assert(rows[j] == r[j] && scripts[j] == q[j]);
            } else {
                assert(rows[n].0 == d.payees[k].identity);
            }
        }
    }
}

/// Whether what an identity is owed is paid as far as it can be: in full; or until nothing is left;
/// or not at all, where it has no output to be added to and one of its own is not worth it or does
/// not fit.
spec fn is_served(
    name: Seq<char>,
    owed: u64,
    out: Seq<u8>,
    before: Seq<PayeeView>,
    d: Carried,
    p: ParamsView,
) -> bool {
    ||| d.carry_paid.contains((name, owed))
    ||| d.left == 0
    ||| (forall|k: int| 0 <= k < before.len() ==> (#[trigger] before[k]).identity != name) && {
        ||| owed < p.min_payout
        ||| d.left < p.min_payout
        ||| d.payees.len() >= p.max_outputs
        ||| p.max_payees > 0 && d.payees.len() >= p.max_payees
        ||| d.bytes + 9 + out.len() > p.output_budget_bytes
    }
}

proof fn lemma_carry_served(
    start: Carried,
    rows: Seq<(Seq<char>, u64)>,
    scripts: Seq<Option<Seq<u8>>>,
    p: ParamsView,
    j: int,
)
    requires
        rows.len() == scripts.len(),
        payees_sum(start.payees) + start.left <= u64::MAX,
        start.bytes <= p.output_budget_bytes,
        0 <= j < rows.len(),
        scripts[j].is_some(),
        rows[j].1 > 0,
    ensures
        is_served(
            rows[j].0,
            rows[j].1,
            scripts[j].unwrap(),
            start.payees,
            carry_all(start, rows, scripts, p),
            p,
        ),
    decreases rows.len(),
{
    let r = rows.drop_last();
    let q = scripts.drop_last();
    let c = carry_all(start, r, q, p);
    let d = carry_all(start, rows, scripts, p);
    let who = rows.last().0;
    let name = rows[j].0;
    let owed = rows[j].1;
    lemma_carry_pays_names(start, r, q, p, name);
    lemma_carry_all(start, r, q, p);
    lemma_payee_index(c.payees, who);
    assert(d.left <= c.left && c.payees.len() <= d.payees.len() && c.bytes <= d.bytes);
    if j < rows.len() - 1 {
        assert(r[j] == rows[j] && q[j] == scripts[j]);
        lemma_carry_served(start, r, q, p, j);
        if c.carry_paid.contains((name, owed)) {
            let k = choose|k: int| 0 <= k < c.carry_paid.len() && c.carry_paid[k] == (name, owed);
            assert(d.carry_paid[k] == (name, owed));
        }
    } else {
        let pay = least(owed, c.left);
        if pay > 0 && d.carry_paid.len() > c.carry_paid.len() {
            assert(d.carry_paid[d.carry_paid.len() - 1] == (name, pay));
        }
        if payee_index(c.payees, who) == c.payees.len() {
            assert forall|k: int| 0 <= k < start.payees.len() implies (
            #[trigger] start.payees[k]).identity != name by {
                assert(c.payees[k].identity == start.payees[k].identity);
            }
        }
    }
}

/// Whoever is owed carry and can be paid gets all of it; or all that is left above the fee, where
/// that is less; or nothing, where it has no output to be added to and one of its own would be below
/// the minimum or does not fit.
pub proof fn lemma_carry_is_paid_as_far_as_it_goes(
    miners: Seq<MinerView>,
    scripts: Seq<Option<Seq<u8>>>,
    total: u64,
    value: u64,
    p: ParamsView,
    rows: Seq<(Seq<char>, u64)>,
    carry_scripts: Seq<Option<Seq<u8>>>,
    j: int,
)
    requires
        p.valid(),
        miners.len() == scripts.len(),
        miners_fit(miners, total),
        rows.len() == carry_scripts.len(),
        0 <= j < rows.len(),
        carry_scripts[j].is_some(),
        rows[j].1 > 0,
    ensures
        ({
            let plain = split_of(miners, scripts, total, value, p);
            let s = carried_split_of(miners, scripts, total, value, p, rows, carry_scripts);
            let (name, owed) = rows[j];
            ||| s.carry_paid.contains((name, owed))
            ||| s.pool_sats == s.fee_sats
            ||| (forall|k: int|
                0 <= k < plain.payees.len() ==> (#[trigger] plain.payees[k]).identity != name) && {
                ||| owed < p.min_payout
                ||| s.pool_sats - s.fee_sats < p.min_payout
                ||| s.payees.len() >= p.max_outputs
                ||| p.max_payees > 0 && s.payees.len() >= p.max_payees
                ||| bytes_of(s.payees) + 9 + carry_scripts[j].unwrap().len()
                    > p.output_budget_bytes
            }
        }),
{
    let s = split_of(miners, scripts, total, value, p);
    lemma_split_conserves(miners, scripts, total, value, p);
    lemma_placed_of(miners, scripts, total, value, p);
    let start = Carried {
        payees: s.payees,
        carry_paid: Seq::empty(),
        left: (s.pool_sats - s.fee_sats) as u64,
        bytes: placed_of(miners, scripts, total, value, p).bytes,
    };
    lemma_carry_served(start, rows, carry_scripts, p, j);
    lemma_carry_bytes(start, rows, carry_scripts, p);
    lemma_carry_all(start, rows, carry_scripts, p);
}

/// Paying carry adds to what each identity is paid exactly what is said to be paid of its carry. The
/// payees of the split stay, with their work and script; whoever joins them has no work in the
/// window, is owed carry, and is paid to its own script. The fee and what is unpaid do not change.
pub proof fn lemma_carry_is_added(
    miners: Seq<MinerView>,
    scripts: Seq<Option<Seq<u8>>>,
    total: u64,
    value: u64,
    p: ParamsView,
    rows: Seq<(Seq<char>, u64)>,
    carry_scripts: Seq<Option<Seq<u8>>>,
    name: Seq<char>,
)
    requires
        p.valid(),
        miners.len() == scripts.len(),
        miners_fit(miners, total),
        rows.len() == carry_scripts.len(),
    ensures
        ({
            let plain = split_of(miners, scripts, total, value, p);
            let s = carried_split_of(miners, scripts, total, value, p, rows, carry_scripts);
            &&& paid_to_name(s.payees, name) == paid_to_name(plain.payees, name) + listed_for(
                s.carry_paid,
                name,
            )
            &&& s.fee_sats == plain.fee_sats
            &&& s.unpaid == plain.unpaid
            &&& plain.payees.len() <= s.payees.len()
            &&& forall|k: int|
                0 <= k < plain.payees.len() ==> (#[trigger] s.payees[k]).identity
                    == plain.payees[k].identity && s.payees[k].work == plain.payees[k].work
                    && s.payees[k].script == plain.payees[k].script && s.payees[k].sats
                    >= plain.payees[k].sats
            &&& forall|k: int|
                plain.payees.len() <= k < s.payees.len() ==> exists|j: int|
                    #![trigger rows[j]]
                    0 <= j < rows.len() && rows[j].0 == (#[trigger] s.payees[k]).identity
                        && carry_scripts[j] == Some(s.payees[k].script) && s.payees[k].work == 0
        }),
{
    let s = split_of(miners, scripts, total, value, p);
    lemma_split_conserves(miners, scripts, total, value, p);
    lemma_placed_of(miners, scripts, total, value, p);
    let start = Carried {
        payees: s.payees,
        carry_paid: Seq::empty(),
        left: (s.pool_sats - s.fee_sats) as u64,
        bytes: placed_of(miners, scripts, total, value, p).bytes,
    };
    lemma_carry_pays_names(start, rows, carry_scripts, p, name);
}

/// Those chosen first stay chosen when more identities follow.
proof fn lemma_choose_prefix(
    miners: Seq<MinerView>,
    scripts: Seq<Option<Seq<u8>>>,
    limit: nat,
    p: ParamsView,
    i: int,
)
    requires
        miners.len() == scripts.len(),
        0 <= i <= miners.len(),
    ensures
        ({
            let b = choose_all(miners.take(i), scripts.take(i), limit, p).placed;
            let a = choose_all(miners, scripts, limit, p).placed;
            &&& b.payees.len() <= a.payees.len() && a.payees.take(b.payees.len() as int) == b.payees
            &&& b.unpaid.len() <= a.unpaid.len() && a.unpaid.take(b.unpaid.len() as int) == b.unpaid
            &&& b.bytes <= a.bytes
        }),
    decreases miners.len(),
{
    let a = choose_all(miners, scripts, limit, p).placed;
    if i == miners.len() {
        assert(miners.take(i) =~= miners && scripts.take(i) =~= scripts);
        assert(a.payees.take(a.payees.len() as int) =~= a.payees);
        assert(a.unpaid.take(a.unpaid.len() as int) =~= a.unpaid);
    } else {
        let m = miners.drop_last();
        let c = scripts.drop_last();
        lemma_choose_prefix(m, c, limit, p, i);
        assert(m.take(i) =~= miners.take(i) && c.take(i) =~= scripts.take(i));
        let b = choose_all(miners.take(i), scripts.take(i), limit, p).placed;
        let d = choose_all(m, c, limit, p).placed;
        assert(a.payees.take(b.payees.len() as int) =~= d.payees.take(b.payees.len() as int));
        assert(a.unpaid.take(b.unpaid.len() as int) =~= d.unpaid.take(b.unpaid.len() as int));
    }
}

/// Whom a capped split leaves out: whoever has no address, or no work left after its fee, and
/// otherwise only whom it has no place for, because the cap or a coinbase's outputs are reached, the
/// value has no minimum for one more, or the output does not fit.
pub proof fn lemma_whom_a_capped_split_leaves_out(
    miners: Seq<MinerView>,
    scripts: Seq<Option<Seq<u8>>>,
    total: u64,
    value: u64,
    p: ParamsView,
    i: int,
)
    requires
        p.valid(),
        p.max_payees > 0,
        miners.len() == scripts.len(),
        miners_fit(miners, total),
        0 <= i < miners.len(),
    ensures
        ({
            let s = split_of(miners, scripts, total, value, p);
            let m = miners[i];
            let fees = if p.fee_overrides.contains_key(m.identity) {
                (p.fee_overrides[m.identity], p.fee_overrides[m.identity])
            } else {
                (p.stratum_fee_bps, p.fee_bps)
            };
            let earns = (m.stratum_work > 0 && fees.0 < 10000) || (m.work > m.stratum_work && fees.1
                < 10000);
            let n = s.payees.len();
            let paid = exists|k: int|
                #![trigger s.payees[k]]
                0 <= k < n && s.payees[k].identity == m.identity && s.payees[k].work == m.work
                    && Some(s.payees[k].script) == scripts[i];
            &&& scripts[i].is_none() ==> s.unpaid.contains(
                (m.identity, 0u64, UnpaidReason::NoScript),
            )
            &&& scripts[i].is_some() && !earns ==> s.unpaid.contains(
                (m.identity, 0u64, UnpaidReason::BelowMinimum),
            )
            &&& scripts[i].is_some() && earns ==> {
                ||| paid
                ||| s.unpaid.contains((m.identity, 0u64, UnpaidReason::BelowMinimum)) && (n + 1) * (
                if p.min_payout > 1 {
                    p.min_payout as int
                } else {
                    1
                }) > value - s.fee_sats
                ||| s.unpaid.contains((m.identity, 0u64, UnpaidReason::BelowCut)) && (n
                    >= p.max_payees || n >= p.max_outputs || bytes_of(s.payees) + 9
                    + scripts[i].unwrap().len() > p.output_budget_bytes)
            }
        }),
{
    let s = split_of(miners, scripts, total, value, p);
    let m = miners[i];
    let left = after_fee(miners, total, value, p);
    let floor = floor_of(p);
    let limit = left as nat / floor as nat;
    lemma_fee_bound(miners, total, value, p);
    lemma_capped_amounts(miners, scripts, total, value, p);
    lemma_chosen(miners, scripts, limit, p);
    lemma_choose_prefix(miners, scripts, limit, p, i + 1);
    let x = miners.take(i + 1);
    let c = scripts.take(i + 1);
    assert(x.drop_last() =~= miners.take(i) && c.drop_last() =~= scripts.take(i));
    let b = choose_all(miners.take(i), scripts.take(i), limit, p).placed;
    let a = choose_all(x, c, limit, p).placed;
    let all = choose_all(miners, scripts, limit, p).placed;
    lemma_choose_prefix(miners, scripts, limit, p, i);
    lemma_weights(m, p);
    let (fs, fd) = p.bps(m.identity);
    let st = m.stratum_work as int;
    let dt = m.work - m.stratum_work;
    assert(net_weight(m, p) > 0 <==> (st > 0 && fs < 10000) || (dt > 0 && fd < 10000)) by {
        assert(st * (10000 - fs) > 0 <==> st > 0 && fs < 10000) by (nonlinear_arith)
            requires
                st >= 0,
                fs <= 10000,
        ;
        assert(dt * (10000 - fd) > 0 <==> dt > 0 && fd < 10000) by (nonlinear_arith)
            requires
                dt >= 0,
                fd <= 10000,
        ;
        assert(st * (10000 - fs) >= 0) by (nonlinear_arith)
            requires
                st >= 0,
                fs <= 10000,
        ;
        assert(dt * (10000 - fd) >= 0) by (nonlinear_arith)
            requires
                dt >= 0,
                fd <= 10000,
        ;
    }
    if a.payees.len() > b.payees.len() {
        let k = b.payees.len() as int;
        assert(all.payees.take(a.payees.len() as int)[k] == a.payees[k]);
        assert(s.payees[k].identity == m.identity);
    } else {
        let k = b.unpaid.len() as int;
        assert(all.unpaid.take(a.unpaid.len() as int)[k] == a.unpaid[k]);
        assert(s.unpaid[k] == a.unpaid[k]);
        let n = s.payees.len() as int;
        if b.payees.len() >= limit {
            let l = left as int;
            let f = floor as int;
            assert((n + 1) * f > l) by (nonlinear_arith)
                requires
                    n >= l / f,
                    f > 0,
                    l >= 0,
            ;
        }
    }
}

/// The payees of a window's split are paid to the scripts of their own addresses, on the network
/// the split is for.
pub proof fn lemma_paid_to_their_own_addresses(
    miners: Seq<MinerView>,
    total: u64,
    value: u64,
    p: ParamsView,
    rows: Seq<(Seq<char>, u64)>,
    net: Network,
    k: int,
)
    requires
        p.valid(),
        miners_fit(miners, total),
        0 <= k < carried_split_of(
            miners,
            scripts_for(identities_of(miners), net),
            total,
            value,
            p,
            rows,
            scripts_for(names_of(rows), net),
        ).payees.len(),
    ensures
        ({
            let s = carried_split_of(
                miners,
                scripts_for(identities_of(miners), net),
                total,
                value,
                p,
                rows,
                scripts_for(names_of(rows), net),
            );
            payable_script(s.payees[k].identity, net) == Some(s.payees[k].script)
        }),
{
    let a = scripts_for(identities_of(miners), net);
    let b = scripts_for(names_of(rows), net);
    let plain = split_of(miners, a, total, value, p);
    let s = carried_split_of(miners, a, total, value, p, rows, b);
    lemma_carry_is_added(miners, a, total, value, p, rows, b, Seq::empty());
    lemma_everyone_is_accounted_for(miners, a, total, value, p);
    if k < plain.payees.len() {
        let x = plain.payees[k];
        let j = choose|j: int|
            #![trigger miners[j]]
            0 <= j < miners.len() && is_paid_its_part(x, miners[j], a[j], total, value, p);
        assert(s.payees[k].identity == x.identity && s.payees[k].script == x.script);
        assert(a[j] == payable_script(miners[j].identity, net));
    } else {
        let y = s.payees[k];
        let j = choose|j: int|
            #![trigger rows[j]]
            0 <= j < rows.len() && rows[j].0 == y.identity && b[j] == Some(y.script) && y.work == 0;
        assert(b[j] == payable_script(rows[j].0, net));
    }
}

} // verus!
