//! Where a share's coinbase sends the block reward, held against the split that was issued.

use crate::bytes::bytes_eq;
use crate::coinbase::{
    is_data_script, outs_view, paid_to_script, sat_add, starts_with_op_return, total_value,
    Coinbase, TxOutView,
};
use crate::coinbaser::{lemma_list_value_prefix, list_value, list_view, Output, OutputView};
use vstd::prelude::*;

verus! {

/// Where a share's coinbase sends the block reward.
#[derive(Clone, Copy, Debug, PartialEq, Eq, Structural)]
pub enum CoinbaseKind {
    /// Every issued miner output is paid in full, and every issued data output is present.
    Split,
    /// Some of the issued miner outputs are paid, each in full, or all of them without a data
    /// output that was issued with them; nothing else is paid but the pool. The pool holds the
    /// rest and owes it to the window. The count is how many were paid.
    Partial(u16),
    /// Only the pool's own script is paid, beside data outputs: the pool owes the whole window.
    PoolOnly,
    /// Pays somewhere the pool did not sanction.
    Foreign,
}

/// Whether some non-data output pays the pool.
pub open spec fn pool_paid(outs: Seq<TxOutView>, pool: Seq<u8>) -> bool {
    exists|i: int|
        0 <= i < outs.len() && !is_data_script((#[trigger] outs[i]).script) && outs[i].script
            == pool
}

/// Whether every output carries data or pays the pool.
pub open spec fn only_pool(outs: Seq<TxOutView>, pool: Seq<u8>) -> bool {
    forall|i: int|
        0 <= i < outs.len() ==> is_data_script((#[trigger] outs[i]).script) || outs[i].script
            == pool
}

/// Whether the issued list names `script`.
pub open spec fn names_script(iss: Seq<OutputView>, script: Seq<u8>) -> bool {
    exists|i: int| 0 <= i < iss.len() && (#[trigger] iss[i]).script == script
}

/// Whether some non-data output pays a script that is neither the pool's nor issued.
pub open spec fn pays_outsider(
    outs: Seq<TxOutView>,
    pool: Seq<u8>,
    issued: Option<Seq<OutputView>>,
) -> bool {
    exists|i: int|
        0 <= i < outs.len() && !is_data_script((#[trigger] outs[i]).script) && outs[i].script
            != pool && !(issued matches Some(iss) && names_script(iss, outs[i].script))
}

/// Whether some output carries `script`.
pub open spec fn has_output(outs: Seq<TxOutView>, script: Seq<u8>) -> bool {
    exists|i: int| 0 <= i < outs.len() && (#[trigger] outs[i]).script == script
}

/// Whether an issued data output is missing.
pub open spec fn drops_commitment(outs: Seq<TxOutView>, iss: Seq<OutputView>) -> bool {
    exists|i: int|
        0 <= i < iss.len() && is_data_script((#[trigger] iss[i]).script) && !has_output(
            outs,
            iss[i].script,
        )
}

/// An issued output that pays a miner: not the pool's own and not data.
pub open spec fn is_miner_output(o: OutputView, pool: Seq<u8>) -> bool {
    o.script != pool && !is_data_script(o.script)
}

/// How many issued outputs pay a miner.
pub open spec fn miner_count(iss: Seq<OutputView>, pool: Seq<u8>) -> nat
    decreases iss.len(),
{
    if iss.len() == 0 {
        0
    } else {
        miner_count(iss.drop_last(), pool) + if is_miner_output(iss.last(), pool) {
            1nat
        } else {
            0
        }
    }
}

/// How many issued miner outputs get anything.
pub open spec fn present_count(
    iss: Seq<OutputView>,
    outs: Seq<TxOutView>,
    pool: Seq<u8>,
) -> nat
    decreases iss.len(),
{
    if iss.len() == 0 {
        0
    } else {
        present_count(iss.drop_last(), outs, pool) + if is_miner_output(iss.last(), pool)
            && paid_to_script(outs, iss.last().script) > 0 {
            1nat
        } else {
            0
        }
    }
}

/// What the issued miner outputs give `script` together.
pub open spec fn issued_to(iss: Seq<OutputView>, pool: Seq<u8>, script: Seq<u8>) -> nat
    decreases iss.len(),
{
    if iss.len() == 0 {
        0
    } else {
        issued_to(iss.drop_last(), pool, script) + if is_miner_output(iss.last(), pool)
            && iss.last().script == script {
            iss.last().sats as nat
        } else {
            0
        }
    }
}

/// The least an output issued at `sats` may be paid: scaled down with a template that is worth
/// less than the list.
pub open spec fn owed(sats: nat, actual: nat, issued: nat) -> nat {
    if issued == 0 || actual >= issued {
        sats
    } else {
        sats * actual / issued
    }
}

/// The most a script issued `sats` may be paid: scaled up with a template that is worth more
/// than the list.
pub open spec fn ceiling(sats: nat, actual: nat, issued: nat) -> nat {
    if issued == 0 || actual <= issued {
        sats
    } else {
        sats * actual / issued
    }
}

/// The least that an output issued at `sats` may be paid: what it is owed, less the tolerance.
pub open spec fn least(sats: nat, actual: nat, issued: nat, tolerance: u64) -> nat {
    let due = owed(sats, actual, issued);
    if due > tolerance {
        (due - tolerance) as nat
    } else {
        0
    }
}

/// The least that the issued miner outputs for `script` may be paid together, of a list worth
/// `issued` in a template worth `actual`. Each has its own tolerance: what one does not need
/// covers no other.
pub open spec fn least_to(
    iss: Seq<OutputView>,
    pool: Seq<u8>,
    script: Seq<u8>,
    actual: nat,
    issued: nat,
    tolerance: u64,
) -> nat
    decreases iss.len(),
{
    if iss.len() == 0 {
        0
    } else {
        least_to(iss.drop_last(), pool, script, actual, issued, tolerance) + if is_miner_output(
            iss.last(),
            pool,
        ) && iss.last().script == script {
            least(iss.last().sats as nat, actual, issued, tolerance)
        } else {
            0
        }
    }
}

/// Whether a miner's script that is paid gets less than the least for all outputs issued to it.
pub open spec fn is_shorted(
    o: OutputView,
    outs: Seq<TxOutView>,
    iss: Seq<OutputView>,
    pool: Seq<u8>,
    tolerance: u64,
) -> bool {
    let paid = paid_to_script(outs, o.script);
    is_miner_output(o, pool) && paid > 0 && paid < least_to(
        iss,
        pool,
        o.script,
        total_value(outs) as nat,
        list_value(iss),
        tolerance,
    )
}

/// Whether a miner's script gets more than was issued to it, beyond the rounding of one
/// satoshi per issued output.
pub open spec fn is_overpaid(
    o: OutputView,
    outs: Seq<TxOutView>,
    iss: Seq<OutputView>,
    pool: Seq<u8>,
    tolerance: u64,
) -> bool {
    let paid = paid_to_script(outs, o.script);
    is_miner_output(o, pool) && paid > 0 && paid > sat_add(
        ceiling(
            issued_to(iss, pool, o.script),
            total_value(outs) as nat,
            list_value(iss),
        ) as u64,
        sat_add(tolerance, iss.len() as u64),
    )
}

/// Whether any issued output is shorted.
pub open spec fn any_shorted(
    outs: Seq<TxOutView>,
    iss: Seq<OutputView>,
    pool: Seq<u8>,
    tolerance: u64,
) -> bool {
    exists|i: int| 0 <= i < iss.len() && is_shorted(#[trigger] iss[i], outs, iss, pool, tolerance)
}

/// Whether any issued output is overpaid.
pub open spec fn any_overpaid(
    outs: Seq<TxOutView>,
    iss: Seq<OutputView>,
    pool: Seq<u8>,
    tolerance: u64,
) -> bool {
    exists|i: int| 0 <= i < iss.len() && is_overpaid(#[trigger] iss[i], outs, iss, pool, tolerance)
}

/// The kind of a coinbase that pays no issued miner output in a way that counts.
pub open spec fn kind_without_split(outs: Seq<TxOutView>, pool: Seq<u8>) -> CoinbaseKind {
    if pool_paid(outs, pool) && only_pool(outs, pool) {
        CoinbaseKind::PoolOnly
    } else {
        CoinbaseKind::Foreign
    }
}

/// The kind of a coinbase with these outputs.
pub open spec fn kind_of(
    outs: Seq<TxOutView>,
    pool: Seq<u8>,
    issued: Option<Seq<OutputView>>,
    tolerance: u64,
) -> CoinbaseKind {
    if pays_outsider(outs, pool, issued) {
        CoinbaseKind::Foreign
    } else {
        match issued {
            None => kind_without_split(outs, pool),
            Some(iss) => if any_overpaid(outs, iss, pool, tolerance) {
                CoinbaseKind::Foreign
            } else if any_shorted(outs, iss, pool, tolerance) {
                kind_without_split(outs, pool)
            } else if present_count(iss, outs, pool) == miner_count(iss, pool) && (pool_paid(
                outs,
                pool,
            ) || miner_count(iss, pool) > 0) && !drops_commitment(outs, iss) {
                CoinbaseKind::Split
            } else if present_count(iss, outs, pool) > 0 {
                CoinbaseKind::Partial(present_count(iss, outs, pool) as u16)
            } else {
                kind_without_split(outs, pool)
            },
        }
    }
}

/// An issued list the amounts and counts of which can be added up.
pub open spec fn list_fits(iss: Seq<OutputView>) -> bool {
    iss.len() <= u16::MAX && list_value(iss) <= u64::MAX
}

fn issued_names(iss: &[Output], script: &[u8]) -> (r: bool)
    ensures
        r == names_script(list_view(iss@), script@),
{
    let mut i: usize = 0;
    let ghost v = list_view(iss@);
    while i < iss.len()
        invariant
            i <= iss@.len(),
            v == list_view(iss@),
            forall|j: int| 0 <= j < i ==> (#[trigger] v[j]).script != script@,
        decreases iss@.len() - i,
    {
        if bytes_eq(iss[i].script.as_slice(), script) {
            assert(v[i as int].script == script@);
            return true;
        }
        i = i + 1;
    }
    false
}

fn outputs_have(cb: &Coinbase, script: &[u8]) -> (r: bool)
    ensures
        r == has_output(cb@.outputs, script@),
{
    let mut i: usize = 0;
    let ghost v = cb@.outputs;
    while i < cb.outputs.len()
        invariant
            i <= cb.outputs@.len(),
            v == outs_view(cb.outputs@),
            forall|j: int| 0 <= j < i ==> (#[trigger] v[j]).script != script@,
        decreases cb.outputs@.len() - i,
    {
        if bytes_eq(cb.outputs[i].script.as_slice(), script) {
            assert(v[i as int].script == script@);
            return true;
        }
        i = i + 1;
    }
    false
}

/// Whether an output pays an outsider; whether one pays the pool; whether nothing else is paid.
fn scan_outputs(cb: &Coinbase, pool: &[u8], issued: Option<&[Output]>) -> (r: (bool, bool, bool))
    ensures
        r.0 == pays_outsider(cb@.outputs, pool@, issued_view(issued)),
        r.1 == pool_paid(cb@.outputs, pool@),
        r.2 == only_pool(cb@.outputs, pool@),
{
    let mut outsider: bool = false;
    let mut paid: bool = false;
    let mut only: bool = true;
    let mut i: usize = 0;
    let ghost v = cb@.outputs;
    let ghost iv = issued_view(issued);
    while i < cb.outputs.len()
        invariant
            i <= cb.outputs@.len(),
            v == outs_view(cb.outputs@),
            iv == issued_view(issued),
            outsider == exists|j: int|
                0 <= j < i && !is_data_script((#[trigger] v[j]).script) && v[j].script != pool@
                    && !(iv matches Some(iss) && names_script(iss, v[j].script)),
            paid == exists|j: int|
                0 <= j < i && !is_data_script((#[trigger] v[j]).script) && v[j].script == pool@,
            only == forall|j: int|
                0 <= j < i ==> is_data_script((#[trigger] v[j]).script) || v[j].script == pool@,
        decreases cb.outputs@.len() - i,
    {
        let script: &Vec<u8> = &cb.outputs[i].script;
        assert(v[i as int].script == script@);
        if !starts_with_op_return(script.as_slice()) {
            if bytes_eq(script.as_slice(), pool) {
                paid = true;
            } else {
                only = false;
                let named: bool = match issued {
                    Some(iss) => issued_names(iss, script.as_slice()),
                    None => false,
                };
                if !named {
                    outsider = true;
                }
            }
        }
        i = i + 1;
    }
    (outsider, paid, only)
}

/// The issued list as a mathematical value.
pub open spec fn issued_view(issued: Option<&[Output]>) -> Option<Seq<OutputView>> {
    match issued {
        Some(iss) => Some(list_view(iss@)),
        None => None,
    }
}

fn list_total(iss: &[Output]) -> (t: u64)
    requires
        list_value(list_view(iss@)) <= u64::MAX,
    ensures
        t == list_value(list_view(iss@)),
{
    let mut t: u64 = 0;
    let mut i: usize = 0;
    let ghost v = list_view(iss@);
    while i < iss.len()
        invariant
            i <= iss@.len(),
            v == list_view(iss@),
            t == list_value(v.take(i as int)),
            list_value(v) <= u64::MAX,
        decreases iss@.len() - i,
    {
        proof {
            lemma_list_value_prefix(v, i + 1);
            assert(v.take(i + 1).drop_last() =~= v.take(i as int));
        }
        t = t + iss[i].sats;
        i = i + 1;
    }
    assert(v.take(v.len() as int) =~= v);
    t
}

proof fn lemma_issued_to_bound(iss: Seq<OutputView>, pool: Seq<u8>, script: Seq<u8>)
    ensures
        issued_to(iss, pool, script) <= list_value(iss),
    decreases iss.len(),
{
    if iss.len() > 0 {
        lemma_issued_to_bound(iss.drop_last(), pool, script);
    }
}

fn issued_sum(iss: &[Output], pool: &[u8], script: &[u8]) -> (t: u64)
    requires
        list_value(list_view(iss@)) <= u64::MAX,
    ensures
        t == issued_to(list_view(iss@), pool@, script@),
{
    let mut t: u64 = 0;
    let mut i: usize = 0;
    let ghost v = list_view(iss@);
    while i < iss.len()
        invariant
            i <= iss@.len(),
            v == list_view(iss@),
            t == issued_to(v.take(i as int), pool@, script@),
            list_value(v) <= u64::MAX,
        decreases iss@.len() - i,
    {
        proof {
            lemma_list_value_prefix(v, i + 1);
            lemma_issued_to_bound(v.take(i + 1), pool@, script@);
            assert(v.take(i + 1).drop_last() =~= v.take(i as int));
        }
        if is_miner(&iss[i], pool) && bytes_eq(iss[i].script.as_slice(), script) {
            t = t + iss[i].sats;
        }
        i = i + 1;
    }
    assert(v.take(v.len() as int) =~= v);
    t
}

fn is_miner(o: &Output, pool: &[u8]) -> (r: bool)
    ensures
        r == is_miner_output(o@, pool@),
{
    !bytes_eq(o.script.as_slice(), pool) && !starts_with_op_return(o.script.as_slice())
}

/// `sats` scaled by `actual / issued`.
fn scaled(sats: u64, actual: u64, issued: u64) -> (r: u64)
    requires
        issued > 0,
        sats * actual / issued as int <= u64::MAX,
    ensures
        r == sats * actual / issued as int,
{
    proof {
        assert(0 <= sats * actual <= 0xffff_ffff_ffff_ffff * 0xffff_ffff_ffff_ffff)
            by (nonlinear_arith)
            requires
                0 <= sats <= 0xffff_ffff_ffff_ffff,
                0 <= actual <= 0xffff_ffff_ffff_ffff,
        ;
    }
    ((sats as u128 * actual as u128) / issued as u128) as u64
}

fn owed_for(sats: u64, actual: u64, issued: u64) -> (r: u64)
    ensures
        r == owed(sats as nat, actual as nat, issued as nat),
{
    if issued == 0 || actual >= issued {
        sats
    } else {
        assert(sats * actual / issued as int <= sats) by (nonlinear_arith)
            requires
                0 <= sats,
                0 <= actual < issued,
        ;
        scaled(sats, actual, issued)
    }
}

fn ceiling_for(sats: u64, actual: u64, issued: u64) -> (r: u64)
    requires
        sats <= issued,
    ensures
        r == ceiling(sats as nat, actual as nat, issued as nat),
{
    if issued == 0 || actual <= issued {
        sats
    } else {
        assert(sats * actual / issued as int <= actual) by (nonlinear_arith)
            requires
                0 <= sats <= issued,
                0 <= actual,
                issued > 0,
        ;
        scaled(sats, actual, issued)
    }
}

proof fn lemma_least_bound(
    iss: Seq<OutputView>,
    pool: Seq<u8>,
    script: Seq<u8>,
    actual: nat,
    issued: nat,
    tolerance: u64,
)
    ensures
        least_to(iss, pool, script, actual, issued, tolerance) <= issued_to(iss, pool, script),
        forall|i: int|
            0 <= i < iss.len() && is_miner_output(#[trigger] iss[i], pool) && iss[i].script
                == script ==> owed(iss[i].sats as nat, actual, issued) <= least_to(
                iss,
                pool,
                script,
                actual,
                issued,
                tolerance,
            ) + tolerance,
    decreases iss.len(),
{
    if iss.len() > 0 {
        let w = iss.drop_last();
        lemma_least_bound(w, pool, script, actual, issued, tolerance);
        let sats = iss.last().sats;
        if issued > 0 && actual < issued {
            assert(sats * actual / issued as int <= sats) by (nonlinear_arith)
                requires
                    0 <= sats,
                    0 <= actual < issued,
            ;
        }
        assert forall|i: int|
            0 <= i < iss.len() && is_miner_output(#[trigger] iss[i], pool) && iss[i].script
                == script implies owed(iss[i].sats as nat, actual, issued) <= least_to(
            iss,
            pool,
            script,
            actual,
            issued,
            tolerance,
        ) + tolerance by {
            if i < w.len() {
                assert(w[i] == iss[i]);
            }
        }
    }
}

/// The least that the outputs for a script may be paid together.
fn least_sum(
    iss: &[Output],
    pool: &[u8],
    script: &[u8],
    actual: u64,
    issued: u64,
    tolerance: u64,
) -> (t: u64)
    requires
        list_value(list_view(iss@)) <= u64::MAX,
    ensures
        t == least_to(
            list_view(iss@),
            pool@,
            script@,
            actual as nat,
            issued as nat,
            tolerance,
        ),
{
    let mut t: u64 = 0;
    let mut i: usize = 0;
    let ghost v = list_view(iss@);
    while i < iss.len()
        invariant
            i <= iss@.len(),
            v == list_view(iss@),
            t == least_to(
                v.take(i as int),
                pool@,
                script@,
                actual as nat,
                issued as nat,
                tolerance,
            ),
            list_value(v) <= u64::MAX,
        decreases iss@.len() - i,
    {
        proof {
            lemma_list_value_prefix(v, i + 1);
            lemma_issued_to_bound(v.take(i + 1), pool@, script@);
            lemma_least_bound(
                v.take(i + 1),
                pool@,
                script@,
                actual as nat,
                issued as nat,
                tolerance,
            );
            assert(v.take(i + 1).drop_last() =~= v.take(i as int));
        }
        if is_miner(&iss[i], pool) && bytes_eq(iss[i].script.as_slice(), script) {
            t = t + owed_for(iss[i].sats, actual, issued).saturating_sub(tolerance);
        }
        i = i + 1;
    }
    assert(v.take(v.len() as int) =~= v);
    t
}

fn commitment_dropped(cb: &Coinbase, iss: &[Output]) -> (r: bool)
    ensures
        r == drops_commitment(cb@.outputs, list_view(iss@)),
{
    let mut i: usize = 0;
    let ghost v = list_view(iss@);
    while i < iss.len()
        invariant
            i <= iss@.len(),
            v == list_view(iss@),
            forall|j: int|
                0 <= j < i && is_data_script((#[trigger] v[j]).script) ==> has_output(
                    cb@.outputs,
                    v[j].script,
                ),
        decreases iss@.len() - i,
    {
        let script: &Vec<u8> = &iss[i].script;
        assert(v[i as int].script == script@);
        if starts_with_op_return(script.as_slice()) && !outputs_have(cb, script.as_slice()) {
            return true;
        }
        i = i + 1;
    }
    false
}

/// Tells where a coinbase sends the reward.
///
/// A miner's script that is paid at all must get what was issued to it, scaled down by the same
/// ratio as the whole list when the template is worth less than the list. It may not get more
/// than was issued to it, scaled up by the same ratio when the template is worth more: the pool's
/// own output is what absorbs the fee, the rounding and what the split could not place. With an
/// issued data output missing, the coinbase is no split, whatever it pays.
pub fn classify_coinbase(
    cb: &Coinbase,
    pool_script: &[u8],
    issued: Option<&[Output]>,
    tolerance: u64,
) -> (kind: CoinbaseKind)
    requires
        issued_view(issued) matches Some(iss) ==> list_fits(iss),
    ensures
        kind == kind_of(cb@.outputs, pool_script@, issued_view(issued), tolerance),
{
    let (outsider, paid_pool, only) = scan_outputs(cb, pool_script, issued);
    if outsider {
        return CoinbaseKind::Foreign;
    }
    if let Some(iss) = issued {
        let ghost outs = cb@.outputs;
        let ghost v = list_view(iss@);
        let issued_value: u64 = list_total(iss);
        let actual_value: u64 = cb.total_output_value();
        let slack: u64 = tolerance.saturating_add(iss.len() as u64);
        let mut miners: u16 = 0;
        let mut present: u16 = 0;
        let mut shorted: bool = false;
        let mut i: usize = 0;
        while i < iss.len()
            invariant
                i <= iss@.len() <= u16::MAX,
                v == list_view(iss@),
                outs == cb@.outputs,
                list_value(v) <= u64::MAX,
                issued_value == list_value(v),
                actual_value == total_value(outs),
                slack == sat_add(tolerance, v.len() as u64),
                present <= miners <= i,
                miners == miner_count(v.take(i as int), pool_script@),
                present == present_count(v.take(i as int), outs, pool_script@),
                shorted == exists|j: int|
                    0 <= j < i && is_shorted(#[trigger] v[j], outs, v, pool_script@, tolerance),
                forall|j: int|
                    0 <= j < i ==> !is_overpaid(#[trigger] v[j], outs, v, pool_script@, tolerance),
                !pays_outsider(outs, pool_script@, issued_view(issued)),
                issued_view(issued) == Some(v),
            decreases iss@.len() - i,
        {
            proof {
                assert(v.take(i + 1).drop_last() =~= v.take(i as int));
                assert(v[i as int] == iss@[i as int]@);
            }
            if is_miner(&iss[i], pool_script) {
                miners = miners + 1;
                let paid: u64 = cb.paid_to(iss[i].script.as_slice());
                if paid > 0 {
                    present = present + 1;
                    if paid < least_sum(
                        iss,
                        pool_script,
                        iss[i].script.as_slice(),
                        actual_value,
                        issued_value,
                        tolerance,
                    ) {
                        shorted = true;
                    }
                    proof {
                        lemma_issued_to_bound(v, pool_script@, iss@[i as int].script@);
                    }
                    let to_script: u64 = issued_sum(iss, pool_script, iss[i].script.as_slice());
                    let most: u64 = ceiling_for(to_script, actual_value, issued_value);
                    if paid > most.saturating_add(slack) {
                        assert(is_overpaid(v[i as int], outs, v, pool_script@, tolerance));
                        return CoinbaseKind::Foreign;
                    }
                }
            }
            i = i + 1;
        }
        assert(v.take(v.len() as int) =~= v);
        if !shorted {
            if present == miners && (paid_pool || miners > 0) && !commitment_dropped(cb, iss) {
                return CoinbaseKind::Split;
            }
            if present > 0 {
                return CoinbaseKind::Partial(present);
            }
        }
    }
    if paid_pool && only {
        return CoinbaseKind::PoolOnly;
    }
    CoinbaseKind::Foreign
}

/// A coinbase that pays anyone but the pool and those it issued outputs to is foreign.
pub proof fn lemma_outsider_is_foreign(
    outs: Seq<TxOutView>,
    pool: Seq<u8>,
    issued: Option<Seq<OutputView>>,
    tolerance: u64,
    i: int,
)
    requires
        0 <= i < outs.len(),
        !is_data_script(outs[i].script),
        outs[i].script != pool,
        issued matches Some(iss) ==> !names_script(iss, outs[i].script),
    ensures
        kind_of(outs, pool, issued, tolerance) == CoinbaseKind::Foreign,
{
}

proof fn lemma_counts(iss: Seq<OutputView>, outs: Seq<TxOutView>, pool: Seq<u8>)
    ensures
        present_count(iss, outs, pool) <= miner_count(iss, pool) <= iss.len(),
        present_count(iss, outs, pool) == miner_count(iss, pool) ==> forall|i: int|
            0 <= i < iss.len() && is_miner_output(#[trigger] iss[i], pool) ==> paid_to_script(
                outs,
                iss[i].script,
            ) > 0,
    decreases iss.len(),
{
    if iss.len() > 0 {
        let w = iss.drop_last();
        lemma_counts(w, outs, pool);
        if present_count(iss, outs, pool) == miner_count(iss, pool) {
            assert forall|i: int|
                0 <= i < iss.len() && is_miner_output(#[trigger] iss[i], pool) implies paid_to_script(
                outs,
                iss[i].script,
            ) > 0 by {
                if i < w.len() {
                    assert(w[i] == iss[i]);
                }
            }
        }
    }
}

/// Whether an issued miner output is paid its due: its script gets what all outputs issued to it
/// may least be paid together, and what this one is owed up to the tolerance, and no more than was
/// issued to the script, up to tolerance and rounding.
pub open spec fn is_paid_its_due(
    o: OutputView,
    outs: Seq<TxOutView>,
    pool: Seq<u8>,
    iss: Seq<OutputView>,
    tolerance: u64,
) -> bool {
    let paid = paid_to_script(outs, o.script);
    let total = total_value(outs) as nat;
    &&& paid > 0
    &&& paid + tolerance >= owed(o.sats as nat, total, list_value(iss))
    &&& paid >= least_to(iss, pool, o.script, total, list_value(iss), tolerance)
    &&& paid <= sat_add(
        ceiling(issued_to(iss, pool, o.script), total, list_value(iss)) as u64,
        sat_add(tolerance, iss.len() as u64),
    )
}

/// A split pays every issued miner output its due, keeps every commitment, and pays nobody else.
pub proof fn lemma_split_pays_everyone(
    outs: Seq<TxOutView>,
    pool: Seq<u8>,
    iss: Seq<OutputView>,
    tolerance: u64,
)
    requires
        kind_of(outs, pool, Some(iss), tolerance) == CoinbaseKind::Split,
    ensures
        forall|i: int|
            0 <= i < iss.len() && is_miner_output(#[trigger] iss[i], pool) ==> is_paid_its_due(
                iss[i],
                outs,
                pool,
                iss,
                tolerance,
            ),
        forall|i: int|
            0 <= i < iss.len() && is_data_script((#[trigger] iss[i]).script) ==> has_output(
                outs,
                iss[i].script,
            ),
        forall|i: int|
            0 <= i < outs.len() ==> is_data_script((#[trigger] outs[i]).script) || outs[i].script
                == pool || names_script(iss, outs[i].script),
{
    lemma_counts(iss, outs, pool);
    assert forall|i: int|
        0 <= i < iss.len() && is_miner_output(#[trigger] iss[i], pool) implies is_paid_its_due(
        iss[i],
        outs,
        pool,
        iss,
        tolerance,
    ) by {
        assert(!is_shorted(iss[i], outs, iss, pool, tolerance));
        assert(!is_overpaid(iss[i], outs, iss, pool, tolerance));
        lemma_least_bound(
            iss,
            pool,
            iss[i].script,
            total_value(outs) as nat,
            list_value(iss),
            tolerance,
        );
    }
}

/// A partial coinbase pays every issued miner output that it carries its due, and nobody else but
/// the pool. Its count is that of the issued miner outputs it carries; one is missing, or a commitment
/// is.
pub proof fn lemma_partial_pays_what_it_carries(
    outs: Seq<TxOutView>,
    pool: Seq<u8>,
    iss: Seq<OutputView>,
    tolerance: u64,
    n: u16,
)
    requires
        list_fits(iss),
        kind_of(outs, pool, Some(iss), tolerance) == CoinbaseKind::Partial(n),
    ensures
        0 < n <= miner_count(iss, pool),
        n == present_count(iss, outs, pool),
        n < miner_count(iss, pool) || drops_commitment(outs, iss),
        forall|i: int|
            0 <= i < iss.len() && is_miner_output(#[trigger] iss[i], pool) ==> paid_to_script(
                outs,
                iss[i].script,
            ) == 0 || is_paid_its_due(iss[i], outs, pool, iss, tolerance),
        forall|i: int|
            0 <= i < outs.len() ==> is_data_script((#[trigger] outs[i]).script) || outs[i].script
                == pool || names_script(iss, outs[i].script),
{
    lemma_counts(iss, outs, pool);
    assert forall|i: int|
        0 <= i < iss.len() && is_miner_output(#[trigger] iss[i], pool) implies paid_to_script(
        outs,
        iss[i].script,
    ) == 0 || is_paid_its_due(iss[i], outs, pool, iss, tolerance) by {
        assert(!is_shorted(iss[i], outs, iss, pool, tolerance));
        assert(!is_overpaid(iss[i], outs, iss, pool, tolerance));
        lemma_least_bound(
            iss,
            pool,
            iss[i].script,
            total_value(outs) as nat,
            list_value(iss),
            tolerance,
        );
    }
}

/// A coinbase that counts as the pool's alone pays the pool and nobody else, so that the whole
/// split is owed.
pub proof fn lemma_pool_only_pays_the_pool(
    outs: Seq<TxOutView>,
    pool: Seq<u8>,
    issued: Option<Seq<OutputView>>,
    tolerance: u64,
)
    requires
        kind_of(outs, pool, issued, tolerance) == CoinbaseKind::PoolOnly,
    ensures
        pool_paid(outs, pool),
        forall|i: int|
            0 <= i < outs.len() ==> is_data_script((#[trigger] outs[i]).script) || outs[i].script
                == pool,
{
}

/// The outputs of a coinbase that pays an issued list verbatim.
pub open spec fn verbatim(iss: Seq<OutputView>) -> Seq<TxOutView> {
    Seq::new(iss.len(), |i: int| TxOutView { value: iss[i].sats, script: iss[i].script })
}

proof fn lemma_verbatim_value(iss: Seq<OutputView>)
    requires
        list_value(iss) <= u64::MAX,
    ensures
        total_value(verbatim(iss)) == list_value(iss),
    decreases iss.len(),
{
    if iss.len() > 0 {
        lemma_verbatim_value(iss.drop_last());
        assert(verbatim(iss).drop_last() =~= verbatim(iss.drop_last()));
    }
}

proof fn lemma_verbatim_paid(iss: Seq<OutputView>, pool: Seq<u8>, script: Seq<u8>)
    requires
        list_value(iss) <= u64::MAX,
        script != pool,
        !is_data_script(script),
    ensures
        paid_to_script(verbatim(iss), script) == issued_to(iss, pool, script),
        issued_to(iss, pool, script) <= list_value(iss),
        forall|i: int|
            0 <= i < iss.len() && (#[trigger] iss[i]).script == script ==> iss[i].sats
                <= issued_to(iss, pool, script),
    decreases iss.len(),
{
    if iss.len() > 0 {
        let w = iss.drop_last();
        lemma_verbatim_paid(w, pool, script);
        assert(verbatim(iss).drop_last() =~= verbatim(w));
        assert forall|i: int|
            0 <= i < iss.len() && (#[trigger] iss[i]).script == script implies iss[i].sats
            <= issued_to(iss, pool, script) by {
            if i < w.len() {
                assert(w[i] == iss[i]);
            }
        }
    }
}

proof fn lemma_all_present(iss: Seq<OutputView>, outs: Seq<TxOutView>, pool: Seq<u8>)
    requires
        forall|i: int|
            0 <= i < iss.len() && is_miner_output(#[trigger] iss[i], pool) ==> paid_to_script(
                outs,
                iss[i].script,
            ) > 0,
    ensures
        present_count(iss, outs, pool) == miner_count(iss, pool),
    decreases iss.len(),
{
    if iss.len() > 0 {
        let w = iss.drop_last();
        assert forall|i: int|
            0 <= i < w.len() && is_miner_output(#[trigger] w[i], pool) implies paid_to_script(
            outs,
            w[i].script,
        ) > 0 by {
            assert(w[i] == iss[i]);
        }
        lemma_all_present(w, outs, pool);
    }
}

/// A gateway that pays the list as it was issued has paid the split, whatever the tolerance.
pub proof fn lemma_verbatim_is_a_split(iss: Seq<OutputView>, pool: Seq<u8>, tolerance: u64)
    requires
        list_fits(iss),
        forall|i: int| 0 <= i < iss.len() && is_miner_output(#[trigger] iss[i], pool) ==> iss[i].sats > 0,
        exists|i: int|
            0 <= i < iss.len() && !is_data_script((#[trigger] iss[i]).script),
    ensures
        kind_of(verbatim(iss), pool, Some(iss), tolerance) == CoinbaseKind::Split,
{
    let outs = verbatim(iss);
    let total = total_value(outs) as nat;
    lemma_verbatim_value(iss);
    assert forall|i: int| 0 <= i < outs.len() implies names_script(
        iss,
        (#[trigger] outs[i]).script,
    ) by {
        assert(iss[i].script == outs[i].script);
    }
    assert(!pays_outsider(outs, pool, Some(iss)));
    assert forall|i: int| 0 <= i < iss.len() implies has_output(outs, (#[trigger] iss[i]).script) by {
        assert(outs[i].script == iss[i].script);
    }
    assert(!drops_commitment(outs, iss));
    assert forall|i: int| 0 <= i < iss.len() implies !is_shorted(
        #[trigger] iss[i],
        outs,
        iss,
        pool,
        tolerance,
    ) && !is_overpaid(iss[i], outs, iss, pool, tolerance) && (is_miner_output(iss[i], pool)
        ==> paid_to_script(outs, iss[i].script) > 0) by {
        if is_miner_output(iss[i], pool) {
            lemma_verbatim_paid(iss, pool, iss[i].script);
            lemma_least_bound(iss, pool, iss[i].script, total, list_value(iss), tolerance);
        }
    }
    lemma_all_present(iss, outs, pool);
    let k = choose|i: int| 0 <= i < iss.len() && !is_data_script((#[trigger] iss[i]).script);
    if is_miner_output(iss[k], pool) {
        lemma_has_miner(iss, pool, k);
    } else {
        assert(outs[k].script == pool);
        assert(pool_paid(outs, pool));
    }
}

/// A list's outputs, each scaled by `w / v`.
pub open spec fn scaled_list(iss: Seq<OutputView>, w: nat, v: nat) -> Seq<TxOutView> {
    Seq::new(
        iss.len(),
        |i: int| TxOutView { value: (iss[i].sats * w / v as int) as u64, script: iss[i].script },
    )
}

/// What the outputs of a list scaled by `w / v` are worth.
pub open spec fn scaled_sum(iss: Seq<OutputView>, w: nat, v: nat) -> nat
    decreases iss.len(),
{
    if iss.len() == 0 {
        0
    } else {
        scaled_sum(iss.drop_last(), w, v) + iss.last().sats as nat * w / v
    }
}

/// What they are worth to the miner's script.
spec fn scaled_to(iss: Seq<OutputView>, pool: Seq<u8>, script: Seq<u8>, w: nat, v: nat) -> nat
    decreases iss.len(),
{
    if iss.len() == 0 {
        0
    } else {
        scaled_to(iss.drop_last(), pool, script, w, v) + if is_miner_output(iss.last(), pool)
            && iss.last().script == script {
            iss.last().sats as nat * w / v
        } else {
            0
        }
    }
}

/// The outputs of a coinbase worth `value` that pays the whole list by one ratio: every output is
/// scaled and rounded down, and the last, which is the pool's, takes what is left.
pub open spec fn rescaled(iss: Seq<OutputView>, value: u64) -> Seq<TxOutView> {
    let miners = iss.drop_last();
    scaled_list(miners, value as nat, list_value(iss)).push(
        TxOutView {
            value: (value - scaled_sum(miners, value as nat, list_value(iss))) as u64,
            script: iss.last().script,
        },
    )
}

proof fn lemma_scale_step(a: nat, b: nat, s: nat, w: nat, v: nat)
    requires
        v > 0,
        a * v <= b * w,
    ensures
        (a + s * w / v) * v <= (b + s) * w,
        s * w / v <= s * w,
{
    let q = s * w / v;
    vstd::arithmetic::div_mod::lemma_fundamental_div_mod((s * w) as int, v as int);
    vstd::arithmetic::div_mod::lemma_mod_bound((s * w) as int, v as int);
    assert((a + q) * v == a * v + v * q) by (nonlinear_arith);
    assert((b + s) * w == b * w + s * w) by (nonlinear_arith);
    assert(q <= v * q) by (nonlinear_arith)
        requires
            v >= 1,
            q >= 0,
    ;
}

proof fn lemma_at_most(a: nat, b: nat, w: nat, v: nat)
    requires
        v > 0,
        a * v <= b * w,
        b <= v,
    ensures
        a <= w,
{
    assert(a <= w) by (nonlinear_arith)
        requires
            v > 0,
            a * v <= b * w,
            b <= v,
            a >= 0,
            w >= 0,
            b >= 0,
    ;
}

proof fn lemma_scaled(
    iss: Seq<OutputView>,
    pool: Seq<u8>,
    script: Seq<u8>,
    w: nat,
    v: nat,
    tolerance: u64,
)
    requires
        0 < v,
        list_value(iss) <= v,
        w <= u64::MAX,
        script != pool,
        !is_data_script(script),
    ensures
        scaled_sum(iss, w, v) * v <= list_value(iss) * w,
        scaled_sum(iss, w, v) <= w,
        total_value(scaled_list(iss, w, v)) == scaled_sum(iss, w, v),
        scaled_to(iss, pool, script, w, v) * v <= issued_to(iss, pool, script) * w,
        scaled_to(iss, pool, script, w, v) <= scaled_sum(iss, w, v),
        paid_to_script(scaled_list(iss, w, v), script) == scaled_to(iss, pool, script, w, v),
        least_to(iss, pool, script, w, v, tolerance) <= scaled_to(iss, pool, script, w, v),
        forall|i: int|
            0 <= i < iss.len() && (#[trigger] iss[i]).script == script ==> iss[i].sats as nat * w
                / v <= scaled_to(iss, pool, script, w, v),
    decreases iss.len(),
{
    if iss.len() > 0 {
        let u = iss.drop_last();
        let s = iss.last().sats as nat;
        let q = s * w / v;
        lemma_scaled(u, pool, script, w, v, tolerance);
        lemma_scale_step(scaled_sum(u, w, v), list_value(u), s, w, v);
        lemma_scale_step(scaled_to(u, pool, script, w, v), issued_to(u, pool, script), s, w, v);
        lemma_at_most(scaled_sum(iss, w, v), list_value(iss), w, v);
        assert(scaled_list(iss, w, v).drop_last() =~= scaled_list(u, w, v));
        assert(scaled_list(iss, w, v).last().value == q);
        assert(scaled_list(iss, w, v).last().script == iss.last().script);
        if w >= v {
            assert(q >= s) by (nonlinear_arith)
                requires
                    q == s * w / v,
                    w >= v,
                    v > 0,
                    s >= 0,
            ;
        }
        assert forall|i: int|
            0 <= i < iss.len() && (#[trigger] iss[i]).script == script implies iss[i].sats as nat
            * w / v <= scaled_to(iss, pool, script, w, v) by {
            if i < u.len() {
                assert(u[i] == iss[i]);
            }
        }
    } else {
        assert(scaled_sum(iss, w, v) * v == 0) by (nonlinear_arith)
            requires
                scaled_sum(iss, w, v) == 0,
        ;
        assert(scaled_to(iss, pool, script, w, v) * v == 0) by (nonlinear_arith)
            requires
                scaled_to(iss, pool, script, w, v) == 0,
        ;
        assert(list_value(iss) * w >= 0 && issued_to(iss, pool, script) * w >= 0)
            by (nonlinear_arith);
    }
}

/// A gateway whose template is worth more or less than the list, and that rescales the whole of it
/// by one ratio, has paid the split, whatever the tolerance.
pub proof fn lemma_rescaled_is_a_split(
    iss: Seq<OutputView>,
    pool: Seq<u8>,
    value: u64,
    tolerance: u64,
)
    requires
        list_fits(iss),
        list_value(iss) > 0,
        iss.last().script == pool,
        exists|i: int|
            0 <= i < iss.len() && !is_data_script((#[trigger] iss[i]).script),
        forall|i: int|
            0 <= i < iss.len() && is_miner_output(#[trigger] iss[i], pool) ==> iss[i].sats as nat
                * value as nat / list_value(iss) > 0,
    ensures
        total_value(rescaled(iss, value)) == value,
        kind_of(rescaled(iss, value), pool, Some(iss), tolerance) == CoinbaseKind::Split,
{
    let w = value as nat;
    let v = list_value(iss);
    let u = iss.drop_last();
    let outs = rescaled(iss, value);
    let some: Seq<u8> = if pool == seq![1u8] {
        seq![2u8]
    } else {
        seq![1u8]
    };
    assert(seq![1u8][0] != seq![2u8][0]);
    lemma_scaled(u, pool, some, w, v, tolerance);
    assert(outs.drop_last() =~= scaled_list(u, w, v));
    assert forall|i: int| 0 <= i < outs.len() implies (#[trigger] outs[i]).script
        == iss[i].script by {
        if i < u.len() {
            assert(u[i] == iss[i]);
        }
    }
    assert forall|i: int| 0 <= i < outs.len() implies names_script(
        iss,
        (#[trigger] outs[i]).script,
    ) by {
        assert(iss[i].script == outs[i].script);
    }
    assert(!pays_outsider(outs, pool, Some(iss)));
    assert forall|i: int| 0 <= i < iss.len() implies has_output(outs, (#[trigger] iss[i]).script) by {
        assert(outs[i].script == iss[i].script);
    }
    assert(!drops_commitment(outs, iss));
    assert forall|i: int| 0 <= i < iss.len() implies !is_shorted(
        #[trigger] iss[i],
        outs,
        iss,
        pool,
        tolerance,
    ) && !is_overpaid(iss[i], outs, iss, pool, tolerance) && (is_miner_output(iss[i], pool)
        ==> paid_to_script(outs, iss[i].script) > 0) by {
        if is_miner_output(iss[i], pool) {
            let script = iss[i].script;
            lemma_scaled(u, pool, script, w, v, tolerance);
            let paid = scaled_to(u, pool, script, w, v);
            let to = issued_to(iss, pool, script);
            assert(u[i] == iss[i]);
            assert(paid_to_script(outs, script) == paid);
            assert(paid * v <= to * w);
            lemma_issued_to_bound(iss, pool, script);
            lemma_least_bound(iss, pool, script, w, v, tolerance);
            if w <= v {
                assert(paid <= to) by (nonlinear_arith)
                    requires
                        paid * v <= to * w,
                        w <= v,
                        v > 0,
                        to >= 0,
                ;
            } else {
                assert(paid <= to * w / v) by (nonlinear_arith)
                    requires
                        paid * v <= to * w,
                        v > 0,
                        paid >= 0,
                ;
                assert(to * w / v <= w) by (nonlinear_arith)
                    requires
                        to <= v,
                        v > 0,
                        w >= 0,
                ;
            }
        }
    }
    lemma_all_present(iss, outs, pool);
    let k = choose|i: int| 0 <= i < iss.len() && !is_data_script((#[trigger] iss[i]).script);
    if is_miner_output(iss[k], pool) {
        lemma_has_miner(iss, pool, k);
    } else {
        assert(outs[k].script == pool);
        assert(pool_paid(outs, pool));
    }
}

proof fn lemma_has_miner(iss: Seq<OutputView>, pool: Seq<u8>, k: int)
    requires
        0 <= k < iss.len(),
        is_miner_output(iss[k], pool),
    ensures
        miner_count(iss, pool) > 0,
    decreases iss.len(),
{
    if k < iss.len() - 1 {
        lemma_has_miner(iss.drop_last(), pool, k);
    }
}

/// What is issued to a miner's script is what the outputs that name it come to.
pub proof fn lemma_issued_to(iss: Seq<OutputView>, pool: Seq<u8>, script: Seq<u8>)
    requires
        script != pool,
        !(script.len() > 0 && script[0] == 0x6a),
    ensures
        issued_to(iss, pool, script) == list_value(iss.filter(|o: OutputView| o.script == script)),
    decreases iss.len(),
{
    reveal(Seq::filter);
    let f = |o: OutputView| o.script == script;
    if iss.len() > 0 {
        lemma_issued_to(iss.drop_last(), pool, script);
        let r = iss.drop_last().filter(f);
        assert(r.push(iss.last()).drop_last() =~= r);
    }
}

/// The miner outputs of a list are those that neither carry data nor pay the pool, and those
/// present are the ones of them whose scripts get anything.
pub proof fn lemma_miner_counts(iss: Seq<OutputView>, outs: Seq<TxOutView>, pool: Seq<u8>)
    ensures
        miner_count(iss, pool) == iss.filter(
            |o: OutputView| o.script != pool && !(o.script.len() > 0 && o.script[0] == 0x6a),
        ).len(),
        present_count(iss, outs, pool) == iss.filter(
            |o: OutputView|
                o.script != pool && !(o.script.len() > 0 && o.script[0] == 0x6a)
                    && paid_to_script(outs, o.script) > 0,
        ).len(),
    decreases iss.len(),
{
    reveal(Seq::filter);
    if iss.len() > 0 {
        lemma_miner_counts(iss.drop_last(), outs, pool);
    }
}

proof fn lemma_named_once(
    iss: Seq<OutputView>,
    pool: Seq<u8>,
    script: Seq<u8>,
    i: int,
    actual: nat,
    issued: nat,
    tolerance: u64,
)
    requires
        script != pool,
        !is_data_script(script),
        forall|j: int| 0 <= j < iss.len() && (#[trigger] iss[j]).script == script ==> j == i,
    ensures
        0 <= i < iss.len() && iss[i].script == script ==> issued_to(iss, pool, script)
            == iss[i].sats && least_to(iss, pool, script, actual, issued, tolerance) == least(
            iss[i].sats as nat,
            actual,
            issued,
            tolerance,
        ),
        !(0 <= i < iss.len() && iss[i].script == script) ==> issued_to(iss, pool, script) == 0
            && least_to(iss, pool, script, actual, issued, tolerance) == 0,
    decreases iss.len(),
{
    if iss.len() > 0 {
        let r = iss.drop_last();
        let n = iss.len() - 1;
        assert(iss[n] == iss.last());
        assert forall|j: int| 0 <= j < r.len() && (#[trigger] r[j]).script == script implies j
            == i by {
            assert(iss[j] == r[j]);
        }
        lemma_named_once(r, pool, script, i, actual, issued, tolerance);
        if 0 <= i < n {
            assert(r[i] == iss[i]);
        }
    }
}

/// What a coinbase must pay a miner that the list names once. A coinbase that counts as the split,
/// or as a part of it that pays the miner anything, pays it what was issued, or its proportion of a
/// template worth less than the list, up to the tolerance; and no more than what was issued, or its
/// proportion of a template worth more, up to the tolerance and a satoshi for each output of the
/// list. A split pays every miner.
pub proof fn lemma_what_a_miner_is_paid(
    outs: Seq<TxOutView>,
    pool: Seq<u8>,
    iss: Seq<OutputView>,
    tolerance: u64,
    i: int,
)
    requires
        list_fits(iss),
        0 <= i < iss.len(),
        iss[i].script != pool,
        !(iss[i].script.len() > 0 && iss[i].script[0] == 0x6a),
        forall|j: int| 0 <= j < iss.len() && (#[trigger] iss[j]).script == iss[i].script ==> j == i,
        tolerance + iss.len() <= u64::MAX,
    ensures
        ({
            let paid = paid_to_script(outs, iss[i].script) as int;
            let kind = kind_of(outs, pool, Some(iss), tolerance);
            let sats = iss[i].sats as int;
            let total = total_value(outs) as int;
            let list = list_value(iss) as int;
            &&& kind == CoinbaseKind::Split ==> paid > 0
            &&& (kind is Split || kind is Partial) && paid > 0 && total >= list ==> paid
                + tolerance >= sats
            &&& (kind is Split || kind is Partial) && paid > 0 && total < list ==> (paid + tolerance
                + 1) * list > sats * total
            &&& (kind is Split || kind is Partial) && total <= list ==> paid <= sats + tolerance
                + iss.len()
            &&& (kind is Split || kind is Partial) && total > list && list > 0 && sats * total
                / list + tolerance + iss.len() <= u64::MAX ==> (paid - tolerance - iss.len()) * list
                <= sats * total
        }),
{
    let o = iss[i];
    let paid = paid_to_script(outs, o.script) as int;
    let kind = kind_of(outs, pool, Some(iss), tolerance);
    let sats = o.sats as int;
    let total = total_value(outs) as int;
    let list = list_value(iss) as int;
    lemma_named_once(iss, pool, o.script, i, total as nat, list as nat, tolerance);
    lemma_counts(iss, outs, pool);
    if (kind is Split || kind is Partial) && paid > 0 {
        assert(!is_shorted(iss[i], outs, iss, pool, tolerance));
        assert(!is_overpaid(iss[i], outs, iss, pool, tolerance));
        if list > 0 {
            let x = sats * total;
            assert(o.sats as nat * total as nat == x);
            vstd::arithmetic::div_mod::lemma_fundamental_div_mod(x, list);
            vstd::arithmetic::div_mod::lemma_mod_bound(x, list);
            let q = x / list;
            assert(list * q == q * list) by (nonlinear_arith);
            assert((q + 1) * list == q * list + list) by (nonlinear_arith);
            if total < list {
                assert(paid + tolerance >= q);
                assert((paid + tolerance + 1) * list >= (q + 1) * list) by (nonlinear_arith)
                    requires
                        paid + tolerance >= q,
                        list > 0,
                ;
            }
            if total > list && q + tolerance + iss.len() <= u64::MAX {
                lemma_issued_to_bound(iss, pool, o.script);
                assert(q >= 0) by (nonlinear_arith)
                    requires
                        x == list * q + x % list,
                        x % list < list,
                        x >= 0,
                        list > 0,
                ;
                assert(paid <= q + tolerance + iss.len());
                let n = iss.len() as int;
                assert((paid - tolerance - n) * list <= q * list) by (nonlinear_arith)
                    requires
                        paid - tolerance - n <= q,
                        list > 0,
                ;
            }
        }
    }
    if paid == 0 && list > 0 && total > list {
        let n = iss.len() as int;
        assert((paid - tolerance - n) * list <= 0) by (nonlinear_arith)
            requires
                paid == 0,
                tolerance >= 0,
                n >= 0,
                list > 0,
        ;
        assert(sats * total >= 0) by (nonlinear_arith)
            requires
                sats >= 0,
                total >= 0,
        ;
    }
}

/// A coinbase that carries some of the issued miner outputs, each with exactly what was issued, and
/// leaves the rest of the list's value to the pool, is that part of the split; its count is how many
/// it carries.
pub proof fn lemma_some_paid_is_partial(
    outs: Seq<TxOutView>,
    pool: Seq<u8>,
    iss: Seq<OutputView>,
    tolerance: u64,
    paid: int,
    unpaid: int,
)
    requires
        list_fits(iss),
        total_value(outs) == list_value(iss),
        forall|j: int|
            0 <= j < outs.len() ==> is_data_script((#[trigger] outs[j]).script) || outs[j].script
                == pool || names_script(iss, outs[j].script),
        forall|j: int|
            0 <= j < iss.len() && is_miner_output(#[trigger] iss[j], pool) ==> paid_to_script(
                outs,
                iss[j].script,
            ) == 0 || paid_to_script(outs, iss[j].script) == list_value(
                iss.filter(|o: OutputView| o.script == iss[j].script),
            ),
        0 <= paid < iss.len(),
        is_miner_output(iss[paid], pool),
        paid_to_script(outs, iss[paid].script) > 0,
        0 <= unpaid < iss.len(),
        is_miner_output(iss[unpaid], pool),
        paid_to_script(outs, iss[unpaid].script) == 0,
    ensures
        kind_of(outs, pool, Some(iss), tolerance) == CoinbaseKind::Partial(
            iss.filter(
                |o: OutputView|
                    o.script != pool && !(o.script.len() > 0 && o.script[0] == 0x6a)
                        && paid_to_script(outs, o.script) > 0,
            ).len() as u16,
        ),
{
    lemma_counts(iss, outs, pool);
    lemma_miner_counts(iss, outs, pool);
    lemma_someone_present(iss, outs, pool, paid);
    let total = total_value(outs) as nat;
    assert forall|j: int| 0 <= j < iss.len() implies !is_shorted(
        #[trigger] iss[j],
        outs,
        iss,
        pool,
        tolerance,
    ) && !is_overpaid(iss[j], outs, iss, pool, tolerance) by {
        if is_miner_output(iss[j], pool) {
            lemma_issued_to(iss, pool, iss[j].script);
            lemma_issued_to_bound(iss, pool, iss[j].script);
            lemma_least_bound(iss, pool, iss[j].script, total, list_value(iss), tolerance);
        }
    }
    assert(!pays_outsider(outs, pool, Some(iss)));
}

proof fn lemma_someone_present(
    iss: Seq<OutputView>,
    outs: Seq<TxOutView>,
    pool: Seq<u8>,
    k: int,
)
    requires
        0 <= k < iss.len(),
        is_miner_output(iss[k], pool),
        paid_to_script(outs, iss[k].script) > 0,
    ensures
        present_count(iss, outs, pool) > 0,
    decreases iss.len(),
{
    if k < iss.len() - 1 {
        assert(iss.drop_last()[k] == iss[k]);
        lemma_someone_present(iss.drop_last(), outs, pool, k);
    }
}

proof fn lemma_nobody_present(iss: Seq<OutputView>, outs: Seq<TxOutView>, pool: Seq<u8>)
    requires
        forall|j: int|
            0 <= j < iss.len() && is_miner_output(#[trigger] iss[j], pool) ==> paid_to_script(
                outs,
                iss[j].script,
            ) == 0,
    ensures
        present_count(iss, outs, pool) == 0,
    decreases iss.len(),
{
    if iss.len() > 0 {
        let r = iss.drop_last();
        assert forall|j: int| 0 <= j < r.len() && is_miner_output(#[trigger] r[j], pool) implies paid_to_script(
            outs,
            r[j].script,
        ) == 0 by {
            assert(r[j] == iss[j]);
        }
        lemma_nobody_present(r, outs, pool);
        assert(iss[iss.len() - 1] == iss.last());
    }
}

/// A coinbase that pays the pool, and beside that only carries data, is the pool's alone: where no
/// list is known, and where the list names a miner.
pub proof fn lemma_pool_alone_is_pool_only(
    outs: Seq<TxOutView>,
    pool: Seq<u8>,
    issued: Option<Seq<OutputView>>,
    tolerance: u64,
    k: int,
    miner: int,
)
    requires
        0 <= k < outs.len(),
        outs[k].script == pool,
        !is_data_script(pool),
        forall|j: int|
            0 <= j < outs.len() ==> is_data_script((#[trigger] outs[j]).script) || outs[j].script
                == pool,
        issued matches Some(iss) ==> 0 <= miner < iss.len() && is_miner_output(iss[miner], pool),
    ensures
        kind_of(outs, pool, issued, tolerance) == CoinbaseKind::PoolOnly,
{
    assert(pool_paid(outs, pool));
    if let Some(iss) = issued {
        assert forall|j: int|
            0 <= j < iss.len() && is_miner_output(#[trigger] iss[j], pool) implies paid_to_script(
            outs,
            iss[j].script,
        ) == 0 by {
            crate::coinbase::lemma_paid_is_part_of_the_value(outs, iss[j].script);
        }
        lemma_nobody_present(iss, outs, pool);
        lemma_has_miner(iss, pool, miner);
        assert(!any_shorted(outs, iss, pool, tolerance));
        assert(!any_overpaid(outs, iss, pool, tolerance));
    }
}

proof fn lemma_least_of_one(
    iss: Seq<OutputView>,
    pool: Seq<u8>,
    script: Seq<u8>,
    actual: nat,
    issued: nat,
    tolerance: u64,
    i: int,
)
    requires
        0 <= i < iss.len(),
        iss[i].script == script,
        is_miner_output(iss[i], pool),
    ensures
        least_to(iss, pool, script, actual, issued, tolerance) >= least(
            iss[i].sats as nat,
            actual,
            issued,
            tolerance,
        ),
    decreases iss.len(),
{
    if i < iss.len() - 1 {
        assert(iss.drop_last()[i] == iss[i]);
        lemma_least_of_one(iss.drop_last(), pool, script, actual, issued, tolerance, i);
    }
}

proof fn lemma_least_of_two(
    iss: Seq<OutputView>,
    pool: Seq<u8>,
    script: Seq<u8>,
    actual: nat,
    issued: nat,
    tolerance: u64,
    i: int,
    j: int,
)
    requires
        0 <= i < j < iss.len(),
        iss[i].script == script,
        iss[j].script == script,
        is_miner_output(iss[i], pool),
    ensures
        least_to(iss, pool, script, actual, issued, tolerance) >= least(
            iss[i].sats as nat,
            actual,
            issued,
            tolerance,
        ) + least(iss[j].sats as nat, actual, issued, tolerance),
    decreases iss.len(),
{
    let r = iss.drop_last();
    assert(r[i] == iss[i]);
    if j < iss.len() - 1 {
        assert(r[j] == iss[j]);
        lemma_least_of_two(r, pool, script, actual, issued, tolerance, i, j);
    } else {
        lemma_least_of_one(r, pool, script, actual, issued, tolerance, i);
    }
}

/// The tolerance is for each output by itself: a script with two outputs of a list that is paid its
/// worth gets what both are issued for, each less the tolerance; what the smaller does not need of
/// it covers nothing of the larger.
pub proof fn lemma_tolerance_is_per_output(
    outs: Seq<TxOutView>,
    pool: Seq<u8>,
    iss: Seq<OutputView>,
    tolerance: u64,
    i: int,
    j: int,
)
    requires
        0 <= i < j < iss.len(),
        iss[i].script == iss[j].script,
        iss[i].script != pool,
        !(iss[i].script.len() > 0 && iss[i].script[0] == 0x6a),
        total_value(outs) >= list_value(iss),
        paid_to_script(outs, iss[i].script) > 0,
        kind_of(outs, pool, Some(iss), tolerance) is Split || kind_of(
            outs,
            pool,
            Some(iss),
            tolerance,
        ) is Partial,
    ensures
        ({
            let paid = paid_to_script(outs, iss[i].script) as int;
            let a = iss[i].sats - tolerance;
            let b = iss[j].sats - tolerance;
            &&& paid >= a && paid >= b
            &&& a >= 0 && b >= 0 ==> paid >= a + b
        }),
{
    let total = total_value(outs) as nat;
    assert(!is_shorted(iss[i], outs, iss, pool, tolerance));
    lemma_least_of_two(iss, pool, iss[i].script, total, list_value(iss), tolerance, i, j);
}

proof fn lemma_nothing_to(outs: Seq<TxOutView>, script: Seq<u8>)
    requires
        forall|i: int| 0 <= i < outs.len() ==> (#[trigger] outs[i]).script != script,
    ensures
        paid_to_script(outs, script) == 0,
    decreases outs.len(),
{
    if outs.len() > 0 {
        let r = outs.drop_last();
        assert forall|i: int| 0 <= i < r.len() implies (#[trigger] r[i]).script != script by {
            assert(r[i] == outs[i]);
        }
        lemma_nothing_to(r, script);
        assert(outs[outs.len() - 1].script != script);
    }
}

proof fn lemma_none_present(iss: Seq<OutputView>, outs: Seq<TxOutView>, pool: Seq<u8>)
    requires
        forall|i: int| 0 <= i < outs.len() ==> is_data_script((#[trigger] outs[i]).script),
    ensures
        present_count(iss, outs, pool) == 0,
        forall|i: int|
            0 <= i < iss.len() && is_miner_output(#[trigger] iss[i], pool) ==> paid_to_script(
                outs,
                iss[i].script,
            ) == 0,
    decreases iss.len(),
{
    if iss.len() > 0 {
        let r = iss.drop_last();
        lemma_none_present(r, outs, pool);
        if is_miner_output(iss.last(), pool) {
            lemma_nothing_to(outs, iss.last().script);
        }
        assert forall|i: int| 0 <= i < iss.len() && is_miner_output(#[trigger] iss[i], pool) implies
            paid_to_script(outs, iss[i].script) == 0 by {
            if i < r.len() {
                assert(r[i] == iss[i]);
            }
        }
    }
}

/// A coinbase that pays nobody, with nothing but data in its outputs, is foreign, whatever was
/// issued.
pub proof fn lemma_data_alone_is_foreign(
    outs: Seq<TxOutView>,
    pool: Seq<u8>,
    issued: Option<Seq<OutputView>>,
    tolerance: u64,
)
    requires
        forall|i: int|
            0 <= i < outs.len() ==> (#[trigger] outs[i]).script.len() > 0 && outs[i].script[0]
                == 0x6a,
    ensures
        kind_of(outs, pool, issued, tolerance) is Foreign,
{
    assert forall|i: int| 0 <= i < outs.len() implies is_data_script(
        (#[trigger] outs[i]).script,
    ) by {}
    if let Some(iss) = issued {
        lemma_none_present(iss, outs, pool);
    }
}

} // verus!
