//! The window snapshot a coinbase commits to.
//!
//! Every coinbaser is computed from a window state. That state is written as canonical JSON of
//! integers and texts, hashed with BLAKE2b-256, and the hash is committed in an `OP_RETURN`
//! output, so that anyone can recompute the split.

use crate::address::Network;
use crate::base16::{hex_of, lemma_hex_pinned, to_hex};
use crate::bytes::push_bytes;
use crate::coinbase::OP_RETURN;
use crate::digest::{blake2b256, blake2b256_of};
use crate::json::{
    all_texts, array, array_text, canonical_bytes, empty_object, json_quoted, json_text, object,
    object_text, put, Json,
};
use crate::names::NameMap;
use crate::pow::Hash32;
use crate::reading::{
    has_values, is_value, lemma_array_faithful, lemma_array_is_value, lemma_decimal_faithful,
    lemma_decimal_is_value, lemma_object_faithful, lemma_object_is_value, lemma_quoted_faithful,
    lemma_quoted_is_value,
};
use crate::split::{
    after_fee, amounts_view, carried_split_of, choose_all, fee_weights, floor_of, identities_of,
    names_of, place_all, scripts_for, ParamsView, Payee, PayeeView, Split, SplitView, UnpaidReason,
};
use crate::text::{
    decimal_of, lemma_text_before_total, lemma_text_before_trans, text_before, text_eq, text_less,
    texts_view,
};
use crate::tides::{
    lemma_sorted_same, listed_before, miners_view, MinerStat, MinerView, WindowView,
};
use vstd::prelude::*;
use vstd::utf8::{encode_utf8, encode_utf8_decode_utf8};

verus! {

/// Version of the snapshot's form.
pub const VERSION: u32 = 2;

/// Seconds a snapshot is kept that no block commits to.
pub const KEEP_SECS: u64 = 172_800;

/// A window state and its hash.
#[derive(Clone, Debug, PartialEq, Eq)]
pub struct Snapshot {
    pub hash: [u8; 32],
    pub canonical: Vec<u8>,
}

/// The script that carries a commitment: one push of the tag and the hash, whose length is
/// written as one byte.
pub open spec fn commitment_script(tag: Seq<u8>, hash: Seq<u8>) -> Seq<u8> {
    seq![OP_RETURN, ((tag.len() + hash.len()) % 256) as u8] + tag + hash
}

impl Snapshot {
    /// The hash in hexadecimal.
    pub fn hex(&self) -> (s: String)
        ensures
            s@ == hex_of(self.hash@),
    {
        to_hex(self.hash.as_slice())
    }

    /// The script that commits to the snapshot: `OP_RETURN` and one push of the tag's bytes and
    /// the hash. Up to 43 bytes of tag the length byte is itself the push opcode.
    pub fn op_return(&self, tag: &str) -> (s: Vec<u8>)
        ensures
            s@ == commitment_script(encode_utf8(tag@), self.hash@),
            s@.len() == 2 + encode_utf8(tag@).len() + 32,
    {
        let bytes: &[u8] = tag.as_bytes();
        let mut s: Vec<u8> = Vec::new();
        s.push(OP_RETURN);
        let n: u8 = ((bytes.len() % 256 + 32) % 256) as u8;
        s.push(n);
        proof {
            let len = bytes@.len() as int;
            assert((len % 256 + 32) % 256 == (len + 32) % 256);
            assert(s@ =~= seq![OP_RETURN, n]);
        }
        push_bytes(&mut s, bytes);
        push_bytes(&mut s, self.hash.as_slice());
        s
    }
}

/// The rule by which a snapshot's split is recomputed.
pub open spec fn rule_text() -> Seq<char> {
    "sats_i = value * work_i * (10000 - bps_i) / total_work / 10000 (floor) where bps_i = fee_overrides[identity] if present, else stratum_fee_bps for stratum_work and fee_bps for the rest; payees largest work first; carry paid from the remainder above the fee, by identity name; pool = value - sum(paid)"@
}

fn rule() -> (s: &'static str)
    ensures
        s@ == rule_text(),
{
    "sats_i = value * work_i * (10000 - bps_i) / total_work / 10000 (floor) where bps_i = fee_overrides[identity] if present, else stratum_fee_bps for stratum_work and fee_bps for the rest; payees largest work first; carry paid from the remainder above the fee, by identity name; pool = value - sum(paid)"
}

/// The name of a reason.
pub open spec fn reason_text(r: UnpaidReason) -> Seq<char> {
    match r {
        UnpaidReason::BelowMinimum => "BelowMinimum"@,
        UnpaidReason::NoScript => "NoScript"@,
        UnpaidReason::BelowCut => "BelowCut"@,
    }
}

/// The name of a reason.
pub fn reason_name(r: UnpaidReason) -> (s: &'static str)
    ensures
        s@ == reason_text(r),
{
    match r {
        UnpaidReason::BelowMinimum => "BelowMinimum",
        UnpaidReason::NoScript => "NoScript",
        UnpaidReason::BelowCut => "BelowCut",
    }
}

/// The place of an identity in a list by name: after all that do not come after it.
pub open spec fn name_place(v: Seq<MinerView>, identity: Seq<char>) -> nat
    decreases v.len(),
{
    if v.len() == 0 || text_before(identity, v[0].identity) {
        0
    } else {
        1 + name_place(v.drop_first(), identity)
    }
}

/// Miners by name.
pub open spec fn by_name(v: Seq<MinerView>) -> Seq<MinerView>
    decreases v.len(),
{
    if v.len() == 0 {
        Seq::empty()
    } else {
        let before = by_name(v.drop_last());
        before.insert(name_place(before, v.last().identity) as int, v.last())
    }
}

/// No members.
pub open spec fn no_members() -> Map<Seq<char>, Seq<char>> {
    Map::empty()
}

/// A number as a member.
pub open spec fn num(n: nat) -> Seq<char> {
    decimal_of(n)
}

/// The text of one identity's work.
pub open spec fn miner_text(m: MinerView) -> Seq<char> {
    object_text(
        no_members().insert("identity"@, json_quoted(m.identity)).insert(
            "work"@,
            num(m.work as nat),
        ).insert("stratum_work"@, num(m.stratum_work as nat)),
    )
}

/// The text of a named amount.
pub open spec fn amount_text(a: (Seq<char>, u64)) -> Seq<char> {
    object_text(
        no_members().insert("identity"@, json_quoted(a.0)).insert("sats"@, num(a.1 as nat)),
    )
}

/// The text of one identity's fee.
pub open spec fn override_text(a: (Seq<char>, u32)) -> Seq<char> {
    object_text(
        no_members().insert("identity"@, json_quoted(a.0)).insert("fee_bps"@, num(a.1 as nat)),
    )
}

/// The text of a payee.
pub open spec fn payee_text(p: PayeeView) -> Seq<char> {
    object_text(
        no_members().insert("identity"@, json_quoted(p.identity)).insert(
            "work"@,
            num(p.work as nat),
        ).insert("sats"@, num(p.sats as nat)).insert("script"@, json_quoted(hex_of(p.script))),
    )
}

/// The text of an unpaid entry.
pub open spec fn unpaid_text(u: (Seq<char>, u64, UnpaidReason)) -> Seq<char> {
    object_text(
        no_members().insert("identity"@, json_quoted(u.0)).insert("sats"@, num(u.1 as nat)).insert(
            "reason"@,
            json_quoted(reason_text(u.2)),
        ),
    )
}

/// The text of the parameters.
pub open spec fn params_text(
    fee_bps: u32,
    stratum_fee_bps: u32,
    min_payout: u64,
    max_outputs: usize,
    output_budget_bytes: usize,
    max_payees: usize,
    overrides: Seq<(Seq<char>, u32)>,
) -> Seq<char> {
    object_text(
        no_members().insert("fee_bps"@, num(fee_bps as nat)).insert(
            "stratum_fee_bps"@,
            num(stratum_fee_bps as nat),
        ).insert("min_payout"@, num(min_payout as nat)).insert(
            "max_outputs"@,
            num(max_outputs as nat),
        ).insert("output_budget_bytes"@, num(output_budget_bytes as nat)).insert(
            "max_payees"@,
            num(max_payees as nat),
        ).insert(
            "fee_overrides"@,
            array_text(Seq::new(overrides.len(), |i: int| override_text(overrides[i]))),
        ).insert("rule"@, json_quoted(rule_text())),
    )
}

/// The text of the window.
pub open spec fn window_text(target: u64, total: u64, miners: Seq<MinerView>) -> Seq<char> {
    let v = by_name(miners);
    object_text(
        no_members().insert("target_work"@, num(target as nat)).insert(
            "total_work"@,
            num(total as nat),
        ).insert("identities"@, array_text(Seq::new(v.len(), |i: int| miner_text(v[i])))),
    )
}

/// The text of named amounts.
pub open spec fn amounts_text(v: Seq<(Seq<char>, u64)>) -> Seq<char> {
    array_text(Seq::new(v.len(), |i: int| amount_text(v[i])))
}

/// The text of a split.
pub open spec fn split_text(s: SplitView) -> Seq<char> {
    object_text(
        no_members().insert("fee_sats"@, num(s.fee_sats as nat)).insert(
            "payees"@,
            array_text(Seq::new(s.payees.len(), |i: int| payee_text(s.payees[i]))),
        ).insert("carry_paid"@, amounts_text(s.carry_paid)).insert(
            "unpaid"@,
            array_text(Seq::new(s.unpaid.len(), |i: int| unpaid_text(s.unpaid[i]))),
        ).insert("pool_sats"@, num(s.pool_sats as nat)),
    )
}

/// The text of a snapshot, of the texts of its parts.
pub open spec fn snapshot_text(
    tag: Seq<char>,
    height: u32,
    prev_hash_display_hex: Seq<char>,
    ts: u64,
    value: u64,
    params: Seq<char>,
    window: Seq<char>,
    carry: Seq<char>,
    split: Seq<char>,
) -> Seq<char> {
    object_text(
        no_members().insert("v"@, num(VERSION as nat)).insert("tag"@, json_quoted(tag)).insert(
            "height"@,
            num(height as nat),
        ).insert("prevhash"@, json_quoted(prev_hash_display_hex)).insert(
            "ts"@,
            num(ts as nat),
        ).insert("coinbase_value"@, num(value as nat)).insert("params"@, params).insert(
            "window"@,
            window,
        ).insert("carry"@, carry).insert("split"@, split),
    )
}

fn text_json(s: &str) -> (j: Json)
    ensures
        json_text(j) == json_quoted(s@),
{
    Json::Text(s.to_owned())
}

fn number_json(n: u64) -> (j: Json)
    ensures
        json_text(j) == num(n as nat),
{
    Json::Number(n)
}

fn amount_json(name: &str, sats: u64) -> (j: Json)
    ensures
        json_text(j) == amount_text((name@, sats)),
{
    let mut m: NameMap<Json> = empty_object();
    put(&mut m, "identity", text_json(name));
    put(&mut m, "sats", number_json(sats));
    object(m)
}

fn miner_json(x: &MinerStat) -> (j: Json)
    ensures
        json_text(j) == miner_text(x@),
{
    let mut m: NameMap<Json> = empty_object();
    put(&mut m, "identity", text_json(x.identity.as_str()));
    put(&mut m, "work", number_json(x.work));
    put(&mut m, "stratum_work", number_json(x.stratum_work));
    object(m)
}

fn payee_json(x: &Payee) -> (j: Json)
    ensures
        json_text(j) == payee_text(x@),
{
    let mut m: NameMap<Json> = empty_object();
    put(&mut m, "identity", text_json(x.identity.as_str()));
    put(&mut m, "work", number_json(x.work));
    put(&mut m, "sats", number_json(x.sats));
    put(&mut m, "script", text_json(to_hex(x.script.as_slice()).as_str()));
    object(m)
}

fn unpaid_json(x: &(String, u64, UnpaidReason)) -> (j: Json)
    ensures
        json_text(j) == unpaid_text((x.0@, x.1, x.2)),
{
    let mut m: NameMap<Json> = empty_object();
    put(&mut m, "identity", text_json(x.0.as_str()));
    put(&mut m, "sats", number_json(x.1));
    put(&mut m, "reason", text_json(reason_name(x.2)));
    object(m)
}

fn amounts_json(v: &Vec<(String, u64)>) -> (j: Json)
    ensures
        json_text(j) == amounts_text(amounts_view(v@)),
{
    let mut out: Vec<Json> = Vec::new();
    let mut i: usize = 0;
    while i < v.len()
        invariant
            i <= v@.len(),
            out@.len() == i,
            forall|k: int| 0 <= k < i ==> json_text(#[trigger] out@[k]) == amount_text((v@[k].0@, v@[k].1)),
        decreases v@.len() - i,
    {
        out.push(amount_json(v[i].0.as_str(), v[i].1));
        i = i + 1;
    }
    proof {
        let a = amounts_view(v@);
        assert(all_texts(out@) =~= Seq::new(a.len(), |k: int| amount_text(a[k])));
    }
    array(out)
}

fn map_amounts_json(v: &NameMap<u64>) -> (j: Json)
    ensures
        json_text(j) == amounts_text(v.rows()),
{
    let mut out: Vec<Json> = Vec::new();
    let mut i: usize = 0;
    let n: usize = v.len();
    while i < n
        invariant
            i <= n == v.rows().len(),
            out@.len() == i,
            forall|k: int| 0 <= k < i ==> json_text(#[trigger] out@[k]) == amount_text(v.rows()[k]),
        decreases n - i,
    {
        out.push(amount_json(v.name_at(i), v.value_at(i)));
        i = i + 1;
    }
    proof {
        let a = v.rows();
        assert(all_texts(out@) =~= Seq::new(a.len(), |k: int| amount_text(a[k])));
    }
    array(out)
}

fn overrides_json(v: &NameMap<u32>) -> (j: Json)
    ensures
        json_text(j) == array_text(
            Seq::new(v.rows().len(), |i: int| override_text(v.rows()[i])),
        ),
{
    let mut out: Vec<Json> = Vec::new();
    let mut i: usize = 0;
    let n: usize = v.len();
    while i < n
        invariant
            i <= n == v.rows().len(),
            out@.len() == i,
            forall|k: int|
                0 <= k < i ==> json_text(#[trigger] out@[k]) == override_text(v.rows()[k]),
        decreases n - i,
    {
        let mut m: NameMap<Json> = empty_object();
        put(&mut m, "identity", text_json(v.name_at(i)));
        put(&mut m, "fee_bps", number_json(v.value_at(i) as u64));
        out.push(object(m));
        i = i + 1;
    }
    proof {
        let a = v.rows();
        assert(all_texts(out@) =~= Seq::new(a.len(), |k: int| override_text(a[k])));
    }
    array(out)
}

fn params_json(
    fee_bps: u32,
    stratum_fee_bps: u32,
    min_payout: u64,
    max_outputs: usize,
    output_budget_bytes: usize,
    max_payees: usize,
    fee_overrides: &NameMap<u32>,
) -> (j: Json)
    ensures
        json_text(j) == params_text(
            fee_bps,
            stratum_fee_bps,
            min_payout,
            max_outputs,
            output_budget_bytes,
            max_payees,
            fee_overrides.rows(),
        ),
{
    let mut m: NameMap<Json> = empty_object();
    put(&mut m, "fee_bps", number_json(fee_bps as u64));
    put(&mut m, "stratum_fee_bps", number_json(stratum_fee_bps as u64));
    put(&mut m, "min_payout", number_json(min_payout));
    put(&mut m, "max_outputs", number_json(max_outputs as u64));
    put(&mut m, "output_budget_bytes", number_json(output_budget_bytes as u64));
    put(&mut m, "max_payees", number_json(max_payees as u64));
    put(&mut m, "fee_overrides", overrides_json(fee_overrides));
    put(&mut m, "rule", text_json(rule()));
    object(m)
}

/// Where each miner stands when they are listed by name.
fn name_order(miners: &[MinerStat]) -> (order: Vec<usize>)
    ensures
        order@.len() == miners@.len(),
        forall|i: int| 0 <= i < order@.len() ==> (#[trigger] order@[i]) < miners@.len(),
        by_name(miners_view(miners@)) == Seq::new(
            order@.len(),
            |i: int| miners@[order@[i] as int]@,
        ),
{
    let mut order: Vec<usize> = Vec::new();
    let ghost mv = miners_view(miners@);
    let mut i: usize = 0;
    assert(mv.take(0) =~= Seq::empty());
    assert(by_name(mv.take(0)) =~= Seq::new(0, |k: int| miners@[order@[k] as int]@));
    while i < miners.len()
        invariant
            i <= miners@.len(),
            mv == miners_view(miners@),
            order@.len() == i,
            forall|k: int| 0 <= k < i ==> (#[trigger] order@[k]) < miners@.len(),
            by_name(mv.take(i as int)) == Seq::new(
                order@.len(),
                |k: int| miners@[order@[k] as int]@,
            ),
        decreases miners@.len() - i,
    {
        let ghost here = by_name(mv.take(i as int));
        let ghost name = mv[i as int].identity;
        let ghost before = order@;
        let mut k: usize = 0;
        assert(here.skip(0) =~= here);
        while k < order.len() && !text_less(
            miners[i].identity.as_str(),
            miners[order[k]].identity.as_str(),
        )
            invariant
                i < miners@.len(),
                k <= order@.len(),
                order@ == before,
                mv == miners_view(miners@),
                name == mv[i as int].identity,
                forall|j: int| 0 <= j < order@.len() ==> (#[trigger] order@[j]) < miners@.len(),
                here == Seq::new(order@.len(), |j: int| miners@[order@[j] as int]@),
                name_place(here, name) == k + name_place(here.skip(k as int), name),
            decreases order@.len() - k,
        {
            assert(here.skip(k as int).drop_first() =~= here.skip(k + 1));
            assert(here.skip(k as int)[0] == miners@[order@[k as int] as int]@);
            k = k + 1;
        }
        proof {
            if k < order@.len() {
                assert(here.skip(k as int)[0] == miners@[order@[k as int] as int]@);
            }
            assert(name_place(here, name) == k);
            assert(mv.take(i + 1).drop_last() =~= mv.take(i as int));
        }
        order.insert(k, i);
        proof {
            assert(order@ == before.insert(k as int, i));
            assert forall|j: int| 0 <= j < order@.len() implies (#[trigger] order@[j])
                < miners@.len() by {
                if j < k {
                    assert(order@[j] == before[j]);
                } else if j > k {
                    assert(order@[j] == before[j - 1]);
                }
            }
            let after = Seq::new(order@.len(), |j: int| miners@[order@[j] as int]@);
            assert(after =~= here.insert(k as int, mv[i as int])) by {
                assert forall|j: int| 0 <= j < after.len() implies after[j] == here.insert(
                    k as int,
                    mv[i as int],
                )[j] by {
                    if j < k {
                        assert(order@[j] == before[j]);
                    } else if j > k {
                        assert(order@[j] == before[j - 1]);
                    }
                }
            }
        }
        i = i + 1;
    }
    assert(mv.take(mv.len() as int) =~= mv);
    order
}

fn window_json(target: u64, total: u64, miners: &[MinerStat]) -> (j: Json)
    ensures
        json_text(j) == window_text(target, total, miners_view(miners@)),
{
    let order: Vec<usize> = name_order(miners);
    let ghost v = by_name(miners_view(miners@));
    let mut out: Vec<Json> = Vec::new();
    let mut i: usize = 0;
    while i < order.len()
        invariant
            i <= order@.len(),
            v == Seq::new(order@.len(), |k: int| miners@[order@[k] as int]@),
            forall|k: int| 0 <= k < order@.len() ==> (#[trigger] order@[k]) < miners@.len(),
            out@.len() == i,
            forall|k: int| 0 <= k < i ==> json_text(#[trigger] out@[k]) == miner_text(v[k]),
        decreases order@.len() - i,
    {
        let k: usize = order[i];
        out.push(miner_json(&miners[k]));
        i = i + 1;
    }
    assert(all_texts(out@) =~= Seq::new(v.len(), |k: int| miner_text(v[k])));
    let mut m: NameMap<Json> = empty_object();
    put(&mut m, "target_work", number_json(target));
    put(&mut m, "total_work", number_json(total));
    put(&mut m, "identities", array(out));
    object(m)
}

fn split_json(s: &Split) -> (j: Json)
    ensures
        json_text(j) == split_text(s@),
{
    let mut payees: Vec<Json> = Vec::new();
    let mut i: usize = 0;
    while i < s.payees.len()
        invariant
            i <= s.payees@.len(),
            payees@.len() == i,
            forall|k: int|
                0 <= k < i ==> json_text(#[trigger] payees@[k]) == payee_text(s.payees@[k]@),
        decreases s.payees@.len() - i,
    {
        payees.push(payee_json(&s.payees[i]));
        i = i + 1;
    }
    let mut unpaid: Vec<Json> = Vec::new();
    let mut i: usize = 0;
    while i < s.unpaid.len()
        invariant
            i <= s.unpaid@.len(),
            unpaid@.len() == i,
            forall|k: int|
                0 <= k < i ==> json_text(#[trigger] unpaid@[k]) == unpaid_text(
                    (s.unpaid@[k].0@, s.unpaid@[k].1, s.unpaid@[k].2),
                ),
        decreases s.unpaid@.len() - i,
    {
        unpaid.push(unpaid_json(&s.unpaid[i]));
        i = i + 1;
    }
    proof {
        let a = s@.payees;
        assert(all_texts(payees@) =~= Seq::new(a.len(), |k: int| payee_text(a[k])));
        let b = s@.unpaid;
        assert(all_texts(unpaid@) =~= Seq::new(b.len(), |k: int| unpaid_text(b[k])));
    }
    let mut m: NameMap<Json> = empty_object();
    put(&mut m, "fee_sats", number_json(s.fee_sats));
    put(&mut m, "payees", array(payees));
    put(&mut m, "carry_paid", amounts_json(&s.carry_paid));
    put(&mut m, "unpaid", array(unpaid));
    put(&mut m, "pool_sats", number_json(s.pool_sats));
    object(m)
}

/// Takes a snapshot of a window state and the split computed from it.
pub fn build(
    tag: &str,
    height: u32,
    prev_hash_display_hex: &str,
    ts: u64,
    value: u64,
    fee_bps: u32,
    stratum_fee_bps: u32,
    min_payout: u64,
    max_outputs: usize,
    output_budget_bytes: usize,
    max_payees: usize,
    fee_overrides: &NameMap<u32>,
    window_target: u64,
    window_total: u64,
    miners: &[MinerStat],
    carry: &NameMap<u64>,
    split: &Split,
) -> (s: Snapshot)
    ensures
        s.canonical@ == encode_utf8(
            snapshot_text(
                tag@,
                height,
                prev_hash_display_hex@,
                ts,
                value,
                params_text(
                    fee_bps,
                    stratum_fee_bps,
                    min_payout,
                    max_outputs,
                    output_budget_bytes,
                    max_payees,
                    fee_overrides.rows(),
                ),
                window_text(window_target, window_total, miners_view(miners@)),
                amounts_text(carry.rows()),
                split_text(split@),
            ),
        ),
        s.hash@ == blake2b256_of(s.canonical@),
{
    let mut m: NameMap<Json> = empty_object();
    put(&mut m, "v", number_json(VERSION as u64));
    put(&mut m, "tag", text_json(tag));
    put(&mut m, "height", number_json(height as u64));
    put(&mut m, "prevhash", text_json(prev_hash_display_hex));
    put(&mut m, "ts", number_json(ts));
    put(&mut m, "coinbase_value", number_json(value));
    put(
        &mut m,
        "params",
        params_json(
            fee_bps,
            stratum_fee_bps,
            min_payout,
            max_outputs,
            output_budget_bytes,
            max_payees,
            fee_overrides,
        ),
    );
    put(&mut m, "window", window_json(window_target, window_total, miners));
    put(&mut m, "carry", map_amounts_json(carry));
    put(&mut m, "split", split_json(split));
    let doc: Json = object(m);
    let canonical: Vec<u8> = canonical_bytes(&doc);
    let hash: Hash32 = blake2b256(canonical.as_slice());
    Snapshot { hash, canonical }
}

/// What a snapshot says of a miner.
pub open spec fn committed_stat(m: MinerView) -> MinerView {
    MinerView { credits: 0, last_ts: 0, ..m }
}

/// What a snapshot says of miners.
pub open spec fn committed_stats(v: Seq<MinerView>) -> Seq<MinerView> {
    Seq::new(v.len(), |i: int| committed_stat(v[i]))
}

proof fn lemma_name_place(v: Seq<MinerView>, identity: Seq<char>)
    ensures
        name_place(v, identity) <= v.len(),
        name_place(committed_stats(v), identity) == name_place(v, identity),
    decreases v.len(),
{
    if v.len() > 0 && !text_before(identity, v[0].identity) {
        lemma_name_place(v.drop_first(), identity);
        assert(committed_stats(v).drop_first() =~= committed_stats(v.drop_first()));
    }
}

/// Listing by name keeps the miners, and goes by their names alone.
proof fn lemma_by_name(v: Seq<MinerView>)
    ensures
        forall|m: MinerView| #[trigger] by_name(v).contains(m) <==> v.contains(m),
        by_name(committed_stats(v)) == committed_stats(by_name(v)),
    decreases v.len(),
{
    if v.len() > 0 {
        let init = v.drop_last();
        let last = v.last();
        lemma_by_name(init);
        let before = by_name(init);
        let k = name_place(before, last.identity) as int;
        lemma_name_place(before, last.identity);
        let n = by_name(v);
        assert(n == before.insert(k, last));
        assert forall|m: MinerView| #[trigger] n.contains(m) <==> v.contains(m) by {
            if n.contains(m) {
                let i = choose|i: int| 0 <= i < n.len() && n[i] == m;
                if i == k {
                    assert(v[v.len() - 1] == m);
                } else {
                    let j = if i < k { i } else { i - 1 };
                    assert(before[j] == m);
                    assert(by_name(init).contains(m));
                    let x = choose|x: int| 0 <= x < init.len() && init[x] == m;
                    assert(v[x] == m);
                }
            }
            if v.contains(m) {
                let x = choose|x: int| 0 <= x < v.len() && v[x] == m;
                if x == v.len() - 1 {
                    assert(n[k] == m);
                } else {
                    assert(init[x] == m);
                    assert(by_name(init).contains(m));
                    let j = choose|j: int| 0 <= j < before.len() && before[j] == m;
                    assert(n[if j < k { j } else { j + 1 }] == m);
                }
            }
        }
        assert(committed_stats(v).drop_last() =~= committed_stats(init));
        assert(committed_stats(v).last() == committed_stat(last));
        assert(by_name(committed_stats(v)) =~= committed_stats(n));
    } else {
        assert(committed_stats(v) =~= v);
        assert(by_name(committed_stats(v)) =~= committed_stats(by_name(v)));
    }
}

/// A split goes by what a snapshot says of the miners, and by nothing else about them.
proof fn lemma_split_of_committed(
    v: Seq<MinerView>,
    scripts: Seq<Option<Seq<u8>>>,
    total: u64,
    value: u64,
    p: ParamsView,
)
    requires
        v.len() == scripts.len(),
    ensures
        place_all(committed_stats(v), scripts, total, value, p) == place_all(
            v,
            scripts,
            total,
            value,
            p,
        ),
        forall|limit: nat| #[trigger]
            choose_all(committed_stats(v), scripts, limit, p) == choose_all(v, scripts, limit, p),
        fee_weights(committed_stats(v), p) == fee_weights(v, p),
    decreases v.len(),
{
    if v.len() > 0 {
        assert(committed_stats(v).drop_last() =~= committed_stats(v.drop_last()));
        lemma_split_of_committed(v.drop_last(), scripts.drop_last(), total, value, p);
        assert(committed_stats(v).last() == committed_stat(v.last()));
        let w = committed_stats(v.drop_last());
        assert forall|limit: nat| #[trigger]
            choose_all(committed_stats(v), scripts, limit, p) == choose_all(
            v,
            scripts,
            limit,
            p,
        ) by {
            assert(choose_all(w, scripts.drop_last(), limit, p) == choose_all(
                v.drop_last(),
                scripts.drop_last(),
                limit,
                p,
            ));
        }
    } else {
        assert(committed_stats(v) =~= v);
    }
}

/// A split can be recomputed from its snapshot: whatever window shows the same work of the same
/// identities, and the same total, gives the same split of a value under the same parameters and
/// carry.
pub proof fn lemma_split_is_reproducible(
    a: WindowView,
    b: WindowView,
    u: Seq<MinerView>,
    v: Seq<MinerView>,
    value: u64,
    p: ParamsView,
    carry: Seq<(Seq<char>, u64)>,
    net: Network,
)
    requires
        a.lists_miners(u),
        b.lists_miners(v),
        committed_stats(by_name(u)) == committed_stats(by_name(v)),
        a.total_work == b.total_work,
    ensures
        carried_split_of(
            u,
            scripts_for(identities_of(u), net),
            a.total_work,
            value,
            p,
            carry,
            scripts_for(names_of(carry), net),
        ) == carried_split_of(
            v,
            scripts_for(identities_of(v), net),
            b.total_work,
            value,
            p,
            carry,
            scripts_for(names_of(carry), net),
        ),
{
    let x = committed_stats(u);
    let y = committed_stats(v);
    lemma_by_name(u);
    lemma_by_name(v);
    lemma_by_name(x);
    lemma_by_name(y);
    assert(by_name(x) == by_name(y));
    assert forall|i: int| 0 <= i < x.len() implies y.contains(#[trigger] x[i]) by {
        assert(x.contains(x[i]));
        assert(by_name(x).contains(x[i]));
    }
    assert forall|i: int| 0 <= i < y.len() implies x.contains(#[trigger] y[i]) by {
        assert(y.contains(y[i]));
        assert(by_name(y).contains(y[i]));
    }
    assert forall|i: int, j: int| 0 <= i < j < x.len() implies listed_before(
        #[trigger] x[i],
        #[trigger] x[j],
    ) by {
        assert(listed_before(u[i], u[j]));
    }
    assert forall|i: int, j: int| 0 <= i < j < y.len() implies listed_before(
        #[trigger] y[i],
        #[trigger] y[j],
    ) by {
        assert(listed_before(v[i], v[j]));
    }
    lemma_sorted_same(x, y);
    let us = scripts_for(identities_of(u), net);
    let vs = scripts_for(identities_of(v), net);
    assert(us =~= vs) by {
        assert(u.len() == x.len() && v.len() == y.len());
        assert forall|i: int| 0 <= i < u.len() implies us[i] == vs[i] by {
            assert(x[i].identity == u[i].identity && y[i].identity == v[i].identity);
        }
    }
    let total = a.total_work;
    lemma_split_of_committed(u, us, total, value, p);
    lemma_split_of_committed(v, vs, total, value, p);
    assert(after_fee(u, total, value, p) == after_fee(v, total, value, p));
    let limit = after_fee(u, total, value, p) as nat / floor_of(p) as nat;
    assert(choose_all(x, us, limit, p) == choose_all(u, us, limit, p));
    assert(choose_all(y, vs, limit, p) == choose_all(v, vs, limit, p));
}

/// What a snapshot is taken of.
pub struct Contents {
    pub tag: Seq<char>,
    pub height: u32,
    pub prev_hash_display_hex: Seq<char>,
    pub ts: u64,
    pub value: u64,
    pub fee_bps: u32,
    pub stratum_fee_bps: u32,
    pub min_payout: u64,
    pub max_outputs: usize,
    pub output_budget_bytes: usize,
    pub max_payees: usize,
    pub fee_overrides: Seq<(Seq<char>, u32)>,
    pub window_target: u64,
    pub window_total: u64,
    pub miners: Seq<MinerView>,
    pub carry: Seq<(Seq<char>, u64)>,
    pub split: SplitView,
}

impl Contents {
    /// The text of the parameters.
    pub open spec fn params(self) -> Seq<char> {
        params_text(
            self.fee_bps,
            self.stratum_fee_bps,
            self.min_payout,
            self.max_outputs,
            self.output_budget_bytes,
            self.max_payees,
            self.fee_overrides,
        )
    }

    /// The text of the snapshot.
    pub open spec fn text(self) -> Seq<char> {
        snapshot_text(
            self.tag,
            self.height,
            self.prev_hash_display_hex,
            self.ts,
            self.value,
            self.params(),
            window_text(self.window_target, self.window_total, self.miners),
            amounts_text(self.carry),
            split_text(self.split),
        )
    }
}

/// Whether no two miners have one name.
pub open spec fn distinct_names(v: Seq<MinerView>) -> bool {
    forall|i: int, j: int|
        0 <= i < j < v.len() ==> (#[trigger] v[i]).identity != (#[trigger] v[j]).identity
}

spec fn is_by_name(v: Seq<MinerView>) -> bool {
    forall|i: int, j: int|
        0 <= i < j < v.len() ==> text_before(
            (#[trigger] v[i]).identity,
            (#[trigger] v[j]).identity,
        )
}

proof fn lemma_place_splits(v: Seq<MinerView>, identity: Seq<char>)
    requires
        is_by_name(v),
        forall|i: int| 0 <= i < v.len() ==> (#[trigger] v[i]).identity != identity,
    ensures
        name_place(v, identity) <= v.len(),
        forall|i: int|
            0 <= i < name_place(v, identity) ==> text_before((#[trigger] v[i]).identity, identity),
        forall|i: int|
            name_place(v, identity) <= i < v.len() ==> text_before(
                identity,
                (#[trigger] v[i]).identity,
            ),
    decreases v.len(),
{
    if v.len() > 0 {
        lemma_text_before_total(identity, v[0].identity);
        if text_before(identity, v[0].identity) {
            assert forall|i: int| 0 <= i < v.len() implies text_before(
                identity,
                (#[trigger] v[i]).identity,
            ) by {
                if i > 0 {
                    lemma_text_before_trans(identity, v[0].identity, v[i].identity);
                }
            }
        } else {
            let t = v.drop_first();
            assert forall|i: int, j: int| 0 <= i < j < t.len() implies text_before(
                (#[trigger] t[i]).identity,
                (#[trigger] t[j]).identity,
            ) by {
                assert(t[i] == v[i + 1] && t[j] == v[j + 1]);
            }
            assert forall|i: int| 0 <= i < t.len() implies (#[trigger] t[i]).identity != identity by {
                assert(t[i] == v[i + 1]);
            }
            lemma_place_splits(t, identity);
            assert forall|i: int| 0 <= i < name_place(v, identity) implies text_before(
                (#[trigger] v[i]).identity,
                identity,
            ) by {
                if i > 0 {
                    assert(t[i - 1] == v[i]);
                }
            }
            assert forall|i: int| name_place(v, identity) <= i < v.len() implies text_before(
                identity,
                (#[trigger] v[i]).identity,
            ) by {
                assert(t[i - 1] == v[i]);
            }
        }
    }
}

proof fn lemma_by_name_is_sorted(v: Seq<MinerView>)
    requires
        distinct_names(v),
    ensures
        is_by_name(by_name(v)),
    decreases v.len(),
{
    if v.len() > 0 {
        let init = v.drop_last();
        let last = v.last();
        assert(distinct_names(init)) by {
            assert forall|i: int, j: int| 0 <= i < j < init.len() implies (
            #[trigger] init[i]).identity != (#[trigger] init[j]).identity by {
                assert(init[i] == v[i] && init[j] == v[j]);
            }
        }
        lemma_by_name_is_sorted(init);
        lemma_by_name(init);
        let before = by_name(init);
        assert forall|i: int| 0 <= i < before.len() implies (#[trigger] before[i]).identity
            != last.identity by {
            assert(by_name(init).contains(before[i]));
            let x = choose|x: int| 0 <= x < init.len() && init[x] == before[i];
            assert(v[x] == init[x] && v[v.len() - 1] == last);
        }
        lemma_place_splits(before, last.identity);
        let k = name_place(before, last.identity) as int;
        let n = before.insert(k, last);
        assert forall|i: int, j: int| 0 <= i < j < n.len() implies text_before(
            (#[trigger] n[i]).identity,
            (#[trigger] n[j]).identity,
        ) by {
            if i < k {
                assert(n[i] == before[i]);
            } else if i > k {
                assert(n[i] == before[i - 1]);
            }
            if j < k {
                assert(n[j] == before[j]);
            } else if j > k {
                assert(n[j] == before[j - 1]);
            }
        }
    }
}

proof fn lemma_named_same(u: Seq<MinerView>, v: Seq<MinerView>)
    requires
        is_by_name(u),
        is_by_name(v),
        forall|m: MinerView| #[trigger] u.contains(m) <==> v.contains(m),
    ensures
        u == v,
    decreases u.len(),
{
    if u.len() == 0 {
        if v.len() > 0 {
            assert(v.contains(v[0]));
            assert(u.contains(v[0]));
        }
        assert(u =~= v);
    } else {
        assert(u.contains(u[0]));
        assert(v.contains(u[0]));
        let a = choose|a: int| 0 <= a < v.len() && v[a] == u[0];
        assert(v.contains(v[0]));
        assert(u.contains(v[0]));
        let b = choose|b: int| 0 <= b < u.len() && u[b] == v[0];
        if a > 0 {
            lemma_text_before_total(v[0].identity, v[a].identity);
            if b > 0 {
                assert(text_before(u[0].identity, u[b].identity));
            }
        }
        assert(u[0] == v[0]);
        let u1 = u.drop_first();
        let v1 = v.drop_first();
        assert forall|m: MinerView| #[trigger] u1.contains(m) <==> v1.contains(m) by {
            if u1.contains(m) {
                let i = choose|i: int| 0 <= i < u1.len() && u1[i] == m;
                assert(u[i + 1] == m);
                assert(u.contains(m));
                let c = choose|c: int| 0 <= c < v.len() && v[c] == m;
                lemma_text_before_total(u[0].identity, u[i + 1].identity);
                assert(v1[c - 1] == m);
            }
            if v1.contains(m) {
                let i = choose|i: int| 0 <= i < v1.len() && v1[i] == m;
                assert(v[i + 1] == m);
                assert(v.contains(m));
                assert(u.contains(m));
                let c = choose|c: int| 0 <= c < u.len() && u[c] == m;
                lemma_text_before_total(v[0].identity, v[i + 1].identity);
                assert(u1[c - 1] == m);
            }
        }
        assert(is_by_name(u1)) by {
            assert forall|i: int, j: int| 0 <= i < j < u1.len() implies text_before(
                (#[trigger] u1[i]).identity,
                (#[trigger] u1[j]).identity,
            ) by {
                assert(u1[i] == u[i + 1] && u1[j] == u[j + 1]);
            }
        }
        assert(is_by_name(v1)) by {
            assert forall|i: int, j: int| 0 <= i < j < v1.len() implies text_before(
                (#[trigger] v1[i]).identity,
                (#[trigger] v1[j]).identity,
            ) by {
                assert(v1[i] == v[i + 1] && v1[j] == v[j + 1]);
            }
        }
        lemma_named_same(u1, v1);
        assert(u =~= seq![u[0]] + u1);
        assert(v =~= seq![v[0]] + v1);
    }
}

/// A snapshot does not depend on the order in which its miners are given: those of distinct names,
/// in any order, are listed alike and give the same text, and so the same bytes and hash.
pub proof fn lemma_order_of_miners_is_immaterial(c: Contents, miners: Seq<MinerView>)
    requires
        distinct_names(c.miners),
        miners.to_multiset() == c.miners.to_multiset(),
    ensures
        by_name(miners) == by_name(c.miners),
        (Contents { miners, ..c }).text() == c.text(),
{
    let u = c.miners;
    let v = miners;
    u.to_multiset_ensures();
    v.to_multiset_ensures();
    assert forall|m: MinerView| #[trigger] u.contains(m) <==> v.contains(m) by {
        assert(u.to_multiset().count(m) == v.to_multiset().count(m));
    }
    assert(u.no_duplicates());
    u.lemma_multiset_has_no_duplicates();
    v.lemma_multiset_has_no_duplicates_conv();
    assert forall|i: int, j: int| 0 <= i < j < v.len() implies (#[trigger] v[i]).identity != (
    #[trigger] v[j]).identity by {
        assert(v.contains(v[i]) && v.contains(v[j]));
        assert(u.contains(v[i]) && u.contains(v[j]));
        let a = choose|a: int| 0 <= a < u.len() && u[a] == v[i];
        let b = choose|b: int| 0 <= b < u.len() && u[b] == v[j];
        assert(v[i] != v[j]);
        if a < b {
            assert(u[a].identity != u[b].identity);
        } else if b < a {
            assert(u[b].identity != u[a].identity);
        }
    }
    lemma_by_name_is_sorted(u);
    lemma_by_name_is_sorted(v);
    lemma_by_name(u);
    lemma_by_name(v);
    assert forall|m: MinerView| #[trigger] by_name(u).contains(m) <==> by_name(v).contains(m) by {
        assert(by_name(v).contains(m) <==> v.contains(m));
        assert(u.contains(m) <==> v.contains(m));
    }
    lemma_named_same(by_name(u), by_name(v));
}

proof fn lemma_no_members()
    ensures
        has_values(no_members()),
{
}

proof fn lemma_with_member(m: Map<Seq<char>, Seq<char>>, k: Seq<char>, t: Seq<char>)
    requires
        has_values(m),
        is_value(t),
    ensures
        has_values(m.insert(k, t)),
{
    assert(m.insert(k, t).dom() =~= m.dom().insert(k));
    assert forall|x: Seq<char>| #[trigger] m.insert(k, t).contains_key(x) implies is_value(
        m.insert(k, t)[x],
    ) by {
        if x != k {
            assert(m.contains_key(x));
        }
    }
}

/// A number that tells the names of members apart.
spec fn mark_of(s: Seq<char>) -> int {
    s.len() * 1_000_000 + (s[0] as int) * 1_000 + s.last() as int
}

proof fn lemma_marks()
    ensures
        mark_of("identity"@) == 8105121,
        mark_of("work"@) == 4119107,
        mark_of("stratum_work"@) == 12115107,
        mark_of("sats"@) == 4115115,
        mark_of("fee_bps"@) == 7102115,
        mark_of("script"@) == 6115116,
        mark_of("reason"@) == 6114110,
        mark_of("stratum_fee_bps"@) == 15115115,
        mark_of("min_payout"@) == 10109116,
        mark_of("max_outputs"@) == 11109115,
        mark_of("output_budget_bytes"@) == 19111115,
        mark_of("max_payees"@) == 10109115,
        mark_of("fee_overrides"@) == 13102115,
        mark_of("rule"@) == 4114101,
        mark_of("target_work"@) == 11116107,
        mark_of("total_work"@) == 10116107,
        mark_of("identities"@) == 10105115,
        mark_of("fee_sats"@) == 8102115,
        mark_of("payees"@) == 6112115,
        mark_of("carry_paid"@) == 10099100,
        mark_of("unpaid"@) == 6117100,
        mark_of("pool_sats"@) == 9112115,
        mark_of("v"@) == 1118118,
        mark_of("tag"@) == 3116103,
        mark_of("height"@) == 6104116,
        mark_of("prevhash"@) == 8112104,
        mark_of("ts"@) == 2116115,
        mark_of("coinbase_value"@) == 14099101,
        mark_of("params"@) == 6112115,
        mark_of("window"@) == 6119119,
        mark_of("carry"@) == 5099121,
        mark_of("split"@) == 5115116,
{
    reveal_strlit("identity");
    reveal_strlit("work");
    reveal_strlit("stratum_work");
    reveal_strlit("sats");
    reveal_strlit("fee_bps");
    reveal_strlit("script");
    reveal_strlit("reason");
    reveal_strlit("stratum_fee_bps");
    reveal_strlit("min_payout");
    reveal_strlit("max_outputs");
    reveal_strlit("output_budget_bytes");
    reveal_strlit("max_payees");
    reveal_strlit("fee_overrides");
    reveal_strlit("rule");
    reveal_strlit("target_work");
    reveal_strlit("total_work");
    reveal_strlit("identities");
    reveal_strlit("fee_sats");
    reveal_strlit("payees");
    reveal_strlit("carry_paid");
    reveal_strlit("unpaid");
    reveal_strlit("pool_sats");
    reveal_strlit("v");
    reveal_strlit("tag");
    reveal_strlit("height");
    reveal_strlit("prevhash");
    reveal_strlit("ts");
    reveal_strlit("coinbase_value");
    reveal_strlit("params");
    reveal_strlit("window");
    reveal_strlit("carry");
    reveal_strlit("split");
}

spec fn miner_members(m: MinerView) -> Map<Seq<char>, Seq<char>> {
    no_members().insert("identity"@, json_quoted(m.identity)).insert(
        "work"@,
        num(m.work as nat),
    ).insert("stratum_work"@, num(m.stratum_work as nat))
}

proof fn lemma_miner_value(m: MinerView)
    ensures
        has_values(miner_members(m)),
        is_value(miner_text(m)),
{
    lemma_no_members();
    lemma_quoted_is_value(m.identity, false);
    lemma_decimal_is_value(m.work as nat);
    lemma_decimal_is_value(m.stratum_work as nat);
    let a = no_members().insert("identity"@, json_quoted(m.identity));
    lemma_with_member(no_members(), "identity"@, json_quoted(m.identity));
    lemma_with_member(a, "work"@, num(m.work as nat));
    lemma_with_member(
        a.insert("work"@, num(m.work as nat)),
        "stratum_work"@,
        num(m.stratum_work as nat),
    );
    lemma_object_is_value(miner_members(m));
}

proof fn lemma_miner_pinned(m: MinerView, n: MinerView)
    requires
        miner_text(m) == miner_text(n),
    ensures
        committed_stat(m) == committed_stat(n),
{
    lemma_miner_value(m);
    lemma_miner_value(n);
    let a = miner_members(m);
    let b = miner_members(n);
    lemma_object_faithful(a, b);
    lemma_marks();
    assert(a["identity"@] == json_quoted(m.identity) && b["identity"@] == json_quoted(n.identity));
    assert(a["work"@] == num(m.work as nat) && b["work"@] == num(n.work as nat));
    assert(a["stratum_work"@] == num(m.stratum_work as nat));
    assert(b["stratum_work"@] == num(n.stratum_work as nat));
    lemma_quoted_faithful(m.identity, n.identity);
    lemma_decimal_faithful(m.work as nat, n.work as nat);
    lemma_decimal_faithful(m.stratum_work as nat, n.stratum_work as nat);
}

spec fn amount_members(x: (Seq<char>, u64)) -> Map<Seq<char>, Seq<char>> {
    no_members().insert("identity"@, json_quoted(x.0)).insert("sats"@, num(x.1 as nat))
}

proof fn lemma_amount_value(x: (Seq<char>, u64))
    ensures
        has_values(amount_members(x)),
        is_value(amount_text(x)),
{
    lemma_no_members();
    lemma_quoted_is_value(x.0, false);
    lemma_decimal_is_value(x.1 as nat);
    let a = no_members().insert("identity"@, json_quoted(x.0));
    lemma_with_member(no_members(), "identity"@, json_quoted(x.0));
    lemma_with_member(a, "sats"@, num(x.1 as nat));
    lemma_object_is_value(amount_members(x));
}

proof fn lemma_amount_pinned(x: (Seq<char>, u64), y: (Seq<char>, u64))
    requires
        amount_text(x) == amount_text(y),
    ensures
        x == y,
{
    lemma_amount_value(x);
    lemma_amount_value(y);
    let a = amount_members(x);
    let b = amount_members(y);
    lemma_object_faithful(a, b);
    lemma_marks();
    assert(a["identity"@] == json_quoted(x.0) && b["identity"@] == json_quoted(y.0));
    assert(a["sats"@] == num(x.1 as nat) && b["sats"@] == num(y.1 as nat));
    lemma_quoted_faithful(x.0, y.0);
    lemma_decimal_faithful(x.1 as nat, y.1 as nat);
}

proof fn lemma_amounts_pinned(v: Seq<(Seq<char>, u64)>, w: Seq<(Seq<char>, u64)>)
    ensures
        is_value(amounts_text(v)),
        amounts_text(v) == amounts_text(w) ==> v == w,
{
    let t = Seq::new(v.len(), |i: int| amount_text(v[i]));
    let u = Seq::new(w.len(), |i: int| amount_text(w[i]));
    assert forall|i: int| 0 <= i < t.len() implies is_value(#[trigger] t[i]) by {
        lemma_amount_value(v[i]);
    }
    assert forall|i: int| 0 <= i < u.len() implies is_value(#[trigger] u[i]) by {
        lemma_amount_value(w[i]);
    }
    lemma_array_is_value(t);
    if amounts_text(v) == amounts_text(w) {
        lemma_array_faithful(t, u);
        assert(t.len() == u.len());
        assert forall|i: int| 0 <= i < v.len() implies v[i] == w[i] by {
            assert(t[i] == u[i]);
            lemma_amount_pinned(v[i], w[i]);
        }
        assert(v =~= w);
    }
}

spec fn override_members(x: (Seq<char>, u32)) -> Map<Seq<char>, Seq<char>> {
    no_members().insert("identity"@, json_quoted(x.0)).insert("fee_bps"@, num(x.1 as nat))
}

proof fn lemma_override_value(x: (Seq<char>, u32))
    ensures
        has_values(override_members(x)),
        is_value(override_text(x)),
{
    lemma_no_members();
    lemma_quoted_is_value(x.0, false);
    lemma_decimal_is_value(x.1 as nat);
    let a = no_members().insert("identity"@, json_quoted(x.0));
    lemma_with_member(no_members(), "identity"@, json_quoted(x.0));
    lemma_with_member(a, "fee_bps"@, num(x.1 as nat));
    lemma_object_is_value(override_members(x));
}

proof fn lemma_overrides_pinned(v: Seq<(Seq<char>, u32)>, w: Seq<(Seq<char>, u32)>)
    ensures
        is_value(array_text(Seq::new(v.len(), |i: int| override_text(v[i])))),
        array_text(Seq::new(v.len(), |i: int| override_text(v[i]))) == array_text(
            Seq::new(w.len(), |i: int| override_text(w[i])),
        ) ==> v == w,
{
    let t = Seq::new(v.len(), |i: int| override_text(v[i]));
    let u = Seq::new(w.len(), |i: int| override_text(w[i]));
    assert forall|i: int| 0 <= i < t.len() implies is_value(#[trigger] t[i]) by {
        lemma_override_value(v[i]);
    }
    assert forall|i: int| 0 <= i < u.len() implies is_value(#[trigger] u[i]) by {
        lemma_override_value(w[i]);
    }
    lemma_array_is_value(t);
    if array_text(t) == array_text(u) {
        lemma_array_faithful(t, u);
        assert(t.len() == u.len());
        assert forall|i: int| 0 <= i < v.len() implies v[i] == w[i] by {
            assert(t[i] == u[i]);
            lemma_override_value(v[i]);
            lemma_override_value(w[i]);
            let a = override_members(v[i]);
            let b = override_members(w[i]);
            lemma_object_faithful(a, b);
            lemma_marks();
            assert(a["identity"@] == json_quoted(v[i].0) && b["identity"@] == json_quoted(w[i].0));
            assert(a["fee_bps"@] == num(v[i].1 as nat) && b["fee_bps"@] == num(w[i].1 as nat));
            lemma_quoted_faithful(v[i].0, w[i].0);
            lemma_decimal_faithful(v[i].1 as nat, w[i].1 as nat);
        }
        assert(v =~= w);
    }
}

proof fn lemma_reason_pinned(a: UnpaidReason, b: UnpaidReason)
    requires
        reason_text(a) == reason_text(b),
    ensures
        a == b,
{
    reveal_strlit("BelowMinimum");
    reveal_strlit("NoScript");
    reveal_strlit("BelowCut");
    assert("BelowMinimum"@.len() == 12 && "NoScript"@.len() == 8 && "BelowCut"@.len() == 8);
    assert("NoScript"@[0] == 'N' && "BelowCut"@[0] == 'B');
}

spec fn payee_members(p: PayeeView) -> Map<Seq<char>, Seq<char>> {
    no_members().insert(
        "identity"@,
        json_quoted(p.identity),
    ).insert(
        "work"@,
        num(p.work as nat),
    ).insert(
        "sats"@,
        num(p.sats as nat),
    ).insert(
        "script"@,
        json_quoted(hex_of(p.script)),
    )
}

proof fn lemma_payee_value(p: PayeeView)
    ensures
        has_values(payee_members(p)),
        is_value(payee_text(p)),
{
    lemma_quoted_is_value(p.identity, false);
    lemma_decimal_is_value(p.work as nat);
    lemma_decimal_is_value(p.sats as nat);
    lemma_quoted_is_value(hex_of(p.script), false);
    let m0 = no_members();
    lemma_no_members();
    let m1 = m0.insert("identity"@, json_quoted(p.identity));
    lemma_with_member(m0, "identity"@, json_quoted(p.identity));
    let m2 = m1.insert("work"@, num(p.work as nat));
    lemma_with_member(m1, "work"@, num(p.work as nat));
    let m3 = m2.insert("sats"@, num(p.sats as nat));
    lemma_with_member(m2, "sats"@, num(p.sats as nat));
    let m4 = m3.insert("script"@, json_quoted(hex_of(p.script)));
    lemma_with_member(m3, "script"@, json_quoted(hex_of(p.script)));
    lemma_object_is_value(payee_members(p));
}

proof fn lemma_payee_pinned(p: PayeeView, q: PayeeView)
    requires
        payee_text(p) == payee_text(q),
    ensures
        p == q,
{
    lemma_payee_value(p);
    lemma_payee_value(q);
    let a = payee_members(p);
    let b = payee_members(q);
    lemma_object_faithful(a, b);
    lemma_marks();
    assert(a["identity"@] == json_quoted(p.identity) && b["identity"@] == json_quoted(q.identity));
    assert(a["work"@] == num(p.work as nat) && b["work"@] == num(q.work as nat));
    assert(a["sats"@] == num(p.sats as nat) && b["sats"@] == num(q.sats as nat));
    assert(a["script"@] == json_quoted(hex_of(p.script)));
    assert(b["script"@] == json_quoted(hex_of(q.script)));
    lemma_quoted_faithful(p.identity, q.identity);
    lemma_decimal_faithful(p.work as nat, q.work as nat);
    lemma_decimal_faithful(p.sats as nat, q.sats as nat);
    lemma_quoted_faithful(hex_of(p.script), hex_of(q.script));
    lemma_hex_pinned(p.script, q.script);
    assert(p =~= q);
}

proof fn lemma_payees_pinned(v: Seq<PayeeView>, w: Seq<PayeeView>)
    ensures
        is_value(array_text(Seq::new(v.len(), |i: int| payee_text(v[i])))),
        array_text(Seq::new(v.len(), |i: int| payee_text(v[i]))) == array_text(
            Seq::new(w.len(), |i: int| payee_text(w[i])),
        ) ==> v == w,
{
    let t = Seq::new(v.len(), |i: int| payee_text(v[i]));
    let u = Seq::new(w.len(), |i: int| payee_text(w[i]));
    assert forall|i: int| 0 <= i < t.len() implies is_value(#[trigger] t[i]) by {
        lemma_payee_value(v[i]);
    }
    assert forall|i: int| 0 <= i < u.len() implies is_value(#[trigger] u[i]) by {
        lemma_payee_value(w[i]);
    }
    lemma_array_is_value(t);
    if array_text(t) == array_text(u) {
        lemma_array_faithful(t, u);
        assert(t.len() == u.len());
        assert forall|i: int| 0 <= i < v.len() implies v[i] == w[i] by {
            assert(t[i] == u[i]);
            lemma_payee_pinned(v[i], w[i]);
        }
        assert(v =~= w);
    }
}

spec fn unpaid_members(u: (Seq<char>, u64, UnpaidReason)) -> Map<Seq<char>, Seq<char>> {
    no_members().insert(
        "identity"@,
        json_quoted(u.0),
    ).insert(
        "sats"@,
        num(u.1 as nat),
    ).insert(
        "reason"@,
        json_quoted(reason_text(u.2)),
    )
}

proof fn lemma_unpaid_value(u: (Seq<char>, u64, UnpaidReason))
    ensures
        has_values(unpaid_members(u)),
        is_value(unpaid_text(u)),
{
    lemma_quoted_is_value(u.0, false);
    lemma_decimal_is_value(u.1 as nat);
    lemma_quoted_is_value(reason_text(u.2), false);
    let m0 = no_members();
    lemma_no_members();
    let m1 = m0.insert("identity"@, json_quoted(u.0));
    lemma_with_member(m0, "identity"@, json_quoted(u.0));
    let m2 = m1.insert("sats"@, num(u.1 as nat));
    lemma_with_member(m1, "sats"@, num(u.1 as nat));
    let m3 = m2.insert("reason"@, json_quoted(reason_text(u.2)));
    lemma_with_member(m2, "reason"@, json_quoted(reason_text(u.2)));
    lemma_object_is_value(unpaid_members(u));
}

proof fn lemma_unpaid_pinned(u: (Seq<char>, u64, UnpaidReason), x: (Seq<char>, u64, UnpaidReason))
    requires
        unpaid_text(u) == unpaid_text(x),
    ensures
        u == x,
{
    lemma_unpaid_value(u);
    lemma_unpaid_value(x);
    let a = unpaid_members(u);
    let b = unpaid_members(x);
    lemma_object_faithful(a, b);
    lemma_marks();
    assert(a["identity"@] == json_quoted(u.0) && b["identity"@] == json_quoted(x.0));
    assert(a["sats"@] == num(u.1 as nat) && b["sats"@] == num(x.1 as nat));
    assert(a["reason"@] == json_quoted(reason_text(u.2)));
    assert(b["reason"@] == json_quoted(reason_text(x.2)));
    lemma_quoted_faithful(u.0, x.0);
    lemma_decimal_faithful(u.1 as nat, x.1 as nat);
    lemma_quoted_faithful(reason_text(u.2), reason_text(x.2));
    lemma_reason_pinned(u.2, x.2);
}

proof fn lemma_unpaid_list_pinned(v: Seq<(Seq<char>, u64, UnpaidReason)>, w: Seq<(Seq<char>, u64, UnpaidReason)>)
    ensures
        is_value(array_text(Seq::new(v.len(), |i: int| unpaid_text(v[i])))),
        array_text(Seq::new(v.len(), |i: int| unpaid_text(v[i]))) == array_text(
            Seq::new(w.len(), |i: int| unpaid_text(w[i])),
        ) ==> v == w,
{
    let t = Seq::new(v.len(), |i: int| unpaid_text(v[i]));
    let u = Seq::new(w.len(), |i: int| unpaid_text(w[i]));
    assert forall|i: int| 0 <= i < t.len() implies is_value(#[trigger] t[i]) by {
        lemma_unpaid_value(v[i]);
    }
    assert forall|i: int| 0 <= i < u.len() implies is_value(#[trigger] u[i]) by {
        lemma_unpaid_value(w[i]);
    }
    lemma_array_is_value(t);
    if array_text(t) == array_text(u) {
        lemma_array_faithful(t, u);
        assert(t.len() == u.len());
        assert forall|i: int| 0 <= i < v.len() implies v[i] == w[i] by {
            assert(t[i] == u[i]);
            lemma_unpaid_pinned(v[i], w[i]);
        }
        assert(v =~= w);
    }
}

proof fn lemma_miners_pinned(v: Seq<MinerView>, w: Seq<MinerView>)
    ensures
        is_value(array_text(Seq::new(v.len(), |i: int| miner_text(v[i])))),
        array_text(Seq::new(v.len(), |i: int| miner_text(v[i]))) == array_text(
            Seq::new(w.len(), |i: int| miner_text(w[i])),
        ) ==> committed_stats(v) == committed_stats(w),
{
    let t = Seq::new(v.len(), |i: int| miner_text(v[i]));
    let u = Seq::new(w.len(), |i: int| miner_text(w[i]));
    assert forall|i: int| 0 <= i < t.len() implies is_value(#[trigger] t[i]) by {
        lemma_miner_value(v[i]);
    }
    assert forall|i: int| 0 <= i < u.len() implies is_value(#[trigger] u[i]) by {
        lemma_miner_value(w[i]);
    }
    lemma_array_is_value(t);
    if array_text(t) == array_text(u) {
        lemma_array_faithful(t, u);
        assert(t.len() == u.len());
        assert forall|i: int| 0 <= i < v.len() implies committed_stat(v[i]) == committed_stat(w[i])
            by {
            assert(t[i] == u[i]);
            lemma_miner_pinned(v[i], w[i]);
        }
        assert(committed_stats(v) =~= committed_stats(w));
    }
}

spec fn miners_part(c: Contents) -> Seq<char> {
    let v = by_name(c.miners);
    array_text(Seq::new(v.len(), |i: int| miner_text(v[i])))
}

spec fn window_members(c: Contents) -> Map<Seq<char>, Seq<char>> {
    no_members().insert(
        "target_work"@,
        num(c.window_target as nat),
    ).insert(
        "total_work"@,
        num(c.window_total as nat),
    ).insert(
        "identities"@,
        miners_part(c),
    )
}

proof fn lemma_window_value(c: Contents)
    ensures
        has_values(window_members(c)),
        window_text(c.window_target, c.window_total, c.miners) == object_text(window_members(c)),
        is_value(window_text(c.window_target, c.window_total, c.miners)),
{
    lemma_decimal_is_value(c.window_target as nat);
    lemma_decimal_is_value(c.window_total as nat);
    lemma_miners_pinned(by_name(c.miners), by_name(c.miners));
    let m0 = no_members();
    lemma_no_members();
    let m1 = m0.insert("target_work"@, num(c.window_target as nat));
    lemma_with_member(m0, "target_work"@, num(c.window_target as nat));
    let m2 = m1.insert("total_work"@, num(c.window_total as nat));
    lemma_with_member(m1, "total_work"@, num(c.window_total as nat));
    let m3 = m2.insert("identities"@, miners_part(c));
    lemma_with_member(m2, "identities"@, miners_part(c));
    lemma_object_is_value(window_members(c));
}

proof fn lemma_window_pinned(c: Contents, d: Contents)
    requires
        window_text(c.window_target, c.window_total, c.miners) == window_text(
            d.window_target,
            d.window_total,
            d.miners,
        ),
    ensures
        c.window_target == d.window_target,
        c.window_total == d.window_total,
        committed_stats(by_name(c.miners)) == committed_stats(by_name(d.miners)),
{
    lemma_window_value(c);
    lemma_window_value(d);
    let a = window_members(c);
    let b = window_members(d);
    lemma_object_faithful(a, b);
    lemma_marks();
    assert(a["target_work"@] == num(c.window_target as nat));
    assert(b["target_work"@] == num(d.window_target as nat));
    assert(a["total_work"@] == num(c.window_total as nat));
    assert(b["total_work"@] == num(d.window_total as nat));
    assert(a["identities"@] == miners_part(c) && b["identities"@] == miners_part(d));
    lemma_decimal_faithful(c.window_target as nat, d.window_target as nat);
    lemma_decimal_faithful(c.window_total as nat, d.window_total as nat);
    lemma_miners_pinned(by_name(c.miners), by_name(d.miners));
}

spec fn payees_part(s: SplitView) -> Seq<char> {
    array_text(Seq::new(s.payees.len(), |i: int| payee_text(s.payees[i])))
}

spec fn unpaid_part(s: SplitView) -> Seq<char> {
    array_text(Seq::new(s.unpaid.len(), |i: int| unpaid_text(s.unpaid[i])))
}

spec fn split_members(s: SplitView) -> Map<Seq<char>, Seq<char>> {
    no_members().insert(
        "fee_sats"@,
        num(s.fee_sats as nat),
    ).insert(
        "payees"@,
        payees_part(s),
    ).insert(
        "carry_paid"@,
        amounts_text(s.carry_paid),
    ).insert(
        "unpaid"@,
        unpaid_part(s),
    ).insert(
        "pool_sats"@,
        num(s.pool_sats as nat),
    )
}

proof fn lemma_split_value(s: SplitView)
    ensures
        has_values(split_members(s)),
        split_text(s) == object_text(split_members(s)),
        is_value(split_text(s)),
{
    lemma_decimal_is_value(s.fee_sats as nat);
    lemma_decimal_is_value(s.pool_sats as nat);
    lemma_payees_pinned(s.payees, s.payees);
    lemma_amounts_pinned(s.carry_paid, s.carry_paid);
    lemma_unpaid_list_pinned(s.unpaid, s.unpaid);
    let m0 = no_members();
    lemma_no_members();
    let m1 = m0.insert("fee_sats"@, num(s.fee_sats as nat));
    lemma_with_member(m0, "fee_sats"@, num(s.fee_sats as nat));
    let m2 = m1.insert("payees"@, payees_part(s));
    lemma_with_member(m1, "payees"@, payees_part(s));
    let m3 = m2.insert("carry_paid"@, amounts_text(s.carry_paid));
    lemma_with_member(m2, "carry_paid"@, amounts_text(s.carry_paid));
    let m4 = m3.insert("unpaid"@, unpaid_part(s));
    lemma_with_member(m3, "unpaid"@, unpaid_part(s));
    let m5 = m4.insert("pool_sats"@, num(s.pool_sats as nat));
    lemma_with_member(m4, "pool_sats"@, num(s.pool_sats as nat));
    lemma_object_is_value(split_members(s));
}

proof fn lemma_split_pinned(s: SplitView, t: SplitView)
    requires
        split_text(s) == split_text(t),
    ensures
        s == t,
{
    lemma_split_value(s);
    lemma_split_value(t);
    let a = split_members(s);
    let b = split_members(t);
    lemma_object_faithful(a, b);
    lemma_marks();
    assert(a["fee_sats"@] == num(s.fee_sats as nat) && b["fee_sats"@] == num(t.fee_sats as nat));
    assert(a["pool_sats"@] == num(s.pool_sats as nat));
    assert(b["pool_sats"@] == num(t.pool_sats as nat));
    assert(a["payees"@] == payees_part(s) && b["payees"@] == payees_part(t));
    assert(a["carry_paid"@] == amounts_text(s.carry_paid));
    assert(b["carry_paid"@] == amounts_text(t.carry_paid));
    assert(a["unpaid"@] == unpaid_part(s) && b["unpaid"@] == unpaid_part(t));
    lemma_decimal_faithful(s.fee_sats as nat, t.fee_sats as nat);
    lemma_decimal_faithful(s.pool_sats as nat, t.pool_sats as nat);
    lemma_payees_pinned(s.payees, t.payees);
    lemma_amounts_pinned(s.carry_paid, t.carry_paid);
    lemma_unpaid_list_pinned(s.unpaid, t.unpaid);
    assert(s =~= t);
}

spec fn overrides_part(c: Contents) -> Seq<char> {
    array_text(Seq::new(c.fee_overrides.len(), |i: int| override_text(c.fee_overrides[i])))
}

spec fn params_members(c: Contents) -> Map<Seq<char>, Seq<char>> {
    no_members().insert(
        "fee_bps"@,
        num(c.fee_bps as nat),
    ).insert(
        "stratum_fee_bps"@,
        num(c.stratum_fee_bps as nat),
    ).insert(
        "min_payout"@,
        num(c.min_payout as nat),
    ).insert(
        "max_outputs"@,
        num(c.max_outputs as nat),
    ).insert(
        "output_budget_bytes"@,
        num(c.output_budget_bytes as nat),
    ).insert(
        "max_payees"@,
        num(c.max_payees as nat),
    ).insert(
        "fee_overrides"@,
        overrides_part(c),
    ).insert(
        "rule"@,
        json_quoted(rule_text()),
    )
}

proof fn lemma_params_value(c: Contents)
    ensures
        has_values(params_members(c)),
        c.params() == object_text(params_members(c)),
        is_value(c.params()),
{
    lemma_decimal_is_value(c.fee_bps as nat);
    lemma_decimal_is_value(c.stratum_fee_bps as nat);
    lemma_decimal_is_value(c.min_payout as nat);
    lemma_decimal_is_value(c.max_outputs as nat);
    lemma_decimal_is_value(c.output_budget_bytes as nat);
    lemma_decimal_is_value(c.max_payees as nat);
    lemma_overrides_pinned(c.fee_overrides, c.fee_overrides);
    lemma_quoted_is_value(rule_text(), false);
    let m0 = no_members();
    lemma_no_members();
    let m1 = m0.insert("fee_bps"@, num(c.fee_bps as nat));
    lemma_with_member(m0, "fee_bps"@, num(c.fee_bps as nat));
    let m2 = m1.insert("stratum_fee_bps"@, num(c.stratum_fee_bps as nat));
    lemma_with_member(m1, "stratum_fee_bps"@, num(c.stratum_fee_bps as nat));
    let m3 = m2.insert("min_payout"@, num(c.min_payout as nat));
    lemma_with_member(m2, "min_payout"@, num(c.min_payout as nat));
    let m4 = m3.insert("max_outputs"@, num(c.max_outputs as nat));
    lemma_with_member(m3, "max_outputs"@, num(c.max_outputs as nat));
    let m5 = m4.insert("output_budget_bytes"@, num(c.output_budget_bytes as nat));
    lemma_with_member(m4, "output_budget_bytes"@, num(c.output_budget_bytes as nat));
    let m6 = m5.insert("max_payees"@, num(c.max_payees as nat));
    lemma_with_member(m5, "max_payees"@, num(c.max_payees as nat));
    let m7 = m6.insert("fee_overrides"@, overrides_part(c));
    lemma_with_member(m6, "fee_overrides"@, overrides_part(c));
    let m8 = m7.insert("rule"@, json_quoted(rule_text()));
    lemma_with_member(m7, "rule"@, json_quoted(rule_text()));
    lemma_object_is_value(params_members(c));
}

proof fn lemma_params_pinned(c: Contents, d: Contents)
    requires
        c.params() == d.params(),
    ensures
        c.fee_bps == d.fee_bps,
        c.stratum_fee_bps == d.stratum_fee_bps,
        c.min_payout == d.min_payout,
        c.max_outputs == d.max_outputs,
        c.output_budget_bytes == d.output_budget_bytes,
        c.max_payees == d.max_payees,
        c.fee_overrides == d.fee_overrides,
{
    lemma_params_value(c);
    lemma_params_value(d);
    let a = params_members(c);
    let b = params_members(d);
    lemma_object_faithful(a, b);
    lemma_marks();
    assert(a["fee_bps"@] == num(c.fee_bps as nat) && b["fee_bps"@] == num(d.fee_bps as nat));
    lemma_decimal_faithful(c.fee_bps as nat, d.fee_bps as nat);
    assert(a["stratum_fee_bps"@] == num(c.stratum_fee_bps as nat) && b["stratum_fee_bps"@] == num(d.stratum_fee_bps as nat));
    lemma_decimal_faithful(c.stratum_fee_bps as nat, d.stratum_fee_bps as nat);
    assert(a["min_payout"@] == num(c.min_payout as nat) && b["min_payout"@] == num(d.min_payout as nat));
    lemma_decimal_faithful(c.min_payout as nat, d.min_payout as nat);
    assert(a["max_outputs"@] == num(c.max_outputs as nat) && b["max_outputs"@] == num(d.max_outputs as nat));
    lemma_decimal_faithful(c.max_outputs as nat, d.max_outputs as nat);
    assert(a["output_budget_bytes"@] == num(c.output_budget_bytes as nat) && b["output_budget_bytes"@] == num(d.output_budget_bytes as nat));
    lemma_decimal_faithful(c.output_budget_bytes as nat, d.output_budget_bytes as nat);
    assert(a["max_payees"@] == num(c.max_payees as nat) && b["max_payees"@] == num(d.max_payees as nat));
    lemma_decimal_faithful(c.max_payees as nat, d.max_payees as nat);
    assert(a["fee_overrides"@] == overrides_part(c) && b["fee_overrides"@] == overrides_part(d));
    lemma_overrides_pinned(c.fee_overrides, d.fee_overrides);
}

spec fn snapshot_members(c: Contents) -> Map<Seq<char>, Seq<char>> {
    no_members().insert(
        "v"@,
        num(VERSION as nat),
    ).insert(
        "tag"@,
        json_quoted(c.tag),
    ).insert(
        "height"@,
        num(c.height as nat),
    ).insert(
        "prevhash"@,
        json_quoted(c.prev_hash_display_hex),
    ).insert(
        "ts"@,
        num(c.ts as nat),
    ).insert(
        "coinbase_value"@,
        num(c.value as nat),
    ).insert(
        "params"@,
        c.params(),
    ).insert(
        "window"@,
        window_text(c.window_target, c.window_total, c.miners),
    ).insert(
        "carry"@,
        amounts_text(c.carry),
    ).insert(
        "split"@,
        split_text(c.split),
    )
}

proof fn lemma_snapshot_value(c: Contents)
    ensures
        has_values(snapshot_members(c)),
        c.text() == object_text(snapshot_members(c)),
{
    lemma_decimal_is_value(VERSION as nat);
    lemma_quoted_is_value(c.tag, false);
    lemma_decimal_is_value(c.height as nat);
    lemma_quoted_is_value(c.prev_hash_display_hex, false);
    lemma_decimal_is_value(c.ts as nat);
    lemma_decimal_is_value(c.value as nat);
    lemma_params_value(c);
    lemma_window_value(c);
    lemma_amounts_pinned(c.carry, c.carry);
    lemma_split_value(c.split);
    let m0 = no_members();
    lemma_no_members();
    let m1 = m0.insert("v"@, num(VERSION as nat));
    lemma_with_member(m0, "v"@, num(VERSION as nat));
    let m2 = m1.insert("tag"@, json_quoted(c.tag));
    lemma_with_member(m1, "tag"@, json_quoted(c.tag));
    let m3 = m2.insert("height"@, num(c.height as nat));
    lemma_with_member(m2, "height"@, num(c.height as nat));
    let m4 = m3.insert("prevhash"@, json_quoted(c.prev_hash_display_hex));
    lemma_with_member(m3, "prevhash"@, json_quoted(c.prev_hash_display_hex));
    let m5 = m4.insert("ts"@, num(c.ts as nat));
    lemma_with_member(m4, "ts"@, num(c.ts as nat));
    let m6 = m5.insert("coinbase_value"@, num(c.value as nat));
    lemma_with_member(m5, "coinbase_value"@, num(c.value as nat));
    let m7 = m6.insert("params"@, c.params());
    lemma_with_member(m6, "params"@, c.params());
    let m8 = m7.insert("window"@, window_text(c.window_target, c.window_total, c.miners));
    lemma_with_member(m7, "window"@, window_text(c.window_target, c.window_total, c.miners));
    let m9 = m8.insert("carry"@, amounts_text(c.carry));
    lemma_with_member(m8, "carry"@, amounts_text(c.carry));
    let m10 = m9.insert("split"@, split_text(c.split));
    lemma_with_member(m9, "split"@, split_text(c.split));
}

/// A snapshot pins what it was taken of: two with the same canonical bytes agree on the template,
/// the parameters, the work of every identity, the carry and the split.
pub proof fn lemma_snapshot_pins_its_contents(c: Contents, d: Contents)
    requires
        encode_utf8(c.text()) == encode_utf8(d.text()),
    ensures
        c.tag == d.tag,
        c.height == d.height,
        c.prev_hash_display_hex == d.prev_hash_display_hex,
        c.ts == d.ts,
        c.value == d.value,
        c.fee_bps == d.fee_bps,
        c.stratum_fee_bps == d.stratum_fee_bps,
        c.min_payout == d.min_payout,
        c.max_outputs == d.max_outputs,
        c.output_budget_bytes == d.output_budget_bytes,
        c.max_payees == d.max_payees,
        c.fee_overrides == d.fee_overrides,
        c.window_target == d.window_target,
        c.window_total == d.window_total,
        committed_stats(by_name(c.miners)) == committed_stats(by_name(d.miners)),
        c.carry == d.carry,
        c.split == d.split,
{
    encode_utf8_decode_utf8(c.text());
    encode_utf8_decode_utf8(d.text());
    lemma_snapshot_value(c);
    lemma_snapshot_value(d);
    let a = snapshot_members(c);
    let b = snapshot_members(d);
    lemma_object_faithful(a, b);
    lemma_marks();
    assert(a["tag"@] == json_quoted(c.tag) && b["tag"@] == json_quoted(d.tag));
    assert(a["height"@] == num(c.height as nat) && b["height"@] == num(d.height as nat));
    assert(a["prevhash"@] == json_quoted(c.prev_hash_display_hex));
    assert(b["prevhash"@] == json_quoted(d.prev_hash_display_hex));
    assert(a["ts"@] == num(c.ts as nat) && b["ts"@] == num(d.ts as nat));
    assert(a["coinbase_value"@] == num(c.value as nat));
    assert(b["coinbase_value"@] == num(d.value as nat));
    assert(a["params"@] == c.params() && b["params"@] == d.params());
    assert(a["window"@] == window_text(c.window_target, c.window_total, c.miners));
    assert(b["window"@] == window_text(d.window_target, d.window_total, d.miners));
    assert(a["carry"@] == amounts_text(c.carry) && b["carry"@] == amounts_text(d.carry));
    assert(a["split"@] == split_text(c.split) && b["split"@] == split_text(d.split));
    lemma_quoted_faithful(c.tag, d.tag);
    lemma_decimal_faithful(c.height as nat, d.height as nat);
    lemma_quoted_faithful(c.prev_hash_display_hex, d.prev_hash_display_hex);
    lemma_decimal_faithful(c.ts as nat, d.ts as nat);
    lemma_decimal_faithful(c.value as nat, d.value as nat);
    lemma_params_pinned(c, d);
    lemma_window_pinned(c, d);
    lemma_amounts_pinned(c.carry, d.carry);
    lemma_split_pinned(c.split, d.split);
}

/// Whether a text is the hexadecimal form of a hash, in either case.
pub open spec fn is_hash_name(s: Seq<char>) -> bool {
    encode_utf8(s).len() == 64 && forall|i: int|
        0 <= i < encode_utf8(s).len() ==> is_hex_byte(#[trigger] encode_utf8(s)[i])
}

/// Whether a byte is an ASCII hexadecimal digit.
pub open spec fn is_hex_byte(b: u8) -> bool {
    0x30 <= b <= 0x39 || 0x41 <= b <= 0x46 || 0x61 <= b <= 0x66
}

/// Tells whether a text may name a snapshot.
pub fn names_snapshot(s: &str) -> (r: bool)
    ensures
        r == is_hash_name(s@),
{
    let b: &[u8] = s.as_bytes();
    if b.len() != 64 {
        return false;
    }
    let mut i: usize = 0;
    while i < b.len()
        invariant
            i <= b@.len(),
            b@ == encode_utf8(s@),
            forall|k: int| 0 <= k < i ==> is_hex_byte(#[trigger] b@[k]),
        decreases b@.len() - i,
    {
        let c: u8 = b[i];
        if !((0x30 <= c && c <= 0x39) || (0x41 <= c && c <= 0x46) || (0x61 <= c && c <= 0x66)) {
            return false;
        }
        i = i + 1;
    }
    true
}

/// Whether a stored snapshot is to be deleted: old enough, and no block commits to it.
pub fn is_expired(hash: &str, age: u64, now: u64, keep: &Vec<String>) -> (r: bool)
    ensures
        r == (age > KEEP_SECS && now > 0 && !texts_view(keep@).contains(hash@)),
        r ==> age > 2 * 86_400 && !texts_view(keep@).contains(hash@),
        now > 0 && age > 2 * 86_400 && !texts_view(keep@).contains(hash@) ==> r,
{
    let mut i: usize = 0;
    let ghost v = texts_view(keep@);
    while i < keep.len()
        invariant
            i <= keep@.len(),
            v == texts_view(keep@),
            forall|k: int| 0 <= k < i ==> (#[trigger] v[k]) != hash@,
        decreases keep@.len() - i,
    {
        if text_eq(keep[i].as_str(), hash) {
            assert(v[i as int] == hash@);
            return false;
        }
        i = i + 1;
    }
    assert(!v.contains(hash@));
    age > KEEP_SECS && now > 0
}

proof fn lemma_name_place_parts(v: Seq<MinerView>, identity: Seq<char>)
    requires
        forall|i: int, j: int|
            0 <= i < j < v.len() ==> !text_before(
                (#[trigger] v[j]).identity,
                (#[trigger] v[i]).identity,
            ),
    ensures
        name_place(v, identity) <= v.len(),
        forall|i: int|
            0 <= i < name_place(v, identity) ==> !text_before(identity, (#[trigger] v[i]).identity),
        forall|i: int|
            name_place(v, identity) <= i < v.len() ==> text_before(
                identity,
                (#[trigger] v[i]).identity,
            ),
    decreases v.len(),
{
    if v.len() > 0 {
        let t = v.drop_first();
        assert forall|i: int, j: int| 0 <= i < j < t.len() implies !text_before(
            (#[trigger] t[j]).identity,
            (#[trigger] t[i]).identity,
        ) by {
            assert(t[i] == v[i + 1] && t[j] == v[j + 1]);
        }
        lemma_name_place_parts(t, identity);
        if text_before(identity, v[0].identity) {
            assert forall|i: int| 0 <= i < v.len() implies text_before(
                identity,
                (#[trigger] v[i]).identity,
            ) by {
                if i > 0 {
                    assert(!text_before(v[i].identity, v[0].identity));
                    lemma_text_before_total(v[i].identity, v[0].identity);
                    if v[i].identity != v[0].identity {
                        lemma_text_before_trans(identity, v[0].identity, v[i].identity);
                    }
                }
            }
        } else {
            assert forall|i: int| 0 <= i < name_place(v, identity) implies !text_before(
                identity,
                (#[trigger] v[i]).identity,
            ) by {
                if i > 0 {
                    assert(t[i - 1] == v[i]);
                }
            }
            assert forall|i: int| name_place(v, identity) <= i < v.len() implies text_before(
                identity,
                (#[trigger] v[i]).identity,
            ) by {
                assert(t[i - 1] == v[i]);
            }
        }
    }
}

/// A snapshot lists the identities in the order of their names, each as often as the window does.
pub proof fn lemma_listed_in_name_order(v: Seq<MinerView>)
    ensures
        forall|i: int, j: int|
            0 <= i < j < by_name(v).len() ==> !text_before(
                (#[trigger] by_name(v)[j]).identity,
                (#[trigger] by_name(v)[i]).identity,
            ),
        by_name(v).to_multiset() == v.to_multiset(),
        by_name(v).len() == v.len(),
    decreases v.len(),
{
    let n = by_name(v);
    if v.len() > 0 {
        let l = v.drop_last();
        lemma_listed_in_name_order(l);
        let b = by_name(l);
        let m = v.last();
        lemma_name_place_parts(b, m.identity);
        let k = name_place(b, m.identity) as int;
        assert(n == b.insert(k, m));
        assert forall|i: int, j: int| 0 <= i < j < n.len() implies !text_before(
            (#[trigger] n[j]).identity,
            (#[trigger] n[i]).identity,
        ) by {
            let bi = if i < k { i } else { i - 1 };
            let bj = if j < k { j } else { j - 1 };
            if i == k {
                assert(n[j] == b[bj]);
                lemma_text_before_total(m.identity, b[bj].identity);
            } else if j == k {
                assert(n[i] == b[bi]);
            } else {
                assert(n[i] == b[bi] && n[j] == b[bj]);
            }
        }
        vstd::seq_lib::to_multiset_insert(b, k, m);
        assert(v =~= l.push(m));
        broadcast use vstd::seq_lib::group_to_multiset_ensures;

    } else {
        assert(n =~= v);
    }
}

/// The script that commits to a snapshot carries data, in one push: the bytes of the tag and then
/// the hash.
pub proof fn lemma_commitment_scripts(tag: Seq<u8>, hash: Seq<u8>)
    requires
        hash.len() == 32,
        tag.len() <= 43,
    ensures
        ({
            let s = commitment_script(tag, hash);
            &&& s.len() == 34 + tag.len()
            &&& s[0] == 0x6a
            &&& s[1] == tag.len() + 32
            &&& s.subrange(2, 2 + tag.len() as int) == tag
            &&& s.skip(2 + tag.len() as int) == hash
        }),
{
    let s = commitment_script(tag, hash);
    assert(s.subrange(2, 2 + tag.len() as int) =~= tag);
    assert(s.skip(2 + tag.len() as int) =~= hash);
}

/// The bytes of a snapshot's name are the hexadecimal digits of either case.
pub proof fn lemma_hex_bytes(b: u8)
    ensures
        is_hex_byte(b) <==> ('0' as u8 <= b <= '9' as u8) || ('a' as u8 <= b <= 'f' as u8) || (
        'A' as u8 <= b <= 'F' as u8),
{
}

} // verus!
