//! What the pool publishes about itself: recent work, the split a block would pay, what is owed,
//! and the chores that go with it.

use crate::address::{payable_script, to_script, Network};
use crate::blocks::live_split;
use crate::bytes::{begins_with, starts_with};
use crate::json::{
    all_texts, array, array_text, empty_object, json_quoted, json_text, object, object_text, put,
    Json,
};
use crate::names::NameMap;
use crate::pow::Hash32;
use crate::records::{records_view, BlockRecord, RecordView};
use crate::seen::{heights_from, heights_ok, lemma_prune, seen_outcome, HeightView, Seen};
use crate::session::{freshness_of, Freshness, TipSeen};
use crate::snapshot::no_members;
use crate::split::{
    miners_of, payees_sum, payees_view, unpaid_view, ParamsView, Payee, PayeeView, Split,
    SplitParams, UnpaidReason,
};
use crate::state::{workers_view, ClientInfo, WorkerStat, WorkerView, WORKER_RATE_S};
use crate::text::{
    decimal_of, lemma_text_before_total, lemma_text_before_trans, text_before, text_eq, text_less,
    texts_view,
};
use crate::tides::{
    lemma_index_of, miners_view, rows_of, work_in, work_sum, work_sum_of, Credit, MinerStat,
    MinerView, Window, WindowView,
};
use std::collections::HashMap;
use vstd::prelude::*;
use vstd::utf8::encode_utf8;

verus! {

broadcast use vstd::std_specs::hash::group_hash_axioms;

/// Seconds over which hash rates are taken.
pub const HASHRATE_WINDOW_S: u64 = 600;

/// Seconds of credits the ledger export goes back.
pub const LEDGER_EXPORT_S: u64 = 3600;

/// What a block is taken to be worth for the split that is shown.
pub const SAMPLE_VALUE: u64 = 312_500_000;

/// Shortest time a rate is taken over.
pub const MIN_SPAN_S: u64 = 30;

/// A cap on payees that nobody reaches: a split under it pays everyone with work and an address.
pub const RULE_PAYEES: usize = 100_000;

/// The rows after the last one that is not newer than `cutoff`.
pub open spec fn recent_rows(rows: Seq<Credit>, cutoff: u32) -> Seq<Credit>
    decreases rows.len(),
{
    if rows.len() == 0 || rows.last().ts <= cutoff {
        Seq::empty()
    } else {
        recent_rows(rows.drop_last(), cutoff).push(rows.last())
    }
}

/// The time of an identity's latest row.
pub open spec fn latest_of(rows: Seq<Credit>, ident: u32) -> u32
    decreases rows.len(),
{
    if rows.len() == 0 {
        0
    } else {
        let rest = latest_of(rows.drop_first(), ident);
        if rows[0].ident == ident && rows[0].ts > rest {
            rows[0].ts
        } else {
            rest
        }
    }
}

/// The earliest time among rows and `ts`.
pub open spec fn oldest_of(rows: Seq<Credit>, ts: u32) -> u32
    decreases rows.len(),
{
    if rows.len() == 0 {
        ts
    } else {
        let rest = oldest_of(rows.drop_first(), ts);
        if rows[0].ts < rest {
            rows[0].ts
        } else {
            rest
        }
    }
}

/// A time some seconds before another, as rows keep times.
pub open spec fn cutoff_for(ts: u64, span: u64) -> u32 {
    if ts > span {
        (ts - span) as u32
    } else {
        0
    }
}

proof fn lemma_recent(rows: Seq<Credit>, cutoff: u32, i: int)
    requires
        0 <= i <= rows.len(),
        i > 0 ==> rows[i - 1].ts <= cutoff,
        forall|k: int| i <= k < rows.len() ==> (#[trigger] rows[k]).ts > cutoff,
    ensures
        recent_rows(rows, cutoff) == rows.skip(i),
    decreases rows.len(),
{
    if i == rows.len() {
        assert(rows.skip(i) =~= Seq::empty());
    } else {
        let w = rows.drop_last();
        assert forall|k: int| i <= k < w.len() implies (#[trigger] w[k]).ts > cutoff by {
            assert(w[k] == rows[k]);
        }
        lemma_recent(w, cutoff, i);
        assert(w.skip(i).push(rows.last()) =~= rows.skip(i));
        assert(rows[rows.len() - 1].ts > cutoff);
    }
}

proof fn lemma_suffix_sum(rows: Seq<Credit>, i: int)
    requires
        0 <= i <= rows.len(),
    ensures
        work_sum(rows.skip(i)) <= work_sum(rows),
    decreases i,
{
    if i > 0 {
        lemma_suffix_sum(rows, i - 1);
        assert(rows.skip(i - 1).drop_first() =~= rows.skip(i));
    } else {
        assert(rows.skip(0) =~= rows);
    }
}

proof fn lemma_sum_of(rows: Seq<Credit>, ident: u32)
    ensures
        work_sum_of(rows, ident) <= work_sum(rows),
    decreases rows.len(),
{
    if rows.len() > 0 {
        lemma_sum_of(rows.drop_first(), ident);
    }
}

/// Work of the last minutes.
pub struct Recent {
    /// The work and the latest time of each identity that has any.
    pub by_ident: HashMap<u32, (u64, u32)>,
    pub total: u64,
    pub oldest: u32,
}

impl Recent {
    /// Whether this is the work of some rows, at some time.
    pub open spec fn is_of(&self, rows: Seq<Credit>, ts: u32) -> bool {
        &&& self.total == work_sum(rows)
        &&& self.oldest == oldest_of(rows, ts)
        &&& forall|k: u32| #[trigger] self.by_ident@.contains_key(k) <==> rows_of(rows, k) > 0
        &&& forall|k: u32|
            self.by_ident@.contains_key(k) ==> (#[trigger] self.by_ident@[k]).0 == work_sum_of(
                rows,
                k,
            ) && self.by_ident@[k].1 == latest_of(rows, k)
    }
}

/// The rows that count toward hash rates.
pub open spec fn rate_rows(w: WindowView, ts: u64) -> Seq<Credit> {
    recent_rows(w.rows, cutoff_for(ts, HASHRATE_WINDOW_S))
}

fn cutoff(ts: u64, span: u64) -> (c: u32)
    ensures
        c == cutoff_for(ts, span),
{
    if ts > span {
        #[verifier::truncate]
        ((ts - span) as u32)
    } else {
        0
    }
}

proof fn lemma_no_rows(rows: Seq<Credit>, ident: u32)
    ensures
        rows_of(rows, ident) == 0 ==> work_sum_of(rows, ident) == 0 && latest_of(rows, ident) == 0,
    decreases rows.len(),
{
    if rows.len() > 0 {
        lemma_no_rows(rows.drop_first(), ident);
    }
}

/// Adds up the work of the last minutes, from the newest row on.
pub fn recent_work(window: &Window, ts: u64) -> (r: Recent)
    requires
        window.wf(),
        window@.exact(),
    ensures
        r.is_of(rate_rows(window@, ts), ts as u32),
{
    let cut: u32 = cutoff(ts, HASHRATE_WINDOW_S);
    let ghost rows = window@.rows;
    let now: u32 = #[verifier::truncate] (ts as u32);
    let mut r = Recent { by_ident: HashMap::new(), total: 0, oldest: now };
    let mut i: usize = window.len();
    proof {
        assert(rows.skip(rows.len() as int) =~= Seq::empty());
    }
    while i > 0 && window.row(i - 1).ts > cut
        invariant
            i <= rows.len(),
            window.wf(),
            window@.exact(),
            rows == window@.rows,
            now == ts as u32,
            r.is_of(rows.skip(i as int), now),
            forall|k: int| i <= k < rows.len() ==> (#[trigger] rows[k]).ts > cut,
        decreases i,
    {
        let c: Credit = window.row(i - 1);
        let ghost before = r.by_ident@;
        let ghost rest = rows.skip(i as int);
        let ghost here = rows.skip(i - 1);
        proof {
            assert(here.drop_first() =~= rest);
            assert(here[0] == c);
            lemma_suffix_sum(rows, i - 1);
            lemma_sum_of(here, c.ident);
            lemma_no_rows(rest, c.ident);
        }
        let (w, last): (u64, u32) = match r.by_ident.get(&c.ident) {
            Some(e) => *e,
            None => (0, 0),
        };
        let last_now: u32 = if c.ts > last {
            c.ts
        } else {
            last
        };
        r.by_ident.insert(c.ident, (w + c.work, last_now));
        r.total = r.total + c.work;
        if c.ts < r.oldest {
            r.oldest = c.ts;
        }
        proof {
            assert forall|k: u32|
                r.by_ident@.contains_key(k) implies (#[trigger] r.by_ident@[k]).0 == work_sum_of(
                here,
                k,
            ) && r.by_ident@[k].1 == latest_of(here, k) by {
                if k != c.ident {
                    assert(r.by_ident@[k] == before[k]);
                }
            }
        }
        i = i - 1;
    }
    proof {
        lemma_recent(rows, cut, i as int);
    }
    r
}

/// Seconds the rate is taken over: since the oldest of the rows or since the start, whichever is
/// longer, but no less than [`MIN_SPAN_S`] and no more than `most`.
pub open spec fn span_of(ts: u64, oldest: u64, started: u64, most: u64) -> u64 {
    let a = if ts > oldest {
        ts - oldest
    } else {
        0
    };
    let b = if ts > started {
        ts - started
    } else {
        0
    };
    let n = if a > b {
        a
    } else {
        b
    };
    if n < MIN_SPAN_S {
        MIN_SPAN_S
    } else if n > most {
        most
    } else {
        n as u64
    }
}

/// Tells the seconds the rate is taken over.
pub fn span(ts: u64, oldest: u64, started: u64, most: u64) -> (n: u64)
    requires
        MIN_SPAN_S <= most,
    ensures
        n == span_of(ts, oldest, started, most),
{
    let a: u64 = ts.saturating_sub(oldest);
    let b: u64 = ts.saturating_sub(started);
    let n: u64 = if a > b {
        a
    } else {
        b
    };
    if n < MIN_SPAN_S {
        MIN_SPAN_S
    } else if n > most {
        most
    } else {
        n
    }
}

/// What a split pays a name.
pub open spec fn sats_of(v: Seq<PayeeView>, name: Seq<char>) -> u64
    decreases v.len(),
{
    if v.len() == 0 {
        0
    } else if v.last().identity == name {
        v.last().sats
    } else {
        sats_of(v.drop_last(), name)
    }
}

fn sats_for(v: &Vec<Payee>, name: &str) -> (n: u64)
    ensures
        n == sats_of(payees_view(v@), name@),
{
    let ghost p = payees_view(v@);
    let mut i: usize = v.len();
    assert(p.take(p.len() as int) =~= p);
    while i > 0
        invariant
            i <= v@.len(),
            p == payees_view(v@),
            sats_of(p, name@) == sats_of(p.take(i as int), name@),
        decreases i,
    {
        assert(p.take(i as int).drop_last() =~= p.take(i - 1));
        assert(p.take(i as int).last() == p[i - 1]);
        if text_eq(v[i - 1].identity.as_str(), name) {
            return v[i - 1].sats;
        }
        i = i - 1;
    }
    0
}

/// Why a split does not pay a name.
pub open spec fn reason_of(v: Seq<(Seq<char>, u64, UnpaidReason)>, name: Seq<char>) -> Option<
    UnpaidReason,
>
    decreases v.len(),
{
    if v.len() == 0 {
        None
    } else if v.last().0 == name {
        Some(v.last().2)
    } else {
        reason_of(v.drop_last(), name)
    }
}

fn reason_for(v: &Vec<(String, u64, UnpaidReason)>, name: &str) -> (r: Option<UnpaidReason>)
    ensures
        r == reason_of(unpaid_view(v@), name@),
{
    let ghost p = unpaid_view(v@);
    let mut i: usize = v.len();
    assert(p.take(p.len() as int) =~= p);
    while i > 0
        invariant
            i <= v@.len(),
            p == unpaid_view(v@),
            reason_of(p, name@) == reason_of(p.take(i as int), name@),
        decreases i,
    {
        assert(p.take(i as int).drop_last() =~= p.take(i - 1));
        assert(p.take(i as int).last() == p[i - 1]);
        if text_eq(v[i - 1].0.as_str(), name) {
            return Some(v[i - 1].2);
        }
        i = i - 1;
    }
    None
}

/// What is shown of one identity of the window.
#[derive(Clone, Debug, PartialEq, Eq)]
pub struct MinerRow {
    pub identity: String,
    pub work: u64,
    pub stratum_work: u64,
    /// Whether most of its work came over the pool's own stratum.
    pub mostly_stratum: bool,
    pub credits: u64,
    /// What a block of [`SAMPLE_VALUE`] would pay it.
    pub payout_sats: u64,
    /// Why such a block would not.
    pub unpaid_reason: Option<UnpaidReason>,
    /// What it would be paid were there no cap on payees.
    pub rule_sats: u64,
    pub payable: bool,
    pub fee_bps: u32,
    pub stratum_fee_bps: u32,
    /// Its work of the last minutes.
    pub recent_work: u64,
    pub last_share_s: u64,
}

/// What a [`MinerRow`] holds.
#[verifier::ext_equal]
pub struct MinerRowView {
    pub identity: Seq<char>,
    pub work: u64,
    pub stratum_work: u64,
    pub mostly_stratum: bool,
    pub credits: u64,
    pub payout_sats: u64,
    pub unpaid_reason: Option<UnpaidReason>,
    pub rule_sats: u64,
    pub payable: bool,
    pub fee_bps: u32,
    pub stratum_fee_bps: u32,
    pub recent_work: u64,
    pub last_share_s: u64,
}

impl View for MinerRow {
    type V = MinerRowView;

    open spec fn view(&self) -> MinerRowView {
        MinerRowView {
            identity: self.identity@,
            work: self.work,
            stratum_work: self.stratum_work,
            mostly_stratum: self.mostly_stratum,
            credits: self.credits,
            payout_sats: self.payout_sats,
            unpaid_reason: self.unpaid_reason,
            rule_sats: self.rule_sats,
            payable: self.payable,
            fee_bps: self.fee_bps,
            stratum_fee_bps: self.stratum_fee_bps,
            recent_work: self.recent_work,
            last_share_s: self.last_share_s,
        }
    }
}

/// The published rule: everyone with work is paid by work and at least the minimum, and the pool
/// keeps its fee. That is a split whose cap is out of reach.
pub open spec fn rule_params(p: ParamsView) -> ParamsView {
    ParamsView { max_payees: RULE_PAYEES as nat, ..p }
}

/// What is shown of one identity.
pub open spec fn miner_row(w: WindowView, m: MinerView, p: ParamsView, net: Network, ts: u64) ->
    MinerRowView {
    let recent = rate_rows(w, ts);
    let ident = w.idents.index_of(m.identity) as u32;
    let split = live_split(w, SAMPLE_VALUE, p, net);
    let rule = live_split(w, SAMPLE_VALUE, rule_params(p), net);
    let last = if latest_of(recent, ident) > m.last_ts {
        latest_of(recent, ident)
    } else {
        m.last_ts
    };
    MinerRowView {
        identity: m.identity,
        work: m.work,
        stratum_work: m.stratum_work,
        mostly_stratum: 2 * m.stratum_work > m.work,
        credits: m.credits,
        payout_sats: sats_of(split.payees, m.identity),
        unpaid_reason: reason_of(split.unpaid, m.identity),
        rule_sats: sats_of(rule.payees, m.identity),
        payable: payable_script(m.identity, net).is_some(),
        fee_bps: p.bps(m.identity).1,
        stratum_fee_bps: p.bps(m.identity).0,
        recent_work: work_sum_of(recent, ident) as u64,
        last_share_s: if ts > last {
            (ts - last) as u64
        } else {
            0
        },
    }
}

/// What is shown of the window.
pub struct Overview {
    pub miners: Vec<MinerRow>,
    /// The split a block of [`SAMPLE_VALUE`] would pay now.
    pub split: Split,
    /// The same with no cap on payees.
    pub rule_split: Split,
    /// Work of the last minutes.
    pub recent_total: u64,
    /// Seconds that work is spread over.
    pub span_s: u64,
}

/// Works out what is shown of the window.
pub fn overview(window: &Window, params: &SplitParams, net: Network, ts: u64, started_ts: u64) -> (o:
    Overview)
    requires
        window.wf(),
        window@.exact(),
        params.wf(),
    ensures
        o.miners@.len() == miners_of(window@).len(),
        forall|i: int|
            0 <= i < o.miners@.len() ==> (#[trigger] o.miners@[i])@ == miner_row(
                window@,
                miners_of(window@)[i],
                params@,
                net,
                ts,
            ),
        o.split@ == live_split(window@, SAMPLE_VALUE, params@, net),
        o.rule_split@ == live_split(window@, SAMPLE_VALUE, rule_params(params@), net),
        payees_sum(o.split@.payees) + o.split.pool_sats == SAMPLE_VALUE,
        payees_sum(o.rule_split@.payees) + o.rule_split.pool_sats == SAMPLE_VALUE,
        o.recent_total == work_sum(rate_rows(window@, ts)),
        o.span_s == span_of(
            ts,
            oldest_of(rate_rows(window@, ts), ts as u32) as u64,
            started_ts,
            HASHRATE_WINDOW_S,
        ),
{
    let recent: Recent = recent_work(window, ts);
    let ghost rows = rate_rows(window@, ts);
    let span_s: u64 = span(ts, recent.oldest as u64, started_ts, HASHRATE_WINDOW_S);
    let split: Split = window.split(SAMPLE_VALUE, params, net);
    let mut uncapped: SplitParams = params.duplicate();
    uncapped.max_payees = RULE_PAYEES;
    assert(uncapped@ =~= rule_params(params@));
    let rule_split: Split = window.split(SAMPLE_VALUE, &uncapped, net);
    let stats: Vec<MinerStat> = window.miners();
    let ghost w = window@;
    proof {
        crate::split::lemma_miners_of(w, miners_view(stats@));
    }
    let mut miners: Vec<MinerRow> = Vec::new();
    let mut i: usize = 0;
    while i < stats.len()
        invariant
            i <= stats@.len(),
            window.wf(),
            w == window@,
            w.exact(),
            params.wf(),
            miners_of(w) == miners_view(stats@),
            w.lists_miners(miners_view(stats@)),
            rows == rate_rows(w, ts),
            recent.is_of(rows, ts as u32),
            split@ == live_split(w, SAMPLE_VALUE, params@, net),
            rule_split@ == live_split(w, SAMPLE_VALUE, rule_params(params@), net),
            miners@.len() == i,
            forall|k: int|
                0 <= k < i ==> (#[trigger] miners@[k])@ == miner_row(
                    w,
                    miners_of(w)[k],
                    params@,
                    net,
                    ts,
                ),
        decreases stats@.len() - i,
    {
        let m: &MinerStat = &stats[i];
        let name: &str = m.identity.as_str();
        let idx: Option<u32> = window.index_of(name);
        proof {
            window.lemma_view_wf();
            let mv = miners_view(stats@)[i as int];
            assert(w.has_stat(mv, w.idents.len()));
            let ident = choose|ident: u32|
                ident < w.idents.len() && #[trigger] w.totals.contains_key(ident) && mv
                    == w.stat_of(ident);
            lemma_index_of(w.idents, ident as int);
            lemma_index_of(w.idents, idx.unwrap() as int);
            lemma_no_rows(rows, ident);
            lemma_sum_of(rows, ident);
            assert(work_sum(rows) == recent.total);
        }
        let (recent_work, last): (u64, u32) = match idx {
            Some(k) => match recent.by_ident.get(&k) {
                Some(e) => *e,
                None => (0, m.last_ts),
            },
            None => (0, m.last_ts),
        };
        let latest: u32 = if last > m.last_ts {
            last
        } else {
            m.last_ts
        };
        let (stratum_fee_bps, fee_bps) = params.bps_for(name);
        miners.push(
            MinerRow {
                identity: m.identity.clone(),
                work: m.work,
                stratum_work: m.stratum_work,
                mostly_stratum: m.stratum_work as u128 * 2 > m.work as u128,
                credits: m.credits,
                payout_sats: sats_for(&split.payees, name),
                unpaid_reason: reason_for(&split.unpaid, name),
                rule_sats: sats_for(&rule_split.payees, name),
                payable: to_script(name, net).is_some(),
                fee_bps,
                stratum_fee_bps,
                recent_work,
                last_share_s: ts.saturating_sub(latest as u64),
            },
        );
        assert(miners@[i as int]@ =~= miner_row(w, miners_of(w)[i as int], params@, net, ts));
        i = i + 1;
    }
    Overview { miners, split, rule_split, recent_total: recent.total, span_s }
}

/// Whether a record is of a block that is not in the main chain.
pub open spec fn is_orphan(r: RecordView) -> bool {
    begins_with(encode_utf8(r.kind), encode_utf8("orphan"@))
}

/// What the pool owes for the blocks that are not orphans.
pub open spec fn owed_for(v: Seq<RecordView>) -> nat
    decreases v.len(),
{
    if v.len() == 0 {
        0
    } else {
        owed_for(v.drop_last()) + if is_orphan(v.last()) {
            0
        } else {
            v.last().owed_sats as nat
        }
    }
}

proof fn lemma_owed_prefix(v: Seq<RecordView>, i: int)
    requires
        0 <= i <= v.len(),
    ensures
        owed_for(v.take(i)) <= owed_for(v),
    decreases v.len() - i,
{
    if i < v.len() {
        lemma_owed_prefix(v, i + 1);
        assert(v.take(i + 1).drop_last() =~= v.take(i));
    } else {
        assert(v.take(i) =~= v);
    }
}

/// Adds up what the pool owes for its blocks.
pub fn owed(blocks: &Vec<BlockRecord>) -> (n: u64)
    requires
        owed_for(records_view(blocks@)) <= u64::MAX,
    ensures
        n == owed_for(records_view(blocks@)),
{
    let ghost v = records_view(blocks@);
    let mut n: u64 = 0;
    let mut i: usize = 0;
    assert(v.take(0) =~= Seq::empty());
    while i < blocks.len()
        invariant
            i <= blocks@.len(),
            v == records_view(blocks@),
            n == owed_for(v.take(i as int)),
            owed_for(v) <= u64::MAX,
        decreases blocks@.len() - i,
    {
        proof {
            assert(v.take(i + 1).drop_last() =~= v.take(i as int));
            lemma_owed_prefix(v, i + 1);
        }
        if !starts_with(blocks[i].kind.as_str().as_bytes(), "orphan".as_bytes()) {
            n = n + blocks[i].owed_sats;
        }
        i = i + 1;
    }
    assert(v.take(v.len() as int) =~= v);
    n
}

/// How the coinbases of all gateways' shares paid: in full, in part, only the pool, elsewhere.
pub open spec fn kinds_of(v: Seq<ClientInfo>) -> (nat, nat, nat, nat)
    decreases v.len(),
{
    if v.len() == 0 {
        (0, 0, 0, 0)
    } else {
        let k = kinds_of(v.drop_last());
        let c = v.last();
        (
            k.0 + c.cb_split as nat,
            k.1 + c.cb_partial as nat,
            k.2 + c.cb_pool_only as nat,
            k.3 + c.cb_foreign as nat,
        )
    }
}

proof fn lemma_kinds_prefix(v: Seq<ClientInfo>, i: int)
    requires
        0 <= i <= v.len(),
    ensures
        kinds_of(v.take(i)).0 <= kinds_of(v).0,
        kinds_of(v.take(i)).1 <= kinds_of(v).1,
        kinds_of(v.take(i)).2 <= kinds_of(v).2,
        kinds_of(v.take(i)).3 <= kinds_of(v).3,
    decreases v.len() - i,
{
    if i < v.len() {
        lemma_kinds_prefix(v, i + 1);
        assert(v.take(i + 1).drop_last() =~= v.take(i));
    } else {
        assert(v.take(i) =~= v);
    }
}

/// Adds up how coinbases paid.
pub fn coinbase_kinds(clients: &Vec<ClientInfo>) -> (r: (u64, u64, u64, u64))
    requires
        kinds_of(clients@).0 <= u64::MAX,
        kinds_of(clients@).1 <= u64::MAX,
        kinds_of(clients@).2 <= u64::MAX,
        kinds_of(clients@).3 <= u64::MAX,
    ensures
        (r.0 as nat, r.1 as nat, r.2 as nat, r.3 as nat) == kinds_of(clients@),
{
    let mut split: u64 = 0;
    let mut partial: u64 = 0;
    let mut pool_only: u64 = 0;
    let mut foreign: u64 = 0;
    let mut i: usize = 0;
    let ghost v = clients@;
    assert(v.take(0) =~= Seq::empty());
    while i < clients.len()
        invariant
            i <= clients@.len(),
            v == clients@,
            kinds_of(v).0 <= u64::MAX,
            kinds_of(v).1 <= u64::MAX,
            kinds_of(v).2 <= u64::MAX,
            kinds_of(v).3 <= u64::MAX,
            (split as nat, partial as nat, pool_only as nat, foreign as nat) == kinds_of(
                v.take(i as int),
            ),
        decreases clients@.len() - i,
    {
        proof {
            assert(v.take(i + 1).drop_last() =~= v.take(i as int));
            lemma_kinds_prefix(v, i + 1);
        }
        split = split + clients[i].cb_split;
        partial = partial + clients[i].cb_partial;
        pool_only = pool_only + clients[i].cb_pool_only;
        foreign = foreign + clients[i].cb_foreign;
        i = i + 1;
    }
    assert(v.take(v.len() as int) =~= v);
    (split, partial, pool_only, foreign)
}

/// The work of shares.
pub open spec fn shares_work(v: Seq<(u64, u64)>) -> nat
    decreases v.len(),
{
    if v.len() == 0 {
        0
    } else {
        shares_work(v.drop_last()) + v.last().1 as nat
    }
}

proof fn lemma_shares_prefix(v: Seq<(u64, u64)>, i: int)
    requires
        0 <= i <= v.len(),
    ensures
        shares_work(v.take(i)) <= shares_work(v),
    decreases v.len() - i,
{
    if i < v.len() {
        lemma_shares_prefix(v, i + 1);
        assert(v.take(i + 1).drop_last() =~= v.take(i));
    } else {
        assert(v.take(i) =~= v);
    }
}

/// The work of a worker's recent shares, and the seconds it is spread over.
pub fn worker_rate(w: &WorkerStat, ts: u64) -> (r: (u64, u64))
    requires
        shares_work(w@.recent) <= u64::MAX,
    ensures
        r.0 == shares_work(w@.recent),
        r.1 == span_of(
            ts,
            if w@.recent.len() > 0 {
                w@.recent[0].0
            } else {
                ts
            },
            ts,
            WORKER_RATE_S,
        ),
{
    let ghost v = w@.recent;
    let mut n: u64 = 0;
    let mut i: usize = 0;
    assert(v.take(0) =~= Seq::empty());
    while i < w.recent.len()
        invariant
            i <= w.recent@.len(),
            v == w.recent@,
            n == shares_work(v.take(i as int)),
            shares_work(v) <= u64::MAX,
        decreases w.recent@.len() - i,
    {
        proof {
            assert(v.take(i + 1).drop_last() =~= v.take(i as int));
            lemma_shares_prefix(v, i + 1);
        }
        n = n + w.recent[i].1;
        i = i + 1;
    }
    assert(v.take(v.len() as int) =~= v);
    let oldest: u64 = if w.recent.len() > 0 {
        w.recent[0].0
    } else {
        ts
    };
    (n, span(ts, oldest, ts, WORKER_RATE_S))
}

/// Whether a worker is listed before another: by identity, and by name under one identity.
pub open spec fn worker_before(a: WorkerView, b: WorkerView) -> bool {
    text_before(a.identity, b.identity) || (a.identity == b.identity && text_before(
        a.worker,
        b.worker,
    ))
}

/// Whether the worker at `a` is listed before the one at `b`; those of one name keep their order.
pub open spec fn listed_first(v: Seq<WorkerView>, a: int, b: int) -> bool {
    worker_before(v[a], v[b]) || (!worker_before(v[b], v[a]) && a < b)
}

proof fn lemma_worker_order(a: WorkerView, b: WorkerView, c: WorkerView)
    ensures
        !(worker_before(a, b) && worker_before(b, a)),
        worker_before(a, b) && worker_before(b, c) ==> worker_before(a, c),
        worker_before(a, b) && !worker_before(c, b) ==> worker_before(a, c),
{
    lemma_text_before_total(a.identity, b.identity);
    lemma_text_before_total(b.identity, c.identity);
    lemma_text_before_total(a.worker, b.worker);
    lemma_text_before_total(b.worker, c.worker);
    if text_before(a.identity, b.identity) && text_before(b.identity, c.identity) {
        lemma_text_before_trans(a.identity, b.identity, c.identity);
    }
    if text_before(a.worker, b.worker) && text_before(b.worker, c.worker) {
        lemma_text_before_trans(a.worker, b.worker, c.worker);
    }
}

fn worker_less(a: &WorkerStat, b: &WorkerStat) -> (r: bool)
    ensures
        r == worker_before(a@, b@),
{
    text_less(a.identity.as_str(), b.identity.as_str()) || (text_eq(
        a.identity.as_str(),
        b.identity.as_str(),
    ) && text_less(a.worker.as_str(), b.worker.as_str()))
}

/// The order in which workers are listed: by identity, and by name under one identity.
pub fn workers_in_order(workers: &Vec<WorkerStat>) -> (order: Vec<usize>)
    ensures
        order@.len() == workers@.len(),
        forall|i: int| 0 <= i < order@.len() ==> (#[trigger] order@[i]) < workers@.len(),
        forall|i: int, j: int|
            0 <= i < j < order@.len() ==> listed_first(
                workers_view(workers@),
                #[trigger] order@[i] as int,
                #[trigger] order@[j] as int,
            ),
{
    let ghost v = workers_view(workers@);
    let mut order: Vec<usize> = Vec::new();
    let mut i: usize = 0;
    while i < workers.len()
        invariant
            i <= workers@.len(),
            v == workers_view(workers@),
            order@.len() == i,
            forall|k: int| 0 <= k < order@.len() ==> (#[trigger] order@[k]) < i,
            forall|a: int, b: int|
                0 <= a < b < order@.len() ==> listed_first(
                    v,
                    #[trigger] order@[a] as int,
                    #[trigger] order@[b] as int,
                ),
        decreases workers@.len() - i,
    {
        let ghost before = order@;
        let mut k: usize = 0;
        while k < order.len() && !worker_less(&workers[i], &workers[order[k]])
            invariant
                k <= order@.len(),
                i < workers@.len(),
                v == workers_view(workers@),
                order@ == before,
                forall|j: int| 0 <= j < order@.len() ==> (#[trigger] order@[j]) < i,
                forall|j: int|
                    0 <= j < k ==> !worker_before(v[i as int], v[#[trigger] order@[j] as int]),
            decreases order@.len() - k,
        {
            k = k + 1;
        }
        order.insert(k, i);
        proof {
            assert(order@ == before.insert(k as int, i));
            assert forall|j: int| 0 <= j < order@.len() implies (#[trigger] order@[j]) < i + 1 by {
                if j < k {
                    assert(order@[j] == before[j]);
                } else if j > k {
                    assert(order@[j] == before[j - 1]);
                }
            }
            assert forall|a: int, b: int| 0 <= a < b < order@.len() implies listed_first(
                v,
                #[trigger] order@[a] as int,
                #[trigger] order@[b] as int,
            ) by {
                let x = order@[a] as int;
                let y = order@[b] as int;
                if b < k {
                    assert(order@[a] == before[a] && order@[b] == before[b]);
                } else if b == k {
                    assert(order@[a] == before[a]);
                    assert(!worker_before(v[i as int], v[before[a] as int]));
                } else {
                    assert(order@[b] == before[b - 1]);
                    if a < k {
                        assert(order@[a] == before[a]);
                    } else if a > k {
                        assert(order@[a] == before[a - 1]);
                    } else {
                        let first = before[k as int] as int;
                        assert(worker_before(v[i as int], v[first]));
                        if b - 1 > k {
                            assert(listed_first(v, before[k as int] as int, before[b - 1] as int));
                            lemma_worker_order(v[i as int], v[first], v[y]);
                            lemma_worker_order(v[first], v[y], v[first]);
                        }
                    }
                }
            }
        }
        i = i + 1;
    }
    order
}

/// Blocks that are shown.
pub const SHOWN_BLOCKS: usize = 100;

/// Where the blocks stand that are shown: the newest first, and no more than [`SHOWN_BLOCKS`].
pub fn shown_blocks(blocks: &Vec<BlockRecord>) -> (r: Vec<usize>)
    ensures
        r@.len() == if blocks@.len() < SHOWN_BLOCKS {
            blocks@.len()
        } else {
            SHOWN_BLOCKS as nat
        },
        forall|i: int| 0 <= i < r@.len() ==> (#[trigger] r@[i]) == blocks@.len() - 1 - i,
{
    let mut r: Vec<usize> = Vec::new();
    let mut left: usize = blocks.len();
    while left > 0 && r.len() < SHOWN_BLOCKS
        invariant
            left + r@.len() == blocks@.len(),
            r@.len() <= SHOWN_BLOCKS,
            forall|i: int| 0 <= i < r@.len() ==> (#[trigger] r@[i]) == blocks@.len() - 1 - i,
        decreases left,
    {
        left = left - 1;
        r.push(left);
    }
    r
}

/// Whether the gateway at `a` is listed before the one at `b`: by number, and in their order where
/// that is the same.
pub open spec fn client_first(v: Seq<ClientInfo>, a: int, b: int) -> bool {
    v[a].id < v[b].id || (v[a].id == v[b].id && a < b)
}

/// The order in which gateways are listed: by number.
pub fn clients_in_order(clients: &Vec<ClientInfo>) -> (order: Vec<usize>)
    ensures
        order@.len() == clients@.len(),
        forall|i: int| 0 <= i < order@.len() ==> (#[trigger] order@[i]) < clients@.len(),
        forall|i: int, j: int|
            0 <= i < j < order@.len() ==> client_first(
                clients@,
                #[trigger] order@[i] as int,
                #[trigger] order@[j] as int,
            ),
{
    let ghost v = clients@;
    let mut order: Vec<usize> = Vec::new();
    let mut i: usize = 0;
    while i < clients.len()
        invariant
            i <= clients@.len(),
            v == clients@,
            order@.len() == i,
            forall|k: int| 0 <= k < order@.len() ==> (#[trigger] order@[k]) < i,
            forall|a: int, b: int|
                0 <= a < b < order@.len() ==> client_first(
                    v,
                    #[trigger] order@[a] as int,
                    #[trigger] order@[b] as int,
                ),
        decreases clients@.len() - i,
    {
        let ghost before = order@;
        let mut k: usize = 0;
        while k < order.len() && clients[order[k]].id <= clients[i].id
            invariant
                k <= order@.len(),
                i < clients@.len(),
                v == clients@,
                order@ == before,
                forall|j: int| 0 <= j < order@.len() ==> (#[trigger] order@[j]) < i,
                forall|j: int| 0 <= j < k ==> v[#[trigger] order@[j] as int].id <= v[i as int].id,
            decreases order@.len() - k,
        {
            k = k + 1;
        }
        order.insert(k, i);
        proof {
            assert(order@ == before.insert(k as int, i));
            assert forall|a: int, b: int| 0 <= a < b < order@.len() implies client_first(
                v,
                #[trigger] order@[a] as int,
                #[trigger] order@[b] as int,
            ) by {
                if b < k {
                    assert(order@[a] == before[a] && order@[b] == before[b]);
                } else if b == k {
                    assert(order@[a] == before[a]);
                } else {
                    assert(order@[b] == before[b - 1]);
                    if a < k {
                        assert(order@[a] == before[a]);
                    } else if a > k {
                        assert(order@[a] == before[a - 1]);
                    } else if b - 1 > k {
                        assert(client_first(v, before[k as int] as int, before[b - 1] as int));
                    }
                }
            }
        }
        i = i + 1;
    }
    order
}

/// Seconds since a time, none where it is yet to come.
pub open spec fn age_of(ts: u64, since: u64) -> u64 {
    if ts > since {
        (ts - since) as u64
    } else {
        0
    }
}

/// Tells the seconds since a time.
pub fn age(ts: u64, since: u64) -> (n: u64)
    ensures
        n == age_of(ts, since),
{
    ts.saturating_sub(since)
}

/// Tells how long a gateway has been connected and how long its last share is ago; none where it
/// has sent no share.
pub fn client_ages(c: &ClientInfo, ts: u64) -> (r: (u64, u64))
    ensures
        r.0 == age_of(ts, c.connected_ts),
        r.1 == if c.last_share_ts > 0 {
            age_of(ts, c.last_share_ts)
        } else {
            0
        },
{
    let last: u64 = if c.last_share_ts > 0 {
        age(ts, c.last_share_ts)
    } else {
        0
    };
    (age(ts, c.connected_ts), last)
}

/// The text of one exported credit.
pub open spec fn credit_text(w: WindowView, c: Credit) -> Seq<char> {
    object_text(
        no_members().insert("ts"@, decimal_of(c.ts as nat)).insert(
            "identity"@,
            json_quoted(
                if c.ident < w.idents.len() {
                    w.idents[c.ident as int]
                } else {
                    ""@
                },
            ),
        ).insert("work"@, decimal_of(c.work as nat)).insert("height"@, decimal_of(c.height as nat)),
    )
}

/// The text of the ledger export.
pub open spec fn ledger_text(w: WindowView, now: u64) -> Seq<char> {
    let rows = recent_rows(w.rows, cutoff_for(now, LEDGER_EXPORT_S));
    object_text(
        no_members().insert(
            "credits"@,
            array_text(Seq::new(rows.len(), |i: int| credit_text(w, rows[i]))),
        ).insert("shares"@, decimal_of(w.lifetime_shares as nat)).insert(
            "window_work"@,
            decimal_of(w.total_work as nat),
        ).insert("target_work"@, decimal_of(w.target_work as nat)),
    )
}

/// Exports the credits of the last hour, oldest first.
pub fn legacy_ledger(window: &Window, now: u64) -> (j: Json)
    requires
        window.wf(),
    ensures
        json_text(j) == ledger_text(window@, now),
{
    let cut: u32 = cutoff(now, LEDGER_EXPORT_S);
    let ghost w = window@;
    let n: usize = window.len();
    let mut from: usize = n;
    while from > 0 && window.row(from - 1).ts > cut
        invariant
            from <= n == w.rows.len(),
            window.wf(),
            w == window@,
            forall|k: int| from <= k < n ==> (#[trigger] w.rows[k]).ts > cut,
        decreases from,
    {
        from = from - 1;
    }
    let ghost rows = w.rows.skip(from as int);
    proof {
        lemma_recent(w.rows, cut, from as int);
    }
    let mut credits: Vec<Json> = Vec::new();
    let mut i: usize = from;
    while i < n
        invariant
            from <= i <= n == w.rows.len(),
            window.wf(),
            w == window@,
            rows == w.rows.skip(from as int),
            credits@.len() == i - from,
            forall|k: int|
                0 <= k < credits@.len() ==> json_text(#[trigger] credits@[k]) == credit_text(
                    w,
                    rows[k],
                ),
        decreases n - i,
    {
        let c: Credit = window.row(i);
        let name: &str = match window.identity(c.ident) {
            Some(s) => s,
            None => "",
        };
        let mut m: NameMap<Json> = empty_object();
        put(&mut m, "ts", Json::Number(c.ts as u64));
        put(&mut m, "identity", Json::Text(name.to_owned()));
        put(&mut m, "work", Json::Number(c.work));
        put(&mut m, "height", Json::Number(c.height as u64));
        credits.push(object(m));
        assert(rows[i - from] == c);
        i = i + 1;
    }
    assert(all_texts(credits@) =~= Seq::new(rows.len(), |k: int| credit_text(w, rows[k])));
    let (lifetime_shares, _) = window.lifetime();
    let mut m: NameMap<Json> = empty_object();
    put(&mut m, "credits", array(credits));
    put(&mut m, "shares", Json::Number(lifetime_shares));
    put(&mut m, "window_work", Json::Number(window.total_work()));
    put(&mut m, "target_work", Json::Number(window.target_work()));
    object(m)
}

/// How the ledger is written.
#[derive(Clone, Copy, Debug, PartialEq, Eq, Structural)]
pub enum Persist {
    /// The counters, and what is buffered.
    Flush,
    /// The same, and to the disk.
    Sync,
    /// The credit file anew, with only the window.
    Window,
}

/// What is due on a tick of the housekeeping timer.
#[derive(Clone, Copy, Debug, PartialEq, Eq, Structural)]
pub struct Chores {
    pub prune_snapshots: bool,
    pub persist: Persist,
    pub expire_workers: bool,
}

/// Tells what is due on the `n`th tick, of five seconds each: every minute the ledger is synced
/// and workers expire, every five minutes the window is rewritten, every ten snapshots are pruned.
pub fn chores(n: u64, commit_snapshot: bool) -> (c: Chores)
    ensures
        c == (Chores {
            prune_snapshots: commit_snapshot && n % 120 == 0,
            persist: if n % 60 == 0 {
                Persist::Window
            } else if n % 12 == 0 {
                Persist::Sync
            } else {
                Persist::Flush
            },
            expire_workers: n % 12 == 0,
        }),
{
    let persist: Persist = if n % 60 == 0 {
        Persist::Window
    } else if n % 12 == 0 {
        Persist::Sync
    } else {
        Persist::Flush
    };
    Chores {
        prune_snapshots: commit_snapshot && n % 120 == 0,
        persist,
        expire_workers: n % 12 == 0,
    }
}

/// The height below which share hashes are forgotten at a tip: what the stale check can no
/// longer accept, and one height more.
pub open spec fn horizon(tip_height: u32) -> u32 {
    if tip_height > 2 {
        (tip_height - 2) as u32
    } else {
        0
    }
}

/// Tells the height below which share hashes are forgotten.
pub fn forget_below(tip_height: u32) -> (h: u32)
    ensures
        h == horizon(tip_height),
{
    tip_height.saturating_sub(2)
}

/// A share is credited once, ever: when housekeeping forgets hashes at a tip, one that was
/// credited either stays a duplicate or is on a height too old to be credited again, under that
/// tip, any later one, and one that has gone back by up to two blocks.
pub proof fn lemma_forgotten_is_stale(
    v: Seq<HeightView>,
    tip_height: u32,
    height: u32,
    hash: Hash32,
    tip: TipSeen,
    grace_secs: u32,
)
    requires
        heights_ok(v),
        seen_outcome(v, height, hash) == Seen::Duplicate,
        tip.height + 2 >= tip_height,
    ensures
        heights_ok(heights_from(v, horizon(tip_height))),
        seen_outcome(heights_from(v, horizon(tip_height)), height, hash) == Seen::Duplicate
            || freshness_of(height, Some(tip), grace_secs) == Freshness::Stale,
{
    lemma_prune(v, horizon(tip_height), height);
}

/// The snapshots that blocks commit to.
pub open spec fn committed_of(v: Seq<RecordView>) -> Seq<Seq<char>>
    decreases v.len(),
{
    if v.len() == 0 {
        Seq::empty()
    } else if v.last().snapshot.len() == 0 {
        committed_of(v.drop_last())
    } else {
        committed_of(v.drop_last()).push(v.last().snapshot)
    }
}

/// Lists the snapshots that blocks commit to, which are kept.
pub fn committed_snapshots(blocks: &Vec<BlockRecord>) -> (r: Vec<String>)
    ensures
        texts_view(r@) == committed_of(records_view(blocks@)),
{
    let ghost v = records_view(blocks@);
    let mut r: Vec<String> = Vec::new();
    let mut i: usize = 0;
    assert(v.take(0) =~= Seq::empty());
    assert(texts_view(r@) =~= Seq::empty());
    while i < blocks.len()
        invariant
            i <= blocks@.len(),
            v == records_view(blocks@),
            texts_view(r@) == committed_of(v.take(i as int)),
        decreases blocks@.len() - i,
    {
        let ghost before = texts_view(r@);
        assert(v.take(i + 1).drop_last() =~= v.take(i as int));
        if !blocks[i].snapshot.as_str().is_empty() {
            r.push(blocks[i].snapshot.clone());
            assert(texts_view(r@) =~= before.push(v[i as int].snapshot));
        }
        i = i + 1;
    }
    assert(v.take(v.len() as int) =~= v);
    r
}

/// An identity's work that a restart lost.
#[derive(Clone, Debug, PartialEq, Eq)]
pub struct Cliff {
    pub identity: String,
    pub prev: u64,
    pub now: u64,
}

/// Whether so much work is gone that miners would see it: more than a tenth of a million or more.
pub open spec fn is_cliff(prev: u64, now: u64) -> bool {
    prev >= 1_000_000 && now + prev / 10 < prev
}

/// A miner's row as it was shown before a restart, as far as it can be read.
#[derive(Clone, Debug, PartialEq, Eq)]
pub struct ShownRow {
    pub identity: Option<String>,
    pub work: Option<u64>,
}

/// Shown rows as mathematical values: one without an identity is nobody's, and one without work
/// has none.
pub open spec fn shown_view(v: Seq<ShownRow>) -> Seq<(Option<Seq<char>>, u64)> {
    Seq::new(
        v.len(),
        |i: int|
            (
                match v[i].identity {
                    Some(s) => Some(s@),
                    None => None,
                },
                match v[i].work {
                    Some(n) => n,
                    None => 0,
                },
            ),
    )
}

/// Those of the work shown before a restart that the window has lost.
pub open spec fn cliffs_of(w: WindowView, prev: Seq<(Option<Seq<char>>, u64)>) -> Seq<
    (Seq<char>, u64, u64),
>
    decreases prev.len(),
{
    if prev.len() == 0 {
        Seq::empty()
    } else {
        let before = cliffs_of(w, prev.drop_last());
        match prev.last() {
            (Some(name), work) => if is_cliff(work, work_in(w, name)) {
                before.push((name, work, work_in(w, name)))
            } else {
                before
            },
            (None, _) => before,
        }
    }
}

/// Cliffs as mathematical values.
pub open spec fn cliffs_view(v: Seq<Cliff>) -> Seq<(Seq<char>, u64, u64)> {
    Seq::new(v.len(), |i: int| (v[i].identity@, v[i].prev, v[i].now))
}

/// Holds the window that was loaded against the work shown before the restart.
pub fn window_cliffs(window: &Window, prev: &Vec<ShownRow>) -> (r: Vec<Cliff>)
    requires
        window.wf(),
    ensures
        cliffs_view(r@) == cliffs_of(window@, shown_view(prev@)),
{
    let ghost p = shown_view(prev@);
    let mut r: Vec<Cliff> = Vec::new();
    let mut i: usize = 0;
    assert(p.take(0) =~= Seq::empty());
    assert(cliffs_view(r@) =~= Seq::empty());
    while i < prev.len()
        invariant
            i <= prev@.len(),
            window.wf(),
            p == shown_view(prev@),
            cliffs_view(r@) == cliffs_of(window@, p.take(i as int)),
        decreases prev@.len() - i,
    {
        let ghost before = cliffs_view(r@);
        assert(p.take(i + 1).drop_last() =~= p.take(i as int));
        assert(p.take(i + 1).last() == p[i as int]);
        let work: u64 = match prev[i].work {
            Some(n) => n,
            None => 0,
        };
        if let Some(name) = &prev[i].identity {
            if work >= 1_000_000 {
                let now: u64 = window.work_of(name.as_str());
                if now < work - work / 10 {
                    r.push(Cliff { identity: name.clone(), prev: work, now });
                    assert(cliffs_view(r@) =~= before.push((name@, work, now)));
                }
            }
        }
        i = i + 1;
    }
    assert(p.take(p.len() as int) =~= p);
    r
}

/// What counts as recent is the run of newest rows that are all newer than the cutoff; of rows that
/// came in order of time it is all that are.
pub proof fn lemma_recent_rows(rows: Seq<Credit>, cutoff: u32)
    ensures
        ({
            let n = rows.len() - recent_rows(rows, cutoff).len();
            &&& 0 <= n
            &&& recent_rows(rows, cutoff) == rows.skip(n)
            &&& forall|i: int| n <= i < rows.len() ==> (#[trigger] rows[i]).ts > cutoff
            &&& n > 0 ==> rows[n - 1].ts <= cutoff
            &&& (forall|i: int, j: int|
                0 <= i <= j < rows.len() ==> (#[trigger] rows[i]).ts <= (#[trigger] rows[j]).ts)
                ==> forall|i: int| 0 <= i < n ==> (#[trigger] rows[i]).ts <= cutoff
        }),
    decreases rows.len(),
{
    let r = recent_rows(rows, cutoff);
    if rows.len() == 0 || rows.last().ts <= cutoff {
        assert(r =~= rows.skip(rows.len() as int));
    } else {
        let l = rows.drop_last();
        lemma_recent_rows(l, cutoff);
        let n = rows.len() - r.len();
        assert(recent_rows(l, cutoff) == l.skip(n));
        assert(r =~= rows.skip(n));
        assert forall|i: int| n <= i < rows.len() implies (#[trigger] rows[i]).ts > cutoff by {
            if i < l.len() {
                assert(l[i] == rows[i]);
            }
        }
        if n > 0 {
            assert(l[n - 1] == rows[n - 1]);
        }
    }
    let n = rows.len() - r.len();
    if (forall|i: int, j: int|
        0 <= i <= j < rows.len() ==> (#[trigger] rows[i]).ts <= (#[trigger] rows[j]).ts) && n > 0 {
        assert forall|i: int| 0 <= i < n implies (#[trigger] rows[i]).ts <= cutoff by {
            assert(rows[i].ts <= rows[n - 1].ts);
        }
    }
}

/// Hash rates are taken over the last ten minutes, and the export goes back an hour.
pub proof fn lemma_how_far_back(w: WindowView, ts: u64, i: int)
    requires
        600 < ts <= u32::MAX,
        0 <= i < rate_rows(w, ts).len(),
    ensures
        ts - rate_rows(w, ts)[i].ts < 600,
        w.rows.len() >= rate_rows(w, ts).len(),
        rate_rows(w, ts) == w.rows.skip(w.rows.len() - rate_rows(w, ts).len()),
        HASHRATE_WINDOW_S == 600,
        LEDGER_EXPORT_S == 3600,
        cutoff_for(ts, 600) == ts - 600,
{
    lemma_recent_rows(w.rows, cutoff_for(ts, 600));
    let n = w.rows.len() - rate_rows(w, ts).len();
    assert(rate_rows(w, ts)[i] == w.rows[n + i]);
}

/// The latest time of an identity is that of one of its rows, and none of its rows is later; the
/// oldest time is that of a row or the given one, and no row is older.
pub proof fn lemma_times_of_rows(rows: Seq<Credit>, ident: u32, ts: u32)
    ensures
        forall|i: int|
            0 <= i < rows.len() && (#[trigger] rows[i]).ident == ident ==> rows[i].ts <= latest_of(
                rows,
                ident,
            ),
        latest_of(rows, ident) == 0 || exists|i: int|
            0 <= i < rows.len() && (#[trigger] rows[i]).ident == ident && rows[i].ts == latest_of(
                rows,
                ident,
            ),
        oldest_of(rows, ts) <= ts,
        forall|i: int| 0 <= i < rows.len() ==> oldest_of(rows, ts) <= (#[trigger] rows[i]).ts,
        oldest_of(rows, ts) == ts || exists|i: int|
            0 <= i < rows.len() && (#[trigger] rows[i]).ts == oldest_of(rows, ts),
    decreases rows.len(),
{
    if rows.len() > 0 {
        let t = rows.drop_first();
        lemma_times_of_rows(t, ident, ts);
        assert forall|i: int| 0 < i < rows.len() implies (#[trigger] rows[i]) == t[i - 1] by {}
        assert(rows[0] == rows[0]);
        if latest_of(t, ident) != 0 {
            let i = choose|i: int|
                0 <= i < t.len() && (#[trigger] t[i]).ident == ident && t[i].ts == latest_of(
                    t,
                    ident,
                );
            assert(rows[i + 1] == t[i]);
        }
        if oldest_of(t, ts) != ts {
            let i = choose|i: int| 0 <= i < t.len() && (#[trigger] t[i]).ts == oldest_of(t, ts);
            assert(rows[i + 1] == t[i]);
        }
    }
}

/// A rate is taken over at least half a minute and at most the given time, and between these over
/// the longer of the time since the start and the time since the oldest row.
pub proof fn lemma_spans(ts: u64, oldest: u64, started: u64, most: u64)
    requires
        30 <= most,
    ensures
        30 <= span_of(ts, oldest, started, most) <= most,
        30 <= ts - oldest <= most && ts - started <= ts - oldest ==> span_of(
            ts,
            oldest,
            started,
            most,
        ) == ts - oldest,
        30 <= ts - started <= most && ts - oldest <= ts - started ==> span_of(
            ts,
            oldest,
            started,
            most,
        ) == ts - started,
        ts - oldest > most || ts - started > most ==> span_of(ts, oldest, started, most) == most,
{
}

/// What a split pays a name is what it pays the payee of that name, and nothing where there is
/// none; and why it does not is what is said of the name.
pub proof fn lemma_shown_amounts(
    v: Seq<PayeeView>,
    u: Seq<(Seq<char>, u64, UnpaidReason)>,
    name: Seq<char>,
)
    ensures
        (forall|i: int| 0 <= i < v.len() ==> (#[trigger] v[i]).identity != name) ==> sats_of(v, name)
            == 0,
        forall|i: int|
            0 <= i < v.len() && (#[trigger] v[i]).identity == name && (forall|j: int|
                i < j < v.len() ==> (#[trigger] v[j]).identity != name) ==> sats_of(v, name)
                == v[i].sats,
        (forall|i: int| 0 <= i < u.len() ==> (#[trigger] u[i]).0 != name) ==> reason_of(
            u,
            name,
        ).is_none(),
        forall|i: int|
            0 <= i < u.len() && (#[trigger] u[i]).0 == name && (forall|j: int|
                i < j < u.len() ==> (#[trigger] u[j]).0 != name) ==> reason_of(u, name) == Some(
                u[i].2,
            ),
    decreases v.len() + u.len(),
{
    if v.len() > 0 {
        let r = v.drop_last();
        let n = v.len() - 1;
        lemma_shown_amounts(r, Seq::empty(), name);
        assert(v[n] == v.last());
        assert forall|i: int| 0 <= i < r.len() implies (#[trigger] r[i]) == v[i] by {}
        assert forall|i: int|
            0 <= i < v.len() && (#[trigger] v[i]).identity == name && (forall|j: int|
                i < j < v.len() ==> (#[trigger] v[j]).identity != name) implies sats_of(v, name)
            == v[i].sats by {
            if i < n {
                assert(v[n].identity != name);
                assert(r[i] == v[i]);
                assert forall|j: int| i < j < r.len() implies (#[trigger] r[j]).identity != name by {
                    assert(r[j] == v[j]);
                }
            }
        }
    }
    if u.len() > 0 {
        let r = u.drop_last();
        let n = u.len() - 1;
        lemma_shown_amounts(Seq::empty(), r, name);
        assert(u[n] == u.last());
        assert forall|i: int| 0 <= i < r.len() implies (#[trigger] r[i]) == u[i] by {}
        assert forall|i: int|
            0 <= i < u.len() && (#[trigger] u[i]).0 == name && (forall|j: int|
                i < j < u.len() ==> (#[trigger] u[j]).0 != name) implies reason_of(u, name) == Some(
            u[i].2,
        ) by {
            if i < n {
                assert(u[n].0 != name);
                assert(r[i] == u[i]);
                assert forall|j: int| i < j < r.len() implies (#[trigger] r[j]).0 != name by {
                    assert(r[j] == u[j]);
                }
            }
        }
    }
}

/// What is shown of an identity: its work as the window has it; what the split of a block of
/// 3.125 coins pays it, and what the rule would, which is the same split under a cap that nobody
/// reaches; its fees; and its work of the last ten minutes.
pub proof fn lemma_what_is_shown(w: WindowView, m: MinerView, p: ParamsView, net: Network, ts: u64)
    ensures
        ({
            let r = miner_row(w, m, p, net, ts);
            &&& r.identity == m.identity && r.work == m.work && r.stratum_work == m.stratum_work
            &&& r.credits == m.credits
            &&& r.mostly_stratum <==> m.stratum_work > m.work - m.stratum_work
            &&& r.payout_sats == sats_of(live_split(w, 312_500_000, p, net).payees, m.identity)
            &&& r.unpaid_reason == reason_of(live_split(w, 312_500_000, p, net).unpaid, m.identity)
            &&& r.rule_sats == sats_of(
                live_split(w, 312_500_000, (ParamsView { max_payees: 100_000, ..p }), net).payees,
                m.identity,
            )
            &&& r.payable == payable_script(m.identity, net).is_some()
            &&& p.fee_overrides.contains_key(m.identity) ==> r.fee_bps
                == p.fee_overrides[m.identity] && r.stratum_fee_bps == p.fee_overrides[m.identity]
            &&& !p.fee_overrides.contains_key(m.identity) ==> r.fee_bps == p.fee_bps
                && r.stratum_fee_bps == p.stratum_fee_bps
            &&& r.last_share_s <= ts
            &&& m.last_ts <= ts ==> r.last_share_s <= ts - m.last_ts
        }),
{
}

/// What the pool owes is what it owes for each block in the main chain, and nothing for orphans.
pub proof fn lemma_what_is_owed(v: Seq<RecordView>, r: RecordView)
    ensures
        owed_for(Seq::empty()) == 0,
        begins_with(encode_utf8(r.kind), encode_utf8("orphan"@)) ==> owed_for(v.push(r)) == owed_for(
            v,
        ),
        !begins_with(encode_utf8(r.kind), encode_utf8("orphan"@)) ==> owed_for(v.push(r)) == owed_for(
            v,
        ) + r.owed_sats,
{
    assert(v.push(r).drop_last() =~= v);
}

/// The kinds of coinbases are those of all gateways together.
pub proof fn lemma_kinds_add_up(v: Seq<ClientInfo>, c: ClientInfo)
    ensures
        kinds_of(Seq::empty()) == (0nat, 0nat, 0nat, 0nat),
        kinds_of(v.push(c)).0 == kinds_of(v).0 + c.cb_split,
        kinds_of(v.push(c)).1 == kinds_of(v).1 + c.cb_partial,
        kinds_of(v.push(c)).2 == kinds_of(v).2 + c.cb_pool_only,
        kinds_of(v.push(c)).3 == kinds_of(v).3 + c.cb_foreign,
{
    assert(v.push(c).drop_last() =~= v);
}

/// The snapshots that are kept are those of all blocks that commit to one.
pub proof fn lemma_committed_snapshots(v: Seq<RecordView>, hash: Seq<char>)
    ensures
        committed_of(v).contains(hash) <==> hash.len() > 0 && exists|i: int|
            0 <= i < v.len() && (#[trigger] v[i]).snapshot == hash,
    decreases v.len(),
{
    if v.len() > 0 {
        let u = v.drop_last();
        let n = v.len() - 1;
        lemma_committed_snapshots(u, hash);
        assert(v[n] == v.last());
        let a = committed_of(u);
        let b = committed_of(v);
        if a.contains(hash) {
            let k = choose|k: int| 0 <= k < a.len() && a[k] == hash;
            assert(b[k] == hash);
            let i = choose|i: int| 0 <= i < u.len() && (#[trigger] u[i]).snapshot == hash;
            assert(v[i] == u[i]);
        }
        if b.contains(hash) && !a.contains(hash) {
            let k = choose|k: int| 0 <= k < b.len() && b[k] == hash;
            if k < a.len() {
                assert(a[k] == hash);
            }
        }
        if hash.len() > 0 && v[n].snapshot == hash {
            assert(b[a.len() as int] == hash);
        }
        if hash.len() > 0 && exists|i: int| 0 <= i < v.len() && (#[trigger] v[i]).snapshot == hash {
            let i = choose|i: int| 0 <= i < v.len() && (#[trigger] v[i]).snapshot == hash;
            if i < n {
                assert(u[i].snapshot == hash);
            }
        }
    }
}

/// A restart has lost work of an identity where it was shown a million or more and less than nine
/// tenths of that are left; each such identity is named, and no other.
pub proof fn lemma_cliffs(w: WindowView, prev: Seq<(Option<Seq<char>>, u64)>)
    ensures
        cliffs_of(w, prev) == prev.filter(
            |x: (Option<Seq<char>>, u64)|
                x.0.is_some() && x.1 >= 1_000_000 && x.1 - work_in(w, x.0.unwrap()) > x.1 / 10,
        ).map_values(
            |x: (Option<Seq<char>>, u64)| (x.0.unwrap(), x.1, work_in(w, x.0.unwrap())),
        ),
    decreases prev.len(),
{
    reveal(Seq::filter);
    let f = |x: (Option<Seq<char>>, u64)|
        x.0.is_some() && x.1 >= 1_000_000 && x.1 - work_in(w, x.0.unwrap()) > x.1 / 10;
    let g = |x: (Option<Seq<char>>, u64)| (x.0.unwrap(), x.1, work_in(w, x.0.unwrap()));
    if prev.len() > 0 {
        lemma_cliffs(w, prev.drop_last());
    }
    assert(cliffs_of(w, prev) =~= prev.filter(f).map_values(g));
}

/// Seconds since a time, and none since one that is yet to come.
pub proof fn lemma_ages(ts: u64, since: u64)
    ensures
        since <= ts ==> since + age_of(ts, since) == ts,
        since >= ts ==> age_of(ts, since) == 0,
{
}

/// What an identity is shown to be paid: what its payee of that name is, and nothing without one.
pub proof fn lemma_sats_of_a_payee(v: Seq<PayeeView>, name: Seq<char>, k: int)
    requires
        forall|i: int, j: int|
            0 <= i < j < v.len() ==> (#[trigger] v[i]).identity != (#[trigger] v[j]).identity,
    ensures
        0 <= k < v.len() && v[k].identity == name ==> sats_of(v, name) == v[k].sats,
        (forall|i: int| 0 <= i < v.len() ==> (#[trigger] v[i]).identity != name) ==> sats_of(
            v,
            name,
        ) == 0,
    decreases v.len(),
{
    if v.len() > 0 {
        let r = v.drop_last();
        assert forall|i: int, j: int| 0 <= i < j < r.len() implies (#[trigger] r[i]).identity != (
        #[trigger] r[j]).identity by {
            assert(r[i] == v[i] && r[j] == v[j]);
        }
        lemma_sats_of_a_payee(r, name, k);
        let n = v.len() - 1;
        if 0 <= k < n {
            assert(r[k] == v[k]);
            assert(v[k].identity != v[n].identity);
        }
        if forall|i: int| 0 <= i < v.len() ==> (#[trigger] v[i]).identity != name {
            assert(v[n].identity != name);
            assert forall|i: int| 0 <= i < r.len() implies (#[trigger] r[i]).identity != name by {
                assert(r[i] == v[i]);
            }
        }
    }
}

/// A worker's recent work is that of its recent shares together.
pub proof fn lemma_work_of_shares(v: Seq<(u64, u64)>, at: u64, work: u64)
    ensures
        shares_work(Seq::empty()) == 0,
        shares_work(v.push((at, work))) == shares_work(v) + work,
{
    assert(v.push((at, work)).drop_last() =~= v);
}

/// What is told of recent work is the work of all the recent rows, and of each identity with such
/// a row the work of its own, with a time that none of them is after.
pub proof fn lemma_recent_work(r: Recent, rows: Seq<Credit>, ts: u32, i: int)
    requires
        r.is_of(rows, ts),
        0 <= i < rows.len(),
    ensures
        r.total == work_sum(rows),
        r.oldest <= rows[i].ts && r.oldest <= ts,
        r.by_ident@.contains_key(rows[i].ident),
        r.by_ident@[rows[i].ident].0 == work_sum_of(rows, rows[i].ident),
        rows[i].ts <= r.by_ident@[rows[i].ident].1,
        r.by_ident@[rows[i].ident].1 == 0 || exists|j: int|
            0 <= j < rows.len() && (#[trigger] rows[j]).ident == rows[i].ident && rows[j].ts
                == r.by_ident@[rows[i].ident].1,
{
    lemma_times_of_rows(rows, rows[i].ident, ts);
    lemma_has_rows(rows, rows[i].ident, i);
    assert(r.by_ident@.contains_key(rows[i].ident));
    assert(r.by_ident@[rows[i].ident].0 == work_sum_of(rows, rows[i].ident));
}

proof fn lemma_has_rows(rows: Seq<Credit>, ident: u32, i: int)
    requires
        0 <= i < rows.len(),
        rows[i].ident == ident,
    ensures
        rows_of(rows, ident) > 0,
    decreases rows.len(),
{
    if i > 0 {
        assert(rows.drop_first()[i - 1] == rows[i]);
        lemma_has_rows(rows.drop_first(), ident, i - 1);
    }
}

} // verus!
