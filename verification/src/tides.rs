//! TIDES accounting: the sliding window of recent work.
//!
//! Each block pays the miners whose shares fall inside a window sized in work: the most recent
//! shares whose summed difficulty reaches a multiple of the network difficulty.

use crate::bytes::{
    le_bytes, le_nat, lemma_le_bytes_len, lemma_le_nat_of_bytes, lemma_pow_256, push_le, push_zeros,
    read_le, zeros,
};
use crate::coinbase::sat_add;
use crate::text::{lemma_text_before_total, lemma_text_before_trans, text_before, text_less, texts_view};
use std::collections::{HashMap, VecDeque};
use vstd::hash_map::StringHashMap;
use vstd::prelude::*;

verus! {

broadcast use vstd::std_specs::hash::group_hash_axioms;

/// Work that arrived before it was tagged. Split as DATUM work.
pub const SOURCE_UNKNOWN: u8 = 0;

/// Work of the pool's own stratum.
pub const SOURCE_STRATUM: u8 = 1;

/// Work of a miner's own gateway.
pub const SOURCE_DATUM: u8 = 2;

/// One accepted unit of work, possibly several coalesced shares.
#[derive(Clone, Copy, Debug, PartialEq, Eq, Structural)]
pub struct Credit {
    /// Unix seconds.
    pub ts: u32,
    /// Index into the identity table.
    pub ident: u32,
    /// Difficulty-1 share units.
    pub work: u64,
    /// Height the work was for.
    pub height: u32,
    /// One of `SOURCE_*`.
    pub source: u8,
}

impl Credit {
    /// Bytes of a stored row.
    pub const SIZE: usize = 24;

    /// The row as it is stored.
    pub open spec fn row_bytes(self) -> Seq<u8> {
        le_bytes(self.ts as nat, 4) + le_bytes(self.ident as nat, 4) + le_bytes(self.work as nat, 8)
            + le_bytes(self.height as nat, 4) + seq![self.source] + zeros(3)
    }

    /// Appends the row as it is stored.
    pub fn write(&self, out: &mut Vec<u8>)
        ensures
            final(out)@ == old(out)@ + self.row_bytes(),
    {
        let ghost start = out@;
        push_le(out, self.ts as u64, 4);
        push_le(out, self.ident as u64, 4);
        push_le(out, self.work, 8);
        push_le(out, self.height as u64, 4);
        out.push(self.source);
        push_zeros(out, 3);
        assert(out@ =~= start + self.row_bytes());
    }

    /// The row that 24 stored bytes stand for.
    pub open spec fn of_bytes(b: Seq<u8>) -> Credit {
        Credit {
            ts: le_nat(b.subrange(0, 4)) as u32,
            ident: le_nat(b.subrange(4, 8)) as u32,
            work: le_nat(b.subrange(8, 16)) as u64,
            height: le_nat(b.subrange(16, 20)) as u32,
            source: b[20],
        }
    }

    /// Reads a stored row at `at`.
    pub fn read(b: &[u8], at: usize) -> (c: Credit)
        requires
            at + Credit::SIZE <= b@.len(),
        ensures
            c == Credit::of_bytes(b@.subrange(at as int, at + Credit::SIZE)),
    {
        let len: usize = b.len();
        let ts: u64 = read_le(b, at, 4);
        let ident: u64 = read_le(b, at + 4, 4);
        let work: u64 = read_le(b, at + 8, 8);
        let height: u64 = read_le(b, at + 16, 4);
        let source: u8 = b[at + 20];
        proof {
            let r = b@.subrange(at as int, at + 24);
            assert(r.subrange(0, 4) =~= b@.subrange(at as int, at + 4));
            assert(r.subrange(4, 8) =~= b@.subrange(at + 4, at + 8));
            assert(r.subrange(8, 16) =~= b@.subrange(at + 8, at + 16));
            assert(r.subrange(16, 20) =~= b@.subrange(at + 16, at + 20));
            crate::bytes::lemma_le_nat_bound(r.subrange(0, 4));
            crate::bytes::lemma_le_nat_bound(r.subrange(4, 8));
            crate::bytes::lemma_le_nat_bound(r.subrange(16, 20));
            lemma_pow_256(4);
        }
        Credit { ts: ts as u32, ident: ident as u32, work, height: height as u32, source }
    }
}

/// A stored row has 24 bytes and is read back as it was.
pub proof fn lemma_credit_round_trip(c: Credit)
    ensures
        c.row_bytes().len() == Credit::SIZE,
        Credit::of_bytes(c.row_bytes()) == c,
{
    let b = c.row_bytes();
    lemma_le_bytes_len(c.ts as nat, 4);
    lemma_le_bytes_len(c.ident as nat, 4);
    lemma_le_bytes_len(c.work as nat, 8);
    lemma_le_bytes_len(c.height as nat, 4);
    lemma_pow_256(4);
    lemma_pow_256(8);
    lemma_le_nat_of_bytes(c.ts as nat, 4);
    lemma_le_nat_of_bytes(c.ident as nat, 4);
    lemma_le_nat_of_bytes(c.work as nat, 8);
    lemma_le_nat_of_bytes(c.height as nat, 4);
    assert(b.subrange(0, 4) =~= le_bytes(c.ts as nat, 4));
    assert(b.subrange(4, 8) =~= le_bytes(c.ident as nat, 4));
    assert(b.subrange(8, 16) =~= le_bytes(c.work as nat, 8));
    assert(b.subrange(16, 20) =~= le_bytes(c.height as nat, 4));
}

/// What a [`Window`] holds.
#[verifier::ext_equal]
pub struct WindowView {
    pub idents: Seq<Seq<char>>,
    pub rows: Seq<Credit>,
    pub totals: Map<u32, (u64, u64, u32)>,
    pub total_work: u64,
    pub target_work: u64,
    pub lifetime_shares: u64,
    pub lifetime_work: u64,
}

/// How many rows are an identity's.
pub open spec fn rows_of(rows: Seq<Credit>, ident: u32) -> nat
    decreases rows.len(),
{
    if rows.len() == 0 {
        0
    } else {
        rows_of(rows.drop_first(), ident) + if rows[0].ident == ident {
            1nat
        } else {
            0
        }
    }
}

/// The work of all rows.
pub open spec fn work_sum(rows: Seq<Credit>) -> nat
    decreases rows.len(),
{
    if rows.len() == 0 {
        0
    } else {
        rows[0].work as nat + work_sum(rows.drop_first())
    }
}

/// The work of an identity's rows.
pub open spec fn work_sum_of(rows: Seq<Credit>, ident: u32) -> nat
    decreases rows.len(),
{
    if rows.len() == 0 {
        0
    } else {
        work_sum_of(rows.drop_first(), ident) + if rows[0].ident == ident {
            rows[0].work as nat
        } else {
            0
        }
    }
}

/// The work of an identity's stratum rows.
pub open spec fn stratum_sum_of(rows: Seq<Credit>, ident: u32) -> nat
    decreases rows.len(),
{
    if rows.len() == 0 {
        0
    } else {
        stratum_sum_of(rows.drop_first(), ident) + if rows[0].ident == ident && rows[0].source
            == SOURCE_STRATUM {
            rows[0].work as nat
        } else {
            0
        }
    }
}

/// A total after work arrived: more work, one row more if it made a row, a new last time.
pub open spec fn total_plus(
    totals: Map<u32, (u64, u64, u32)>,
    ident: u32,
    work: u64,
    new_row: bool,
    ts: u32,
) -> Map<u32, (u64, u64, u32)> {
    let t = if totals.contains_key(ident) {
        totals[ident]
    } else {
        (0u64, 0u64, 0u32)
    };
    totals.insert(
        ident,
        (
            sat_add(t.0, work),
            if new_row {
                (t.1 + 1) as u64
            } else {
                t.1
            },
            ts,
        ),
    )
}

/// A total after its oldest row left; without rows there is none.
pub open spec fn total_minus(totals: Map<u32, (u64, u64, u32)>, c: Credit) -> Map<
    u32,
    (u64, u64, u32),
> {
    if totals.contains_key(c.ident) {
        let t = totals[c.ident];
        if t.1 <= 1 {
            totals.remove(c.ident)
        } else {
            totals.insert(
                c.ident,
                (
                    if t.0 >= c.work {
                        (t.0 - c.work) as u64
                    } else {
                        0
                    },
                    (t.1 - 1) as u64,
                    t.2,
                ),
            )
        }
    } else {
        totals
    }
}

impl WindowView {
    /// A window that has seen nothing.
    pub open spec fn empty() -> WindowView {
        WindowView {
            idents: Seq::empty(),
            rows: Seq::empty(),
            totals: Map::empty(),
            total_work: 0,
            target_work: 0,
            lifetime_shares: 0,
            lifetime_work: 0,
        }
    }

    /// The table with `identity` in it.
    pub open spec fn interned(self, identity: Seq<char>) -> WindowView {
        if self.idents.contains(identity) {
            self
        } else {
            WindowView { idents: self.idents.push(identity), ..self }
        }
    }

    /// The window after an identity's work, merged into the last row or as a row of its own.
    pub open spec fn with_work(
        self,
        c: Credit,
        merge: bool,
        last_ts: u32,
    ) -> WindowView {
        WindowView {
            rows: if merge {
                let tail = self.rows.last();
                self.rows.drop_last().push(
                    Credit { work: sat_add(tail.work, c.work), ..tail },
                )
            } else {
                self.rows.push(c)
            },
            totals: total_plus(self.totals, c.ident, c.work, !merge, last_ts),
            total_work: sat_add(self.total_work, c.work),
            ..self
        }
    }

    /// The window with one more share in its lifetime counters.
    pub open spec fn counted(self, work: u64) -> WindowView {
        WindowView {
            lifetime_shares: (self.lifetime_shares + 1) as u64,
            lifetime_work: sat_add(self.lifetime_work, work),
            ..self
        }
    }

    /// Whether the oldest row can leave with the target still met.
    pub open spec fn can_drop(self) -> bool {
        self.target_work > 0 && self.rows.len() > 0 && self.total_work >= self.rows[0].work
            && self.total_work - self.rows[0].work >= self.target_work
    }

    /// The window without its oldest row.
    pub open spec fn dropped(self) -> WindowView {
        WindowView {
            rows: self.rows.drop_first(),
            totals: total_minus(self.totals, self.rows[0]),
            total_work: (self.total_work - self.rows[0].work) as u64,
            ..self
        }
    }

    /// The window after the oldest rows left for as long as the target is still met.
    pub open spec fn trimmed(self) -> WindowView
        decreases self.rows.len(),
    {
        if self.can_drop() {
            self.dropped().trimmed()
        } else {
            self
        }
    }

    /// Whether new work goes into the last row: same identity, second, height and source.
    pub open spec fn merges(self, c: Credit) -> bool {
        self.rows.len() > 0 && {
            let tail = self.rows.last();
            tail.ident == c.ident && tail.ts == c.ts && tail.height == c.height && tail.source
                == c.source
        }
    }

    /// The row that work of `identity` makes.
    pub open spec fn row_for(
        self,
        identity: Seq<char>,
        work: u64,
        height: u32,
        ts: u32,
        source: u8,
    ) -> Credit {
        Credit {
            ts,
            ident: self.interned(identity).idents.index_of(identity) as u32,
            work,
            height,
            source,
        }
    }

    /// The identity table has no repeats, rows point into it, and each identity's total counts
    /// its rows.
    pub open spec fn wf(self) -> bool {
        &&& self.idents.no_duplicates()
        &&& self.idents.len() <= 0x1_0000_0000
        &&& forall|i: int|
            0 <= i < self.rows.len() ==> (#[trigger] self.rows[i]).ident < self.idents.len()
        &&& forall|ident: u32|
            #[trigger] self.totals.contains_key(ident) <==> rows_of(self.rows, ident) > 0
        &&& forall|ident: u32|
            self.totals.contains_key(ident) ==> (#[trigger] self.totals[ident]).1 == rows_of(
                self.rows,
                ident,
            )
    }

    /// The sums are those of the rows: nothing has saturated.
    pub open spec fn exact(self) -> bool {
        &&& self.total_work == work_sum(self.rows)
        &&& forall|ident: u32|
            self.totals.contains_key(ident) ==> (#[trigger] self.totals[ident]).0 == work_sum_of(
                self.rows,
                ident,
            )
    }
}

/// What a credited row leaves of the table, the rows and the counters: the table grows by at
/// most one, at its end; the rows by at most one; and one more share is counted.
pub proof fn lemma_credited(w: WindowView, identity: Seq<char>, work: u64, c: Credit, last_ts: u32)
    requires
        w.wf(),
        w.idents.contains(identity) || w.idents.len() < 0x1_0000_0000,
        w.rows.len() < u64::MAX,
        c.ident < w.interned(identity).idents.len(),
    ensures
        ({
            let n = w.interned(identity).counted(work).with_work(c, false, last_ts).trimmed();
            &&& n.idents == w.interned(identity).idents
            &&& w.idents.is_prefix_of(n.idents)
            &&& n.idents.len() <= w.idents.len() + 1
            &&& n.rows.len() <= w.rows.len() + 1
            &&& n.lifetime_shares == (w.lifetime_shares + 1) as u64
        }),
{
    let named = w.interned(identity).counted(work);
    lemma_interned_wf(w, identity);
    lemma_with_work(named, c, false, last_ts);
    lemma_trimmed(named.with_work(c, false, last_ts));
}

/// A table with one more identity is still well-formed, and the others keep their places.
pub proof fn lemma_interned_wf(w: WindowView, identity: Seq<char>)
    requires
        w.wf(),
        w.idents.contains(identity) || w.idents.len() < 0x1_0000_0000,
    ensures
        w.interned(identity).wf(),
        w.exact() ==> w.interned(identity).exact(),
        w.idents.is_prefix_of(w.interned(identity).idents),
        w.interned(identity).idents.contains(identity),
{
    let n = w.interned(identity);
    if !w.idents.contains(identity) {
        assert(n.idents[w.idents.len() as int] == identity);
        assert forall|j: int| 0 <= j < n.rows.len() implies (#[trigger] n.rows[j]).ident
            < n.idents.len() by {
            assert(w.rows[j].ident < w.idents.len());
        }
    }
}

/// The sliding share window and the identity table.
pub struct Window {
    idents: Vec<String>,
    ident_index: StringHashMap<u32>,
    credits: VecDeque<Credit>,
    totals: HashMap<u32, (u64, u64, u32)>,
    total_work: u64,
    target_work: u64,
    pub lifetime_shares: u64,
    pub lifetime_work: u64,
}

impl View for Window {
    type V = WindowView;

    closed spec fn view(&self) -> WindowView {
        WindowView {
            idents: texts_view(self.idents@),
            rows: self.credits@,
            totals: self.totals@,
            total_work: self.total_work,
            target_work: self.target_work,
            lifetime_shares: self.lifetime_shares,
            lifetime_work: self.lifetime_work,
        }
    }
}

proof fn lemma_rows_of_push(rows: Seq<Credit>, c: Credit, ident: u32)
    ensures
        rows_of(rows.push(c), ident) == rows_of(rows, ident) + if c.ident == ident {
            1nat
        } else {
            0
        },
    decreases rows.len(),
{
    if rows.len() == 0 {
        assert(rows.push(c).drop_first() =~= rows);
    } else {
        lemma_rows_of_push(rows.drop_first(), c, ident);
        assert(rows.push(c).drop_first() =~= rows.drop_first().push(c));
    }
}

proof fn lemma_rows_of_bound(rows: Seq<Credit>, ident: u32)
    ensures
        rows_of(rows, ident) <= rows.len(),
    decreases rows.len(),
{
    if rows.len() > 0 {
        lemma_rows_of_bound(rows.drop_first(), ident);
    }
}

/// A row counts for its identity.
pub proof fn lemma_row_counts(rows: Seq<Credit>, i: int)
    requires
        0 <= i < rows.len(),
    ensures
        rows_of(rows, rows[i].ident) > 0,
    decreases rows.len(),
{
    if i > 0 {
        lemma_row_counts(rows.drop_first(), i - 1);
        assert(rows.drop_first()[i - 1] == rows[i]);
    }
}

/// An identity with rows has one of them somewhere.
proof fn lemma_rows_of_witness(rows: Seq<Credit>, ident: u32) -> (i: int)
    requires
        rows_of(rows, ident) > 0,
    ensures
        0 <= i < rows.len(),
        rows[i].ident == ident,
    decreases rows.len(),
{
    if rows[0].ident == ident {
        0
    } else {
        let j = lemma_rows_of_witness(rows.drop_first(), ident);
        assert(rows.drop_first()[j] == rows[j + 1]);
        j + 1
    }
}

proof fn lemma_sums_push(rows: Seq<Credit>, c: Credit, ident: u32)
    ensures
        work_sum(rows.push(c)) == work_sum(rows) + c.work,
        work_sum_of(rows.push(c), ident) == work_sum_of(rows, ident) + if c.ident == ident {
            c.work as nat
        } else {
            0
        },
    decreases rows.len(),
{
    if rows.len() == 0 {
        assert(rows.push(c).drop_first() =~= rows);
    } else {
        lemma_sums_push(rows.drop_first(), c, ident);
        assert(rows.push(c).drop_first() =~= rows.drop_first().push(c));
    }
}

proof fn lemma_sum_of_le_sum(rows: Seq<Credit>, ident: u32)
    ensures
        work_sum_of(rows, ident) <= work_sum(rows),
        rows_of(rows, ident) == 0 ==> work_sum_of(rows, ident) == 0,
    decreases rows.len(),
{
    if rows.len() > 0 {
        lemma_sum_of_le_sum(rows.drop_first(), ident);
    }
}

/// Dropping the oldest row keeps the window well-formed and its sums exact.
pub proof fn lemma_dropped(w: WindowView)
    requires
        w.wf(),
        w.can_drop(),
    ensures
        w.dropped().wf(),
        w.exact() ==> w.dropped().exact(),
{
    let d = w.dropped();
    let c = w.rows[0];
    assert forall|i: int| 0 <= i < d.rows.len() implies (#[trigger] d.rows[i]).ident
        < d.idents.len() by {
        assert(d.rows[i] == w.rows[i + 1]);
    }
    assert(rows_of(w.rows, c.ident) > 0);
    assert(w.totals.contains_key(c.ident));
    assert(w.totals[c.ident].1 == rows_of(w.rows, c.ident));
    assert forall|ident: u32|
        #[trigger] d.totals.contains_key(ident) <==> rows_of(d.rows, ident) > 0 by {
        assert(w.totals.contains_key(ident) <==> rows_of(w.rows, ident) > 0);
    }
    assert forall|ident: u32| d.totals.contains_key(ident) implies (
    #[trigger] d.totals[ident]).1 == rows_of(d.rows, ident) by {
        assert(w.totals[ident].1 == rows_of(w.rows, ident));
    }
    if w.exact() {
        lemma_sum_of_le_sum(w.rows, c.ident);
        assert forall|ident: u32| d.totals.contains_key(ident) implies (
        #[trigger] d.totals[ident]).0 == work_sum_of(d.rows, ident) by {
            assert(w.totals[ident].0 == work_sum_of(w.rows, ident));
            lemma_sum_of_le_sum(w.rows, ident);
        }
    }
}

/// Trimming keeps the window well-formed and its sums exact, and keeps the newest rows.
pub proof fn lemma_trimmed(w: WindowView)
    requires
        w.wf(),
    ensures
        w.trimmed().wf(),
        w.exact() ==> w.trimmed().exact(),
        w.trimmed().idents == w.idents,
        w.trimmed().target_work == w.target_work,
        w.trimmed().lifetime_shares == w.lifetime_shares,
        w.trimmed().lifetime_work == w.lifetime_work,
        w.trimmed().rows.len() <= w.rows.len(),
        w.trimmed().rows == w.rows.skip(w.rows.len() - w.trimmed().rows.len()),
    decreases w.rows.len(),
{
    if w.can_drop() {
        lemma_dropped(w);
        lemma_trimmed(w.dropped());
        let t = w.trimmed();
        assert(w.rows.drop_first().skip(w.rows.len() - 1 - t.rows.len()) =~= w.rows.skip(
            w.rows.len() - t.rows.len(),
        ));
    } else {
        assert(w.rows.skip(0) =~= w.rows);
    }
}

/// The window holds the most recent work that reaches its target, and no more: trimming leaves
/// at least the target when there was that much, and one row fewer would be below it.
pub proof fn lemma_trim_is_tight(w: WindowView)
    requires
        w.wf(),
        w.exact(),
        w.target_work > 0,
    ensures
        work_sum(w.rows) >= w.target_work ==> work_sum(w.trimmed().rows) >= w.target_work,
        work_sum(w.rows) < w.target_work ==> w.trimmed() == w,
        w.trimmed().rows.len() > 0 ==> work_sum(w.trimmed().rows.drop_first()) < w.target_work,
    decreases w.rows.len(),
{
    if w.can_drop() {
        lemma_dropped(w);
        lemma_trim_is_tight(w.dropped());
    }
}

/// Merging work into the last row changes how many rows there are and nothing else that is
/// counted: the work in the window, each identity's work and its last time are the same.
pub proof fn lemma_merging_keeps_work(w: WindowView, c: Credit, ts: u32, ident: u32)
    ensures
        ({
            let merged = w.with_work(c, true, ts);
            let apart = w.with_work(c, false, ts);
            &&& merged.total_work == apart.total_work
            &&& merged.totals.contains_key(ident) == apart.totals.contains_key(ident)
            &&& merged.totals.contains_key(ident) ==> merged.totals[ident].0
                == apart.totals[ident].0 && merged.totals[ident].2 == apart.totals[ident].2
        }),
{
}

/// Work that arrives keeps the window well-formed, and its sums exact while they fit.
pub proof fn lemma_with_work(w: WindowView, c: Credit, merge: bool, last_ts: u32)
    requires
        w.wf(),
        c.ident < w.idents.len(),
        merge ==> w.rows.len() > 0 && w.rows.last().ident == c.ident,
        w.rows.len() < u64::MAX,
    ensures
        w.with_work(c, merge, last_ts).wf(),
        w.exact() && work_sum(w.rows) + c.work <= u64::MAX ==> w.with_work(
            c,
            merge,
            last_ts,
        ).exact(),
{
    let n = w.with_work(c, merge, last_ts);
    if merge {
        let tail = w.rows.last();
        let t2 = Credit { work: sat_add(tail.work, c.work), ..tail };
        let init = w.rows.drop_last();
        assert(w.rows =~= init.push(tail));
        assert forall|ident: u32| rows_of(n.rows, ident) == rows_of(w.rows, ident) by {
            lemma_rows_of_push(init, tail, ident);
            lemma_rows_of_push(init, t2, ident);
        }
        assert forall|i: int| 0 <= i < n.rows.len() implies (#[trigger] n.rows[i]).ident
            < n.idents.len() by {
            assert(w.rows[i].ident < w.idents.len());
        }
        lemma_rows_of_push(init, tail, c.ident);
        assert(w.totals.contains_key(c.ident));
        assert forall|ident: u32|
            #[trigger] n.totals.contains_key(ident) <==> rows_of(n.rows, ident) > 0 by {
            assert(w.totals.contains_key(ident) <==> rows_of(w.rows, ident) > 0);
        }
        assert forall|ident: u32| n.totals.contains_key(ident) implies (
        #[trigger] n.totals[ident]).1 == rows_of(n.rows, ident) by {
            assert(w.totals.contains_key(ident));
            assert(w.totals[ident].1 == rows_of(w.rows, ident));
        }
        if w.exact() && work_sum(w.rows) + c.work <= u64::MAX {
            lemma_sums_push(init, tail, c.ident);
            lemma_sums_push(init, t2, c.ident);
            lemma_sum_of_le_sum(w.rows, c.ident);
            assert forall|ident: u32| n.totals.contains_key(ident) implies (
            #[trigger] n.totals[ident]).0 == work_sum_of(n.rows, ident) by {
                assert(w.totals.contains_key(ident));
                assert(w.totals[ident].0 == work_sum_of(w.rows, ident));
                lemma_sums_push(init, tail, ident);
                lemma_sums_push(init, t2, ident);
            }
        }
    } else {
        lemma_rows_of_bound(w.rows, c.ident);
        assert forall|i: int| 0 <= i < n.rows.len() implies (#[trigger] n.rows[i]).ident
            < n.idents.len() by {
            if i < w.rows.len() {
                assert(w.rows[i].ident < w.idents.len());
            }
        }
        assert forall|ident: u32|
            #[trigger] n.totals.contains_key(ident) <==> rows_of(n.rows, ident) > 0 by {
            lemma_rows_of_push(w.rows, c, ident);
            assert(w.totals.contains_key(ident) <==> rows_of(w.rows, ident) > 0);
        }
        assert forall|ident: u32| n.totals.contains_key(ident) implies (
        #[trigger] n.totals[ident]).1 == rows_of(n.rows, ident) by {
            lemma_rows_of_push(w.rows, c, ident);
            assert(w.totals.contains_key(ident) <==> rows_of(w.rows, ident) > 0);
            if w.totals.contains_key(ident) {
                assert(w.totals[ident].1 == rows_of(w.rows, ident));
            }
        }
        if w.exact() && work_sum(w.rows) + c.work <= u64::MAX {
            lemma_sums_push(w.rows, c, c.ident);
            lemma_sum_of_le_sum(w.rows, c.ident);
            assert forall|ident: u32| n.totals.contains_key(ident) implies (
            #[trigger] n.totals[ident]).0 == work_sum_of(n.rows, ident) by {
                lemma_sums_push(w.rows, c, ident);
                lemma_sum_of_le_sum(w.rows, ident);
                assert(w.totals.contains_key(ident) <==> rows_of(w.rows, ident) > 0);
                if w.totals.contains_key(ident) {
                    assert(w.totals[ident].0 == work_sum_of(w.rows, ident));
                }
            }
        }
    }
}

impl Window {
    /// The view is well-formed and the index finds every identity of the table.
    pub closed spec fn wf(&self) -> bool {
        &&& self@.wf()
        &&& forall|i: int|
            0 <= i < self.idents@.len() ==> self.ident_index@.contains_key(
                (#[trigger] self.idents@[i])@,
            ) && self.ident_index@[self.idents@[i]@] == i
        &&& forall|s: Seq<char>| #[trigger]
            self.ident_index@.contains_key(s) ==> self.ident_index@[s] < self.idents@.len()
                && self.idents@[self.ident_index@[s] as int]@ == s
    }

    /// A well-formed window has a well-formed view.
    pub proof fn lemma_view_wf(&self)
        requires
            self.wf(),
        ensures
            self@.wf(),
    {
    }

    /// Shares and work over the lifetime of the pool.
    pub fn lifetime(&self) -> (r: (u64, u64))
        ensures
            r == (self@.lifetime_shares, self@.lifetime_work),
    {
        (self.lifetime_shares, self.lifetime_work)
    }

    /// Takes over counters from before a restart.
    pub fn restore_lifetime(&mut self, shares: u64, work: u64)
        requires
            old(self).wf(),
        ensures
            final(self).wf(),
            final(self)@ == (WindowView {
                lifetime_shares: shares,
                lifetime_work: work,
                ..old(self)@
            }),
            old(self)@.exact() ==> final(self)@.exact(),
    {
        self.lifetime_shares = shares;
        self.lifetime_work = work;
    }

    /// A window that has seen nothing.
    pub fn new() -> (w: Window)
        ensures
            w.wf(),
            w@ == WindowView::empty(),
            w@.exact(),
    {
        let w = Window {
            idents: Vec::new(),
            ident_index: StringHashMap::new(),
            credits: VecDeque::new(),
            totals: HashMap::new(),
            total_work: 0,
            target_work: 0,
            lifetime_shares: 0,
            lifetime_work: 0,
        };
        assert(w@.idents =~= Seq::empty());
        w
    }

    /// The index of an identity, which enters the table if it is new.
    pub fn intern(&mut self, identity: &str) -> (i: u32)
        requires
            old(self).wf(),
            old(self)@.idents.contains(identity@) || old(self)@.idents.len() < 0x1_0000_0000,
        ensures
            final(self).wf(),
            final(self)@ == old(self)@.interned(identity@),
            i < final(self)@.idents.len(),
            final(self)@.idents[i as int] == identity@,
            i == final(self)@.idents.index_of(identity@),
            old(self)@.exact() ==> final(self)@.exact(),
    {
        let ghost before = self@;
        if let Some(i) = self.ident_index.get(identity) {
            proof {
                assert(before.idents[*i as int] == identity@);
                lemma_index_of(before.idents, *i as int);
            }
            return *i;
        }
        proof {
            if before.idents.contains(identity@) {
                let j = choose|j: int| 0 <= j < before.idents.len() && before.idents[j] == identity@;
                assert(self.idents@[j]@ == identity@);
            }
        }
        let i: u32 = self.idents.len() as u32;
        self.idents.push(identity.to_owned());
        self.ident_index.insert(identity.to_owned(), i);
        proof {
            assert(self@.idents =~= before.idents.push(identity@));
            assert(self@ =~= before.interned(identity@));
            assert(self@.idents.no_duplicates());
            lemma_index_of(self@.idents, i as int);
            assert(self@.wf()) by {
                assert(self@.rows == before.rows);
                assert(self@.totals == before.totals);
                assert forall|j: int| 0 <= j < self@.rows.len() implies (
                #[trigger] self@.rows[j]).ident < self@.idents.len() by {
                    assert(before.rows[j].ident < before.idents.len());
                }
            }
        }
        i
    }

    /// The identity at an index.
    pub fn identity(&self, ident: u32) -> (r: Option<&str>)
        ensures
            r.is_some() == (ident < self@.idents.len()),
            r matches Some(s) ==> s@ == self@.idents[ident as int],
    {
        if (ident as usize) < self.idents.len() {
            Some(self.idents[ident as usize].as_str())
        } else {
            None
        }
    }

    /// The identity table.
    pub fn identities(&self) -> (r: &Vec<String>)
        ensures
            texts_view(r@) == self@.idents,
    {
        &self.idents
    }

    /// The index of an identity, if it is in the table.
    pub fn index_of(&self, identity: &str) -> (r: Option<u32>)
        requires
            self.wf(),
        ensures
            r.is_some() == self@.idents.contains(identity@),
            r matches Some(i) ==> i < self@.idents.len() && self@.idents[i as int] == identity@,
    {
        match self.ident_index.get(identity) {
            Some(i) => {
                assert(self@.idents[*i as int] == identity@);
                Some(*i)
            },
            None => {
                proof {
                    if self@.idents.contains(identity@) {
                        let j = choose|j: int|
                            0 <= j < self@.idents.len() && self@.idents[j] == identity@;
                        assert(self.idents@[j]@ == identity@);
                    }
                }
                None
            },
        }
    }

    /// The work the window is sized to.
    pub fn target_work(&self) -> (r: u64)
        ensures
            r == self@.target_work,
    {
        self.target_work
    }

    /// The work in the window.
    pub fn total_work(&self) -> (r: u64)
        ensures
            r == self@.total_work,
    {
        self.total_work
    }

    /// How many rows the window has.
    pub fn len(&self) -> (r: usize)
        ensures
            r == self@.rows.len(),
    {
        self.credits.len()
    }

    /// Whether the window has no row.
    pub fn is_empty(&self) -> (r: bool)
        ensures
            r == (self@.rows.len() == 0),
    {
        self.credits.len() == 0
    }

    /// The row at `i`, oldest first.
    pub fn row(&self, i: usize) -> (c: Credit)
        requires
            i < self@.rows.len(),
        ensures
            c == self@.rows[i as int],
    {
        self.credits[i]
    }

    /// The rows, oldest first.
    pub fn credits(&self) -> (v: Vec<Credit>)
        ensures
            v@ == self@.rows,
    {
        let mut v: Vec<Credit> = Vec::new();
        let mut i: usize = 0;
        while i < self.credits.len()
            invariant
                i <= self.credits@.len(),
                v@ == self.credits@.take(i as int),
            decreases self.credits@.len() - i,
        {
            v.push(self.credits[i]);
            assert(self.credits@.take(i + 1) =~= self.credits@.take(i as int).push(
                self.credits@[i as int],
            ));
            i = i + 1;
        }
        assert(self.credits@.take(i as int) =~= self.credits@);
        v
    }

    /// Work in the window for one identity.
    pub fn work_of(&self, identity: &str) -> (r: u64)
        requires
            self.wf(),
        ensures
            r == work_in(self@, identity@),
    {
        match self.index_of(identity) {
            Some(i) => {
                proof {
                    lemma_index_of(self@.idents, i as int);
                }
                match self.totals.get(&i) {
                    Some(t) => t.0,
                    None => 0,
                }
            },
            None => 0,
        }
    }

    /// Resizes the window and trims it.
    pub fn set_target(&mut self, target_work: u64)
        requires
            old(self).wf(),
        ensures
            final(self).wf(),
            final(self)@ == (WindowView { target_work, ..old(self)@ }).trimmed(),
            old(self)@.exact() ==> final(self)@.exact(),
    {
        let ghost before = self@;
        self.target_work = target_work;
        assert(self@ =~= (WindowView { target_work, ..before }));
        self.trim();
    }

    /// Drops the oldest rows while the window still holds at least the target.
    fn trim(&mut self)
        requires
            old(self).wf(),
        ensures
            final(self).wf(),
            final(self)@ == old(self)@.trimmed(),
            old(self)@.exact() ==> final(self)@.exact(),
    {
        let ghost before = self@;
        if self.target_work == 0 {
            return;
        }
        while self.credits.len() > 0
            invariant
                self.wf(),
                self@.trimmed() == before.trimmed(),
                self@.target_work > 0,
                before.exact() ==> self@.exact(),
            ensures
                self.wf(),
                self@ == before.trimmed(),
                before.exact() ==> self@.exact(),
            decreases self.credits@.len(),
        {
            let front: Credit = self.credits[0];
            if self.total_work < front.work {
                break;
            }
            let rest: u64 = self.total_work - front.work;
            if rest < self.target_work {
                break;
            }
            let ghost now = self@;
            proof {
                lemma_dropped(now);
            }
            let _ = self.credits.pop_front();
            self.total_work = rest;
            let held: Option<(u64, u64, u32)> = match self.totals.get(&front.ident) {
                Some(t) => Some(*t),
                None => None,
            };
            if let Some(t) = held {
                if t.1 <= 1 {
                    let _ = self.totals.remove(&front.ident);
                } else {
                    let left: u64 = if t.0 >= front.work {
                        t.0 - front.work
                    } else {
                        0
                    };
                    self.totals.insert(front.ident, (left, t.1 - 1, t.2));
                }
            }
            proof {
                assert(self@.rows =~= now.rows.drop_first());
                assert(self@.totals =~= total_minus(now.totals, front));
                assert(self@ =~= now.dropped());
            }
        }
    }

    /// Adds to an identity's total.
    fn add_total(&mut self, ident: u32, work: u64, new_row: bool, ts: u32, keep_latest: bool)
        requires
            old(self)@.totals.contains_key(ident) ==> old(self)@.totals[ident].1 < u64::MAX,
        ensures
            final(self)@ == (WindowView {
                totals: total_plus(
                    old(self)@.totals,
                    ident,
                    work,
                    new_row,
                    if keep_latest {
                        later(old(self)@.totals, ident, ts)
                    } else {
                        ts
                    },
                ),
                ..old(self)@
            }),
            final(self).idents == old(self).idents,
            final(self).ident_index == old(self).ident_index,
    {
        let ghost before = self@;
        let t: (u64, u64, u32) = match self.totals.get(&ident) {
            Some(t) => *t,
            None => (0, 0, 0),
        };
        let rows: u64 = if new_row {
            t.1 + 1
        } else {
            t.1
        };
        let last: u32 = if keep_latest && t.2 > ts {
            t.2
        } else {
            ts
        };
        self.totals.insert(ident, (t.0.saturating_add(work), rows, last));
    }

    /// Adds work. Returns the row it is stored in, which may be the last row with the work
    /// merged into it, and whether a new row was appended.
    pub fn credit(&mut self, identity: &str, work: u64, height: u32, ts: u32, source: u8) -> (r: (
        Credit,
        bool,
    ))
        requires
            old(self).wf(),
            old(self)@.idents.contains(identity@) || old(self)@.idents.len() < 0x1_0000_0000,
            old(self)@.rows.len() < usize::MAX,
            old(self)@.lifetime_shares < u64::MAX,
        ensures
            final(self).wf(),
            ({
                let c = old(self)@.row_for(identity@, work, height, ts, source);
                let w = old(self)@.interned(identity@).counted(work);
                let filled = w.with_work(c, w.merges(c), ts);
                &&& final(self)@ == filled.trimmed()
                &&& r.0 == filled.rows.last()
                &&& r.1 == !w.merges(c)
            }),
            old(self)@.exact() && work_sum(old(self)@.rows) + work <= u64::MAX ==> final(self)@.exact(),
    {
        let ident: u32 = self.intern(identity);
        let ghost w0 = self@;
        self.lifetime_shares = self.lifetime_shares + 1;
        self.lifetime_work = self.lifetime_work.saturating_add(work);
        let ghost w = self@;
        assert(w =~= w0.counted(work));
        let c = Credit { ts, ident, work, height, source };
        self.total_work = self.total_work.saturating_add(work);
        let n: usize = self.credits.len();
        let mut merge: bool = false;
        if n > 0 {
            let tail: Credit = self.credits[n - 1];
            if tail.ident == ident && tail.ts == ts && tail.height == height && tail.source
                == source {
                merge = true;
                let _ = self.credits.pop_back();
                self.credits.push_back(
                    Credit { ts, ident, work: tail.work.saturating_add(work), height, source },
                );
            }
        }
        if !merge {
            self.credits.push_back(c);
        }
        proof {
            lemma_rows_of_bound(w.rows, ident);
            assert(merge == w.merges(c));
            if merge {
                assert(self@.rows =~= w.rows.drop_last().push(
                    Credit { work: sat_add(w.rows.last().work, work), ..w.rows.last() },
                ));
            }
        }
        self.add_total(ident, work, !merge, ts, false);
        proof {
            assert(self@ =~= w.with_work(c, merge, ts));
            lemma_with_work(w, c, merge, ts);
        }
        let stored: Credit = self.credits[self.credits.len() - 1];
        self.trim();
        (stored, !merge)
    }

    /// Adds work as a row of its own, never merging it into the last one.
    pub fn credit_row(&mut self, identity: &str, work: u64, height: u32, ts: u32, source: u8) -> (c:
        Credit)
        requires
            old(self).wf(),
            old(self)@.idents.contains(identity@) || old(self)@.idents.len() < 0x1_0000_0000,
            old(self)@.rows.len() < usize::MAX,
            old(self)@.lifetime_shares < u64::MAX,
        ensures
            final(self).wf(),
            c == old(self)@.row_for(identity@, work, height, ts, source),
            final(self)@ == old(self)@.interned(identity@).counted(work).with_work(
                c,
                false,
                ts,
            ).trimmed(),
            old(self)@.exact() && work_sum(old(self)@.rows) + work <= u64::MAX ==> final(self)@.exact(),
    {
        let ident: u32 = self.intern(identity);
        let ghost w0 = self@;
        self.lifetime_shares = self.lifetime_shares + 1;
        self.lifetime_work = self.lifetime_work.saturating_add(work);
        let ghost w = self@;
        assert(w =~= w0.counted(work));
        let c = Credit { ts, ident, work, height, source };
        self.total_work = self.total_work.saturating_add(work);
        self.credits.push_back(c);
        proof {
            lemma_rows_of_bound(w.rows, ident);
        }
        self.add_total(ident, work, true, ts, false);
        proof {
            assert(self@ =~= w.with_work(c, false, ts));
            lemma_with_work(w, c, false, ts);
        }
        self.trim();
        c
    }

    /// Replays a stored row, without merging, lifetime accounting or trimming.
    pub fn push_raw(&mut self, c: Credit)
        requires
            old(self).wf(),
            c.ident < old(self)@.idents.len(),
            old(self)@.rows.len() < usize::MAX,
        ensures
            final(self).wf(),
            final(self)@ == old(self)@.with_work(c, false, later(old(self)@.totals, c.ident, c.ts)),
            old(self)@.exact() && work_sum(old(self)@.rows) + c.work <= u64::MAX ==> final(self)@.exact(),
    {
        let ghost w = self@;
        self.total_work = self.total_work.saturating_add(c.work);
        self.credits.push_back(c);
        proof {
            lemma_rows_of_bound(w.rows, c.ident);
        }
        self.add_total(c.ident, c.work, true, c.ts, true);
        proof {
            let ts = later(w.totals, c.ident, c.ts);
            assert(self@ =~= w.with_work(c, false, ts));
            lemma_with_work(w, c, false, ts);
        }
    }
}

/// The later of an identity's last time and `ts`.
pub open spec fn later(totals: Map<u32, (u64, u64, u32)>, ident: u32, ts: u32) -> u32 {
    if totals.contains_key(ident) && totals[ident].2 > ts {
        totals[ident].2
    } else {
        ts
    }
}

/// Work in the window for one identity.
pub open spec fn work_in(w: WindowView, identity: Seq<char>) -> u64 {
    let i = w.idents.index_of(identity) as u32;
    if w.idents.contains(identity) && w.totals.contains_key(i) {
        w.totals[i].0
    } else {
        0
    }
}

/// In a table without repeats an entry's index is where it stands.
pub proof fn lemma_index_of(s: Seq<Seq<char>>, i: int)
    requires
        s.no_duplicates(),
        0 <= i < s.len(),
    ensures
        s.index_of(s[i]) == i,
        s.contains(s[i]),
{
    let j = s.index_of(s[i]);
    assert(0 <= j < s.len() && s[j] == s[i]) by {
        assert(s.contains(s[i]));
    }
}

/// One identity's part of the window.
#[derive(Clone, Debug, PartialEq, Eq)]
pub struct MinerStat {
    pub identity: String,
    pub work: u64,
    /// Work of the pool's own stratum. The rest is DATUM work.
    pub stratum_work: u64,
    pub credits: u64,
    pub last_ts: u32,
}

/// What a [`MinerStat`] holds.
#[verifier::ext_equal]
pub struct MinerView {
    pub identity: Seq<char>,
    pub work: u64,
    pub stratum_work: u64,
    pub credits: u64,
    pub last_ts: u32,
}

impl View for MinerStat {
    type V = MinerView;

    open spec fn view(&self) -> MinerView {
        MinerView {
            identity: self.identity@,
            work: self.work,
            stratum_work: self.stratum_work,
            credits: self.credits,
            last_ts: self.last_ts,
        }
    }
}

/// The identities of a list of stats, as mathematical values.
pub open spec fn miners_view(v: Seq<MinerStat>) -> Seq<MinerView> {
    Seq::new(v.len(), |i: int| v[i]@)
}

/// Whether one stat is listed before another: more work first, then by identity.
pub open spec fn listed_before(a: MinerView, b: MinerView) -> bool {
    a.work > b.work || (a.work == b.work && text_before(a.identity, b.identity))
}

impl WindowView {
    /// What the window says of the identity at `ident`.
    pub open spec fn stat_of(self, ident: u32) -> MinerView {
        let t = self.totals[ident];
        let s = stratum_sum_of(self.rows, ident);
        MinerView {
            identity: self.idents[ident as int],
            work: t.0,
            stratum_work: if s < t.0 {
                s as u64
            } else {
                t.0
            },
            credits: t.1,
            last_ts: t.2,
        }
    }

    /// Whether `m` is what the window says of an identity with work in it, of the first `n`.
    pub open spec fn has_stat(self, m: MinerView, n: nat) -> bool {
        exists|ident: u32|
            ident < n && #[trigger] self.totals.contains_key(ident) && m == self.stat_of(ident)
    }

    /// Whether a list holds each identity with work in the window once, largest first.
    pub open spec fn lists_miners(self, v: Seq<MinerView>) -> bool {
        &&& forall|i: int, j: int| 0 <= i < j < v.len() ==> listed_before(#[trigger] v[i], #[trigger] v[j])
        &&& forall|i: int| 0 <= i < v.len() ==> self.has_stat(#[trigger] v[i], self.idents.len())
        &&& forall|ident: u32| #[trigger]
            self.totals.contains_key(ident) ==> v.contains(self.stat_of(ident))
    }
}

/// The order of stats is strict and total on different identities.
proof fn lemma_listed_before(a: MinerView, b: MinerView, c: MinerView)
    ensures
        a.identity != b.identity ==> listed_before(a, b) || listed_before(b, a),
        listed_before(a, b) ==> !listed_before(b, a) && a != b,
        listed_before(a, b) && listed_before(b, c) ==> listed_before(a, c),
{
    lemma_text_before_total(a.identity, b.identity);
    if text_before(a.identity, b.identity) && text_before(b.identity, c.identity) {
        lemma_text_before_trans(a.identity, b.identity, c.identity);
    }
}

/// There is only one list of the miners of a window.
pub proof fn lemma_miners_unique(w: WindowView, u: Seq<MinerView>, v: Seq<MinerView>)
    requires
        w.lists_miners(u),
        w.lists_miners(v),
    ensures
        u == v,
{
    assert forall|i: int| 0 <= i < u.len() implies v.contains(#[trigger] u[i]) by {
        assert(w.has_stat(u[i], w.idents.len()));
    }
    assert forall|i: int| 0 <= i < v.len() implies u.contains(#[trigger] v[i]) by {
        assert(w.has_stat(v[i], w.idents.len()));
    }
    lemma_sorted_same(u, v);
}

/// Two strictly ordered lists with the same elements are the same list.
pub proof fn lemma_sorted_same(u: Seq<MinerView>, v: Seq<MinerView>)
    requires
        forall|i: int, j: int| 0 <= i < j < u.len() ==> listed_before(#[trigger] u[i], #[trigger] u[j]),
        forall|i: int, j: int| 0 <= i < j < v.len() ==> listed_before(#[trigger] v[i], #[trigger] v[j]),
        forall|i: int| 0 <= i < u.len() ==> v.contains(#[trigger] u[i]),
        forall|i: int| 0 <= i < v.len() ==> u.contains(#[trigger] v[i]),
    ensures
        u == v,
    decreases u.len(),
{
    if u.len() == 0 {
        if v.len() > 0 {
            assert(u.contains(v[0]));
        }
        assert(u =~= v);
    } else {
        assert(v.contains(u[0]));
        assert(u.contains(v[0]));
        let a = choose|a: int| 0 <= a < v.len() && v[a] == u[0];
        let b = choose|b: int| 0 <= b < u.len() && u[b] == v[0];
        if a > 0 {
            lemma_listed_before(v[0], v[a], v[0]);
            if b > 0 {
                lemma_listed_before(u[0], u[b], u[0]);
            }
        }
        assert(u[0] == v[0]);
        let u1 = u.drop_first();
        let v1 = v.drop_first();
        assert forall|i: int| 0 <= i < u1.len() implies v1.contains(#[trigger] u1[i]) by {
            assert(u1[i] == u[i + 1]);
            assert(v.contains(u[i + 1]));
            let c = choose|c: int| 0 <= c < v.len() && v[c] == u[i + 1];
            lemma_listed_before(u[0], u[i + 1], u[0]);
            assert(c != 0);
            assert(v1[c - 1] == v[c]);
        }
        assert forall|i: int| 0 <= i < v1.len() implies u1.contains(#[trigger] v1[i]) by {
            assert(v1[i] == v[i + 1]);
            assert(u.contains(v[i + 1]));
            let c = choose|c: int| 0 <= c < u.len() && u[c] == v[i + 1];
            lemma_listed_before(v[0], v[i + 1], v[0]);
            assert(c != 0);
            assert(u1[c - 1] == u[c]);
        }
        assert forall|i: int, j: int| 0 <= i < j < u1.len() implies listed_before(
            #[trigger] u1[i],
            #[trigger] u1[j],
        ) by {
            assert(u1[i] == u[i + 1] && u1[j] == u[j + 1]);
        }
        assert forall|i: int, j: int| 0 <= i < j < v1.len() implies listed_before(
            #[trigger] v1[i],
            #[trigger] v1[j],
        ) by {
            assert(v1[i] == v[i + 1] && v1[j] == v[j + 1]);
        }
        lemma_sorted_same(u1, v1);
        assert(u =~= seq![u[0]] + u1);
        assert(v =~= seq![v[0]] + v1);
    }
}

proof fn lemma_stratum_push(rows: Seq<Credit>, c: Credit, ident: u32)
    ensures
        stratum_sum_of(rows.push(c), ident) == stratum_sum_of(rows, ident) + if c.ident == ident
            && c.source == SOURCE_STRATUM {
            c.work as nat
        } else {
            0
        },
    decreases rows.len(),
{
    if rows.len() == 0 {
        assert(rows.push(c).drop_first() =~= rows);
    } else {
        lemma_stratum_push(rows.drop_first(), c, ident);
        assert(rows.push(c).drop_first() =~= rows.drop_first().push(c));
    }
}

/// Inserts a stat into an ordered list.
fn insert_listed(v: &mut Vec<MinerStat>, m: MinerStat)
    requires
        forall|i: int, j: int|
            0 <= i < j < old(v)@.len() ==> listed_before(
                (#[trigger] old(v)@[i])@,
                (#[trigger] old(v)@[j])@,
            ),
        forall|i: int| 0 <= i < old(v)@.len() ==> (#[trigger] old(v)@[i])@.identity != m@.identity,
    ensures
        forall|i: int, j: int|
            0 <= i < j < final(v)@.len() ==> listed_before(
                (#[trigger] final(v)@[i])@,
                (#[trigger] final(v)@[j])@,
            ),
        exists|k: int|
            0 <= k <= old(v)@.len() && #[trigger] final(v)@ == old(v)@.insert(k, m),
{
    let ghost before = v@;
    let mut k: usize = 0;
    while k < v.len() && (v[k].work > m.work || (v[k].work == m.work && text_less(
        v[k].identity.as_str(),
        m.identity.as_str(),
    )))
        invariant
            k <= v@.len(),
            v@ == before,
            forall|i: int| 0 <= i < k ==> listed_before((#[trigger] v@[i])@, m@),
        decreases v@.len() - k,
    {
        k = k + 1;
    }
    proof {
        if k < v@.len() {
            lemma_listed_before(v@[k as int]@, m@, m@);
        }
        assert forall|i: int| k <= i < before.len() implies listed_before(
            m@,
            (#[trigger] before[i])@,
        ) by {
            if i > k {
                lemma_listed_before(m@, before[k as int]@, before[i]@);
            }
        }
    }
    v.insert(k, m);
    proof {
        let after = v@;
        assert(after == before.insert(k as int, m));
        assert forall|i: int, j: int| 0 <= i < j < after.len() implies listed_before(
            (#[trigger] after[i])@,
            (#[trigger] after[j])@,
        ) by {
            let bi = if i < k { i } else { i - 1 };
            let bj = if j < k { j } else { j - 1 };
            if i != k && j != k {
                assert(after[i] == before[bi] && after[j] == before[bj]);
            } else if i == k {
                assert(after[j] == before[bj]);
            } else {
                assert(after[i] == before[bi]);
            }
        }
    }
}

impl Window {
    /// The stratum work of each identity, saturating.
    fn stratum_work(&self) -> (m: HashMap<u32, u64>)
        ensures
            forall|i: u32|
                #[trigger] m@.contains_key(i) ==> m@[i] == capped(stratum_sum_of(self@.rows, i)),
            forall|i: u32|
                !(#[trigger] m@.contains_key(i)) ==> stratum_sum_of(self@.rows, i) == 0,
    {
        let mut m: HashMap<u32, u64> = HashMap::new();
        let mut k: usize = 0;
        let ghost rows = self@.rows;
        assert(rows.take(0) =~= Seq::empty());
        while k < self.credits.len()
            invariant
                k <= self.credits@.len(),
                rows == self.credits@,
                forall|i: u32|
                    #[trigger] m@.contains_key(i) ==> m@[i] == capped(
                        stratum_sum_of(rows.take(k as int), i),
                    ),
                forall|i: u32|
                    !(#[trigger] m@.contains_key(i)) ==> stratum_sum_of(rows.take(k as int), i)
                        == 0,
            decreases self.credits@.len() - k,
        {
            let c: Credit = self.credits[k];
            let ghost prior = m@;
            proof {
                assert(rows.take(k + 1) =~= rows.take(k as int).push(c));
            }
            if c.source == SOURCE_STRATUM {
                let held: u64 = match m.get(&c.ident) {
                    Some(w) => *w,
                    None => 0,
                };
                m.insert(c.ident, held.saturating_add(c.work));
            }
            proof {
                assert forall|i: u32| #[trigger] m@.contains_key(i) implies m@[i] == capped(
                    stratum_sum_of(rows.take(k + 1), i),
                ) by {
                    lemma_stratum_push(rows.take(k as int), c, i);
                    if prior.contains_key(i) {
                    }
                }
                assert forall|i: u32| !(#[trigger] m@.contains_key(i)) implies stratum_sum_of(
                    rows.take(k + 1),
                    i,
                ) == 0 by {
                    lemma_stratum_push(rows.take(k as int), c, i);
                    assert(!prior.contains_key(i));
                }
            }
            k = k + 1;
        }
        assert(rows.take(k as int) =~= rows);
        m
    }

    /// Per-identity totals, largest first.
    pub fn miners(&self) -> (v: Vec<MinerStat>)
        requires
            self.wf(),
        ensures
            self@.lists_miners(miners_view(v@)),
    {
        let stratum: HashMap<u32, u64> = self.stratum_work();
        let mut v: Vec<MinerStat> = Vec::new();
        let mut i: usize = 0;
        let ghost w = self@;
        while i < self.idents.len()
            invariant
                i <= self.idents@.len(),
                self.wf(),
                w == self@,
                forall|k: u32|
                    #[trigger] stratum@.contains_key(k) ==> stratum@[k] == capped(
                        stratum_sum_of(w.rows, k),
                    ),
                forall|k: u32|
                    !(#[trigger] stratum@.contains_key(k)) ==> stratum_sum_of(w.rows, k) == 0,
                forall|a: int, b: int|
                    0 <= a < b < v@.len() ==> listed_before(
                        (#[trigger] v@[a])@,
                        (#[trigger] v@[b])@,
                    ),
                forall|a: int| 0 <= a < v@.len() ==> w.has_stat((#[trigger] v@[a])@, i as nat),
                forall|ident: u32|
                    ident < i && #[trigger] w.totals.contains_key(ident) ==> exists|a: int|
                        0 <= a < v@.len() && (#[trigger] v@[a])@ == w.stat_of(ident),
            decreases self.idents@.len() - i,
        {
            let ident: u32 = i as u32;
            if let Some(t) = self.totals.get(&ident) {
                let s: u64 = match stratum.get(&ident) {
                    Some(x) => *x,
                    None => 0,
                };
                let stratum_work: u64 = if s < t.0 {
                    s
                } else {
                    t.0
                };
                let m = MinerStat {
                    identity: self.idents[i].clone(),
                    work: t.0,
                    stratum_work,
                    credits: t.1,
                    last_ts: t.2,
                };
                let ghost before = v@;
                proof {
                    assert(m@ == w.stat_of(ident));
                    assert forall|a: int| 0 <= a < v@.len() implies (
                    #[trigger] v@[a])@.identity != m@.identity by {
                        assert(w.has_stat(v@[a]@, i as nat));
                        let k = choose|k: u32|
                            k < i && #[trigger] w.totals.contains_key(k) && v@[a]@ == w.stat_of(k);
                        assert(w.idents[k as int] != w.idents[i as int]);
                    }
                }
                insert_listed(&mut v, m);
                proof {
                    let k = choose|k: int|
                        0 <= k <= before.len() && #[trigger] v@ == before.insert(k, m);
                    assert forall|a: int| 0 <= a < v@.len() implies w.has_stat(
                        (#[trigger] v@[a])@,
                        (i + 1) as nat,
                    ) by {
                        if a == k {
                            assert(w.totals.contains_key(ident) && v@[a]@ == w.stat_of(ident));
                        } else {
                            let b = if a < k { a } else { a - 1 };
                            assert(v@[a] == before[b]);
                            assert(w.has_stat(before[b]@, i as nat));
                        }
                    }
                    assert forall|id: u32|
                        id < i + 1 && #[trigger] w.totals.contains_key(id) implies exists|a: int|
                        0 <= a < v@.len() && (#[trigger] v@[a])@ == w.stat_of(id) by {
                        if id == ident {
                            assert(v@[k]@ == w.stat_of(id));
                        } else {
                            let b = choose|b: int|
                                0 <= b < before.len() && (#[trigger] before[b])@ == w.stat_of(id);
                            let a = if b < k { b } else { b + 1 };
                            assert(v@[a] == before[b]);
                        }
                    }
                }
            }
            i = i + 1;
        }
        proof {
            let mv = miners_view(v@);
            assert forall|ident: u32| #[trigger] w.totals.contains_key(ident) implies mv.contains(
                w.stat_of(ident),
            ) by {
                assert(rows_of(w.rows, ident) > 0);
                let r = lemma_rows_of_witness(w.rows, ident);
                assert(w.rows[r].ident < w.idents.len());
                let a = choose|a: int| 0 <= a < v@.len() && (#[trigger] v@[a])@ == w.stat_of(ident);
                assert(mv[a] == w.stat_of(ident));
            }
            assert forall|a: int| 0 <= a < mv.len() implies w.has_stat(
                #[trigger] mv[a],
                w.idents.len(),
            ) by {
                assert(v@[a]@ == mv[a]);
            }
        }
        v
    }
}

/// A sum as far as 64 bits can hold it.
pub open spec fn capped(n: nat) -> u64 {
    if n > u64::MAX {
        u64::MAX
    } else {
        n as u64
    }
}

/// The row of a credit names its identity, and says how much work it is, for which height, when
/// and how it came.
pub proof fn lemma_row_says_whose(
    w: WindowView,
    identity: Seq<char>,
    work: u64,
    height: u32,
    ts: u32,
    source: u8,
)
    requires
        w.wf(),
        w.idents.contains(identity) || w.idents.len() < 0x1_0000_0000,
    ensures
        ({
            let c = w.row_for(identity, work, height, ts, source);
            let table = w.interned(identity).idents;
            &&& c.ident < table.len() && table[c.ident as int] == identity
            &&& c.work == work && c.height == height && c.ts == ts && c.source == source
            &&& forall|i: int| 0 <= i < w.idents.len() ==> table[i] == #[trigger] w.idents[i]
            &&& table.len() == w.idents.len() + if w.idents.contains(identity) {
                0int
            } else {
                1
            }
        }),
{
    lemma_interned_wf(w, identity);
    let t = w.interned(identity).idents;
    let i = choose|i: int| 0 <= i < t.len() && t[i] == identity;
    lemma_index_of(t, i);
    assert forall|i: int| 0 <= i < w.idents.len() implies t[i] == #[trigger] w.idents[i] by {}
}

/// Work that arrives is the identity's: its total and the window's grow by the work and the
/// others stay as they are. It counts as stratum work where it came by the pool's own stratum, and
/// in no other case. Nothing is lost from the rows, merged or not.
pub proof fn lemma_work_is_added(w: WindowView, c: Credit, merge: bool, ts: u32, other: u32)
    requires
        w.wf(),
        w.exact(),
        c.ident < w.idents.len(),
        w.rows.len() < u64::MAX,
        work_sum(w.rows) + c.work <= u64::MAX,
        merge ==> w.merges(c),
    ensures
        ({
            let n = w.with_work(c, merge, ts);
            &&& work_sum(n.rows) == work_sum(w.rows) + c.work
            &&& n.total_work == w.total_work + c.work
            &&& work_sum_of(n.rows, c.ident) == work_sum_of(w.rows, c.ident) + c.work
            &&& n.totals.contains_key(c.ident) && n.totals[c.ident].0 == work_sum_of(
                n.rows,
                c.ident,
            ) && n.totals[c.ident].2 == ts
            &&& stratum_sum_of(n.rows, c.ident) == stratum_sum_of(w.rows, c.ident)
                + if c.source == 1 {
                c.work as int
            } else {
                0
            }
            &&& n.rows.len() == w.rows.len() + if merge {
                0int
            } else {
                1
            }
            &&& n.rows.last() == (Credit { work: n.rows.last().work, ..c })
            &&& !merge ==> n.rows.last() == c
            &&& other != c.ident ==> {
                &&& work_sum_of(n.rows, other) == work_sum_of(w.rows, other)
                &&& stratum_sum_of(n.rows, other) == stratum_sum_of(w.rows, other)
                &&& n.totals.contains_key(other) == w.totals.contains_key(other)
                &&& n.totals.contains_key(other) ==> n.totals[other] == w.totals[other]
            }
            &&& n.idents == w.idents && n.target_work == w.target_work
            &&& n.lifetime_shares == w.lifetime_shares && n.lifetime_work == w.lifetime_work
        }),
{
    let n = w.with_work(c, merge, ts);
    lemma_with_work(w, c, merge, ts);
    if merge {
        let r = w.rows.drop_last();
        let t = w.rows.last();
        assert(w.rows =~= r.push(t));
        lemma_sums_push(r, t, c.ident);
        lemma_sums_push(r, t, other);
        lemma_stratum_push(r, t, c.ident);
        lemma_stratum_push(r, t, other);
        let m = n.rows.last();
        assert(n.rows =~= r.push(m));
        lemma_sums_push(r, m, c.ident);
        lemma_sums_push(r, m, other);
        lemma_stratum_push(r, m, c.ident);
        lemma_stratum_push(r, m, other);
    } else {
        lemma_sums_push(w.rows, c, c.ident);
        lemma_sums_push(w.rows, c, other);
        lemma_stratum_push(w.rows, c, c.ident);
        lemma_stratum_push(w.rows, c, other);
    }
}

/// Each share counts once for the lifetime of the pool, with all its work.
pub proof fn lemma_lifetime_counts_each_share(w: WindowView, work: u64)
    requires
        w.lifetime_shares < u64::MAX,
        w.lifetime_work + work <= u64::MAX,
    ensures
        w.counted(work).lifetime_shares == w.lifetime_shares + 1,
        w.counted(work).lifetime_work == w.lifetime_work + work,
        w.counted(work).rows == w.rows,
        w.counted(work).totals == w.totals,
        w.counted(work).idents == w.idents,
        w.counted(work).total_work == w.total_work,
        w.counted(work).target_work == w.target_work,
{
}

/// Work merges into the last row only where that row is of the same identity, height, second and
/// source, and then it does.
pub proof fn lemma_what_merges(w: WindowView, c: Credit)
    ensures
        w.merges(c) <==> w.rows.len() > 0 && w.rows.last() == (Credit {
            work: w.rows.last().work,
            ..c
        }),
{
}

/// An identity keeps its work when only rows of others leave.
pub proof fn lemma_stratum_of_newest(rows: Seq<Credit>, n: int, ident: u32)
    requires
        0 <= n <= rows.len(),
        forall|i: int| 0 <= i < n ==> (#[trigger] rows[i]).ident != ident,
    ensures
        stratum_sum_of(rows.skip(n), ident) == stratum_sum_of(rows, ident),
        work_sum_of(rows.skip(n), ident) == work_sum_of(rows, ident),
        rows_of(rows.skip(n), ident) == rows_of(rows, ident),
    decreases n,
{
    if n == 0 {
        assert(rows.skip(0) =~= rows);
    } else {
        let r = rows.drop_first();
        assert forall|i: int| 0 <= i < n - 1 implies (#[trigger] r[i]).ident != ident by {
            assert(r[i] == rows[i + 1]);
        }
        lemma_stratum_of_newest(r, n - 1, ident);
        assert(r.skip(n - 1) =~= rows.skip(n));
        assert(rows[0].ident != ident);
    }
}

/// Stratum work is the work of the rows that came by the pool's own stratum: all of it where all
/// came so, none where none did. Work from before it was tagged is DATUM work.
pub proof fn lemma_stratum_work(rows: Seq<Credit>, ident: u32)
    ensures
        stratum_sum_of(rows, ident) <= work_sum_of(rows, ident),
        (forall|i: int| 0 <= i < rows.len() ==> (#[trigger] rows[i]).source == 1)
            ==> stratum_sum_of(rows, ident) == work_sum_of(rows, ident),
        (forall|i: int| 0 <= i < rows.len() ==> (#[trigger] rows[i]).source != 1)
            ==> stratum_sum_of(rows, ident) == 0,
    decreases rows.len(),
{
    if rows.len() > 0 {
        let r = rows.drop_first();
        assert forall|i: int| 0 <= i < r.len() implies (#[trigger] r[i]) == rows[i + 1] by {}
        lemma_stratum_work(r, ident);
        assert(rows[0] == rows[0]);
    }
}

/// The list of miners goes from the most work to the least, names nobody twice, and gives each the
/// work, the stratum work and the number of its rows in the window; whoever has a row is in it.
pub proof fn lemma_miners_list(w: WindowView, v: Seq<MinerView>)
    requires
        w.wf(),
        w.exact(),
        w.lists_miners(v),
    ensures
        forall|i: int, j: int|
            0 <= i < j < v.len() ==> (#[trigger] v[i]).work >= (#[trigger] v[j]).work
                && v[i].identity != v[j].identity,
        forall|i: int|
            0 <= i < v.len() ==> exists|ident: u32|
                #![trigger w.idents[ident as int]]
                {
                    &&& ident < w.idents.len() && w.idents[ident as int] == (
                    #[trigger] v[i]).identity
                    &&& v[i].work == work_sum_of(w.rows, ident)
                    &&& v[i].stratum_work == stratum_sum_of(w.rows, ident)
                    &&& v[i].credits == rows_of(w.rows, ident) > 0
                    &&& v[i].last_ts == w.totals[ident].2
                },
        forall|k: int|
            0 <= k < w.rows.len() ==> exists|i: int|
                0 <= i < v.len() && (#[trigger] v[i]).identity == w.idents[(
                #[trigger] w.rows[k]).ident as int],
{
    assert forall|i: int| 0 <= i < v.len() implies exists|ident: u32|
        #![trigger w.idents[ident as int]]
        {
            &&& ident < w.idents.len() && w.idents[ident as int] == (#[trigger] v[i]).identity
            &&& v[i].work == work_sum_of(w.rows, ident)
            &&& v[i].stratum_work == stratum_sum_of(w.rows, ident)
            &&& v[i].credits == rows_of(w.rows, ident) > 0
            &&& v[i].last_ts == w.totals[ident].2
        } by {
        assert(w.has_stat(v[i], w.idents.len()));
        let ident = choose|ident: u32|
            ident < w.idents.len() && #[trigger] w.totals.contains_key(ident) && v[i] == w.stat_of(
                ident,
            );
        lemma_stratum_work(w.rows, ident);
        assert(w.idents[ident as int] == v[i].identity);
    }
    assert forall|i: int, j: int| 0 <= i < j < v.len() implies (#[trigger] v[i]).work >= (
    #[trigger] v[j]).work && v[i].identity != v[j].identity by {
        assert(listed_before(v[i], v[j]));
        assert(w.has_stat(v[i], w.idents.len()) && w.has_stat(v[j], w.idents.len()));
        let a = choose|ident: u32|
            ident < w.idents.len() && #[trigger] w.totals.contains_key(ident) && v[i] == w.stat_of(
                ident,
            );
        let b = choose|ident: u32|
            ident < w.idents.len() && #[trigger] w.totals.contains_key(ident) && v[j] == w.stat_of(
                ident,
            );
        if v[i].identity == v[j].identity {
            assert(w.idents[a as int] == w.idents[b as int]);
            assert(a == b);
            lemma_listed_before(v[i], v[j], v[i]);
        }
    }
    assert forall|k: int| 0 <= k < w.rows.len() implies exists|i: int|
        0 <= i < v.len() && (#[trigger] v[i]).identity == w.idents[(
        #[trigger] w.rows[k]).ident as int] by {
        let ident = w.rows[k].ident;
        lemma_row_counts(w.rows, k);
        assert(w.totals.contains_key(ident));
        assert(v.contains(w.stat_of(ident)));
        let i = choose|i: int| 0 <= i < v.len() && v[i] == w.stat_of(ident);
        assert(v[i].identity == w.idents[ident as int]);
    }
}

/// Where the fields of a stored row stand.
pub proof fn lemma_stored_row(c: Credit)
    ensures
        ({
            let b = c.row_bytes();
            &&& b.len() == 24
            &&& le_nat(b.subrange(0, 4)) == c.ts
            &&& le_nat(b.subrange(4, 8)) == c.ident
            &&& le_nat(b.subrange(8, 16)) == c.work
            &&& le_nat(b.subrange(16, 20)) == c.height
            &&& b[20] == c.source
            &&& b[21] == 0 && b[22] == 0 && b[23] == 0
        }),
{
    let b = c.row_bytes();
    lemma_le_bytes_len(c.ts as nat, 4);
    lemma_le_bytes_len(c.ident as nat, 4);
    lemma_le_bytes_len(c.work as nat, 8);
    lemma_le_bytes_len(c.height as nat, 4);
    lemma_pow_256(4);
    lemma_pow_256(8);
    lemma_le_nat_of_bytes(c.ts as nat, 4);
    lemma_le_nat_of_bytes(c.ident as nat, 4);
    lemma_le_nat_of_bytes(c.work as nat, 8);
    lemma_le_nat_of_bytes(c.height as nat, 4);
    assert(b.subrange(0, 4) =~= le_bytes(c.ts as nat, 4));
    assert(b.subrange(4, 8) =~= le_bytes(c.ident as nat, 4));
    assert(b.subrange(8, 16) =~= le_bytes(c.work as nat, 8));
    assert(b.subrange(16, 20) =~= le_bytes(c.height as nat, 4));
}

/// A window starts with nothing in it, and the work of its rows is that of each of them.
pub proof fn lemma_work_of_rows(rows: Seq<Credit>, c: Credit)
    ensures
        WindowView::empty().total_work == 0,
        WindowView::empty().lifetime_shares == 0,
        WindowView::empty().lifetime_work == 0,
        WindowView::empty().rows.len() == 0 && WindowView::empty().idents.len() == 0,
        work_sum(Seq::empty()) == 0,
        work_sum(seq![c] + rows) == c.work + work_sum(rows),
        work_sum_of(Seq::empty(), c.ident) == 0,
        work_sum_of(seq![c] + rows, c.ident) == c.work + work_sum_of(rows, c.ident),
{
    assert((seq![c] + rows).drop_first() =~= rows);
}

/// An identity's last time is never set back: of the time it had and that of a row, the later.
pub proof fn lemma_last_times(totals: Map<u32, (u64, u64, u32)>, ident: u32, ts: u32)
    ensures
        ts <= later(totals, ident, ts),
        totals.contains_key(ident) ==> totals[ident].2 <= later(totals, ident, ts),
        later(totals, ident, ts) == ts || (totals.contains_key(ident) && later(totals, ident, ts)
            == totals[ident].2),
{
}

} // verus!
