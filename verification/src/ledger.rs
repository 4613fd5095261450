//! The durable side of the window: what is appended to disk and how it is read back.

use crate::text::texts_view;
use crate::tides::{
    later, lemma_credit_round_trip, lemma_credited, lemma_dropped, lemma_index_of,
    lemma_interned_wf, lemma_trimmed, lemma_with_work, rows_of, work_sum, work_sum_of, Credit,
    Window, WindowView, SOURCE_UNKNOWN,
};
use vstd::prelude::*;

verus! {

/// Rows on disk beyond the window's before the file is rewritten.
pub const COMPACT_SLACK: u64 = 8192;

/// The persisted counters of a window.
#[derive(Clone, Copy, Debug, PartialEq, Eq)]
pub struct Meta {
    pub target_work: u64,
    pub lifetime_shares: u64,
    pub lifetime_work: u64,
}

impl Default for Meta {
    fn default() -> (m: Meta)
        ensures
            m.target_work == 0,
            m.lifetime_shares == 0,
            m.lifetime_work == 0,
    {
        Meta { target_work: 0, lifetime_shares: 0, lifetime_work: 0 }
    }
}

/// What one credit adds to the files on disk.
#[derive(Clone, Debug, PartialEq, Eq)]
pub struct Appended {
    /// Whether the identity is new and its line goes into the identity file.
    pub new_identity: bool,
    /// The bytes that go into the credit file.
    pub row: Vec<u8>,
}

/// A window and how far the files on disk are from it.
pub struct Ledger {
    pub window: Window,
    /// Rows in the credit file.
    pub rows_on_disk: u64,
    /// Whether the files on disk lag behind.
    pub dirty: bool,
}

/// The table after the lines of the identity file, the empty ones left out.
pub open spec fn with_lines(w: WindowView, lines: Seq<Seq<char>>) -> WindowView
    decreases lines.len(),
{
    if lines.len() == 0 {
        w
    } else {
        let before = with_lines(w, lines.drop_last());
        if lines.last().len() == 0 {
            before
        } else {
            before.interned(lines.last())
        }
    }
}

/// The rows of the credit file; a partial row at its end is left out.
pub open spec fn rows_in(b: Seq<u8>) -> Seq<Credit> {
    Seq::new(
        b.len() / 24,
        |i: int| Credit::of_bytes(b.subrange(24 * i, 24 * i + 24)),
    )
}

/// The window after the rows whose identity is known.
pub open spec fn with_rows(w: WindowView, rows: Seq<Credit>) -> WindowView
    decreases rows.len(),
{
    if rows.len() == 0 {
        w
    } else {
        let before = with_rows(w, rows.drop_last());
        let c = rows.last();
        if c.ident < before.idents.len() {
            before.with_work(c, false, later(before.totals, c.ident, c.ts))
        } else {
            before
        }
    }
}

/// How many rows have a known identity, of `n`.
pub open spec fn known_rows(rows: Seq<Credit>, n: nat) -> nat
    decreases rows.len(),
{
    if rows.len() == 0 {
        0
    } else {
        known_rows(rows.drop_last(), n) + if rows.last().ident < n {
            1nat
        } else {
            0
        }
    }
}

/// The window that the files on disk stand for.
pub open spec fn replayed(meta: Meta, lines: Seq<Seq<char>>, credits: Seq<u8>) -> WindowView {
    let start = WindowView {
        lifetime_shares: meta.lifetime_shares,
        lifetime_work: meta.lifetime_work,
        ..WindowView::empty()
    };
    let filled = with_rows(with_lines(start, lines), rows_in(credits));
    (WindowView { target_work: meta.target_work, ..filled }).trimmed()
}

/// The credit file that holds exactly some rows.
pub open spec fn rows_bytes(rows: Seq<Credit>) -> Seq<u8>
    decreases rows.len(),
{
    if rows.len() == 0 {
        Seq::empty()
    } else {
        rows_bytes(rows.drop_last()) + rows.last().row_bytes()
    }
}

impl Ledger {
    /// The window is well-formed.
    pub open spec fn wf(&self) -> bool {
        self.window.wf()
    }

    /// Replays the files on disk: the counters, the lines of the identity file, the bytes of the
    /// credit file. A partial row at the end and rows of an unknown identity are left out.
    pub fn replay(meta: Meta, lines: &Vec<String>, credits: &[u8]) -> (l: Ledger)
        requires
            lines@.len() <= 0x1_0000_0000,
        ensures
            l.wf(),
            l.window@ == replayed(meta, texts_view(lines@), credits@),
            l.rows_on_disk == known_rows(
                rows_in(credits@),
                with_lines(WindowView::empty(), texts_view(lines@)).idents.len(),
            ),
            !l.dirty,
            work_sum(rows_in(credits@)) <= u64::MAX ==> l.window@.exact(),
    {
        let mut window: Window = Window::new();
        window.restore_lifetime(meta.lifetime_shares, meta.lifetime_work);
        let ghost start = WindowView {
            lifetime_shares: meta.lifetime_shares,
            lifetime_work: meta.lifetime_work,
            ..WindowView::empty()
        };
        assert(window@ =~= start);
        let ghost lv = texts_view(lines@);
        let mut i: usize = 0;
        assert(lv.take(0) =~= Seq::empty());
        while i < lines.len()
            invariant
                i <= lines@.len() <= 0x1_0000_0000,
                lv == texts_view(lines@),
                window.wf(),
                window@ == with_lines(start, lv.take(i as int)),
                window@.idents.len() <= i,
                window@.rows.len() == 0,
                window@.exact(),
            decreases lines@.len() - i,
        {
            assert(lv.take(i + 1).drop_last() =~= lv.take(i as int));
            assert(lines@[i as int]@ == lv[i as int]);
            if !lines[i].as_str().is_empty() {
                let _ = window.intern(lines[i].as_str());
            }
            i = i + 1;
        }
        assert(lv.take(lv.len() as int) =~= lv);
        let ghost named = window@;
        let ghost all = rows_in(credits@);
        let len: usize = credits.len();
        let n: usize = len / 24;
        let mut rows_on_disk: u64 = 0;
        let mut k: usize = 0;
        assert(all.take(0) =~= Seq::empty());
        while k < n
            invariant
                k <= n == len / 24,
                len == credits@.len(),
                n == all.len(),
                all == rows_in(credits@),
                window.wf(),
                window@ == with_rows(named, all.take(k as int)),
                window@.idents == named.idents,
                window@.rows.len() <= k,
                rows_on_disk <= k,
                rows_on_disk == known_rows(all.take(k as int), named.idents.len()),
                work_sum(all) <= u64::MAX ==> window@.exact() && work_sum(window@.rows)
                    <= work_sum(all.take(k as int)),
            decreases n - k,
        {
            let c: Credit = Credit::read(credits, k * 24);
            proof {
                assert(c == all[k as int]);
                assert(all.take(k + 1).drop_last() =~= all.take(k as int));
                lemma_work_sum_push(all.take(k as int), c);
                assert(all.take(k + 1) =~= all.take(k as int).push(c));
                lemma_work_sum_prefix(all, k + 1);
                lemma_work_sum_push(window@.rows, c);
            }
            if (c.ident as usize) < window.identities().len() {
                window.push_raw(c);
                rows_on_disk = rows_on_disk + 1;
            }
            k = k + 1;
        }
        proof {
            assert(all.take(all.len() as int) =~= all);
            lemma_lines_counters(WindowView::empty(), start, lv);
        }
        window.set_target(meta.target_work);
        Ledger { window, rows_on_disk, dirty: false }
    }

    /// Records work as one row, never merged into the last, so that the rows on disk stay those
    /// of the window. Returns what goes into the files.
    pub fn credit(&mut self, identity: &str, work: u64, height: u32, ts: u32, source: u8) -> (a:
        Appended)
        requires
            old(self).wf(),
            old(self).window@.idents.contains(identity@) || old(self).window@.idents.len()
                < 0x1_0000_0000,
            old(self).window@.rows.len() < usize::MAX,
            old(self).window@.lifetime_shares < u64::MAX,
            old(self).rows_on_disk < u64::MAX,
        ensures
            final(self).wf(),
            ({
                let c = old(self).window@.row_for(identity@, work, height, ts, source);
                &&& final(self).window@ == old(self).window@.interned(identity@).counted(
                    work,
                ).with_work(c, false, ts).trimmed()
                &&& a.new_identity == !old(self).window@.idents.contains(identity@)
                &&& a.row@ == c.row_bytes()
            }),
            final(self).rows_on_disk == old(self).rows_on_disk + 1,
            final(self).dirty,
            old(self).window@.exact() && work_sum(old(self).window@.rows) + work <= u64::MAX
                ==> final(self).window@.exact(),
    {
        let known: bool = self.window.index_of(identity).is_some();
        let c: Credit = self.window.credit_row(identity, work, height, ts, source);
        let mut row: Vec<u8> = Vec::new();
        c.write(&mut row);
        assert(row@ =~= c.row_bytes());
        self.rows_on_disk = self.rows_on_disk + 1;
        self.dirty = true;
        Appended { new_identity: !known, row }
    }

    /// Resizes the window, if its target changed.
    pub fn set_target(&mut self, target_work: u64)
        requires
            old(self).wf(),
        ensures
            final(self).wf(),
            final(self).rows_on_disk == old(self).rows_on_disk,
            old(self).window@.target_work == target_work ==> final(self).window@
                == old(self).window@ && final(self).dirty == old(self).dirty,
            old(self).window@.target_work != target_work ==> final(self).window@ == (WindowView {
                target_work,
                ..old(self).window@
            }).trimmed() && final(self).dirty,
            old(self).window@.exact() ==> final(self).window@.exact(),
    {
        if self.window.target_work() != target_work {
            self.window.set_target(target_work);
            self.dirty = true;
        }
    }

    /// Whether the credit file has grown so far beyond the window that it is to be rewritten.
    pub fn needs_compact(&self) -> (r: bool)
        ensures
            r == (self.rows_on_disk > self.window@.rows.len() + COMPACT_SLACK),
            self.rows_on_disk - self.window@.rows.len() <= 8192 ==> !r,
            self.rows_on_disk - self.window@.rows.len() > 8192 ==> r,
    {
        let len: u64 = self.window.len() as u64;
        self.rows_on_disk > COMPACT_SLACK && self.rows_on_disk - COMPACT_SLACK > len
    }

    /// Whether the credit file holds rows that the window does not.
    pub fn differs_from_disk(&self) -> (r: bool)
        ensures
            r == (self.rows_on_disk != self.window@.rows.len()),
    {
        self.rows_on_disk != self.window.len() as u64
    }

    /// The counters to write, when the files lag behind; they no longer do.
    pub fn flush(&mut self) -> (m: Option<Meta>)
        requires
            old(self).wf(),
        ensures
            final(self).wf(),
            final(self).window@ == old(self).window@,
            final(self).rows_on_disk == old(self).rows_on_disk,
            !final(self).dirty,
            m.is_some() == old(self).dirty,
            m matches Some(x) ==> x == meta_of(old(self).window@),
    {
        if !self.dirty {
            return None;
        }
        let (lifetime_shares, lifetime_work) = self.window.lifetime();
        let m = Meta { target_work: self.window.target_work(), lifetime_shares, lifetime_work };
        self.dirty = false;
        Some(m)
    }

    /// The bytes of a credit file with only the rows still in the window, which it then is.
    pub fn compact(&mut self) -> (b: Vec<u8>)
        requires
            old(self).wf(),
        ensures
            final(self).wf(),
            b@ == rows_bytes(old(self).window@.rows),
            final(self).window@ == old(self).window@,
            final(self).rows_on_disk == old(self).window@.rows.len(),
            final(self).dirty == old(self).dirty,
    {
        let mut b: Vec<u8> = Vec::new();
        let n: usize = self.window.len();
        let mut i: usize = 0;
        let ghost rows = self.window@.rows;
        assert(rows.take(0) =~= Seq::empty());
        while i < n
            invariant
                i <= n == rows.len(),
                rows == self.window@.rows,
                b@ == rows_bytes(rows.take(i as int)),
            decreases n - i,
        {
            let c: Credit = self.window.row(i);
            c.write(&mut b);
            assert(rows.take(i + 1).drop_last() =~= rows.take(i as int));
            i = i + 1;
        }
        assert(rows.take(n as int) =~= rows);
        self.rows_on_disk = n as u64;
        b
    }
}

/// The counters of a window.
pub open spec fn meta_of(w: WindowView) -> Meta {
    Meta {
        target_work: w.target_work,
        lifetime_shares: w.lifetime_shares,
        lifetime_work: w.lifetime_work,
    }
}

proof fn lemma_work_sum_push(rows: Seq<Credit>, c: Credit)
    ensures
        work_sum(rows.push(c)) == work_sum(rows) + c.work,
    decreases rows.len(),
{
    if rows.len() == 0 {
        assert(rows.push(c).drop_first() =~= rows);
    } else {
        lemma_work_sum_push(rows.drop_first(), c);
        assert(rows.push(c).drop_first() =~= rows.drop_first().push(c));
    }
}

proof fn lemma_work_sum_prefix(rows: Seq<Credit>, i: int)
    requires
        0 <= i <= rows.len(),
    ensures
        work_sum(rows.take(i)) <= work_sum(rows),
    decreases rows.len() - i,
{
    if i < rows.len() {
        lemma_work_sum_prefix(rows, i + 1);
        assert(rows.take(i + 1) =~= rows.take(i).push(rows[i]));
        lemma_work_sum_push(rows.take(i), rows[i]);
    } else {
        assert(rows.take(i) =~= rows);
    }
}

/// The lines of the identity file make the same table whatever the counters are.
proof fn lemma_lines_counters(a: WindowView, b: WindowView, lines: Seq<Seq<char>>)
    requires
        a.idents == b.idents,
    ensures
        with_lines(a, lines).idents == with_lines(b, lines).idents,
    decreases lines.len(),
{
    if lines.len() > 0 {
        lemma_lines_counters(a, b, lines.drop_last());
    }
}

/// Lines without repeats or gaps are the table they make.
proof fn lemma_lines(w: WindowView, lines: Seq<Seq<char>>)
    requires
        w.idents.len() == 0,
        lines.no_duplicates(),
        forall|i: int| 0 <= i < lines.len() ==> (#[trigger] lines[i]).len() > 0,
    ensures
        with_lines(w, lines) == (WindowView { idents: lines, ..w }),
    decreases lines.len(),
{
    if lines.len() > 0 {
        let init = lines.drop_last();
        assert forall|i: int, j: int| 0 <= i < init.len() && 0 <= j < init.len() && i != j implies
            init[i] != init[j] by {
            assert(lines[i] != lines[j]);
        }
        assert forall|i: int| 0 <= i < init.len() implies (#[trigger] init[i]).len() > 0 by {
            assert(lines[i].len() > 0);
        }
        lemma_lines(w, init);
        let last = lines.last();
        assert(lines[lines.len() - 1].len() > 0);
        if init.contains(last) {
            let i = choose|i: int| 0 <= i < init.len() && init[i] == last;
            assert(lines[i] != lines[lines.len() - 1]);
        }
        assert(init.push(last) =~= lines);
        assert(with_lines(w, lines) =~= (WindowView { idents: lines, ..w }));
    } else {
        assert(w.idents =~= lines);
        assert(w =~= (WindowView { idents: lines, ..w }));
    }
}

/// The bytes of rows are read as those rows.
proof fn lemma_rows_round_trip(rows: Seq<Credit>)
    ensures
        rows_bytes(rows).len() == 24 * rows.len(),
        rows_in(rows_bytes(rows)) == rows,
    decreases rows.len(),
{
    let b = rows_bytes(rows);
    if rows.len() > 0 {
        let init = rows.drop_last();
        let c = rows.last();
        lemma_rows_round_trip(init);
        lemma_credit_round_trip(c);
        let a = rows_bytes(init);
        assert(b.len() == 24 * rows.len());
        assert(b.len() / 24 == rows.len());
        assert forall|i: int| 0 <= i < rows.len() implies rows_in(b)[i] == rows[i] by {
            if i < init.len() {
                assert(b.subrange(24 * i, 24 * i + 24) =~= a.subrange(24 * i, 24 * i + 24));
                assert(rows_in(a)[i] == init[i]);
            } else {
                assert(b.subrange(24 * i, 24 * i + 24) =~= c.row_bytes());
            }
        }
        assert(rows_in(b) =~= rows);
    } else {
        assert(rows_in(b) =~= rows);
    }
}

/// Replaying rows of known identities from an empty window gives those rows, with exact sums.
proof fn lemma_replay_rows(w: WindowView, rows: Seq<Credit>)
    requires
        w.wf(),
        w.exact(),
        w.rows.len() == 0,
        rows.len() < u64::MAX,
        work_sum(rows) <= u64::MAX,
        forall|i: int| 0 <= i < rows.len() ==> (#[trigger] rows[i]).ident < w.idents.len(),
    ensures
        ({
            let r = with_rows(w, rows);
            &&& r.wf()
            &&& r.exact()
            &&& r.rows == rows
            &&& r.idents == w.idents
            &&& r.lifetime_shares == w.lifetime_shares
            &&& r.lifetime_work == w.lifetime_work
            &&& r.target_work == w.target_work
        }),
    decreases rows.len(),
{
    if rows.len() > 0 {
        let init = rows.drop_last();
        let c = rows.last();
        assert(c == rows[rows.len() - 1]);
        assert(init.push(c) =~= rows);
        lemma_work_sum_push(init, c);
        assert forall|i: int| 0 <= i < init.len() implies (#[trigger] init[i]).ident
            < w.idents.len() by {
            assert(rows[i].ident < w.idents.len());
        }
        lemma_replay_rows(w, init);
        let before = with_rows(w, init);
        lemma_with_work(before, c, false, later(before.totals, c.ident, c.ts));
    } else {
        assert(w.rows =~= rows);
    }
}

/// The rows that stay of some when the oldest leave for as long as the rest reaches a target.
pub open spec fn tail_of(rows: Seq<Credit>, target: u64) -> Seq<Credit>
    decreases rows.len(),
{
    if target > 0 && rows.len() > 0 && work_sum(rows.drop_first()) >= target {
        tail_of(rows.drop_first(), target)
    } else {
        rows
    }
}

/// Whether the rows of a credit file stand for a window: trimmed to its target, they are its rows.
pub open spec fn stands_for(disk: Seq<Credit>, w: WindowView) -> bool {
    tail_of(disk, w.target_work) == w.rows
}

/// With exact sums, trimming goes by the rows alone.
proof fn lemma_trimmed_tail(w: WindowView)
    requires
        w.wf(),
        w.exact(),
    ensures
        w.trimmed().rows == tail_of(w.rows, w.target_work),
    decreases w.rows.len(),
{
    if w.can_drop() {
        lemma_dropped(w);
        lemma_trimmed_tail(w.dropped());
    }
}

/// What left before a row came would leave after it too.
proof fn lemma_tail_push(disk: Seq<Credit>, c: Credit, target: u64)
    ensures
        tail_of(disk.push(c), target) == tail_of(tail_of(disk, target).push(c), target),
    decreases disk.len(),
{
    if target > 0 && disk.len() > 0 && work_sum(disk.drop_first()) >= target {
        let rest = disk.drop_first();
        assert(disk.push(c).drop_first() =~= rest.push(c));
        lemma_work_sum_push(rest, c);
        lemma_tail_push(rest, c, target);
    }
}

/// The rows that stay at a smaller target are among those that stay at a larger one.
proof fn lemma_tail_of_tail(disk: Seq<Credit>, large: u64, small: u64)
    requires
        large == 0 || 0 < small <= large,
    ensures
        tail_of(tail_of(disk, large), small) == tail_of(disk, small),
    decreases disk.len(),
{
    if large > 0 && disk.len() > 0 && work_sum(disk.drop_first()) >= large {
        lemma_tail_of_tail(disk.drop_first(), large, small);
    }
}

proof fn lemma_tail_work(rows: Seq<Credit>, target: u64)
    ensures
        work_sum(tail_of(rows, target)) <= work_sum(rows),
    decreases rows.len(),
{
    if target > 0 && rows.len() > 0 && work_sum(rows.drop_first()) >= target {
        lemma_tail_work(rows.drop_first(), target);
    }
}

/// A credit adds no more than its work to the window.
proof fn lemma_credited_work(w: WindowView, identity: Seq<char>, work: u64, c: Credit, ts: u32)
    requires
        w.wf(),
        w.exact(),
        w.idents.contains(identity) || w.idents.len() < 0x1_0000_0000,
        w.rows.len() < u64::MAX,
        work_sum(w.rows) + work <= u64::MAX,
        c.ident < w.interned(identity).idents.len(),
        c.work == work,
    ensures
        work_sum(w.interned(identity).counted(work).with_work(c, false, ts).trimmed().rows)
            <= work_sum(w.rows) + work,
{
    let counted = w.interned(identity).counted(work);
    lemma_interned_wf(w, identity);
    assert(counted.wf() && counted.exact());
    lemma_with_work(counted, c, false, ts);
    let filled = counted.with_work(c, false, ts);
    lemma_trimmed_tail(filled);
    lemma_work_sum_push(w.rows, c);
    lemma_tail_work(filled.rows, filled.target_work);
}

/// The credit file follows the window, row by row: where it stood for the window before a credit,
/// it stands for the window after it once the credit's row is appended.
pub proof fn lemma_disk_follows_credits(
    w: WindowView,
    disk: Seq<Credit>,
    identity: Seq<char>,
    work: u64,
    height: u32,
    ts: u32,
    source: u8,
)
    requires
        w.wf(),
        w.exact(),
        w.idents.contains(identity) || w.idents.len() < 0x1_0000_0000,
        w.rows.len() < u64::MAX,
        work_sum(w.rows) + work <= u64::MAX,
        stands_for(disk, w),
    ensures
        ({
            let c = w.row_for(identity, work, height, ts, source);
            stands_for(
                disk.push(c),
                w.interned(identity).counted(work).with_work(c, false, ts).trimmed(),
            )
        }),
{
    let c = w.row_for(identity, work, height, ts, source);
    let named = w.interned(identity);
    lemma_interned_wf(w, identity);
    assert(c.ident < named.idents.len()) by {
        lemma_index_of(
            named.idents,
            choose|i: int| 0 <= i < named.idents.len() && named.idents[i] == identity,
        );
    }
    let filled = named.counted(work).with_work(c, false, ts);
    assert(named.counted(work).wf() && named.counted(work).exact());
    lemma_with_work(named.counted(work), c, false, ts);
    lemma_trimmed(filled);
    lemma_trimmed_tail(filled);
    lemma_tail_push(disk, c, w.target_work);
}

/// The credit file follows a target that shrinks, or that is set for the first time. (One that
/// grows leaves the file with rows that the window no longer has, until it is rewritten.)
pub proof fn lemma_disk_follows_target(w: WindowView, disk: Seq<Credit>, target_work: u64)
    requires
        w.wf(),
        w.exact(),
        stands_for(disk, w),
        w.target_work == 0 || 0 < target_work <= w.target_work,
    ensures
        stands_for(disk, (WindowView { target_work, ..w }).trimmed()),
{
    let sized = WindowView { target_work, ..w };
    assert(sized.wf() && sized.exact());
    lemma_trimmed(sized);
    lemma_trimmed_tail(sized);
    lemma_tail_of_tail(disk, w.target_work, target_work);
}

/// A file rewritten from a window stands for it.
pub proof fn lemma_rewritten_stands(w: WindowView)
    requires
        w.wf(),
        w.exact(),
        w.trimmed() == w,
    ensures
        stands_for(w.rows, w),
{
    lemma_trimmed_tail(w);
}

/// A restart is a no-op: replaying the files of a window gives back its identities, its rows in
/// order, its work, and every identity's work and number of rows, also where the credit file
/// still holds older rows that the window has trimmed. (The time of an identity's last row is the
/// latest of its rows, which is that of the last when rows arrive in order of time.)
pub proof fn lemma_restart_is_a_noop(w: WindowView, disk: Seq<Credit>)
    requires
        w.wf(),
        w.exact(),
        stands_for(disk, w),
        disk.len() < u64::MAX,
        work_sum(disk) <= u64::MAX,
        forall|i: int| 0 <= i < disk.len() ==> (#[trigger] disk[i]).ident < w.idents.len(),
        forall|i: int| 0 <= i < w.idents.len() ==> (#[trigger] w.idents[i]).len() > 0,
    ensures
        ({
            let r = replayed(meta_of(w), w.idents, rows_bytes(disk));
            &&& r.idents == w.idents
            &&& r.rows == w.rows
            &&& r.total_work == w.total_work
            &&& r.target_work == w.target_work
            &&& r.lifetime_shares == w.lifetime_shares
            &&& r.lifetime_work == w.lifetime_work
            &&& r.totals.dom() == w.totals.dom()
            &&& forall|i: u32| #[trigger]
                w.totals.contains_key(i) ==> r.totals[i].0 == w.totals[i].0 && r.totals[i].1
                    == w.totals[i].1
        }),
{
    let m = meta_of(w);
    let start = WindowView {
        lifetime_shares: m.lifetime_shares,
        lifetime_work: m.lifetime_work,
        ..WindowView::empty()
    };
    lemma_lines(start, w.idents);
    lemma_rows_round_trip(disk);
    let named = with_lines(start, w.idents);
    lemma_replay_rows(named, disk);
    let sized = WindowView { target_work: m.target_work, ..with_rows(named, disk) };
    assert(sized.wf() && sized.exact());
    lemma_trimmed(sized);
    lemma_trimmed_tail(sized);
    let r = sized.trimmed();
    assert(r.rows == w.rows);
    assert forall|i: u32| r.totals.contains_key(i) == w.totals.contains_key(i) by {
        assert(r.totals.contains_key(i) <==> rows_of(r.rows, i) > 0);
        assert(w.totals.contains_key(i) <==> rows_of(w.rows, i) > 0);
    }
    assert(r.totals.dom() =~= w.totals.dom());
    assert forall|i: u32| #[trigger] w.totals.contains_key(i) implies r.totals[i].0
        == w.totals[i].0 && r.totals[i].1 == w.totals[i].1 by {
        assert(r.totals.contains_key(i));
        assert(r.totals[i].0 == work_sum_of(r.rows, i));
        assert(w.totals[i].0 == work_sum_of(w.rows, i));
        assert(r.totals[i].1 == rows_of(r.rows, i));
        assert(w.totals[i].1 == rows_of(w.rows, i));
    }
}

/// What happens to a ledger between two restarts.
pub enum Step {
    /// Work is credited, and its row and any new identity go into the files.
    Credit { identity: Seq<char>, work: u64, height: u32, ts: u32, source: u8 },
    /// The window is resized.
    Target(u64),
    /// The credit file is rewritten with only the window's rows.
    Rewrite,
}

/// A window, and what the credit and identity files hold beside it.
#[verifier::ext_equal]
pub struct OnDisk {
    pub window: WindowView,
    pub rows: Seq<Credit>,
    pub lines: Seq<Seq<char>>,
}

impl OnDisk {
    /// A ledger opened where there are no files.
    pub open spec fn empty() -> OnDisk {
        OnDisk { window: WindowView::empty(), rows: Seq::empty(), lines: Seq::empty() }
    }

    /// The window and the files after a step, as [`Ledger::credit`], [`Ledger::set_target`] and
    /// [`Ledger::compact`] leave them.
    pub open spec fn after(self, step: Step) -> OnDisk {
        let w = self.window;
        match step {
            Step::Credit { identity, work, height, ts, source } => {
                let c = w.row_for(identity, work, height, ts, source);
                OnDisk {
                    window: w.interned(identity).counted(work).with_work(c, false, ts).trimmed(),
                    rows: self.rows.push(c),
                    lines: if w.idents.contains(identity) {
                        self.lines
                    } else {
                        self.lines.push(identity)
                    },
                }
            },
            Step::Target(target_work) => OnDisk {
                window: if w.target_work == target_work {
                    w
                } else {
                    (WindowView { target_work, ..w }).trimmed()
                },
                ..self
            },
            Step::Rewrite => OnDisk { rows: w.rows, ..self },
        }
    }

    /// The window that the files stand for, with the window's counters written.
    pub open spec fn reopened(self) -> WindowView {
        replayed(meta_of(self.window), self.lines, rows_bytes(self.rows))
    }
}

/// The ledger after some steps, from one without files.
pub open spec fn after_steps(steps: Seq<Step>) -> OnDisk
    decreases steps.len(),
{
    if steps.len() == 0 {
        OnDisk::empty()
    } else {
        after_steps(steps.drop_last()).after(steps.last())
    }
}

/// The work credited by some steps.
pub open spec fn steps_work(steps: Seq<Step>) -> nat
    decreases steps.len(),
{
    if steps.len() == 0 {
        0
    } else {
        steps_work(steps.drop_last()) + match steps.last() {
            Step::Credit { work, .. } => work as nat,
            _ => 0,
        }
    }
}

/// Whether the credit file keeps up: it does unless the target grows over one that was set, which
/// would call back rows that have left the window; and it does again once it is rewritten.
pub open spec fn keeps_up(steps: Seq<Step>) -> bool
    decreases steps.len(),
{
    if steps.len() == 0 {
        true
    } else {
        let init = steps.drop_last();
        match steps.last() {
            Step::Credit { .. } => keeps_up(init),
            Step::Rewrite => true,
            Step::Target(t) => {
                let before = after_steps(init).window.target_work;
                keeps_up(init) && (before == 0 || before == t || 0 < t <= before)
            },
        }
    }
}

/// Whether every credited identity has a name.
pub open spec fn are_named(steps: Seq<Step>) -> bool {
    forall|i: int|
        0 <= i < steps.len() ==> (#[trigger] steps[i] matches Step::Credit { identity, .. }
            ==> identity.len() > 0)
}

proof fn lemma_trimmed_twice(w: WindowView)
    ensures
        w.trimmed().trimmed() == w.trimmed(),
    decreases w.rows.len(),
{
    if w.can_drop() {
        lemma_trimmed_twice(w.dropped());
    }
}

spec fn is_kept(d: OnDisk, n: nat, work: nat) -> bool {
    let w = d.window;
    &&& w.wf()
    &&& w.exact()
    &&& w.trimmed() == w
    &&& d.lines == w.idents
    &&& w.idents.len() <= n
    &&& w.rows.len() <= n
    &&& d.rows.len() <= n
    &&& work_sum(w.rows) <= work
    &&& work_sum(d.rows) <= work
    &&& forall|i: int| 0 <= i < d.rows.len() ==> (#[trigger] d.rows[i]).ident < w.idents.len()
    &&& forall|i: int| 0 <= i < w.idents.len() ==> (#[trigger] w.idents[i]).len() > 0
}

proof fn lemma_credit_is_kept(
    d: OnDisk,
    n: nat,
    sum: nat,
    identity: Seq<char>,
    work: u64,
    height: u32,
    ts: u32,
    source: u8,
)
    requires
        is_kept(d, n, sum),
        n < 0x1_0000_0000,
        sum + work <= u64::MAX,
        identity.len() > 0,
    ensures
        ({
            let e = d.after(Step::Credit { identity, work, height, ts, source });
            &&& is_kept(e, n + 1, sum + work as nat)
            &&& stands_for(d.rows, d.window) ==> stands_for(e.rows, e.window)
        }),
{
    let w = d.window;
    let c = w.row_for(identity, work, height, ts, source);
    let e = d.after(Step::Credit { identity, work, height, ts, source });
    let named = w.interned(identity);
    lemma_interned_wf(w, identity);
    assert(c.ident < named.idents.len()) by {
        lemma_index_of(
            named.idents,
            choose|i: int| 0 <= i < named.idents.len() && named.idents[i] == identity,
        );
    }
    let counted = named.counted(work);
    assert(counted.wf() && counted.exact());
    lemma_with_work(counted, c, false, ts);
    let filled = counted.with_work(c, false, ts);
    lemma_trimmed(filled);
    lemma_trimmed_twice(filled);
    lemma_credited_work(w, identity, work, c, ts);
    lemma_work_sum_push(d.rows, c);
    assert(e.lines =~= e.window.idents);
    assert forall|i: int| 0 <= i < e.rows.len() implies (#[trigger] e.rows[i]).ident
        < e.window.idents.len() by {
        if i < d.rows.len() {
            assert(e.rows[i] == d.rows[i]);
        }
    }
    assert forall|i: int| 0 <= i < e.window.idents.len() implies (
    #[trigger] e.window.idents[i]).len() > 0 by {
        if i < w.idents.len() {
            assert(e.window.idents[i] == w.idents[i]);
        }
    }
    if stands_for(d.rows, w) {
        lemma_disk_follows_credits(w, d.rows, identity, work, height, ts, source);
    }
}

proof fn lemma_steps_are_kept(steps: Seq<Step>)
    requires
        are_named(steps),
        steps.len() < 0x1_0000_0000,
        steps_work(steps) <= u64::MAX,
    ensures
        is_kept(after_steps(steps), steps.len(), steps_work(steps)),
        keeps_up(steps) ==> stands_for(after_steps(steps).rows, after_steps(steps).window),
    decreases steps.len(),
{
    if steps.len() > 0 {
        let init = steps.drop_last();
        assert forall|i: int| 0 <= i < init.len() implies (
        #[trigger] init[i] matches Step::Credit { identity, .. } ==> identity.len() > 0) by {
            assert(init[i] == steps[i]);
        }
        lemma_steps_are_kept(init);
        let d = after_steps(init);
        let w = d.window;
        assert(steps[steps.len() - 1] == steps.last());
        match steps.last() {
            Step::Credit { identity, work, height, ts, source } => {
                lemma_credit_is_kept(
                    d,
                    init.len(),
                    steps_work(init),
                    identity,
                    work,
                    height,
                    ts,
                    source,
                );
            },
            Step::Target(target_work) => {
                let sized = WindowView { target_work, ..w };
                assert(sized.wf() && sized.exact());
                lemma_trimmed(sized);
                lemma_trimmed_twice(sized);
                lemma_trimmed_tail(sized);
                lemma_tail_work(sized.rows, target_work);
                if keeps_up(steps) && w.target_work != target_work {
                    lemma_disk_follows_target(w, d.rows, target_work);
                }
            },
            Step::Rewrite => {
                lemma_rewritten_stands(w);
            },
        }
    } else {
        let w = WindowView::empty();
        assert(w.idents =~= Seq::<Seq<char>>::empty());
        assert(rows_of(w.rows, 0) == 0);
    }
}

/// A restart after a whole run is a no-op. However work was credited since the ledger was opened
/// without files, and however often its credit file was rewritten, opening the files again gives
/// back the identities, the rows in order, the work, the target, the counters, and every identity's
/// work and number of rows. Where the target grew, it does so once the file is rewritten.
pub proof fn lemma_restart_after_a_run(steps: Seq<Step>)
    requires
        are_named(steps),
        keeps_up(steps),
        steps.len() < 0x1_0000_0000,
        steps_work(steps) <= u64::MAX,
    ensures
        ({
            let w = after_steps(steps).window;
            let r = after_steps(steps).reopened();
            &&& r.idents == w.idents
            &&& r.rows == w.rows
            &&& r.total_work == w.total_work
            &&& r.target_work == w.target_work
            &&& r.lifetime_shares == w.lifetime_shares
            &&& r.lifetime_work == w.lifetime_work
            &&& r.totals.dom() == w.totals.dom()
            &&& forall|i: u32| #[trigger]
                w.totals.contains_key(i) ==> r.totals[i].0 == w.totals[i].0 && r.totals[i].1
                    == w.totals[i].1
        }),
{
    lemma_steps_are_kept(steps);
    let d = after_steps(steps);
    lemma_restart_is_a_noop(d.window, d.rows);
}

/// A ledger opened where there are no files is empty, and the credit file keeps up with any number
/// of credits and rewrites after a target that is set once.
pub proof fn lemma_credits_keep_up(target_work: u64, steps: Seq<Step>)
    requires
        steps.len() > 0,
        steps[0] == Step::Target(target_work),
        forall|i: int| 0 < i < steps.len() ==> !(#[trigger] steps[i] is Target),
    ensures
        replayed(
            (Meta { target_work: 0, lifetime_shares: 0, lifetime_work: 0 }),
            Seq::empty(),
            Seq::empty(),
        ) == WindowView::empty(),
        keeps_up(steps),
    decreases steps.len(),
{
    let none = replayed(
        (Meta { target_work: 0, lifetime_shares: 0, lifetime_work: 0 }),
        Seq::empty(),
        Seq::empty(),
    );
    assert(rows_in(Seq::empty()) =~= Seq::empty());
    assert(none =~= WindowView::empty());
    let init = steps.drop_last();
    assert(steps.last() == steps[steps.len() - 1]);
    if init.len() > 0 {
        assert(init[0] == steps[0]);
        assert forall|i: int| 0 < i < init.len() implies !(#[trigger] init[i] is Target) by {
            assert(init[i] == steps[i]);
        }
        lemma_credits_keep_up(target_work, init);
    } else {
        assert(after_steps(init) == OnDisk::empty());
        assert(keeps_up(init));
    }
}

/// A row of another pool's ledger.
#[derive(Clone, Debug, PartialEq, Eq)]
pub struct ImportRow {
    pub ts: u32,
    pub identity: String,
    pub work: u64,
    pub height: u32,
}

/// The work of imported rows.
pub open spec fn imported_work(rows: Seq<ImportRow>) -> nat
    decreases rows.len(),
{
    if rows.len() == 0 {
        0
    } else {
        imported_work(rows.drop_last()) + rows.last().work as nat
    }
}

/// The window after imported rows, in file order.
pub open spec fn imported(w: WindowView, rows: Seq<ImportRow>) -> WindowView
    decreases rows.len(),
{
    if rows.len() == 0 {
        w
    } else {
        let before = imported(w, rows.drop_last());
        let r = rows.last();
        let c = before.row_for(r.identity@, r.work, r.height, r.ts, SOURCE_UNKNOWN);
        before.interned(r.identity@).counted(r.work).with_work(c, false, r.ts).trimmed()
    }
}

impl Ledger {
    /// Takes over the rows of another pool's ledger, untagged. Returns what goes into the files.
    pub fn import(&mut self, rows: &Vec<ImportRow>) -> (out: Vec<Appended>)
        requires
            old(self).wf(),
            old(self).window@.idents.len() + rows@.len() < 0x1_0000_0000,
            old(self).window@.rows.len() + rows@.len() < usize::MAX,
            old(self).window@.lifetime_shares + rows@.len() < u64::MAX,
            old(self).rows_on_disk + rows@.len() < u64::MAX,
        ensures
            final(self).wf(),
            final(self).window@ == imported(old(self).window@, rows@),
            out@.len() == rows@.len(),
            forall|i: int|
                0 <= i < rows@.len() ==> (#[trigger] out@[i]).row@ == imported(
                    old(self).window@,
                    rows@.take(i),
                ).row_for(
                    rows@[i].identity@,
                    rows@[i].work,
                    rows@[i].height,
                    rows@[i].ts,
                    SOURCE_UNKNOWN,
                ).row_bytes() && out@[i].new_identity == !imported(
                    old(self).window@,
                    rows@.take(i),
                ).idents.contains(rows@[i].identity@),
            final(self).rows_on_disk == old(self).rows_on_disk + rows@.len(),
            final(self).dirty == (old(self).dirty || rows@.len() > 0),
            old(self).window@.exact() && work_sum(old(self).window@.rows) + imported_work(rows@)
                <= u64::MAX ==> final(self).window@.exact(),
    {
        let mut out: Vec<Appended> = Vec::new();
        let mut i: usize = 0;
        let ghost start = self.window@;
        let ghost disk = self.rows_on_disk;
        let ghost was_dirty = self.dirty;
        assert(rows@.take(0) =~= Seq::empty());
        while i < rows.len()
            invariant
                i <= rows@.len(),
                self.wf(),
                self.window@ == imported(start, rows@.take(i as int)),
                self.window@.idents.len() <= start.idents.len() + i,
                self.window@.rows.len() <= start.rows.len() + i,
                self.window@.lifetime_shares == start.lifetime_shares + i,
                self.rows_on_disk == disk + i,
                start.idents.len() + rows@.len() < 0x1_0000_0000,
                start.rows.len() + rows@.len() < usize::MAX,
                start.lifetime_shares + rows@.len() < u64::MAX,
                disk + rows@.len() < u64::MAX,
                self.dirty == (was_dirty || i > 0),
                start.exact() && work_sum(start.rows) + imported_work(rows@.take(i as int))
                    <= u64::MAX ==> self.window@.exact() && work_sum(self.window@.rows) <= work_sum(
                    start.rows,
                ) + imported_work(rows@.take(i as int)),
                out@.len() == i,
                forall|j: int|
                    0 <= j < i ==> (#[trigger] out@[j]).row@ == imported(
                        start,
                        rows@.take(j),
                    ).row_for(
                        rows@[j].identity@,
                        rows@[j].work,
                        rows@[j].height,
                        rows@[j].ts,
                        SOURCE_UNKNOWN,
                    ).row_bytes() && out@[j].new_identity == !imported(
                        start,
                        rows@.take(j),
                    ).idents.contains(rows@[j].identity@),
            decreases rows@.len() - i,
        {
            let r: &ImportRow = &rows[i];
            let ghost before = self.window@;
            proof {
                assert(rows@.take(i + 1).drop_last() =~= rows@.take(i as int));
                self.window.lemma_view_wf();
                lemma_interned_wf(before, r.identity@);
            }
            let a: Appended = self.credit(
                r.identity.as_str(),
                r.work,
                r.height,
                r.ts,
                SOURCE_UNKNOWN,
            );
            proof {
                let c = before.row_for(r.identity@, r.work, r.height, r.ts, SOURCE_UNKNOWN);
                lemma_credited(before, r.identity@, r.work, c, r.ts);
                if before.exact() && work_sum(before.rows) + r.work <= u64::MAX {
                    lemma_credited_work(before, r.identity@, r.work, c, r.ts);
                }
            }
            out.push(a);
            i = i + 1;
        }
        assert(rows@.take(rows@.len() as int) =~= rows@);
        out
    }
}

/// A credit file is read row by row, and a row cut short at its end is left out.
pub proof fn lemma_cut_row_is_left_out(rows: Seq<Credit>, cut: Seq<u8>)
    requires
        cut.len() < 24,
    ensures
        rows_in(rows_bytes(rows) + cut) == rows,
{
    lemma_rows_round_trip(rows);
    let b = rows_bytes(rows);
    let n = rows.len() as int;
    assert((b + cut).len() / 24 == n);
    assert forall|i: int| 0 <= i < n implies #[trigger] rows_in(b + cut)[i] == rows[i] by {
        assert((b + cut).subrange(24 * i, 24 * i + 24) =~= b.subrange(24 * i, 24 * i + 24));
        assert(rows_in(b)[i] == rows[i]);
    }
    assert(rows_in(b + cut) =~= rows);
}

/// Of the rows of a credit file, those whose identity the table knows go into the window, in their
/// order, and the others are left out.
pub proof fn lemma_known_rows_are_replayed(w: WindowView, rows: Seq<Credit>)
    ensures
        with_rows(w, rows).idents == w.idents,
        with_rows(w, rows).rows == w.rows + rows.filter(|c: Credit| c.ident < w.idents.len()),
        known_rows(rows, w.idents.len()) == rows.filter(|c: Credit| c.ident < w.idents.len()).len(),
        with_rows(w, rows).lifetime_shares == w.lifetime_shares,
        with_rows(w, rows).lifetime_work == w.lifetime_work,
    decreases rows.len(),
{
    reveal(Seq::filter);
    let f = |c: Credit| c.ident < w.idents.len();
    if rows.len() > 0 {
        lemma_known_rows_are_replayed(w, rows.drop_last());
        assert(with_rows(w, rows).rows =~= w.rows + rows.filter(f));
    } else {
        assert(w.rows + rows.filter(f) =~= w.rows);
    }
}

/// Identities come from their file in the order of its lines, each once; empty lines name nobody.
pub proof fn lemma_lines_make_the_table(w: WindowView, lines: Seq<Seq<char>>, i: int)
    requires
        0 <= i < lines.len(),
    ensures
        lines[i].len() > 0 ==> with_lines(w, lines).idents.contains(lines[i]),
        with_lines(w, lines).idents.len() <= w.idents.len() + lines.len(),
        w.idents.no_duplicates() ==> with_lines(w, lines).idents.no_duplicates(),
        w.idents.is_prefix_of(with_lines(w, lines).idents),
        with_lines(w, lines).rows == w.rows,
        with_lines(w, lines).totals == w.totals,
    decreases lines.len(),
{
    let l = lines.drop_last();
    let a = with_lines(w, l);
    if l.len() > 0 {
        lemma_lines_make_the_table(w, l, if i < l.len() { i } else { 0 });
    }
    let b = with_lines(w, lines);
    if i < l.len() {
        assert(l[i] == lines[i]);
        if lines[i].len() > 0 {
            let k = choose|k: int| 0 <= k < a.idents.len() && a.idents[k] == lines[i];
            assert(b.idents[k] == lines[i]);
        }
    } else if lines.last().len() > 0 {
        if !a.idents.contains(lines.last()) {
            assert(b.idents[a.idents.len() as int] == lines.last());
        }
    }
}

/// Imported rows are credited in file order, each to its identity with its work, height and time,
/// and untagged. While the window has no target all of them stay in it.
pub proof fn lemma_imported_rows(w: WindowView, rows: Seq<ImportRow>, i: int)
    requires
        w.wf(),
        w.idents.len() + rows.len() < 0x1_0000_0000,
        w.rows.len() + rows.len() < u64::MAX,
        w.target_work == 0,
        0 <= i < rows.len(),
    ensures
        ({
            let n = imported(w, rows);
            let c = n.rows[w.rows.len() + i];
            &&& n.rows.len() == w.rows.len() + rows.len()
            &&& n.rows.take(w.rows.len() as int) == w.rows
            &&& c.ident < n.idents.len() && n.idents[c.ident as int] == rows[i].identity@
            &&& c.work == rows[i].work
            &&& c.height == rows[i].height
            &&& c.ts == rows[i].ts
            &&& c.source == 0
        }),
    decreases rows.len(),
{
    lemma_imported_wf(w, rows);
    lemma_imported_wf(w, rows.drop_last());
    let l = rows.drop_last();
    let b = imported(w, l);
    let r = rows.last();
    let c = b.row_for(r.identity@, r.work, r.height, r.ts, SOURCE_UNKNOWN);
    crate::tides::lemma_row_says_whose(b, r.identity@, r.work, r.height, r.ts, SOURCE_UNKNOWN);
    let n = imported(w, rows);
    assert(n.rows == b.rows.push(c));
    if i < l.len() {
        assert(l[i] == rows[i]);
        lemma_imported_rows(w, l, i);
        let d = b.rows[w.rows.len() + i];
        assert(n.rows[w.rows.len() + i] == d);
        assert(n.idents[d.ident as int] == b.idents[d.ident as int]);
    }
    if l.len() > 0 {
        lemma_imported_rows(w, l, 0);
        assert(n.rows.take(w.rows.len() as int) =~= b.rows.take(w.rows.len() as int));
    } else {
        assert(n.rows.take(w.rows.len() as int) =~= w.rows);
    }
}

proof fn lemma_imported_wf(w: WindowView, rows: Seq<ImportRow>)
    requires
        w.wf(),
        w.idents.len() + rows.len() < 0x1_0000_0000,
        w.rows.len() + rows.len() < u64::MAX,
        w.target_work == 0,
    ensures
        ({
            let n = imported(w, rows);
            &&& n.wf()
            &&& n.target_work == 0
            &&& n.idents.len() <= w.idents.len() + rows.len()
            &&& n.rows.len() == w.rows.len() + rows.len()
        }),
    decreases rows.len(),
{
    if rows.len() > 0 {
        let l = rows.drop_last();
        lemma_imported_wf(w, l);
        let b = imported(w, l);
        let r = rows.last();
        let c = b.row_for(r.identity@, r.work, r.height, r.ts, SOURCE_UNKNOWN);
        crate::tides::lemma_row_says_whose(b, r.identity@, r.work, r.height, r.ts, SOURCE_UNKNOWN);
        crate::tides::lemma_interned_wf(b, r.identity@);
        let k = b.interned(r.identity@).counted(r.work);
        assert(k.wf());
        crate::tides::lemma_with_work(k, c, false, r.ts);
    }
}

} // verus!
