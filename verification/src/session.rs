//! The decisions of a gateway session: whose work is taken, whether it is stale, what a share is
//! answered and what it is credited.

use crate::address::{
    canonical_identity, canonical_of, identity_in, identity_of, payable_script, to_script, Network,
};
use crate::bytes::{begins_with, starts_with};
use crate::classify::CoinbaseKind;
use crate::coinbaser::{Output, OutputView};
use crate::controls::{banned_of, entry_identity, lemma_banned_of, Controls};
use crate::ip::IpAddr;
use crate::issue::{Coinbasers, CoinbasersView};
use crate::ledger::{Appended, Ledger};
use crate::mining::{
    PowSubmit, ACCEPTED, ACCEPTED_TENTATIVELY, REJECTED, REJECT_BAD_JOB_ID,
    REJECT_BAD_USERNAME, REJECT_DUPLICATE_WORK, REJECT_OTHER, REJECT_STALE_BLOCK,
};
use crate::pow::Hash32;
use crate::seen::{
    hashes_at, hashes_kept, heights_ok, lemma_credited_once, lemma_never_forgotten,
    lemma_new_work_is_taken, lemma_other_work_is_refused, lemma_seen_after_ok, seen_after,
    seen_outcome, HeightView, Seen, SeenShares,
};
use crate::slots::{SlotTable, TableView};
use crate::text::{lower_of, texts_view, to_lower};
use crate::tides::{
    lemma_interned_wf, lemma_row_says_whose, lemma_stratum_of_newest, lemma_trim_is_tight,
    lemma_trimmed, lemma_with_work, lemma_work_is_added, stratum_sum_of, work_in, work_sum,
    work_sum_of, Window, WindowView, SOURCE_DATUM, SOURCE_STRATUM,
};
use crate::verify::{is_share_outcome, Policy, PolicyView, VerifiedShare};
use std::collections::VecDeque;
use vstd::prelude::*;
use vstd::utf8::encode_utf8;

verus! {

/// Nanoseconds of the session's clock in a second.
pub const SECOND: u64 = 1_000_000_000;

/// A session with so many rejects and malformed messages within [`REJECT_WINDOW`] is dropped.
pub const REJECT_FLOOD: usize = 2_000;

/// Nanoseconds over which rejects are counted.
pub const REJECT_WINDOW: u64 = 10_000_000_000;

/// Identities the window's table takes without a look at what they are.
pub const MAX_IDENTITIES: usize = 65_536;

/// Longest identity, in bytes.
pub const MAX_IDENTITY_BYTES: usize = 128;

/// Nanoseconds without a message after which a session is dropped.
pub const IDLE_LIMIT: u64 = 300_000_000_000;

/// Nanoseconds without sending after which an empty message is sent.
pub const KEEPALIVE: u64 = 20_000_000_000;

/// Whether an address is the host's own.
pub open spec fn is_loopback_ip(ip: IpAddr) -> bool {
    match ip {
        IpAddr::V4(a) => a / 0x100_0000 == 127,
        IpAddr::V6(a) => a == 1,
    }
}

/// Tells whether an address is the host's own.
pub fn is_loopback(ip: IpAddr) -> (r: bool)
    ensures
        r == is_loopback_ip(ip),
{
    match ip {
        IpAddr::V4(a) => a / 0x100_0000 == 127,
        IpAddr::V6(a) => a == 1,
    }
}

/// Whether a gateway key, in hexadecimal, is one of the house's.
pub open spec fn is_house_key(gateways: Seq<Seq<char>>, gateway_hex: Seq<char>) -> bool {
    exists|i: int|
        0 <= i < gateways.len() && (#[trigger] gateways[i]).len() > 0 && begins_with(
            encode_utf8(lower_of(gateway_hex)),
            encode_utf8(gateways[i]),
        )
}

/// Whether a gateway is the pool's own public stratum, whose miners pay the higher fee: it
/// connects from the host itself, where that counts, or its key begins like one of the house's.
pub fn house_stratum(
    house_loopback: bool,
    house_gateways: &Vec<String>,
    remote: IpAddr,
    gateway_hex: &str,
) -> (r: bool)
    ensures
        r == ((house_loopback && is_loopback_ip(remote)) || is_house_key(
            texts_view(house_gateways@),
            gateway_hex@,
        )),
{
    if house_loopback && is_loopback(remote) {
        return true;
    }
    let g: String = to_lower(gateway_hex);
    let ghost v = texts_view(house_gateways@);
    let mut i: usize = 0;
    while i < house_gateways.len()
        invariant
            i <= house_gateways@.len(),
            v == texts_view(house_gateways@),
            g@ == lower_of(gateway_hex@),
            forall|k: int|
                0 <= k < i ==> !((#[trigger] v[k]).len() > 0 && begins_with(
                    encode_utf8(g@),
                    encode_utf8(v[k]),
                )),
        decreases house_gateways@.len() - i,
    {
        let h: &str = house_gateways[i].as_str();
        assert(h@ == v[i as int]);
        if !h.is_empty() && starts_with(g.as_str().as_bytes(), h.as_bytes()) {
            return true;
        }
        i = i + 1;
    }
    false
}

/// What share work counts as.
pub open spec fn source_for(house: bool) -> u8 {
    if house {
        SOURCE_STRATUM
    } else {
        SOURCE_DATUM
    }
}

/// When the rejects of a session came, in nanoseconds of its clock.
pub struct Rejects {
    recent: VecDeque<u64>,
}

impl View for Rejects {
    type V = Seq<u64>;

    closed spec fn view(&self) -> Seq<u64> {
        self.recent@
    }
}

/// Whether a reject is out of the window.
pub open spec fn is_old_reject(t: u64, now: u64) -> bool {
    now > t && now - t > REJECT_WINDOW
}

/// The rejects still counted: those before the first that is within the window are dropped.
pub open spec fn counted_rejects(v: Seq<u64>, now: u64) -> Seq<u64>
    decreases v.len(),
{
    if v.len() > 0 && is_old_reject(v[0], now) {
        counted_rejects(v.drop_first(), now)
    } else {
        v
    }
}

/// Of rejects that came in order, exactly those within the window are counted.
pub proof fn lemma_counted_rejects(v: Seq<u64>, now: u64)
    requires
        forall|i: int, j: int| 0 <= i <= j < v.len() ==> v[i] <= v[j],
    ensures
        ({
            let r = counted_rejects(v, now);
            let n = v.len() - r.len();
            &&& 0 <= n
            &&& r == v.skip(n)
            &&& forall|i: int| 0 <= i < n ==> is_old_reject(#[trigger] v[i], now)
            &&& forall|i: int| n <= i < v.len() ==> !is_old_reject(#[trigger] v[i], now)
        }),
    decreases v.len(),
{
    if v.len() > 0 && is_old_reject(v[0], now) {
        let t = v.drop_first();
        assert forall|i: int, j: int| 0 <= i <= j < t.len() implies t[i] <= t[j] by {
            assert(t[i] == v[i + 1] && t[j] == v[j + 1]);
        }
        lemma_counted_rejects(t, now);
        let r = counted_rejects(t, now);
        let n = v.len() - r.len();
        assert(t.skip(n - 1) =~= v.skip(n));
        assert forall|i: int| 0 <= i < n implies is_old_reject(#[trigger] v[i], now) by {
            if i > 0 {
                assert(t[i - 1] == v[i]);
            }
        }
        assert forall|i: int| n <= i < v.len() implies !is_old_reject(#[trigger] v[i], now) by {
            assert(t[i - 1] == v[i]);
        }
    } else {
        assert(v.skip(0) =~= v);
        assert forall|i: int| 0 <= i < v.len() implies !is_old_reject(#[trigger] v[i], now) by {
            assert(v[0] <= v[i]);
        }
    }
}

/// Why a session is dropped for its rejects: how many there were, in how many seconds.
#[derive(Clone, Copy, Debug, PartialEq, Eq, Structural)]
pub struct RejectFlood {
    pub count: usize,
    pub secs: u64,
}

impl Rejects {
    /// No rejects.
    pub fn new() -> (r: Rejects)
        ensures
            r@ == Seq::<u64>::empty(),
    {
        let r = Rejects { recent: VecDeque::new() };
        assert(r@ =~= Seq::empty());
        r
    }

    /// Counts a reject or malformed message at `now` against the session.
    pub fn note_reject(&mut self, now: u64) -> (r: Result<(), RejectFlood>)
        requires
            old(self)@.len() < usize::MAX,
        ensures
            final(self)@ == counted_rejects(old(self)@.push(now), now),
            r == if final(self)@.len() >= REJECT_FLOOD {
                Err::<(), RejectFlood>(RejectFlood { count: final(self)@.len() as usize, secs: 10 })
            } else {
                Ok(())
            },
    {
        let ghost all = self@.push(now);
        self.recent.push_back(now);
        while self.recent.len() > 0 && now > self.recent[0] && now - self.recent[0] > REJECT_WINDOW
            invariant
                counted_rejects(all, now) == counted_rejects(self.recent@, now),
                self.recent@.len() <= all.len() <= usize::MAX,
            decreases self.recent@.len(),
        {
            let ghost before = self.recent@;
            let _ = self.recent.pop_front();
            assert(self.recent@ =~= before.drop_first());
        }
        if self.recent.len() >= REJECT_FLOOD {
            return Err(RejectFlood { count: self.recent.len(), secs: REJECT_WINDOW / SECOND });
        }
        Ok(())
    }
}

/// Why a share is refused.
#[derive(Clone, Copy, Debug, PartialEq, Eq, Structural)]
pub enum Refusal {
    /// The username names no identity, or one that cannot be kept.
    Malformed,
    /// The identity is banned.
    Banned,
    /// The identity is not an address that can be paid.
    NotPayable,
    /// Its sections cannot be kept.
    Sections(u16),
    /// Its job is not known.
    NoJob,
    /// It is on a block the node is past.
    Stale,
    /// It is on a block at least two past what the pool's node knows.
    NodeBehind,
    /// Its work or its coinbase does not verify.
    Share(u16),
    /// It was credited before.
    Duplicate,
    /// No more work can be remembered at its height.
    Full,
}

impl Refusal {
    /// The reject code of a refusal.
    pub open spec fn spec_code(self) -> u16 {
        match self {
            Refusal::Malformed => REJECT_BAD_USERNAME,
            Refusal::Banned => REJECT_BAD_USERNAME,
            Refusal::NotPayable => REJECT_BAD_USERNAME,
            Refusal::Sections(code) => code,
            Refusal::NoJob => REJECT_BAD_JOB_ID,
            Refusal::Stale => REJECT_STALE_BLOCK,
            Refusal::NodeBehind => REJECT_STALE_BLOCK,
            Refusal::Share(code) => code,
            Refusal::Duplicate => REJECT_DUPLICATE_WORK,
            Refusal::Full => REJECT_OTHER,
        }
    }

    /// The reject code of a refusal.
    pub fn code(self) -> (code: u16)
        ensures
            code == self.spec_code(),
    {
        match self {
            Refusal::Malformed => REJECT_BAD_USERNAME,
            Refusal::Banned => REJECT_BAD_USERNAME,
            Refusal::NotPayable => REJECT_BAD_USERNAME,
            Refusal::Sections(code) => code,
            Refusal::NoJob => REJECT_BAD_JOB_ID,
            Refusal::Stale => REJECT_STALE_BLOCK,
            Refusal::NodeBehind => REJECT_STALE_BLOCK,
            Refusal::Share(code) => code,
            Refusal::Duplicate => REJECT_DUPLICATE_WORK,
            Refusal::Full => REJECT_OTHER,
        }
    }
}

/// Whether an identity can be kept: some ASCII characters that are seen, not too many.
pub open spec fn is_keepable(identity: Seq<char>) -> bool {
    let b = encode_utf8(identity);
    0 < b.len() <= MAX_IDENTITY_BYTES && forall|i: int|
        0 <= i < b.len() ==> 0x21 <= #[trigger] b[i] <= 0x7e
}

fn keepable(identity: &str) -> (r: bool)
    ensures
        r == is_keepable(identity@),
{
    let b: &[u8] = identity.as_bytes();
    if b.len() == 0 || b.len() > MAX_IDENTITY_BYTES {
        return false;
    }
    let mut i: usize = 0;
    while i < b.len()
        invariant
            i <= b@.len(),
            b@ == encode_utf8(identity@),
            forall|k: int| 0 <= k < i ==> 0x21 <= #[trigger] b@[k] <= 0x7e,
        decreases b@.len() - i,
    {
        if b[i] < 0x21 || b[i] > 0x7e {
            return false;
        }
        i = i + 1;
    }
    true
}

/// The identity a username is credited to.
pub open spec fn credited_identity(username: Seq<char>) -> Seq<char> {
    canonical_of(identity_in(username))
}

/// Why a username's shares are refused.
pub open spec fn user_refusal(username: Seq<char>, controls: Controls, net: Network) -> Option<
    Refusal,
> {
    let identity = credited_identity(username);
    if !is_keepable(identity) {
        Some(Refusal::Malformed)
    } else if controls.banned_identities@.contains_key(identity) {
        Some(Refusal::Banned)
    } else if payable_script(identity, net).is_none() {
        Some(Refusal::NotPayable)
    } else {
        None
    }
}

/// A ban holds for every worker of an identity and however its address is cased: a username that
/// folds to the same identity as a banned entry gets nothing credited.
pub proof fn lemma_ban_holds(
    username: Seq<char>,
    banned: Seq<Seq<char>>,
    i: int,
    controls: Controls,
    net: Network,
)
    requires
        controls.banned_identities@ == banned_of(banned),
        0 <= i < banned.len(),
        credited_identity(username) == entry_identity(banned[i]),
    ensures
        user_refusal(username, controls, net).is_some(),
        is_keepable(credited_identity(username)) ==> user_refusal(username, controls, net) == Some(
            Refusal::Banned,
        ),
{
    lemma_banned_of(banned, i);
}

/// The identity a username is credited to, or why its shares are refused. A username that is not
/// a payable address is refused at once, so that its miner learns of it, rather than credited
/// with work that could never be paid.
pub fn check_user(username: &str, controls: &Controls, net: Network) -> (r: Result<String, Refusal>)
    requires
        controls.wf(),
    ensures
        match user_refusal(username@, *controls, net) {
            Some(why) => r == Err::<String, Refusal>(why),
            None => r matches Ok(identity) && identity@ == credited_identity(username@),
        },
{
    let bare: String = identity_of(username);
    let identity: String = canonical_identity(bare.as_str());
    if !keepable(identity.as_str()) {
        return Err(Refusal::Malformed);
    }
    if controls.identity_banned(identity.as_str()) {
        return Err(Refusal::Banned);
    }
    if to_script(identity.as_str(), net).is_none() {
        return Err(Refusal::NotPayable);
    }
    Ok(identity)
}

/// The node's tip as a session knows it.
#[derive(Clone, Copy, Debug, PartialEq, Eq, Structural)]
pub struct TipSeen {
    pub height: u32,
    /// Nanoseconds since it was first seen.
    pub age: u64,
}

/// How a job's height stands to the node's tip.
#[derive(Clone, Copy, Debug, PartialEq, Eq, Structural)]
pub enum Freshness {
    Current,
    Stale,
    /// At least two blocks past the tip's next: the pool's node lags.
    Ahead,
}

/// How a job's height stands to the tip: the next block, or one more; or the tip's own height,
/// for a grace period after the tip moved.
pub open spec fn freshness_of(height: u32, tip: Option<TipSeen>, grace_secs: u32) -> Freshness {
    match tip {
        None => Freshness::Current,
        Some(t) => if height > t.height + 2 {
            Freshness::Ahead
        } else if height > t.height || (height == t.height && t.age < grace_secs * SECOND) {
            Freshness::Current
        } else {
            Freshness::Stale
        },
    }
}

/// Tells how a job's height stands to the tip.
pub fn freshness(height: u32, tip: Option<TipSeen>, grace_secs: u32) -> (r: Freshness)
    requires
        tip matches Some(t) ==> t.height <= u32::MAX - 2,
    ensures
        r == freshness_of(height, tip, grace_secs),
{
    match tip {
        None => Freshness::Current,
        Some(t) => {
            let expected: u32 = t.height + 1;
            if height > expected + 1 {
                return Freshness::Ahead;
            }
            let grace: u64 = grace_secs as u64 * SECOND;
            if height < expected && !(height + 1 == expected && t.age < grace) {
                Freshness::Stale
            } else {
                Freshness::Current
            }
        },
    }
}

/// The height of the block after the tip, or 0 before a tip is known.
pub fn next_height(tip: Option<TipSeen>) -> (h: u32)
    requires
        tip matches Some(t) ==> t.height < u32::MAX,
    ensures
        h == match tip {
            Some(t) => (t.height + 1) as u32,
            None => 0,
        },
{
    match tip {
        Some(t) => t.height + 1,
        None => 0,
    }
}

/// Whether an identity may be credited: a full table takes no new one that cannot be paid.
pub open spec fn may_credit(w: WindowView, identity: Seq<char>, net: Network) -> bool {
    !(w.idents.len() >= MAX_IDENTITIES && work_in(w, identity) == 0 && payable_script(
        identity,
        net,
    ).is_none())
}

/// Tells whether an identity may be credited.
pub fn has_room_for(window: &Window, identity: &str, net: Network) -> (r: bool)
    requires
        window.wf(),
    ensures
        r == may_credit(window@, identity@, net),
{
    !(window.identities().len() >= MAX_IDENTITIES && window.work_of(identity) == 0 && to_script(
        identity,
        net,
    ).is_none())
}

/// What a session holds shares to.
pub struct ShareTerms<'a> {
    pub pool_script: &'a [u8],
    pub network: Network,
    /// Slack per issued output, in satoshis.
    pub tolerance: u64,
    /// Smallest power-of-two difficulty the pool accepts.
    pub min_pot: u8,
    /// Coinbase bytes the session may make the pool hold.
    pub coinbase_budget: usize,
    pub stale_grace_secs: u32,
    /// Whether the gateway is the pool's own public stratum.
    pub house: bool,
    /// Unix seconds now.
    pub ts: u64,
    pub tip: Option<TipSeen>,
}

/// What a share comes to.
#[derive(Clone, Debug)]
pub enum ShareOutcome {
    Refused(Refusal),
    Credited {
        identity: String,
        share: VerifiedShare,
        /// What goes into the ledger's files.
        appended: Appended,
    },
}

/// A gateway session.
pub struct Session {
    pub slots: SlotTable,
    pub coinbasers: Coinbasers,
    pub rejects: Rejects,
}

/// The list issued under an id, if it is still known.
pub open spec fn issued_list(c: CoinbasersView, id: u8) -> Option<Seq<OutputView>> {
    match c.issued(id) {
        Some(i) => Some(i.outputs),
        None => None,
    }
}

/// The policy a share on a coinbaser is verified under.
pub open spec fn policy_for(t: ShareTerms, issued: Option<Seq<OutputView>>) -> PolicyView {
    PolicyView {
        pool_script: t.pool_script@,
        issued,
        tolerance: t.tolerance,
        now: t.ts as u32,
        min_pot: t.min_pot,
    }
}

/// The ledger's window after a share.
pub open spec fn credited_window(
    w: WindowView,
    identity: Seq<char>,
    v: VerifiedShare,
    t: ShareTerms,
) -> WindowView {
    let c = w.row_for(identity, v.work, v.height, t.ts as u32, source_for(t.house));
    w.interned(identity).counted(v.work).with_work(c, false, t.ts as u32).trimmed()
}

/// Why a share is refused before it is hashed.
pub open spec fn early_refusal(
    slots: TableView,
    s: PowSubmit,
    t: ShareTerms,
    controls: Controls,
) -> Option<Refusal> {
    let slot = slots.after_sections(s.job_id as usize, s, t.coinbase_budget).slots[s.job_id as int];
    match user_refusal(s.username@, controls, t.network) {
        Some(why) => Some(why),
        None => match slots.sections_reject(s.job_id as usize, s, t.coinbase_budget) {
            Some(code) => Some(Refusal::Sections(code)),
            None => match slot.job {
                None => Some(Refusal::NoJob),
                Some(j) => match freshness_of(j.height, t.tip, t.stale_grace_secs) {
                    Freshness::Ahead => Some(Refusal::NodeBehind),
                    Freshness::Stale => Some(Refusal::Stale),
                    Freshness::Current => None,
                },
            },
        },
    }
}

/// The slots after a share was looked at but not hashed: a share of a user who is refused leaves
/// them, any other brings its sections.
pub open spec fn early_slots(
    slots: TableView,
    s: PowSubmit,
    t: ShareTerms,
    controls: Controls,
) -> TableView {
    if user_refusal(s.username@, controls, t.network).is_some() {
        slots
    } else {
        slots.after_sections(s.job_id as usize, s, t.coinbase_budget)
    }
}

/// What a share of an identity that was hashed comes to, given what verifying it gave.
pub open spec fn is_hashed_outcome(
    r: ShareOutcome,
    verified: Result<VerifiedShare, u16>,
    identity: Seq<char>,
    t: ShareTerms,
    seen: Seq<HeightView>,
    seen_now: Seq<HeightView>,
    window: WindowView,
    window_now: WindowView,
) -> bool {
    match verified {
        Err(code) => r == ShareOutcome::Refused(Refusal::Share(code)) && seen_now == seen
            && window_now == window,
        Ok(v) => seen_now == seen_after(seen, v.height, v.hash) && match seen_outcome(
            seen,
            v.height,
            v.hash,
        ) {
            Seen::Duplicate => r == ShareOutcome::Refused(Refusal::Duplicate) && window_now
                == window,
            Seen::Full => r == ShareOutcome::Refused(Refusal::Full) && window_now == window,
            Seen::Fresh => if may_credit(window, identity, t.network) {
                r is Credited && r->identity@ == identity && r->share == v && window_now
                    == credited_window(window, identity, v, t)
            } else {
                r == ShareOutcome::Refused(Refusal::NotPayable) && window_now == window
            },
        },
    }
}

/// Credits a share that verified, once: a share that was seen before, or that cannot be
/// remembered, credits nobody.
pub fn settle_share(
    identity: String,
    verified: Result<VerifiedShare, u16>,
    t: &ShareTerms,
    seen: &mut SeenShares,
    ledger: &mut Ledger,
) -> (r: ShareOutcome)
    requires
        old(seen).wf(),
        old(ledger).wf(),
        old(ledger).window@.idents.len() < 0x1_0000_0000,
        old(ledger).window@.rows.len() < usize::MAX,
        old(ledger).window@.lifetime_shares < u64::MAX,
        old(ledger).rows_on_disk < u64::MAX,
    ensures
        final(seen).wf(),
        final(ledger).wf(),
        is_hashed_outcome(
            r,
            verified,
            identity@,
            *t,
            old(seen)@,
            final(seen)@,
            old(ledger).window@,
            final(ledger).window@,
        ),
        r is Refused ==> *final(ledger) == *old(ledger),
        r is Credited ==> {
            &&& r->appended.row@ == old(ledger).window@.row_for(
                identity@,
                r->share.work,
                r->share.height,
                t.ts as u32,
                source_for(t.house),
            ).row_bytes()
            &&& r->appended.new_identity == !old(ledger).window@.idents.contains(identity@)
            &&& final(ledger).rows_on_disk == old(ledger).rows_on_disk + 1
            &&& final(ledger).dirty
            &&& old(ledger).window@.exact() && work_sum(old(ledger).window@.rows) + r->share.work
                <= u64::MAX ==> final(ledger).window@.exact()
        },
{
    let v: VerifiedShare = match verified {
        Ok(v) => v,
        Err(code) => {
            return ShareOutcome::Refused(Refusal::Share(code));
        },
    };
    match seen.insert(v.height, v.hash) {
        Seen::Fresh => {},
        Seen::Duplicate => {
            return ShareOutcome::Refused(Refusal::Duplicate);
        },
        Seen::Full => {
            return ShareOutcome::Refused(Refusal::Full);
        },
    }
    if !has_room_for(&ledger.window, identity.as_str(), t.network) {
        return ShareOutcome::Refused(Refusal::NotPayable);
    }
    let source: u8 = if t.house {
        SOURCE_STRATUM
    } else {
        SOURCE_DATUM
    };
    let appended: Appended = ledger.credit(
        identity.as_str(),
        v.work,
        v.height,
        #[verifier::truncate] (t.ts as u32),
        source,
    );
    ShareOutcome::Credited { identity, share: v, appended }
}

impl Session {
    /// A session at its start, at `now` on its clock.
    pub fn new(now: u64) -> (s: Session)
        ensures
            s.wf(),
            s.slots@ == TableView::empty(),
            s.coinbasers@ == CoinbasersView::fresh(now),
            s.rejects@ == Seq::<u64>::empty(),
    {
        Session { slots: SlotTable::new(), coinbasers: Coinbasers::new(now), rejects: Rejects::new() }
    }

    /// The slots and the coinbasers are well-formed.
    pub open spec fn wf(&self) -> bool {
        self.slots.wf() && self.coinbasers.wf()
    }

    /// Looks at a share as far as the session itself can tell: whose it is, its sections, its age
    /// and its work. What verifying it gave is for [`settle_share`].
    pub fn check_pow(&mut self, s: &PowSubmit, t: &ShareTerms, controls: &Controls) -> (r: Result<
        (String, Result<VerifiedShare, u16>),
        Refusal,
    >)
        requires
            old(self).wf(),
            controls.wf(),
            t.tip matches Some(tip) ==> tip.height <= u32::MAX - 2,
        ensures
            final(self).wf(),
            final(self).coinbasers@ == old(self).coinbasers@,
            final(self).rejects@ == old(self).rejects@,
            match early_refusal(old(self).slots@, *s, *t, *controls) {
                Some(why) => r == Err::<(String, Result<VerifiedShare, u16>), Refusal>(why)
                    && final(self).slots@ == early_slots(old(self).slots@, *s, *t, *controls),
                None => {
                    let mid = early_slots(old(self).slots@, *s, *t, *controls);
                    let slot = mid.slots[s.job_id as int];
                    let slot_now = final(self).slots@.slots[s.job_id as int];
                    let p = policy_for(
                        *t,
                        issued_list(old(self).coinbasers@, slot.job.unwrap().coinbaser_id),
                    );
                    &&& r matches Ok((identity, verified)) && identity@ == credited_identity(
                        s.username@,
                    ) && is_share_outcome(verified, slot, slot_now, *s, p)
                    &&& final(self).slots@ == mid.with_slot(s.job_id as usize, slot_now)
                },
            },
            r matches Ok((_, Ok(v))) ==> s.blake2b.is_some() && v.coinbase_legacy@.len() >= 8,
    {
        let identity: String = match check_user(s.username.as_str(), controls, t.network) {
            Ok(i) => i,
            Err(why) => {
                return Err(why);
            },
        };
        let job_id: usize = s.job_id as usize;
        match self.slots.take_sections(job_id, s, t.coinbase_budget) {
            Ok(_) => {},
            Err(code) => {
                return Err(Refusal::Sections(code));
            },
        }
        let (height, coinbaser_id) = match self.slots.job_terms(job_id) {
            Some(x) => x,
            None => {
                return Err(Refusal::NoJob);
            },
        };
        match freshness(height, t.tip, t.stale_grace_secs) {
            Freshness::Ahead => {
                return Err(Refusal::NodeBehind);
            },
            Freshness::Stale => {
                return Err(Refusal::Stale);
            },
            Freshness::Current => {},
        }
        let issued: Option<&[Output]> = match self.coinbasers.issued(coinbaser_id) {
            Some(c) => Some(c.outputs.as_slice()),
            None => None,
        };
        let p = Policy {
            pool_script: t.pool_script,
            issued,
            tolerance: t.tolerance,
            now: #[verifier::truncate] (t.ts as u32),
            min_pot: t.min_pot,
        };
        let ghost slot = self.slots@.slots[s.job_id as int];
        let ghost policy = policy_for(*t, issued_list(self.coinbasers@, coinbaser_id));
        assert(p@ =~= policy);
        let verified: Result<VerifiedShare, u16> = self.slots.verify_share(job_id, s, &p);
        let ghost slot_now = self.slots@.slots[s.job_id as int];
        assert(is_share_outcome(verified, slot, slot_now, *s, policy));
        Ok((identity, verified))
    }

    /// Takes a share: whose it is, its sections, its age, its work, and whether it is new. A
    /// share that is refused credits nobody; one that is credited never was before.
    pub fn on_pow(
        &mut self,
        s: &PowSubmit,
        t: &ShareTerms,
        controls: &Controls,
        seen: &mut SeenShares,
        ledger: &mut Ledger,
    ) -> (r: ShareOutcome)
        requires
            old(self).wf(),
            controls.wf(),
            old(seen).wf(),
            old(ledger).wf(),
            t.tip matches Some(tip) ==> tip.height <= u32::MAX - 2,
            old(ledger).window@.idents.len() < 0x1_0000_0000,
            old(ledger).window@.rows.len() < usize::MAX,
            old(ledger).window@.lifetime_shares < u64::MAX,
            old(ledger).rows_on_disk < u64::MAX,
        ensures
            final(self).wf(),
            final(seen).wf(),
            final(ledger).wf(),
            final(self).coinbasers@ == old(self).coinbasers@,
            final(self).rejects@ == old(self).rejects@,
            match early_refusal(old(self).slots@, *s, *t, *controls) {
                Some(why) => r == ShareOutcome::Refused(why) && final(self).slots@ == early_slots(
                    old(self).slots@,
                    *s,
                    *t,
                    *controls,
                ) && final(seen)@ == old(seen)@ && final(ledger).window@ == old(ledger).window@,
                None => {
                    let mid = early_slots(old(self).slots@, *s, *t, *controls);
                    let slot = mid.slots[s.job_id as int];
                    let slot_now = final(self).slots@.slots[s.job_id as int];
                    let p = policy_for(
                        *t,
                        issued_list(old(self).coinbasers@, slot.job.unwrap().coinbaser_id),
                    );
                    &&& final(self).slots@ == mid.with_slot(s.job_id as usize, slot_now)
                    &&& exists|verified: Result<VerifiedShare, u16>|
                        {
                            &&& #[trigger] is_share_outcome(verified, slot, slot_now, *s, p)
                            &&& is_hashed_outcome(
                                r,
                                verified,
                                credited_identity(s.username@),
                                *t,
                                old(seen)@,
                                final(seen)@,
                                old(ledger).window@,
                                final(ledger).window@,
                            )
                        }
                },
            },
            r is Refused ==> *final(ledger) == *old(ledger),
            r is Credited ==> {
                &&& seen_outcome(old(seen)@, r->share.height, r->share.hash) == Seen::Fresh
                &&& r->appended.row@ == old(ledger).window@.row_for(
                    credited_identity(s.username@),
                    r->share.work,
                    r->share.height,
                    t.ts as u32,
                    source_for(t.house),
                ).row_bytes()
                &&& r->appended.new_identity == !old(ledger).window@.idents.contains(
                    credited_identity(s.username@),
                )
                &&& final(ledger).rows_on_disk == old(ledger).rows_on_disk + 1
                &&& final(ledger).dirty
                &&& s.blake2b.is_some()
                &&& r->share.coinbase_legacy@.len() >= 8
                &&& old(ledger).window@.exact() && work_sum(old(ledger).window@.rows)
                    + r->share.work <= u64::MAX ==> final(ledger).window@.exact()
            },
    {
        match self.check_pow(s, t, controls) {
            Ok((identity, verified)) => settle_share(identity, verified, t, seen, ledger),
            Err(why) => ShareOutcome::Refused(why),
        }
    }
}

/// A share is credited once, however it is sent again: its credit is remembered; no share that
/// comes later, from any session, makes the pool forget it; and while it is remembered, whatever
/// verifies to the same hash at its height is a duplicate that credits nobody.
pub proof fn lemma_credited_once_for_all(
    r: ShareOutcome,
    verified: Result<VerifiedShare, u16>,
    identity: Seq<char>,
    t: ShareTerms,
    seen: Seq<HeightView>,
    seen_now: Seq<HeightView>,
    window: WindowView,
    window_now: WindowView,
    height: u32,
    hash: Hash32,
)
    requires
        heights_ok(seen),
        is_hashed_outcome(r, verified, identity, t, seen, seen_now, window, window_now),
    ensures
        heights_ok(seen_now),
        r is Credited ==> hashes_at(seen_now, r->share.height).contains(r->share.hash),
        hashes_at(seen, height).contains(hash) ==> hashes_at(seen_now, height).contains(hash),
        verified matches Ok(v) ==> hashes_at(seen, v.height).contains(v.hash) ==> r
            == ShareOutcome::Refused(Refusal::Duplicate) && window_now == window && seen_now
            == seen,
{
    if verified.is_ok() {
        let v = verified.unwrap();
        if hashes_at(seen, height).contains(hash) {
            lemma_never_forgotten(seen, height, hash, v.height, v.hash);
        }
        if seen_outcome(seen, v.height, v.hash) == Seen::Fresh {
            lemma_credited_once(seen, v.height, v.hash);
        }
        lemma_seen_after_ok(seen, v.height, v.hash);
    }
}

/// A share's receipt.
#[derive(Clone, Copy, Debug, PartialEq, Eq, Structural)]
pub struct Receipt {
    pub status: u8,
    /// The reject code, or 0.
    pub code: u16,
    pub nonce32: u32,
    pub target_pot: u8,
    pub job_id: u8,
}

/// The receipt of a share: accepted when its coinbase pays the whole split, accepted tentatively
/// when it pays less of it, else rejected with the code.
pub open spec fn receipt_of(s: PowSubmit, r: ShareOutcome) -> Receipt {
    let (status, code) = match r {
        ShareOutcome::Refused(why) => (REJECTED, why.spec_code()),
        ShareOutcome::Credited { identity, share, appended } => if share.coinbase_kind
            == CoinbaseKind::Split {
            (ACCEPTED, 0u16)
        } else {
            (ACCEPTED_TENTATIVELY, 0u16)
        },
    };
    Receipt { status, code, nonce32: s.nonce32, target_pot: s.target_pot, job_id: s.job_id }
}

/// Makes the receipt of a share.
pub fn receipt(s: &PowSubmit, r: &ShareOutcome) -> (x: Receipt)
    ensures
        x == receipt_of(*s, *r),
{
    let (status, code) = match r {
        ShareOutcome::Refused(why) => (REJECTED, why.code()),
        ShareOutcome::Credited { share, .. } => {
            if share.coinbase_kind == CoinbaseKind::Split {
                (ACCEPTED, 0u16)
            } else {
                (ACCEPTED_TENTATIVELY, 0u16)
            }
        },
    };
    Receipt { status, code, nonce32: s.nonce32, target_pot: s.target_pot, job_id: s.job_id }
}

/// What a session's timer calls for.
#[derive(Clone, Copy, Debug, PartialEq, Eq, Structural)]
pub enum Tick {
    Nothing,
    /// Send an empty message, so that the gateway does not take the pool for dead.
    Keepalive,
    /// Drop the session.
    Idle,
}

/// What is due, so many nanoseconds after the last message either way.
pub fn tick(since_recv: u64, since_send: u64) -> (r: Tick)
    ensures
        r == if since_recv > IDLE_LIMIT {
            Tick::Idle
        } else if since_send > KEEPALIVE {
            Tick::Keepalive
        } else {
            Tick::Nothing
        },
        r is Idle <==> since_recv > 300 * 1_000_000_000,
        r is Nothing <==> since_recv <= 300 * 1_000_000_000 && since_send <= 20 * 1_000_000_000,
{
    if since_recv > IDLE_LIMIT {
        Tick::Idle
    } else if since_send > KEEPALIVE {
        Tick::Keepalive
    } else {
        Tick::Nothing
    }
}

/// A share is credited with a row of its own, which names the identity and says how much work it
/// is, for which height, when, and how it came: by the pool's own stratum if the gateway is the
/// house's, else by a gateway of the miner's. The identity's work grows by the share's work, and its
/// stratum work by the same for a house share and by nothing for another, unless rows of its own
/// leave the window.
pub proof fn lemma_share_is_credited_as_it_came(
    w: WindowView,
    identity: Seq<char>,
    v: VerifiedShare,
    t: ShareTerms,
)
    requires
        w.wf(),
        w.exact(),
        w.idents.contains(identity) || w.idents.len() < 0x1_0000_0000,
        w.rows.len() < u64::MAX,
        work_sum(w.rows) + v.work <= u64::MAX,
    ensures
        ({
            let n = credited_window(w, identity, v, t);
            let c = n.rows.last();
            let gone = w.rows.len() + 1 - n.rows.len();
            &&& n.rows.len() > 0
            &&& c.ident < n.idents.len() && n.idents[c.ident as int] == identity
            &&& c.work == v.work
            &&& c.height == v.height
            &&& c.ts == t.ts as u32
            &&& t.house ==> c.source == SOURCE_STRATUM && c.source == 1
            &&& !t.house ==> c.source == SOURCE_DATUM && c.source == 2
            &&& 0 <= gone && n.rows.drop_last() == w.rows.skip(gone)
            &&& (forall|i: int| 0 <= i < gone ==> (#[trigger] w.rows[i]).ident != c.ident) ==> {
                &&& work_sum_of(n.rows, c.ident) == work_sum_of(w.rows, c.ident) + v.work
                &&& t.house ==> stratum_sum_of(n.rows, c.ident) == stratum_sum_of(w.rows, c.ident)
                    + v.work
                &&& !t.house ==> stratum_sum_of(n.rows, c.ident) == stratum_sum_of(
                    w.rows,
                    c.ident,
                )
            }
            &&& w.lifetime_shares < u64::MAX ==> n.lifetime_shares == w.lifetime_shares + 1
            &&& w.lifetime_work + v.work <= u64::MAX ==> n.lifetime_work == w.lifetime_work
                + v.work
        }),
{
    let source = source_for(t.house);
    let c = w.row_for(identity, v.work, v.height, t.ts as u32, source);
    let k = w.interned(identity).counted(v.work);
    let f = k.with_work(c, false, t.ts as u32);
    let n = credited_window(w, identity, v, t);
    lemma_row_says_whose(w, identity, v.work, v.height, t.ts as u32, source);
    lemma_interned_wf(w, identity);
    assert(k.wf() && k.exact());
    lemma_work_is_added(k, c, false, t.ts as u32, c.ident);
    lemma_with_work(k, c, false, t.ts as u32);
    lemma_trimmed(f);
    assert(n == f.trimmed());
    if f.target_work > 0 {
        lemma_trim_is_tight(f);
    }
    assert(n.rows.len() > 0);
    let gone = w.rows.len() + 1 - n.rows.len();
    assert(f.rows == w.rows.push(c));
    assert(n.rows == f.rows.skip(gone));
    assert(n.rows.last() == c);
    assert(n.rows.drop_last() =~= w.rows.skip(gone));
    if forall|i: int| 0 <= i < gone ==> (#[trigger] w.rows[i]).ident != c.ident {
        assert forall|i: int| 0 <= i < gone implies (#[trigger] f.rows[i]).ident != c.ident by {
            assert(f.rows[i] == w.rows[i]);
        }
        lemma_stratum_of_newest(f.rows, gone, c.ident);
    }
}

/// A share is credited if and only if it verified, its hash was not credited before and can be
/// remembered, and its identity may be credited; then that share is what is credited, to that
/// identity, and its hash is remembered. Whatever is refused leaves the window as it was.
pub proof fn lemma_when_a_share_is_credited(
    r: ShareOutcome,
    verified: Result<VerifiedShare, u16>,
    identity: Seq<char>,
    t: ShareTerms,
    seen: Seq<HeightView>,
    seen_now: Seq<HeightView>,
    window: WindowView,
    window_now: WindowView,
)
    requires
        heights_ok(seen),
        is_hashed_outcome(r, verified, identity, t, seen, seen_now, window, window_now),
    ensures
        r is Refused ==> window_now == window,
        verified matches Err(code) ==> r == ShareOutcome::Refused(Refusal::Share(code)) && seen_now
            == seen,
        verified matches Ok(v) ==> {
            let known = hashes_at(seen, v.height);
            let full = known.len() >= 1_000_000 || hashes_kept(seen) >= 2_500_000;
            &&& known.contains(v.hash) ==> r == ShareOutcome::Refused(Refusal::Duplicate)
            &&& !known.contains(v.hash) && full ==> r == ShareOutcome::Refused(Refusal::Full)
            &&& !known.contains(v.hash) && !full && payable_script(identity, t.network).is_some()
                ==> r is Credited
            &&& r is Credited ==> r->identity@ == identity && r->share == v && !known.contains(
                v.hash,
            ) && hashes_at(seen_now, v.height) == known.insert(v.hash)
        },
{
    if let Ok(v) = verified {
        lemma_other_work_is_refused(seen, v.height, v.hash, v.height);
        if !hashes_at(seen, v.height).contains(v.hash) && hashes_at(seen, v.height).len()
            < 1_000_000 && hashes_kept(seen) < 2_500_000 {
            lemma_new_work_is_taken(seen, v.height, v.hash, v.height);
        }
    }
}

/// A username's shares are taken if and only if the identity it names is between one and 128
/// visible ASCII characters, is not banned and can be paid. Otherwise the miner is told that the
/// username is bad.
pub proof fn lemma_whose_shares_are_taken(username: Seq<char>, controls: Controls, net: Network)
    ensures
        ({
            let identity = canonical_of(identity_in(username));
            let b = encode_utf8(identity);
            let refused = user_refusal(username, controls, net);
            &&& refused.is_none() <==> {
                &&& 1 <= b.len() <= 128
                &&& forall|i: int| 0 <= i < b.len() ==> 0x21 <= #[trigger] b[i] <= 0x7e
                &&& !controls.banned_identities@.contains_key(identity)
                &&& payable_script(identity, net).is_some()
            }
            &&& refused matches Some(why) ==> why.spec_code() == 14
        }),
{
}

/// How a height stands to a tip: the two blocks after the tip are worked on; the tip's own height
/// is too as long as the tip is younger than the grace period; what is below the tip is stale, and
/// what is further ahead is for a node that lags. Before a tip is known, all is current.
pub proof fn lemma_freshness(height: u32, tip: TipSeen, grace_secs: u32)
    requires
        tip.height <= u32::MAX - 2,
    ensures
        freshness_of(height, None, grace_secs) == Freshness::Current,
        height == tip.height + 1 || height == tip.height + 2 ==> freshness_of(
            height,
            Some(tip),
            grace_secs,
        ) == Freshness::Current,
        height < tip.height ==> freshness_of(height, Some(tip), grace_secs) == Freshness::Stale,
        height == tip.height ==> (freshness_of(height, Some(tip), grace_secs)
            == Freshness::Current <==> tip.age < grace_secs * 1_000_000_000),
        height == tip.height ==> freshness_of(height, Some(tip), grace_secs) != Freshness::Ahead,
        freshness_of(height, Some(tip), grace_secs) == Freshness::Ahead <==> height > tip.height + 2,
{
}

/// A receipt tells which share it answers. It accepts a share that pays the whole split, accepts
/// tentatively one that pays less, and rejects what was refused, with the reason.
pub proof fn lemma_receipts(s: PowSubmit, r: ShareOutcome)
    ensures
        ({
            let x = receipt_of(s, r);
            &&& x.nonce32 == s.nonce32 && x.target_pot == s.target_pot && x.job_id == s.job_id
            &&& r is Credited ==> x.code == 0
            &&& r is Credited && r->share.coinbase_kind is Split ==> x.status == 0x50
            &&& r is Credited && !(r->share.coinbase_kind is Split) ==> x.status == 0x55
            &&& r matches ShareOutcome::Refused(why) ==> x.status == 0x66 && x.code
                == why.spec_code()
        }),
{
}

/// The code a miner is told for each refusal.
pub proof fn lemma_refusal_codes(code: u16)
    ensures
        Refusal::Malformed.spec_code() == 14,
        Refusal::Banned.spec_code() == 14,
        Refusal::NotPayable.spec_code() == 14,
        Refusal::NoJob.spec_code() == 10,
        Refusal::Stale.spec_code() == 25,
        Refusal::NodeBehind.spec_code() == 25,
        Refusal::Duplicate.spec_code() == 29,
        Refusal::Full.spec_code() == 30,
        Refusal::Sections(code).spec_code() == code,
        Refusal::Share(code).spec_code() == code,
{
}

/// What is refused before a share is hashed, and in which order: the user first, then what its
/// sections do not fit, then a job that is not known or not current. Nothing else is.
pub proof fn lemma_refused_before_hashing(
    slots: TableView,
    s: PowSubmit,
    t: ShareTerms,
    controls: Controls,
)
    ensures
        ({
            let user = user_refusal(s.username@, controls, t.network);
            let sections = slots.sections_reject(s.job_id as usize, s, t.coinbase_budget);
            let job = slots.after_sections(s.job_id as usize, s, t.coinbase_budget).slots[
                s.job_id as int
            ].job;
            let e = early_refusal(slots, s, t, controls);
            &&& user.is_some() ==> e == user && early_slots(slots, s, t, controls) == slots
            &&& user.is_none() && sections.is_some() ==> e == Some(
                Refusal::Sections(sections.unwrap()),
            )
            &&& user.is_none() && sections.is_none() && job.is_none() ==> e == Some(Refusal::NoJob)
            &&& e.is_none() <==> user.is_none() && sections.is_none() && job.is_some()
                && freshness_of(job.unwrap().height, t.tip, t.stale_grace_secs)
                == Freshness::Current
            &&& user.is_none() && sections.is_none() && job.is_some() && t.tip.is_some()
                && job.unwrap().height < t.tip.unwrap().height ==> e == Some(Refusal::Stale)
            &&& user.is_none() && sections.is_none() && job.is_some() && t.tip.is_some()
                && job.unwrap().height > t.tip.unwrap().height + 2 ==> e == Some(
                Refusal::NodeBehind,
            )
        }),
{
}

/// A share is verified under what the session holds it to: the pool's script, the list issued for
/// its job, the slack, the time and the smallest difficulty.
pub proof fn lemma_policy(t: ShareTerms, issued: Option<Seq<OutputView>>)
    ensures
        policy_for(t, issued).pool_script == t.pool_script@,
        policy_for(t, issued).issued == issued,
        policy_for(t, issued).tolerance == t.tolerance,
        policy_for(t, issued).now == t.ts as u32,
        policy_for(t, issued).min_pot == t.min_pot,
{
}

/// A gateway is the house's by its key where the key's digits, in either case, begin with those of a
/// gateway that is listed; an empty entry lists none.
pub proof fn lemma_house_keys(gateways: Seq<Seq<char>>, gateway_hex: Seq<char>, i: int)
    requires
        0 <= i < gateways.len(),
    ensures
        gateways[i].len() > 0 && gateways[i] == lower_of(gateway_hex) ==> is_house_key(
            gateways,
            gateway_hex,
        ),
        (forall|k: int| 0 <= k < gateways.len() ==> (#[trigger] gateways[k]).len() == 0)
            ==> !is_house_key(gateways, gateway_hex),
        is_house_key(gateways, gateway_hex) == is_house_key(gateways, lower_of(gateway_hex)),
{
    crate::text::lemma_lower_idempotent(gateway_hex);
    let b = encode_utf8(lower_of(gateway_hex));
    assert(b.take(b.len() as int) =~= b);
}

/// The addresses of the host itself are `127.0.0.0` to `127.255.255.255` and `::1`.
pub proof fn lemma_loopback(a: u32, b: u128)
    ensures
        is_loopback_ip(IpAddr::V4(a)) <==> 0x7f00_0000 <= a <= 0x7fff_ffff,
        is_loopback_ip(IpAddr::V6(b)) <==> b == 1,
{
}

/// Rejects count for ten seconds, and a session with two thousand that count is dropped.
pub proof fn lemma_reject_limits(t: u64, now: u64)
    ensures
        is_old_reject(t, now) <==> now - t > 10_000_000_000,
        REJECT_FLOOD == 2_000,
        IDLE_LIMIT == 300_000_000_000,
        KEEPALIVE == 20_000_000_000,
        counted_rejects(Seq::empty(), now) == Seq::<u64>::empty(),
{
}

/// An identity may be credited unless the table is full, it has no work in the window and it cannot
/// be paid.
pub proof fn lemma_who_may_be_credited(w: WindowView, identity: Seq<char>, net: Network)
    ensures
        payable_script(identity, net).is_some() ==> may_credit(w, identity, net),
        w.idents.len() < 65_536 ==> may_credit(w, identity, net),
        work_in(w, identity) > 0 ==> may_credit(w, identity, net),
        w.idents.len() >= 65_536 && work_in(w, identity) == 0 && payable_script(
            identity,
            net,
        ).is_none() ==> !may_credit(w, identity, net),
{
}

/// A share is held to the list that was issued under its job's coinbaser, where that is still known.
pub proof fn lemma_list_of_a_job(c: CoinbasersView, id: u8)
    ensures
        c.issued(id) matches Some(x) ==> issued_list(c, id) == Some(x.outputs),
        c.issued(id).is_none() ==> issued_list(c, id).is_none(),
{
}

} // verus!
