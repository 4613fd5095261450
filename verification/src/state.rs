//! State shared by every session: open connections, and the workers behind each identity.

use crate::base16::{hex_of, lemma_hex_pinned, to_hex};
use crate::bytes::slice_of;
use crate::classify::CoinbaseKind;
use crate::ip::IpAddr;
use crate::mining::{reject_name, reject_name_of};
use crate::text::text_eq;
use std::collections::{HashMap, VecDeque};
use vstd::prelude::*;

verus! {

broadcast use vstd::std_specs::hash::group_hash_axioms;

/// Open connections, in all and per remote address.
pub struct Connections {
    v4: HashMap<u32, u32>,
    v6: HashMap<u128, u32>,
    total: u32,
}

/// What [`Connections`] hold.
#[verifier::ext_equal]
pub struct ConnectionsView {
    /// Connections of each address that has any.
    pub per_ip: Map<IpAddr, u32>,
    pub total: u32,
}

impl ConnectionsView {
    /// Connections of one address.
    pub open spec fn of(self, ip: IpAddr) -> u32 {
        if self.per_ip.contains_key(ip) {
            self.per_ip[ip]
        } else {
            0
        }
    }

    /// The connections with another number for one address.
    pub open spec fn with(self, ip: IpAddr, n: u32, total: u32) -> ConnectionsView {
        ConnectionsView {
            per_ip: if n == 0 {
                self.per_ip.remove(ip)
            } else {
                self.per_ip.insert(ip, n)
            },
            total,
        }
    }

    /// Whether there is a place for an address within both limits.
    pub open spec fn has_place(self, ip: IpAddr, max_total: u32, max_per_ip: u32) -> bool {
        self.total < max_total && self.of(ip) < max_per_ip
    }

    /// The connections with a place taken.
    pub open spec fn taken(self, ip: IpAddr) -> ConnectionsView {
        self.with(ip, (self.of(ip) + 1) as u32, (self.total + 1) as u32)
    }

    /// The connections with a place given back. There is none to give back for an address that
    /// has none, and neither number goes below zero.
    pub open spec fn given_back(self, ip: IpAddr) -> ConnectionsView {
        if self.of(ip) == 0 {
            self
        } else {
            self.with(
                ip,
                (self.of(ip) - 1) as u32,
                if self.total > 0 {
                    (self.total - 1) as u32
                } else {
                    0
                },
            )
        }
    }

    /// Whether neither limit is exceeded.
    pub open spec fn within(self, max_total: u32, max_per_ip: u32) -> bool {
        self.total <= max_total && forall|ip: IpAddr| #[trigger] self.of(ip) <= max_per_ip
    }
}

impl View for Connections {
    type V = ConnectionsView;

    closed spec fn view(&self) -> ConnectionsView {
        ConnectionsView {
            per_ip: Map::new(|ip: IpAddr| self.held(ip) > 0, |ip: IpAddr| self.held(ip)),
            total: self.total,
        }
    }
}

impl Default for Connections {
    fn default() -> (c: Connections)
        ensures
            c@ == (ConnectionsView { per_ip: Map::empty(), total: 0 }),
    {
        let c = Connections { v4: HashMap::new(), v6: HashMap::new(), total: 0 };
        assert(c@.per_ip =~= Map::empty());
        c
    }
}

impl Connections {
    spec fn held(&self, ip: IpAddr) -> u32 {
        match ip {
            IpAddr::V4(a) => if self.v4@.contains_key(a) {
                self.v4@[a]
            } else {
                0
            },
            IpAddr::V6(a) => if self.v6@.contains_key(a) {
                self.v6@[a]
            } else {
                0
            },
        }
    }

    fn count(&self, ip: IpAddr) -> (n: u32)
        ensures
            n == self@.of(ip),
            n == self.held(ip),
    {
        match ip {
            IpAddr::V4(a) => match self.v4.get(&a) {
                Some(n) => *n,
                None => 0,
            },
            IpAddr::V6(a) => match self.v6.get(&a) {
                Some(n) => *n,
                None => 0,
            },
        }
    }

    fn set(&mut self, ip: IpAddr, n: u32)
        ensures
            final(self)@ == old(self)@.with(ip, n, old(self)@.total),
    {
        let ghost before = *self;
        match ip {
            IpAddr::V4(a) => {
                if n == 0 {
                    let _ = self.v4.remove(&a);
                } else {
                    self.v4.insert(a, n);
                }
            },
            IpAddr::V6(a) => {
                if n == 0 {
                    let _ = self.v6.remove(&a);
                } else {
                    self.v6.insert(a, n);
                }
            },
        }
        proof {
            assert forall|x: IpAddr| self.held(x) == (if x == ip {
                n
            } else {
                before.held(x)
            }) by {
            }
            assert(self@.per_ip =~= before@.with(ip, n, before@.total).per_ip);
        }
    }

    /// Takes a place for `ip`, or says which limit it would break.
    pub fn admit_ip(&mut self, ip: IpAddr, max_total: u32, max_per_ip: u32) -> (r: Result<
        (),
        &'static str,
    >)
        ensures
            r.is_ok() == old(self)@.has_place(ip, max_total, max_per_ip),
            r matches Err(e) ==> final(self)@ == old(self)@ && e@ == if old(self)@.total
                >= max_total {
                "connection limit reached"@
            } else {
                "per-address connection limit reached"@
            },
            r.is_ok() ==> final(self)@ == old(self)@.taken(ip),
    {
        if self.total >= max_total {
            return Err("connection limit reached");
        }
        let n: u32 = self.count(ip);
        if n >= max_per_ip {
            return Err("per-address connection limit reached");
        }
        self.set(ip, n + 1);
        let ghost counted = *self;
        self.total = self.total + 1;
        proof {
            assert forall|x: IpAddr| self.held(x) == counted.held(x) by {
            }
            assert(self@.per_ip =~= counted@.per_ip);
        }
        Ok(())
    }

    /// Gives a place back. One that was never taken changes nothing.
    pub fn release(&mut self, ip: IpAddr)
        ensures
            final(self)@ == old(self)@.given_back(ip),
    {
        let n: u32 = self.count(ip);
        if n == 0 {
            return;
        }
        self.set(ip, n - 1);
        let ghost counted = *self;
        if self.total > 0 {
            self.total = self.total - 1;
        }
        proof {
            assert forall|x: IpAddr| self.held(x) == counted.held(x) by {
            }
            assert(self@.per_ip =~= counted@.per_ip);
        }
    }

    /// Open connections in all.
    pub fn total(&self) -> (n: u32)
        ensures
            n == self@.total,
    {
        self.total
    }
}

/// A place that was taken and given back leaves the connections as they were.
pub proof fn lemma_admit_release(c: ConnectionsView, ip: IpAddr)
    requires
        c.total < u32::MAX,
        c.of(ip) < u32::MAX,
        c.per_ip.contains_key(ip) ==> c.per_ip[ip] > 0,
    ensures
        c.taken(ip).given_back(ip) == c,
{
    assert(c.taken(ip).given_back(ip) =~= c);
}

/// No host holds more than its share of the places: what is taken or given back keeps the
/// connections within both limits.
pub proof fn lemma_limits_hold(c: ConnectionsView, ip: IpAddr, max_total: u32, max_per_ip: u32)
    requires
        c.within(max_total, max_per_ip),
    ensures
        c.has_place(ip, max_total, max_per_ip) ==> c.taken(ip).within(max_total, max_per_ip),
        c.given_back(ip).within(max_total, max_per_ip),
{
    if c.has_place(ip, max_total, max_per_ip) {
        assert forall|x: IpAddr| #[trigger] c.taken(ip).of(x) <= max_per_ip by {
            assert(c.of(x) <= max_per_ip);
        }
    }
    assert forall|x: IpAddr| #[trigger] c.given_back(ip).of(x) <= max_per_ip by {
        assert(c.of(x) <= max_per_ip);
    }
}

/// The places of all addresses together.
pub open spec fn places(m: Map<IpAddr, u32>) -> nat
    recommends
        m.dom().finite(),
    decreases m.dom().len(),
{
    if m.dom().finite() && m.dom().len() > 0 {
        let ip = m.dom().choose();
        m[ip] as nat + places(m.remove(ip))
    } else {
        0
    }
}

proof fn lemma_places(m: Map<IpAddr, u32>, ip: IpAddr)
    requires
        m.dom().finite(),
        m.contains_key(ip),
    ensures
        places(m) == m[ip] + places(m.remove(ip)),
    decreases m.dom().len(),
{
    let x = m.dom().choose();
    assert(m.dom().len() > 0) by {
        if m.dom().len() == 0 {
            assert(m.dom() =~= Set::empty());
        }
    }
    assert(m.dom().contains(x));
    if x != ip {
        let a = m.remove(x);
        let b = m.remove(ip);
        assert(a.dom() =~= m.dom().remove(x));
        assert(b.dom() =~= m.dom().remove(ip));
        lemma_places(a, ip);
        lemma_places(b, x);
        assert(a.remove(ip) =~= b.remove(x));
    }
}

impl ConnectionsView {
    /// Whether the total is the number of places taken, and only addresses with one are listed.
    pub open spec fn is_counted(self) -> bool {
        &&& self.per_ip.dom().finite()
        &&& self.total == places(self.per_ip)
        &&& forall|ip: IpAddr| self.per_ip.contains_key(ip) ==> #[trigger] self.per_ip[ip] > 0
    }
}

/// The total is that of the live connections, whatever is taken or given back, also where a place
/// is given back that was never taken.
pub proof fn lemma_total_counts_the_places(c: ConnectionsView, ip: IpAddr)
    requires
        c.is_counted(),
    ensures
        c.total < u32::MAX ==> c.taken(ip).is_counted(),
        c.given_back(ip).is_counted(),
        (ConnectionsView { per_ip: Map::empty(), total: 0 }).is_counted(),
{
    let rest = c.per_ip.remove(ip);
    assert(rest.dom() =~= c.per_ip.dom().remove(ip));
    if c.per_ip.contains_key(ip) {
        lemma_places(c.per_ip, ip);
        assert(c.per_ip[ip] > 0);
    } else {
        assert(rest =~= c.per_ip);
    }
    if c.total < u32::MAX {
        let t = c.taken(ip).per_ip;
        lemma_places(t, ip);
        assert(t.remove(ip) =~= rest);
    }
    let g = c.given_back(ip).per_ip;
    if c.of(ip) > 1 {
        lemma_places(g, ip);
        assert(g.remove(ip) =~= rest);
    } else if c.of(ip) == 1 {
        assert(g =~= rest);
    }
}

/// Seconds over which a worker's rate is taken.
pub const WORKER_RATE_S: u64 = 600;

/// A worker silent for longer is dropped.
pub const WORKER_EXPIRE_S: u64 = 3600;

/// The shares of one worker behind an identity's own gateway.
pub struct WorkerStat {
    pub identity: String,
    pub worker: String,
    pub gateway: String,
    pub accepted: u64,
    pub work: u64,
    pub last_share_ts: u64,
    /// Time and work of recent shares.
    pub recent: VecDeque<(u64, u64)>,
}

/// What a [`WorkerStat`] holds.
#[verifier::ext_equal]
pub struct WorkerView {
    pub identity: Seq<char>,
    pub worker: Seq<char>,
    pub gateway: Seq<char>,
    pub accepted: u64,
    pub work: u64,
    pub last_share_ts: u64,
    pub recent: Seq<(u64, u64)>,
}

impl View for WorkerStat {
    type V = WorkerView;

    open spec fn view(&self) -> WorkerView {
        WorkerView {
            identity: self.identity@,
            worker: self.worker@,
            gateway: self.gateway@,
            accepted: self.accepted,
            work: self.work,
            last_share_ts: self.last_share_ts,
            recent: self.recent@,
        }
    }
}

/// Workers as mathematical values.
pub open spec fn workers_view(v: Seq<WorkerStat>) -> Seq<WorkerView> {
    Seq::new(v.len(), |i: int| v[i]@)
}

/// Whether `t` is more than `span` seconds before `now`.
pub open spec fn older_than(t: u64, now: u64, span: u64) -> bool {
    now > t + span
}

/// Recent shares without those too old for the rate.
pub open spec fn fresh_shares(v: Seq<(u64, u64)>, now: u64) -> Seq<(u64, u64)>
    decreases v.len(),
{
    if v.len() > 0 && older_than(v[0].0, now, WORKER_RATE_S) {
        fresh_shares(v.drop_first(), now)
    } else {
        v
    }
}

fn drop_old(recent: &mut VecDeque<(u64, u64)>, now: u64)
    ensures
        final(recent)@ == fresh_shares(old(recent)@, now),
{
    let ghost start = recent@;
    while recent.len() > 0
        invariant
            fresh_shares(recent@, now) == fresh_shares(start, now),
        ensures
            recent@ == fresh_shares(start, now),
        decreases recent@.len(),
    {
        let (t, _) = recent[0];
        if now.saturating_sub(t) <= WORKER_RATE_S {
            break;
        }
        let ghost now_v = recent@;
        let _ = recent.pop_front();
        assert(recent@ =~= now_v.drop_first());
    }
}

/// Where a worker is, or the number of workers.
pub open spec fn worker_index(v: Seq<WorkerView>, identity: Seq<char>, worker: Seq<char>) -> nat
    decreases v.len(),
{
    if v.len() == 0 || (v[0].identity == identity && v[0].worker == worker) {
        0
    } else {
        1 + worker_index(v.drop_first(), identity, worker)
    }
}

fn find_worker(v: &Vec<WorkerStat>, identity: &str, worker: &str) -> (i: usize)
    ensures
        i == worker_index(workers_view(v@), identity@, worker@),
        i <= v@.len(),
{
    let mut i: usize = 0;
    let ghost w = workers_view(v@);
    assert(w.skip(0) =~= w);
    while i < v.len() && !(text_eq(v[i].identity.as_str(), identity) && text_eq(
        v[i].worker.as_str(),
        worker,
    ))
        invariant
            i <= v@.len(),
            w == workers_view(v@),
            worker_index(w, identity@, worker@) == i + worker_index(
                w.skip(i as int),
                identity@,
                worker@,
            ),
        decreases v@.len() - i,
    {
        assert(w.skip(i as int).drop_first() =~= w.skip(i + 1));
        i = i + 1;
    }
    i
}

/// A worker after one more share.
pub open spec fn worker_plus(w: WorkerView, gateway: Seq<char>, work: u64, ts: u64) -> WorkerView {
    WorkerView {
        gateway,
        accepted: (w.accepted + 1) as u64,
        work: (w.work + work) as u64,
        last_share_ts: ts,
        recent: fresh_shares(w.recent.push((ts, work)), ts),
        ..w
    }
}

/// A worker without shares.
pub open spec fn new_worker(identity: Seq<char>, worker: Seq<char>) -> WorkerView {
    WorkerView {
        identity,
        worker,
        gateway: Seq::empty(),
        accepted: 0,
        work: 0,
        last_share_ts: 0,
        recent: Seq::empty(),
    }
}

/// The workers after a share of one of them.
pub open spec fn workers_plus(
    v: Seq<WorkerView>,
    identity: Seq<char>,
    worker: Seq<char>,
    gateway: Seq<char>,
    work: u64,
    ts: u64,
) -> Seq<WorkerView> {
    let i = worker_index(v, identity, worker) as int;
    if i < v.len() {
        v.update(i, worker_plus(v[i], gateway, work, ts))
    } else {
        v.push(worker_plus(new_worker(identity, worker), gateway, work, ts))
    }
}

/// Records an accepted share against its worker.
pub fn credit_worker(
    workers: &mut Vec<WorkerStat>,
    identity: &str,
    worker: &str,
    gateway: &str,
    work: u64,
    ts: u64,
)
    requires
        forall|i: int|
            0 <= i < old(workers)@.len() ==> (#[trigger] old(workers)@[i]).accepted < u64::MAX
                && old(workers)@[i].work + work <= u64::MAX,
    ensures
        workers_view(final(workers)@) == workers_plus(
            workers_view(old(workers)@),
            identity@,
            worker@,
            gateway@,
            work,
            ts,
        ),
{
    let ghost v = workers_view(workers@);
    let i: usize = find_worker(workers, identity, worker);
    if i == workers.len() {
        workers.push(
            WorkerStat {
                identity: identity.to_owned(),
                worker: worker.to_owned(),
                gateway: String::new(),
                accepted: 0,
                work: 0,
                last_share_ts: 0,
                recent: VecDeque::new(),
            },
        );
        assert(workers@[i as int]@ =~= new_worker(identity@, worker@));
    }
    let ghost made = workers@;
    let mut e: WorkerStat = workers.remove(i);
    e.gateway = gateway.to_owned();
    e.accepted = e.accepted + 1;
    e.work = e.work + work;
    e.last_share_ts = ts;
    e.recent.push_back((ts, work));
    drop_old(&mut e.recent, ts);
    let ghost done = e@;
    workers.insert(i, e);
    proof {
        assert(done =~= worker_plus(made[i as int]@, gateway@, work, ts));
        assert(workers_view(workers@) =~= workers_plus(v, identity@, worker@, gateway@, work, ts));
    }
}

/// The workers that are not silent for too long, with only fresh shares for their rate.
pub open spec fn live_workers(v: Seq<WorkerView>, ts: u64) -> Seq<WorkerView>
    decreases v.len(),
{
    if v.len() == 0 {
        Seq::empty()
    } else {
        let before = live_workers(v.drop_last(), ts);
        let w = v.last();
        if older_than(w.last_share_ts, ts, WORKER_EXPIRE_S) {
            before
        } else {
            before.push(WorkerView { recent: fresh_shares(w.recent, ts), ..w })
        }
    }
}

/// Drops workers that have been silent for too long, and old shares of the others.
pub fn expire_workers(workers: &mut Vec<WorkerStat>, ts: u64)
    ensures
        workers_view(final(workers)@) == live_workers(workers_view(old(workers)@), ts),
{
    let ghost v = workers_view(workers@);
    let mut kept: Vec<WorkerStat> = Vec::new();
    let mut done: Ghost<int> = Ghost(0int);
    assert(v.take(0) =~= Seq::empty());
    assert(v.skip(0) =~= v);
    assert(workers_view(kept@) =~= Seq::empty());
    while workers.len() > 0
        invariant
            0 <= done@ <= v.len(),
            workers_view(workers@) == v.skip(done@),
            workers_view(kept@) == live_workers(v.take(done@), ts),
        decreases workers@.len(),
    {
        let ghost now = workers@;
        let ghost before = workers_view(kept@);
        let mut e: WorkerStat = workers.remove(0);
        let ghost was = e@;
        proof {
            assert(workers_view(now).len() == v.len() - done@);
            assert(was == workers_view(now)[0]);
            assert(was == v[done@]);
            assert(v.take(done@ + 1).drop_last() =~= v.take(done@));
            assert(v.take(done@ + 1).last() == was);
            assert forall|j: int| 0 <= j < workers@.len() implies workers_view(workers@)[j]
                == v.skip(done@ + 1)[j] by {
                assert(workers@[j] == now[j + 1]);
                assert(workers_view(now)[j + 1] == v.skip(done@)[j + 1]);
            }
            assert(workers_view(workers@) =~= v.skip(done@ + 1));
        }
        if ts.saturating_sub(e.last_share_ts) <= WORKER_EXPIRE_S {
            drop_old(&mut e.recent, ts);
            let ghost is = e@;
            kept.push(e);
            proof {
                assert(is =~= (WorkerView { recent: fresh_shares(was.recent, ts), ..was }));
                assert(workers_view(kept@) =~= before.push(is));
            }
        }
        proof {
            done@ = done@ + 1;
        }
    }
    assert(v.take(v.len() as int) =~= v);
    *workers = kept;
}

/// What is known of a gateway's connection.
#[derive(Clone, Debug)]
pub struct ClientInfo {
    pub id: u64,
    pub remote: String,
    pub user_agent: String,
    pub generation: &'static str,
    /// Hex prefix of the gateway's long-term signing key.
    pub gateway: String,
    /// `stratum` for the pool's own public gateway, `datum` for any other.
    pub fee_path: String,
    pub connected_ts: u64,
    pub identity: String,
    pub accepted: u64,
    pub rejected: u64,
    pub work: u64,
    pub last_share_ts: u64,
    pub coinbasers: u64,
    pub block_candidates: u64,
    pub last_reject: Option<&'static str>,
    /// Shares whose coinbase paid the whole split.
    pub cb_split: u64,
    pub cb_partial: u64,
    pub cb_pool_only: u64,
    pub cb_foreign: u64,
}

impl Default for ClientInfo {
    fn default() -> (c: ClientInfo)
        ensures
            c.counts() == no_counts(),
            c.identity@ == Seq::<char>::empty(),
            c.last_share_ts == 0,
            c.coinbasers == 0,
            c.block_candidates == 0,
            c.last_reject.is_none(),
    {
        ClientInfo {
            id: 0,
            remote: String::new(),
            user_agent: String::new(),
            generation: "",
            gateway: String::new(),
            fee_path: String::new(),
            connected_ts: 0,
            identity: String::new(),
            accepted: 0,
            rejected: 0,
            work: 0,
            last_share_ts: 0,
            coinbasers: 0,
            block_candidates: 0,
            last_reject: None,
            cb_split: 0,
            cb_partial: 0,
            cb_pool_only: 0,
            cb_foreign: 0,
        }
    }
}

/// Counts of nothing.
pub open spec fn no_counts() -> ClientCounts {
    ClientCounts {
        accepted: 0,
        rejected: 0,
        work: 0,
        cb_split: 0,
        cb_partial: 0,
        cb_pool_only: 0,
        cb_foreign: 0,
    }
}

/// What is counted of a gateway's shares.
pub struct ClientCounts {
    pub accepted: int,
    pub rejected: int,
    pub work: int,
    pub cb_split: int,
    pub cb_partial: int,
    pub cb_pool_only: int,
    pub cb_foreign: int,
}

impl ClientCounts {
    /// The counts after an accepted share.
    pub open spec fn plus_share(self, work: u64, kind: CoinbaseKind) -> ClientCounts {
        let c = ClientCounts { accepted: self.accepted + 1, work: self.work + work, ..self };
        match kind {
            CoinbaseKind::Split => ClientCounts { cb_split: c.cb_split + 1, ..c },
            CoinbaseKind::Partial(_) => ClientCounts { cb_partial: c.cb_partial + 1, ..c },
            CoinbaseKind::PoolOnly => ClientCounts { cb_pool_only: c.cb_pool_only + 1, ..c },
            CoinbaseKind::Foreign => ClientCounts { cb_foreign: c.cb_foreign + 1, ..c },
        }
    }

    /// None of the counts is about to run over.
    pub open spec fn have_room(self, work: u64) -> bool {
        &&& self.accepted < u64::MAX
        &&& self.rejected < u64::MAX
        &&& self.work + work <= u64::MAX
        &&& self.cb_split < u64::MAX
        &&& self.cb_partial < u64::MAX
        &&& self.cb_pool_only < u64::MAX
        &&& self.cb_foreign < u64::MAX
    }
}

/// The name of a fee path: that of the pool's own public gateway, or of any other.
pub open spec fn fee_path_of(stratum: bool) -> Seq<char> {
    if stratum {
        "stratum"@
    } else {
        "datum"@
    }
}

/// Tells the name of a fee path.
pub fn fee_path(stratum: bool) -> (s: &'static str)
    ensures
        s@ == fee_path_of(stratum),
{
    if stratum {
        "stratum"
    } else {
        "datum"
    }
}

/// The name of a gateway: the first eight bytes of its signing key.
pub open spec fn gateway_of(sign_pk: Seq<u8>) -> Seq<char> {
    hex_of(sign_pk.subrange(0, 8))
}

/// Names a gateway by its signing key.
pub fn gateway_name(sign_pk: &[u8; 32]) -> (s: String)
    ensures
        s@ == gateway_of(sign_pk@),
{
    let head: Vec<u8> = slice_of(sign_pk.as_slice(), 0, 8);
    to_hex(head.as_slice())
}

impl ClientInfo {
    /// A gateway that has just said who it is: nothing is counted of it yet.
    pub fn connected(
        id: u64,
        remote: &str,
        user_agent: &str,
        generation: &'static str,
        gateway: &str,
        house: bool,
        ts: u64,
    ) -> (c: ClientInfo)
        ensures
            c.id == id,
            c.remote@ == remote@,
            c.user_agent@ == user_agent@,
            c.generation == generation,
            c.gateway@ == gateway@,
            c.fee_path@ == fee_path_of(house),
            c.connected_ts == ts,
            c.identity@ == Seq::<char>::empty(),
            c.counts() == no_counts(),
            c.last_share_ts == 0,
            c.coinbasers == 0,
            c.block_candidates == 0,
            c.last_reject.is_none(),
    {
        let mut c = ClientInfo::default();
        c.id = id;
        c.remote = remote.to_owned();
        c.user_agent = user_agent.to_owned();
        c.generation = generation;
        c.gateway = gateway.to_owned();
        c.fee_path = fee_path(house).to_owned();
        c.connected_ts = ts;
        c
    }

    /// What is counted of the gateway's shares.
    pub open spec fn counts(&self) -> ClientCounts {
        ClientCounts {
            accepted: self.accepted as int,
            rejected: self.rejected as int,
            work: self.work as int,
            cb_split: self.cb_split as int,
            cb_partial: self.cb_partial as int,
            cb_pool_only: self.cb_pool_only as int,
            cb_foreign: self.cb_foreign as int,
        }
    }

    /// Nothing but what is counted of shares differs.
    pub open spec fn same_connection(&self, other: ClientInfo) -> bool {
        &&& self.id == other.id
        &&& self.remote == other.remote
        &&& self.user_agent == other.user_agent
        &&& self.generation == other.generation
        &&& self.gateway == other.gateway
        &&& self.fee_path == other.fee_path
        &&& self.connected_ts == other.connected_ts
        &&& self.coinbasers == other.coinbasers
        &&& self.block_candidates == other.block_candidates
    }

    /// Counts an accepted share.
    pub fn note_share(&mut self, identity: &str, work: u64, kind: &CoinbaseKind, ts: u64)
        requires
            old(self).counts().have_room(work),
        ensures
            final(self).counts() == old(self).counts().plus_share(work, *kind),
            final(self).identity@ == identity@,
            final(self).last_share_ts == ts,
            final(self).last_reject == old(self).last_reject,
            final(self).same_connection(*old(self)),
    {
        self.accepted = self.accepted + 1;
        self.work = self.work + work;
        self.last_share_ts = ts;
        self.identity = identity.to_owned();
        match kind {
            CoinbaseKind::Split => {
                self.cb_split = self.cb_split + 1;
            },
            CoinbaseKind::Partial(_) => {
                self.cb_partial = self.cb_partial + 1;
            },
            CoinbaseKind::PoolOnly => {
                self.cb_pool_only = self.cb_pool_only + 1;
            },
            CoinbaseKind::Foreign => {
                self.cb_foreign = self.cb_foreign + 1;
            },
        }
    }

    /// Counts a rejected share.
    pub fn note_reject(&mut self, code: u16)
        requires
            old(self).rejected < u64::MAX,
        ensures
            final(self).counts() == (ClientCounts {
                rejected: old(self).counts().rejected + 1,
                ..old(self).counts()
            }),
            final(self).last_reject.is_some(),
            final(self).last_reject.unwrap()@ == reject_name_of(code),
            final(self).identity == old(self).identity,
            final(self).last_share_ts == old(self).last_share_ts,
            final(self).same_connection(*old(self)),
    {
        self.rejected = self.rejected + 1;
        self.last_reject = Some(reject_name(code));
    }
}

/// What the pool counts since it started.
#[derive(Clone, Copy, Debug, PartialEq, Eq)]
pub struct Totals {
    pub connections: u64,
    pub accepted: u64,
    pub rejected: u64,
    pub work: u64,
    pub coinbasers: u64,
    pub block_candidates: u64,
    pub blocks_submitted: u64,
    pub handshake_failures: u64,
    /// Connections turned away at the limits.
    pub connections_refused: u64,
}

impl Default for Totals {
    fn default() -> (t: Totals)
        ensures
            t == (Totals {
                connections: 0,
                accepted: 0,
                rejected: 0,
                work: 0,
                coinbasers: 0,
                block_candidates: 0,
                blocks_submitted: 0,
                handshake_failures: 0,
                connections_refused: 0,
            }),
    {
        Totals {
            connections: 0,
            accepted: 0,
            rejected: 0,
            work: 0,
            coinbasers: 0,
            block_candidates: 0,
            blocks_submitted: 0,
            handshake_failures: 0,
            connections_refused: 0,
        }
    }
}

impl Totals {
    /// Adds to one of the counts, which starts over past its end.
    pub fn add(c: &mut u64, n: u64)
        ensures
            *final(c) as int == (*old(c) + n) % 0x1_0000_0000_0000_0000,
    {
        *c = c.wrapping_add(n);
    }
}

/// Of shares that came in order, exactly those of the last ten minutes count toward the rate.
pub proof fn lemma_fresh_shares(v: Seq<(u64, u64)>, now: u64)
    requires
        forall|i: int, j: int|
            0 <= i <= j < v.len() ==> (#[trigger] v[i]).0 <= (#[trigger] v[j]).0,
    ensures
        fresh_shares(v, now) == v.filter(|x: (u64, u64)| now - x.0 <= 600),
    decreases v.len(),
{
    let f = |x: (u64, u64)| now - x.0 <= 600;
    if v.len() > 0 && older_than(v[0].0, now, WORKER_RATE_S) {
        let t = v.drop_first();
        assert forall|i: int, j: int| 0 <= i <= j < t.len() implies (#[trigger] t[i]).0 <= (
        #[trigger] t[j]).0 by {
            assert(t[i] == v[i + 1] && t[j] == v[j + 1]);
        }
        lemma_fresh_shares(t, now);
        assert(v =~= seq![v[0]] + t);
        Seq::filter_distributes_over_add(seq![v[0]], t, f);
        assert(seq![v[0]].filter(f) =~= Seq::empty()) by {
            reveal(Seq::filter);
            let none = Seq::<(u64, u64)>::empty();
            assert(none.filter(f) =~= none);
            assert(seq![v[0]].drop_last() =~= none);
        }
        assert(v.filter(f) =~= t.filter(f));
    } else {
        assert forall|i: int| 0 <= i < v.len() implies f(#[trigger] v[i]) by {
            assert(v[0].0 <= v[i].0);
        }
        lemma_all_pass(v, f);
    }
}

proof fn lemma_all_pass(v: Seq<(u64, u64)>, f: spec_fn((u64, u64)) -> bool)
    requires
        forall|i: int| 0 <= i < v.len() ==> f(#[trigger] v[i]),
    ensures
        v.filter(f) == v,
    decreases v.len(),
{
    reveal(Seq::filter);
    if v.len() > 0 {
        let r = v.drop_last();
        assert forall|i: int| 0 <= i < r.len() implies f(#[trigger] r[i]) by {
            assert(r[i] == v[i]);
        }
        lemma_all_pass(r, f);
        assert(v[v.len() - 1] == v.last());
        assert(v.filter(f) =~= v);
    } else {
        assert(v.filter(f) =~= v);
    }
}

proof fn lemma_worker_index(v: Seq<WorkerView>, identity: Seq<char>, worker: Seq<char>)
    ensures
        ({
            let i = worker_index(v, identity, worker) as int;
            &&& i <= v.len()
            &&& i < v.len() ==> v[i].identity == identity && v[i].worker == worker
            &&& forall|k: int|
                0 <= k < i ==> !((#[trigger] v[k]).identity == identity && v[k].worker == worker)
        }),
    decreases v.len(),
{
    if v.len() > 0 && !(v[0].identity == identity && v[0].worker == worker) {
        let t = v.drop_first();
        lemma_worker_index(t, identity, worker);
        let i = worker_index(v, identity, worker) as int;
        assert forall|k: int| 0 <= k < i implies !((#[trigger] v[k]).identity == identity
            && v[k].worker == worker) by {
            if k > 0 {
                assert(t[k - 1] == v[k]);
            }
        }
    }
}

/// A share counts for its worker and for no other: one more accepted, its work added, its time and
/// gateway noted. A worker that is new is listed last.
pub proof fn lemma_share_counts_for_its_worker(
    v: Seq<WorkerView>,
    identity: Seq<char>,
    worker: Seq<char>,
    gateway: Seq<char>,
    work: u64,
    ts: u64,
    k: int,
)
    requires
        0 <= k < v.len(),
        forall|i: int|
            0 <= i < v.len() ==> (#[trigger] v[i]).accepted < u64::MAX && v[i].work + work
                <= u64::MAX,
        forall|i: int, j: int|
            0 <= i < j < v.len() ==> (#[trigger] v[i]).identity != (#[trigger] v[j]).identity
                || v[i].worker != v[j].worker,
    ensures
        ({
            let n = workers_plus(v, identity, worker, gateway, work, ts);
            let mine = v[k].identity == identity && v[k].worker == worker;
            &&& n[k].identity == v[k].identity && n[k].worker == v[k].worker
            &&& !mine ==> n[k] == v[k]
            &&& mine ==> {
                &&& n.len() == v.len()
                &&& n[k].accepted == v[k].accepted + 1
                &&& n[k].work == v[k].work + work
                &&& n[k].last_share_ts == ts
                &&& n[k].gateway == gateway
                &&& n[k].recent == fresh_shares(v[k].recent.push((ts, work)), ts)
            }
            &&& (forall|i: int|
                0 <= i < v.len() ==> (#[trigger] v[i]).identity != identity || v[i].worker
                    != worker) ==> {
                let x = n[v.len() as int];
                &&& n.len() == v.len() + 1
                &&& x.identity == identity && x.worker == worker && x.gateway == gateway
                &&& x.accepted == 1 && x.work == work && x.last_share_ts == ts
            }
        }),
{
    lemma_worker_index(v, identity, worker);
    let i = worker_index(v, identity, worker) as int;
    if i < v.len() {
        assert(v[i].identity == identity);
        if v[k].identity == identity && v[k].worker == worker && i != k {
            if i < k {
                assert(v[i].identity != v[k].identity || v[i].worker != v[k].worker);
            } else {
                assert(v[k].identity != v[i].identity || v[k].worker != v[i].worker);
            }
        }
    }
}

/// A worker stays listed until it is silent for more than an hour; those who stay keep their order
/// and all that is counted of them.
pub proof fn lemma_live_workers(v: Seq<WorkerView>, ts: u64)
    ensures
        live_workers(v, ts) == v.filter(|w: WorkerView| ts - w.last_share_ts <= 3600).map_values(
            |w: WorkerView| WorkerView { recent: fresh_shares(w.recent, ts), ..w },
        ),
    decreases v.len(),
{
    reveal(Seq::filter);
    let f = |w: WorkerView| ts - w.last_share_ts <= 3600;
    let g = |w: WorkerView| WorkerView { recent: fresh_shares(w.recent, ts), ..w };
    if v.len() > 0 {
        lemma_live_workers(v.drop_last(), ts);
    }
    assert(live_workers(v, ts) =~= v.filter(f).map_values(g));
}

/// Every accepted share is counted once, with its work, and once by how its coinbase paid.
pub proof fn lemma_counts_of_shares(c: ClientCounts, work: u64, kind: CoinbaseKind)
    ensures
        ({
            let n = c.plus_share(work, kind);
            &&& n.accepted == c.accepted + 1 && n.work == c.work + work && n.rejected == c.rejected
            &&& n.cb_split + n.cb_partial + n.cb_pool_only + n.cb_foreign == c.cb_split
                + c.cb_partial + c.cb_pool_only + c.cb_foreign + 1
            &&& n.cb_split >= c.cb_split && n.cb_partial >= c.cb_partial
            &&& n.cb_pool_only >= c.cb_pool_only && n.cb_foreign >= c.cb_foreign
            &&& kind is Split ==> n.cb_split > c.cb_split
            &&& kind is Partial ==> n.cb_partial > c.cb_partial
            &&& kind is PoolOnly ==> n.cb_pool_only > c.cb_pool_only
            &&& kind is Foreign ==> n.cb_foreign > c.cb_foreign
        }),
{
}

/// A place is had below both limits. Taking one counts one more connection for the address and in
/// all, giving one back one less, and other addresses keep theirs.
pub proof fn lemma_places_of_addresses(
    c: ConnectionsView,
    ip: IpAddr,
    other: IpAddr,
    max_total: u32,
    max_per_ip: u32,
)
    ensures
        c.has_place(ip, max_total, max_per_ip) <==> c.total < max_total && c.of(ip) < max_per_ip,
        c.has_place(ip, max_total, max_per_ip) ==> c.taken(ip).of(ip) == c.of(ip) + 1 && c.taken(
            ip,
        ).total == c.total + 1,
        c.of(ip) > 0 && c.total > 0 ==> c.given_back(ip).of(ip) == c.of(ip) - 1 && c.given_back(
            ip,
        ).total == c.total - 1,
        c.of(ip) == 0 ==> c.given_back(ip) == c,
        other != ip ==> c.taken(ip).of(other) == c.of(other),
        other != ip ==> c.given_back(ip).of(other) == c.of(other),
{
}

/// A gateway is named by the first eight bytes of its key: those with the same eight, and no
/// others, have the same name.
pub proof fn lemma_gateway_names(a: Seq<u8>, b: Seq<u8>)
    requires
        a.len() == 32,
        b.len() == 32,
    ensures
        gateway_of(a).len() == 16,
        gateway_of(a) == gateway_of(b) <==> a.take(8) == b.take(8),
        gateway_of(a) == hex_of(a.take(8)),
{
    assert(a.subrange(0, 8) =~= a.take(8));
    assert(b.subrange(0, 8) =~= b.take(8));
    if gateway_of(a) == gateway_of(b) {
        lemma_hex_pinned(a.take(8), b.take(8));
    }
}

/// What is not counted of shares is the same before and after a share.
pub proof fn lemma_same_connection(a: ClientInfo, b: ClientInfo)
    requires
        a.same_connection(b),
    ensures
        a.id == b.id && a.remote == b.remote && a.user_agent == b.user_agent,
        a.generation == b.generation && a.gateway == b.gateway && a.fee_path == b.fee_path,
        a.connected_ts == b.connected_ts && a.coinbasers == b.coinbasers,
        a.block_candidates == b.block_candidates,
{
}

} // verus!
