//! Runtime controls: live fees, fees of single identities, and bans.
//!
//! The pool's control plane writes them to a file. A file that fails validation leaves the
//! previous controls in force.

use crate::address::{canonical_identity, canonical_of, identity_in, identity_of};
use crate::ip::{net_of, parse_net, IpAddr};
use crate::names::NameMap;
use crate::split::{ParamsView, SplitParams, WHOLE_BPS};
use crate::text::{decimal, decimal_of, texts_view};
use vstd::arithmetic::power2::pow2;
use vstd::prelude::*;
use vstd::string::StringExecFns;

verus! {

/// The controls as the file holds them.
#[derive(Clone, Debug, PartialEq, Eq)]
pub struct ControlsFile {
    pub fee_bps: Option<u32>,
    pub stratum_fee_bps: Option<u32>,
    pub fee_overrides: NameMap<u32>,
    pub banned_identities: Vec<String>,
    pub banned_ips: Vec<String>,
    pub updated: Option<String>,
}

/// Validated controls.
#[derive(Clone, Debug, PartialEq, Eq)]
pub struct Controls {
    pub fee_bps: Option<u32>,
    pub stratum_fee_bps: Option<u32>,
    /// Fee of an identity in its canonical form.
    pub fee_overrides: NameMap<u32>,
    pub banned_identities: NameMap<()>,
    /// Network address and prefix bits.
    pub banned_nets: Vec<(IpAddr, u8)>,
    pub updated: Option<String>,
}

/// Why a file is not taken.
#[derive(Clone, Debug, PartialEq, Eq)]
pub enum ControlsError {
    /// A fee is over the whole.
    FeeTooHigh(u32),
    /// The fee of an identity is over the whole.
    OverrideTooHigh(String, u32),
    /// An entry is neither an address nor a network.
    BadNet(String),
}

/// What a [`ControlsError`] says.
pub enum ControlsErrorView {
    FeeTooHigh(u32),
    OverrideTooHigh(Seq<char>, u32),
    BadNet(Seq<char>),
}

impl View for ControlsError {
    type V = ControlsErrorView;

    open spec fn view(&self) -> ControlsErrorView {
        match self {
            ControlsError::FeeTooHigh(b) => ControlsErrorView::FeeTooHigh(*b),
            ControlsError::OverrideTooHigh(s, b) => ControlsErrorView::OverrideTooHigh(s@, *b),
            ControlsError::BadNet(s) => ControlsErrorView::BadNet(s@),
        }
    }
}

/// The identity that an entry of the file is about.
pub open spec fn entry_identity(s: Seq<char>) -> Seq<char> {
    canonical_of(identity_in(s))
}

/// The first entry with a fee over the whole, or the number of entries.
pub open spec fn first_too_high(rows: Seq<(Seq<char>, u32)>) -> nat
    decreases rows.len(),
{
    if rows.len() == 0 || rows[0].1 > WHOLE_BPS {
        0
    } else {
        1 + first_too_high(rows.drop_first())
    }
}

/// Fees by canonical identity; of two entries for one the later in name order holds.
pub open spec fn overrides_of(rows: Seq<(Seq<char>, u32)>) -> Map<Seq<char>, u32>
    decreases rows.len(),
{
    if rows.len() == 0 {
        Map::empty()
    } else {
        overrides_of(rows.drop_last()).insert(entry_identity(rows.last().0), rows.last().1)
    }
}

/// The canonical identities of a list.
pub open spec fn banned_of(v: Seq<Seq<char>>) -> Map<Seq<char>, ()>
    decreases v.len(),
{
    if v.len() == 0 {
        Map::empty()
    } else {
        banned_of(v.drop_last()).insert(entry_identity(v.last()), ())
    }
}

/// Every entry of a list is banned, in its canonical form.
pub proof fn lemma_banned_of(v: Seq<Seq<char>>, i: int)
    requires
        0 <= i < v.len(),
    ensures
        banned_of(v).contains_key(entry_identity(v[i])),
    decreases v.len(),
{
    if i < v.len() - 1 {
        lemma_banned_of(v.drop_last(), i);
        assert(v.drop_last()[i] == v[i]);
    }
}

/// The first entry that is not a network, or the number of entries.
pub open spec fn first_bad_net(v: Seq<Seq<char>>) -> nat
    decreases v.len(),
{
    if v.len() == 0 || net_of(v[0]).is_none() {
        0
    } else {
        1 + first_bad_net(v.drop_first())
    }
}

/// The networks of a list.
pub open spec fn nets_of(v: Seq<Seq<char>>) -> Seq<(IpAddr, u8)> {
    Seq::new(v.len(), |i: int| net_of(v[i]).unwrap())
}

/// Whether a fee is over the whole.
pub open spec fn too_high(fee: Option<u32>) -> bool {
    fee matches Some(b) && b > WHOLE_BPS
}

/// Why a file is not taken, or `None` for one that is.
pub open spec fn file_error(f: ControlsFile) -> Option<ControlsErrorView> {
    let rows = f.fee_overrides.rows();
    let nets = texts_view(f.banned_ips@);
    if too_high(f.fee_bps) {
        Some(ControlsErrorView::FeeTooHigh(f.fee_bps.unwrap()))
    } else if too_high(f.stratum_fee_bps) {
        Some(ControlsErrorView::FeeTooHigh(f.stratum_fee_bps.unwrap()))
    } else if first_too_high(rows) < rows.len() {
        let r = rows[first_too_high(rows) as int];
        Some(ControlsErrorView::OverrideTooHigh(r.0, r.1))
    } else if first_bad_net(nets) < nets.len() {
        Some(ControlsErrorView::BadNet(nets[first_bad_net(nets) as int]))
    } else {
        None
    }
}

/// An optional text as a mathematical value.
pub open spec fn opt_text(s: Option<String>) -> Option<Seq<char>> {
    match s {
        Some(t) => Some(t@),
        None => None,
    }
}

impl Controls {
    /// No fee, no override, no ban.
    pub open spec fn sets_nothing(&self) -> bool {
        &&& self.fee_bps.is_none()
        &&& self.stratum_fee_bps.is_none()
        &&& self.fee_overrides@ == Map::<Seq<char>, u32>::empty()
        &&& self.banned_identities@ == Map::<Seq<char>, ()>::empty()
        &&& self.banned_nets@.len() == 0
        &&& self.updated.is_none()
    }
}

impl Default for Controls {
    fn default() -> (c: Controls)
        ensures
            c.wf(),
            c.sets_nothing(),
    {
        Controls {
            fee_bps: None,
            stratum_fee_bps: None,
            fee_overrides: NameMap::new(),
            banned_identities: NameMap::new(),
            banned_nets: Vec::new(),
            updated: None,
        }
    }
}

/// Whether an address is in a network: of the same kind, with the same leading bits.
pub open spec fn in_network(ip: IpAddr, net: IpAddr, bits: u8) -> bool {
    match (ip, net) {
        (IpAddr::V4(a), IpAddr::V4(n)) => a as nat / pow2((32 - bits) as nat) == n as nat / pow2(
            (32 - bits) as nat,
        ),
        (IpAddr::V6(a), IpAddr::V6(n)) => a as nat / pow2((128 - bits) as nat) == n as nat / pow2(
            (128 - bits) as nat,
        ),
        _ => false,
    }
}

/// Tells whether an address is in a network.
pub fn in_net(ip: IpAddr, net: IpAddr, bits: u8) -> (r: bool)
    requires
        bits <= net.spec_bits(),
    ensures
        r == in_network(ip, net, bits),
{
    match (ip, net) {
        (IpAddr::V4(a), IpAddr::V4(n)) => {
            if bits == 0 {
                proof {
                    vstd::arithmetic::power2::lemma2_to64();
                    vstd::arithmetic::power2::lemma2_to64_rest();
                    assert(a as nat / 0x1_0000_0000 == 0);
                    assert(n as nat / 0x1_0000_0000 == 0);
                }
                return true;
            }
            let s: u32 = 32 - bits as u32;
            proof {
                vstd::bits::lemma_u32_shr_is_div(a, s);
                vstd::bits::lemma_u32_shr_is_div(n, s);
            }
            (a >> s) == (n >> s)
        },
        (IpAddr::V6(a), IpAddr::V6(n)) => {
            if bits == 0 {
                proof {
                    vstd::arithmetic::power2::lemma2_to64();
                    vstd::arithmetic::power2::lemma2_to64_rest();
                    vstd::arithmetic::power2::lemma_pow2_adds(64, 64);
                    let p = pow2(128);
                    assert(p == 0x1_0000_0000_0000_0000 * 0x1_0000_0000_0000_0000);
                    vstd::arithmetic::div_mod::lemma_basic_div(a as int, p as int);
                    vstd::arithmetic::div_mod::lemma_basic_div(n as int, p as int);
                }
                return true;
            }
            let s: u128 = 128 - bits as u128;
            proof {
                vstd::bits::lemma_u128_shr_is_div(a, s);
                vstd::bits::lemma_u128_shr_is_div(n, s);
            }
            (a >> s) == (n >> s)
        },
        _ => false,
    }
}

impl Controls {
    /// Names in order, fees within the whole, prefixes within the address.
    pub open spec fn wf(&self) -> bool {
        &&& self.fee_overrides.wf()
        &&& self.banned_identities.wf()
        &&& !too_high(self.fee_bps)
        &&& !too_high(self.stratum_fee_bps)
        &&& forall|k: Seq<char>|
            self.fee_overrides@.contains_key(k) ==> #[trigger] self.fee_overrides@[k] <= WHOLE_BPS
        &&& forall|i: int|
            0 <= i < self.banned_nets@.len() ==> (#[trigger] self.banned_nets@[i]).1
                <= self.banned_nets@[i].0.spec_bits()
    }

    /// Validates what a file holds.
    pub fn from_file(f: &ControlsFile) -> (r: Result<Controls, ControlsError>)
        requires
            f.fee_overrides.wf(),
        ensures
            match file_error(*f) {
                Some(e) => r matches Err(x) && x@ == e,
                None => r matches Ok(c) && c.wf() && c.fee_bps == f.fee_bps && c.stratum_fee_bps
                    == f.stratum_fee_bps && opt_text(c.updated) == opt_text(f.updated)
                    && c.fee_overrides@ == overrides_of(f.fee_overrides.rows())
                    && c.banned_identities@ == banned_of(texts_view(f.banned_identities@))
                    && c.banned_nets@ == nets_of(texts_view(f.banned_ips@)),
            },
    {
        if let Some(b) = f.fee_bps {
            if b > WHOLE_BPS {
                return Err(ControlsError::FeeTooHigh(b));
            }
        }
        if let Some(b) = f.stratum_fee_bps {
            if b > WHOLE_BPS {
                return Err(ControlsError::FeeTooHigh(b));
            }
        }
        let mut fee_overrides: NameMap<u32> = NameMap::new();
        let ghost rows = f.fee_overrides.rows();
        let n: usize = f.fee_overrides.len();
        let mut i: usize = 0;
        assert(rows.take(0) =~= Seq::empty());
        assert(rows.skip(0) =~= rows);
        while i < n
            invariant
                i <= n == rows.len(),
                rows == f.fee_overrides.rows(),
                fee_overrides.wf(),
                fee_overrides@ == overrides_of(rows.take(i as int)),
                first_too_high(rows) == i + first_too_high(rows.skip(i as int)),
                forall|k: Seq<char>|
                    fee_overrides@.contains_key(k) ==> #[trigger] fee_overrides@[k] <= WHOLE_BPS,
                !too_high(f.fee_bps),
                !too_high(f.stratum_fee_bps),
            decreases n - i,
        {
            proof {
                assert(rows.take(i + 1).drop_last() =~= rows.take(i as int));
                assert(rows.skip(i as int).drop_first() =~= rows.skip(i + 1));
            }
            let bps: u32 = f.fee_overrides.value_at(i);
            if bps > WHOLE_BPS {
                return Err(
                    ControlsError::OverrideTooHigh(f.fee_overrides.name_at(i).to_owned(), bps),
                );
            }
            let id: String = canonical_identity(identity_of(f.fee_overrides.name_at(i)).as_str());
            fee_overrides.insert(id.as_str(), bps);
            i = i + 1;
        }
        assert(rows.take(n as int) =~= rows);
        let mut banned_identities: NameMap<()> = NameMap::new();
        let ghost ids = texts_view(f.banned_identities@);
        let mut i: usize = 0;
        assert(ids.take(0) =~= Seq::empty());
        while i < f.banned_identities.len()
            invariant
                i <= f.banned_identities@.len(),
                ids == texts_view(f.banned_identities@),
                banned_identities.wf(),
                banned_identities@ == banned_of(ids.take(i as int)),
            decreases f.banned_identities@.len() - i,
        {
            assert(ids.take(i + 1).drop_last() =~= ids.take(i as int));
            let id: String = canonical_identity(
                identity_of(f.banned_identities[i].as_str()).as_str(),
            );
            banned_identities.insert(id.as_str(), ());
            i = i + 1;
        }
        assert(ids.take(ids.len() as int) =~= ids);
        let mut banned_nets: Vec<(IpAddr, u8)> = Vec::new();
        let ghost nets = texts_view(f.banned_ips@);
        let mut i: usize = 0;
        assert(nets.skip(0) =~= nets);
        while i < f.banned_ips.len()
            invariant
                i <= f.banned_ips@.len(),
                nets == texts_view(f.banned_ips@),
                banned_nets@.len() == i,
                first_bad_net(nets) == i + first_bad_net(nets.skip(i as int)),
                forall|j: int|
                    0 <= j < i ==> net_of(nets[j]) == Some(#[trigger] banned_nets@[j])
                        && banned_nets@[j].1 <= banned_nets@[j].0.spec_bits(),
                !too_high(f.fee_bps),
                !too_high(f.stratum_fee_bps),
                rows == f.fee_overrides.rows(),
                first_too_high(rows) == rows.len(),
            decreases f.banned_ips@.len() - i,
        {
            assert(nets.skip(i as int).drop_first() =~= nets.skip(i + 1));
            match parse_net(f.banned_ips[i].as_str()) {
                Some(net) => {
                    banned_nets.push(net);
                },
                None => {
                    return Err(ControlsError::BadNet(f.banned_ips[i].clone()));
                },
            }
            i = i + 1;
        }
        assert(banned_nets@ =~= nets_of(nets));
        Ok(
            Controls {
                fee_bps: f.fee_bps,
                stratum_fee_bps: f.stratum_fee_bps,
                fee_overrides,
                banned_identities,
                banned_nets,
                updated: match &f.updated {
                    Some(s) => Some(s.clone()),
                    None => None,
                },
            },
        )
    }

    /// Whether an address is in a banned network.
    pub fn ip_banned(&self, ip: IpAddr) -> (r: bool)
        requires
            self.wf(),
        ensures
            r == exists|i: int|
                0 <= i < self.banned_nets@.len() && in_network(
                    ip,
                    (#[trigger] self.banned_nets@[i]).0,
                    self.banned_nets@[i].1,
                ),
    {
        let mut i: usize = 0;
        while i < self.banned_nets.len()
            invariant
                i <= self.banned_nets@.len(),
                self.wf(),
                forall|j: int|
                    0 <= j < i ==> !in_network(
                        ip,
                        (#[trigger] self.banned_nets@[j]).0,
                        self.banned_nets@[j].1,
                    ),
            decreases self.banned_nets@.len() - i,
        {
            let (net, bits) = self.banned_nets[i];
            assert(self.banned_nets@[i as int].1 <= self.banned_nets@[i as int].0.spec_bits());
            if in_net(ip, net, bits) {
                return true;
            }
            i = i + 1;
        }
        false
    }

    /// Whether an identity, in its canonical form, is banned.
    pub fn identity_banned(&self, identity: &str) -> (r: bool)
        requires
            self.wf(),
        ensures
            r == self.banned_identities@.contains_key(identity@),
    {
        self.banned_identities.get(identity).is_some()
    }

    /// One line about what is loaded.
    pub fn summary(&self) -> (s: String)
        ensures
            s@ == summary_of(*self),
    {
        let mut s: String = "fee=".to_owned();
        s.append(fee_text(self.fee_bps).as_str());
        s.append(" stratum_fee=");
        s.append(fee_text(self.stratum_fee_bps).as_str());
        s.append(" overrides=");
        s.append(decimal(self.fee_overrides.len() as u64).as_str());
        s.append(" banned_identities=");
        s.append(decimal(self.banned_identities.len() as u64).as_str());
        s.append(" banned_nets=");
        s.append(decimal(self.banned_nets.len() as u64).as_str());
        if let Some(u) = &self.updated {
            s.append(" updated=");
            s.append(u.as_str());
        }
        assert(s@ =~= summary_of(*self));
        s
    }

    /// The split parameters in force: the configured ones with the live fees and the fees of
    /// single identities in their place.
    pub fn split_params(&self, base: &SplitParams) -> (p: SplitParams)
        requires
            self.wf(),
            base.wf(),
        ensures
            p.wf(),
            p@ == (ParamsView {
                fee_bps: match self.fee_bps {
                    Some(b) => b,
                    None => base.fee_bps,
                },
                stratum_fee_bps: match self.stratum_fee_bps {
                    Some(b) => b,
                    None => base.stratum_fee_bps,
                },
                fee_overrides: self.fee_overrides@,
                ..base@
            }),
    {
        SplitParams {
            fee_bps: match self.fee_bps {
                Some(b) => b,
                None => base.fee_bps,
            },
            stratum_fee_bps: match self.stratum_fee_bps {
                Some(b) => b,
                None => base.stratum_fee_bps,
            },
            min_payout: base.min_payout,
            max_outputs: base.max_outputs,
            output_budget_bytes: base.output_budget_bytes,
            max_payees: base.max_payees,
            fee_overrides: self.fee_overrides.duplicate(),
        }
    }
}

/// A fee as text: the number, or that the configured one holds.
pub open spec fn fee_text_of(fee: Option<u32>) -> Seq<char> {
    match fee {
        Some(b) => decimal_of(b as nat),
        None => "config"@,
    }
}

fn fee_text(fee: Option<u32>) -> (s: String)
    ensures
        s@ == fee_text_of(fee),
{
    match fee {
        Some(b) => decimal(b as u64),
        None => "config".to_owned(),
    }
}

/// The line about what is loaded.
pub open spec fn summary_of(c: Controls) -> Seq<char> {
    "fee="@ + fee_text_of(c.fee_bps) + " stratum_fee="@ + fee_text_of(c.stratum_fee_bps)
        + " overrides="@ + decimal_of(c.fee_overrides.rows().len()) + " banned_identities="@
        + decimal_of(c.banned_identities.rows().len()) + " banned_nets="@ + decimal_of(
        c.banned_nets@.len(),
    ) + match c.updated {
        Some(u) => " updated="@ + u@,
        None => Seq::empty(),
    }
}

/// The controls in force after a look at the file: those it holds; none once it is gone; and the
/// ones before where it cannot be used.
pub fn reload(
    current: Controls,
    had_file: bool,
    loaded: Result<Option<Controls>, ControlsError>,
) -> (r: Controls)
    requires
        current.wf(),
        loaded matches Ok(Some(c)) ==> c.wf(),
    ensures
        r.wf(),
        match loaded {
            Ok(Some(c)) => r == c,
            Ok(None) => if had_file {
                r.sets_nothing()
            } else {
                r == current
            },
            Err(_) => r == current,
        },
{
    match loaded {
        Ok(Some(c)) => c,
        Ok(None) => {
            if had_file {
                Controls::default()
            } else {
                current
            }
        },
        Err(_) => current,
    }
}

/// The fee of an identity is that of the last entry about it, and identities without an entry have
/// none of their own.
pub proof fn lemma_overrides(rows: Seq<(Seq<char>, u32)>, identity: Seq<char>)
    ensures
        overrides_of(rows).contains_key(identity) <==> exists|i: int|
            0 <= i < rows.len() && canonical_of(identity_in((#[trigger] rows[i]).0)) == identity,
        forall|i: int|
            0 <= i < rows.len() && canonical_of(identity_in((#[trigger] rows[i]).0)) == identity && (
            forall|j: int|
                i < j < rows.len() ==> canonical_of(identity_in((#[trigger] rows[j]).0)) != identity)
                ==> overrides_of(rows)[identity] == rows[i].1,
    decreases rows.len(),
{
    if rows.len() > 0 {
        let r = rows.drop_last();
        let n = rows.len() - 1;
        lemma_overrides(r, identity);
        assert(rows[n] == rows.last());
        assert forall|i: int| 0 <= i < r.len() implies (#[trigger] r[i]) == rows[i] by {}
        if exists|i: int|
            0 <= i < rows.len() && canonical_of(identity_in((#[trigger] rows[i]).0)) == identity {
            let i = choose|i: int|
                0 <= i < rows.len() && canonical_of(identity_in((#[trigger] rows[i]).0)) == identity;
            if i < n {
                assert(canonical_of(identity_in(r[i].0)) == identity);
            }
        }
        assert forall|i: int|
            0 <= i < rows.len() && canonical_of(identity_in((#[trigger] rows[i]).0)) == identity && (
            forall|j: int|
                i < j < rows.len() ==> canonical_of(identity_in((#[trigger] rows[j]).0))
                    != identity) implies overrides_of(rows)[identity] == rows[i].1 by {
            if i < n {
                assert(canonical_of(identity_in(rows[n].0)) != identity);
                assert(r[i] == rows[i]);
                assert forall|j: int| i < j < r.len() implies canonical_of(
                    identity_in((#[trigger] r[j]).0),
                ) != identity by {
                    assert(r[j] == rows[j]);
                }
            }
        }
    }
}

/// Banned are exactly the identities that the entries are about, in their canonical form.
pub proof fn lemma_who_is_banned(v: Seq<Seq<char>>, identity: Seq<char>)
    ensures
        banned_of(v).contains_key(identity) <==> exists|i: int|
            0 <= i < v.len() && canonical_of(identity_in(#[trigger] v[i])) == identity,
    decreases v.len(),
{
    if v.len() > 0 {
        let r = v.drop_last();
        let n = v.len() - 1;
        lemma_who_is_banned(r, identity);
        assert(v[n] == v.last());
        if exists|i: int| 0 <= i < v.len() && canonical_of(identity_in(#[trigger] v[i])) == identity {
            let i = choose|i: int|
                0 <= i < v.len() && canonical_of(identity_in(#[trigger] v[i])) == identity;
            if i < n {
                assert(canonical_of(identity_in(r[i])) == identity);
            }
        }
        if exists|i: int| 0 <= i < r.len() && canonical_of(identity_in(#[trigger] r[i])) == identity {
            let i = choose|i: int|
                0 <= i < r.len() && canonical_of(identity_in(#[trigger] r[i])) == identity;
            assert(v[i] == r[i]);
        }
    }
}

proof fn lemma_first_too_high(rows: Seq<(Seq<char>, u32)>)
    ensures
        first_too_high(rows) <= rows.len(),
        forall|i: int| 0 <= i < first_too_high(rows) ==> (#[trigger] rows[i]).1 <= 10000,
        first_too_high(rows) < rows.len() ==> rows[first_too_high(rows) as int].1 > 10000,
    decreases rows.len(),
{
    if rows.len() > 0 && rows[0].1 <= WHOLE_BPS {
        let t = rows.drop_first();
        lemma_first_too_high(t);
        assert forall|i: int| 0 <= i < first_too_high(rows) implies (#[trigger] rows[i]).1
            <= 10000 by {
            if i > 0 {
                assert(rows[i] == t[i - 1]);
            }
        }
    }
}

#[verifier::spinoff_prover]
#[verifier::rlimit(60)]
proof fn lemma_first_bad_net(v: Seq<Seq<char>>)
    ensures
        first_bad_net(v) <= v.len(),
        forall|i: int| 0 <= i < first_bad_net(v) ==> net_of(#[trigger] v[i]).is_some(),
        first_bad_net(v) < v.len() ==> net_of(v[first_bad_net(v) as int]).is_none(),
    decreases v.len(),
{
    if v.len() > 0 && net_of(v[0]).is_some() {
        let t = v.drop_first();
        lemma_first_bad_net(t);
        assert forall|i: int| 0 <= i < first_bad_net(v) implies net_of(#[trigger] v[i]).is_some() by {
            if i > 0 {
                assert(v[i] == t[i - 1]);
            }
        }
    }
}

/// A file is taken if and only if no fee in it is over ten thousand basis points and every address
/// it bans is an address or a network.
pub proof fn lemma_which_files_are_taken(f: ControlsFile)
    ensures
        file_error(f).is_none() <==> {
            &&& f.fee_bps matches Some(b) ==> b <= 10000
            &&& f.stratum_fee_bps matches Some(b) ==> b <= 10000
            &&& forall|i: int|
                0 <= i < f.fee_overrides.rows().len() ==> (
                #[trigger] f.fee_overrides.rows()[i]).1 <= 10000
            &&& forall|i: int|
                0 <= i < f.banned_ips@.len() ==> net_of((#[trigger] f.banned_ips@[i])@).is_some()
        },
{
    let rows = f.fee_overrides.rows();
    let nets = texts_view(f.banned_ips@);
    lemma_first_too_high(rows);
    lemma_first_bad_net(nets);
    assert forall|i: int| 0 <= i < nets.len() implies (#[trigger] nets[i]) == f.banned_ips@[i]@ by {}
    if file_error(f).is_none() {
        assert forall|i: int| 0 <= i < f.banned_ips@.len() implies net_of(
            (#[trigger] f.banned_ips@[i])@,
        ).is_some() by {
            assert(net_of(nets[i]).is_some());
        }
    }
}

/// An address is in a network of no bits of its kind, in that of all bits of itself alone, and in
/// none of the other kind. One in a network is in every wider network around it.
pub proof fn lemma_networks_nest(ip: IpAddr, net: IpAddr, bits: u8, wider: u8)
    requires
        wider <= bits <= net.spec_bits(),
    ensures
        (ip is V4) != (net is V4) ==> !in_network(ip, net, bits),
        (ip is V4) == (net is V4) ==> in_network(ip, net, 0),
        in_network(ip, net, net.spec_bits()) <==> ip == net,
        in_network(net, net, bits),
        in_network(ip, net, bits) ==> in_network(ip, net, wider),
        in_network(ip, net, bits) ==> in_network(net, ip, bits),
{
    let (w, a, n) = match (ip, net) {
        (IpAddr::V4(a), IpAddr::V4(n)) => (32nat, a as nat, n as nat),
        (IpAddr::V6(a), IpAddr::V6(n)) => (128nat, a as nat, n as nat),
        _ => (0nat, 0nat, 0nat),
    };
    if w > 0 {
        vstd::arithmetic::power2::lemma2_to64();
        let hi = (w - wider) as nat;
        let lo = (w - bits) as nat;
        let d = (bits - wider) as nat;
        vstd::arithmetic::power2::lemma_pow2_adds(lo, d);
        vstd::arithmetic::power2::lemma_pow2_pos(lo);
        vstd::arithmetic::power2::lemma_pow2_pos(d);
        vstd::arithmetic::div_mod::lemma_div_denominator(a as int, pow2(lo) as int, pow2(d) as int);
        vstd::arithmetic::div_mod::lemma_div_denominator(n as int, pow2(lo) as int, pow2(d) as int);
        assert(pow2(lo) * pow2(d) == pow2(hi));
        vstd::arithmetic::power2::lemma_pow2_pos(w);
        assert(a < pow2(w) && n < pow2(w)) by {
            vstd::arithmetic::power2::lemma2_to64_rest();
            vstd::arithmetic::power2::lemma_pow2_adds(64, 64);
        }
        vstd::arithmetic::div_mod::lemma_basic_div(a as int, pow2(w) as int);
        vstd::arithmetic::div_mod::lemma_basic_div(n as int, pow2(w) as int);
        assert(a / 1 == a && n / 1 == n);
    }
}

} // verus!
