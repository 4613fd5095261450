//! Payout address to output script: segwit (bech32, bech32m) and base58check.

use crate::bytes::{push_bytes, slice_of};
use crate::coinbase::OP_RETURN;
use crate::text::{
    copy_range, is_space, lemma_lower_idempotent, lemma_lower_keeps, lower_of, text_eq, text_of,
    to_lower, trim_of, trimmed_chars,
};
use vstd::prelude::*;
use vstd::utf8::encode_utf8;

verus! {

/// The chain an address belongs to.
#[derive(Clone, Copy, Debug, PartialEq, Eq, Structural)]
pub enum Network {
    Mainnet,
    Testnet,
    Signet,
    Regtest,
}

impl Network {
    /// The network a configured name stands for.
    pub open spec fn named(s: Seq<char>) -> Option<Network> {
        if s == "mainnet"@ || s == "main"@ || s == "bitcoin"@ {
            Some(Network::Mainnet)
        } else if s == "testnet"@ || s == "test"@ || s == "testnet4"@ || s == "testnet3"@ {
            Some(Network::Testnet)
        } else if s == "signet"@ {
            Some(Network::Signet)
        } else if s == "regtest"@ {
            Some(Network::Regtest)
        } else {
            None
        }
    }

    /// Reads the name of a network.
    pub fn parse(s: &str) -> (r: Option<Network>)
        ensures
            r == Network::named(s@),
    {
        if text_eq(s, "mainnet") || text_eq(s, "main") || text_eq(s, "bitcoin") {
            Some(Network::Mainnet)
        } else if text_eq(s, "testnet") || text_eq(s, "test") || text_eq(s, "testnet4") || text_eq(
            s,
            "testnet3",
        ) {
            Some(Network::Testnet)
        } else if text_eq(s, "signet") {
            Some(Network::Signet)
        } else if text_eq(s, "regtest") {
            Some(Network::Regtest)
        } else {
            None
        }
    }

    /// The prefix of the network's segwit addresses.
    pub open spec fn spec_hrp(self) -> Seq<char> {
        match self {
            Network::Mainnet => "bc"@,
            Network::Testnet => "tb"@,
            Network::Signet => "tb"@,
            Network::Regtest => "bcrt"@,
        }
    }

    /// The prefix of the network's segwit addresses.
    pub fn hrp(self) -> (r: &'static str)
        ensures
            r@ == self.spec_hrp(),
    {
        match self {
            Network::Mainnet => "bc",
            Network::Testnet => "tb",
            Network::Signet => "tb",
            Network::Regtest => "bcrt",
        }
    }

    /// The version byte of a pay-to-key-hash address.
    pub open spec fn spec_p2pkh_version(self) -> u8 {
        if self == Network::Mainnet {
            0x00
        } else {
            0x6f
        }
    }

    /// The version byte of a pay-to-key-hash address.
    pub fn p2pkh_version(self) -> (r: u8)
        ensures
            r == self.spec_p2pkh_version(),
    {
        if self == Network::Mainnet {
            0x00
        } else {
            0x6f
        }
    }

    /// The version byte of a pay-to-script-hash address.
    pub open spec fn spec_p2sh_version(self) -> u8 {
        if self == Network::Mainnet {
            0x05
        } else {
            0xc4
        }
    }

    /// The version byte of a pay-to-script-hash address.
    pub fn p2sh_version(self) -> (r: u8)
        ensures
            r == self.spec_p2sh_version(),
    {
        if self == Network::Mainnet {
            0x05
        } else {
            0xc4
        }
    }
}

/// Largest output script that carries no data, in a coinbase under RDTS.
pub const RDTS_MAX_OUTPUT_SCRIPT: usize = 34;

/// Largest output script that carries data, in a coinbase under RDTS.
pub const RDTS_MAX_OUTPUT_DATA: usize = 83;

/// Longest address, in bytes.
pub const MAX_ADDRESS_BYTES: usize = 90;

/// Whether a coinbase may carry an output script under RDTS.
pub open spec fn rdts_ok(script: Seq<u8>) -> bool {
    if script.len() == 0 {
        true
    } else if script[0] == OP_RETURN {
        script.len() <= RDTS_MAX_OUTPUT_DATA
    } else {
        script.len() <= RDTS_MAX_OUTPUT_SCRIPT
    }
}

/// Tells whether a coinbase may carry an output script under RDTS. A block with a larger one
/// is invalid, so such a script can never be paid.
pub fn rdts_output_ok(script: &[u8]) -> (r: bool)
    ensures
        r == rdts_ok(script@),
{
    if script.len() == 0 {
        true
    } else if script[0] == OP_RETURN {
        script.len() <= RDTS_MAX_OUTPUT_DATA
    } else {
        script.len() <= RDTS_MAX_OUTPUT_SCRIPT
    }
}

/// The prefix, witness version and witness program of a segwit address, or `None` when the
/// text is not one.
pub uninterp spec fn segwit_decoded(s: Seq<char>) -> Option<(Seq<char>, u8, Seq<u8>)>;

/// The payload of a base58check text, or `None` when the text is not one.
pub uninterp spec fn base58_decoded(s: Seq<char>) -> Option<Seq<u8>>;

/// A decoded segwit address as a mathematical value.
pub open spec fn segwit_view(r: Option<(String, u8, Vec<u8>)>) -> Option<
    (Seq<char>, u8, Seq<u8>),
> {
    match r {
        Some((h, v, p)) => Some((h@, v, p@)),
        None => None,
    }
}

/// A decoded base58check text as a mathematical value.
pub open spec fn base58_view(r: Option<Vec<u8>>) -> Option<Seq<u8>> {
    match r {
        Some(v) => Some(v@),
        None => None,
    }
}

/// Whether every character is of ASCII and has a shape: neither white space nor a control.
pub open spec fn is_graphic_text(s: Seq<char>) -> bool {
    forall|i: int| 0 <= i < s.len() ==> 33 <= (#[trigger] s[i]) as u32 <= 126
}

/// Whether a text has letters of both cases.
pub open spec fn is_mixed_case(s: Seq<char>) -> bool {
    &&& exists|i: int| 0 <= i < s.len() && 'a' <= #[trigger] s[i] <= 'z'
    &&& exists|i: int| 0 <= i < s.len() && 'A' <= #[trigger] s[i] <= 'Z'
}

/// Calls `bech32::segwit::decode`: the result depends on the text alone; a version is at most
/// 16 and a program has 2 to 40 bytes; a text that decodes does so in lower case too, to the
/// same version and program under the prefix in lower case; it holds no character outside 33 to
/// 126 and no letters of both cases.
#[verifier::external_body]
fn segwit_decode(s: &str) -> (r: Option<(String, u8, Vec<u8>)>)
    ensures
        segwit_view(r) == segwit_decoded(s@),
        r matches Some((h, v, p)) ==> v <= 16 && 2 <= p@.len() <= 40 && segwit_decoded(
            lower_of(s@),
        ) == Some((lower_of(h@), v, p@)),
        r.is_some() ==> is_graphic_text(s@) && !is_mixed_case(s@),
{
    match bech32::segwit::decode(s) {
        Ok((h, v, p)) => Some((h.as_str().to_string(), v.to_u8(), p)),
        Err(_) => None,
    }
}

/// Calls `bs58::decode` with the Base58Check checksum and no expected version: the payload,
/// without the checksum, depends on the text alone.
#[verifier::external_body]
fn base58_decode(s: &str) -> (r: Option<Vec<u8>>)
    ensures
        base58_view(r) == base58_decoded(s@),
{
    match bs58::decode(s).with_check(None).into_vec() {
        Ok(v) => Some(v),
        Err(_) => None,
    }
}

/// The output script of a witness program.
pub open spec fn witness_script(ver: u8, prog: Seq<u8>) -> Seq<u8> {
    seq![if ver == 0 { 0u8 } else { (0x50 + ver) as u8 }, prog.len() as u8] + prog
}

/// Builds the output script of a witness program.
pub fn segwit_script(ver: u8, prog: &[u8]) -> (s: Vec<u8>)
    requires
        ver <= 31,
        prog@.len() <= 255,
    ensures
        s@ == witness_script(ver, prog@),
{
    let mut s: Vec<u8> = Vec::new();
    s.push(if ver == 0 {
        0x00
    } else {
        0x50 + ver
    });
    s.push(prog.len() as u8);
    push_bytes(&mut s, prog);
    assert(s@ =~= witness_script(ver, prog@));
    s
}

/// The output script of a decoded segwit address, on the network its prefix names.
pub open spec fn segwit_output_of(d: (Seq<char>, u8, Seq<u8>), net: Network) -> Option<Seq<u8>> {
    if lower_of(d.0) == net.spec_hrp() {
        Some(witness_script(d.1, d.2))
    } else {
        None
    }
}

/// Builds the output script of a decoded segwit address.
pub fn segwit_output(hrp: &str, ver: u8, prog: &[u8], net: Network) -> (r: Option<Vec<u8>>)
    requires
        ver <= 31,
        prog@.len() <= 255,
    ensures
        base58_view(r) == segwit_output_of((hrp@, ver, prog@), net),
{
    if !text_eq(to_lower(hrp).as_str(), net.hrp()) {
        return None;
    }
    Some(segwit_script(ver, prog))
}

/// The output script of a base58check payload: a version byte and a 20-byte hash.
pub open spec fn base58_output_of(raw: Seq<u8>, net: Network) -> Option<Seq<u8>> {
    if raw.len() != 21 {
        None
    } else if raw[0] == net.spec_p2pkh_version() {
        Some(seq![0x76u8, 0xa9, 0x14] + raw.skip(1) + seq![0x88u8, 0xac])
    } else if raw[0] == net.spec_p2sh_version() {
        Some(seq![0xa9u8, 0x14] + raw.skip(1) + seq![0x87u8])
    } else {
        None
    }
}

/// Builds the output script of a base58check payload.
pub fn base58_output(raw: &[u8], net: Network) -> (r: Option<Vec<u8>>)
    ensures
        base58_view(r) == base58_output_of(raw@, net),
{
    if raw.len() != 21 {
        return None;
    }
    let hash: Vec<u8> = slice_of(raw, 1, 21);
    assert(hash@ =~= raw@.skip(1));
    let mut s: Vec<u8> = Vec::new();
    if raw[0] == net.p2pkh_version() {
        s.push(0x76);
        s.push(0xa9);
        s.push(0x14);
        push_bytes(&mut s, hash.as_slice());
        s.push(0x88);
        s.push(0xac);
        assert(s@ =~= seq![0x76u8, 0xa9, 0x14] + raw@.skip(1) + seq![0x88u8, 0xac]);
        Some(s)
    } else if raw[0] == net.p2sh_version() {
        s.push(0xa9);
        s.push(0x14);
        push_bytes(&mut s, hash.as_slice());
        s.push(0x87);
        assert(s@ =~= seq![0xa9u8, 0x14] + raw@.skip(1) + seq![0x87u8]);
        Some(s)
    } else {
        None
    }
}

/// The output script of an address, with no check that a coinbase can carry it.
pub open spec fn script_of(addr: Seq<char>, net: Network) -> Option<Seq<u8>> {
    let a = trim_of(addr);
    if a.len() == 0 || encode_utf8(a).len() > MAX_ADDRESS_BYTES {
        None
    } else {
        match segwit_decoded(a) {
            Some(d) => segwit_output_of(d, net),
            None => match base58_decoded(a) {
                Some(raw) => base58_output_of(raw, net),
                None => None,
            },
        }
    }
}

/// The output script of an address that a coinbase can pay.
pub open spec fn payable_script(addr: Seq<char>, net: Network) -> Option<Seq<u8>> {
    match script_of(addr, net) {
        Some(s) => if rdts_ok(s) {
            Some(s)
        } else {
            None
        },
        None => None,
    }
}

/// Decodes an address into its output script, with no check that a coinbase can carry it.
pub fn decode_script(addr: &str, net: Network) -> (r: Option<Vec<u8>>)
    ensures
        base58_view(r) == script_of(addr@, net),
{
    let chars: Vec<char> = trimmed_chars(addr);
    let a: String = text_of(chars.as_slice());
    if chars.len() == 0 || a.as_str().as_bytes().len() > MAX_ADDRESS_BYTES {
        return None;
    }
    match segwit_decode(a.as_str()) {
        Some((hrp, ver, prog)) => segwit_output(hrp.as_str(), ver, prog.as_slice(), net),
        None => match base58_decode(a.as_str()) {
            Some(raw) => base58_output(raw.as_slice(), net),
            None => None,
        },
    }
}

/// Decodes an address into its output script. `None` if it is not an address of the network,
/// or if a coinbase cannot carry the script: such a share stays in the pool's remainder.
pub fn to_script(addr: &str, net: Network) -> (r: Option<Vec<u8>>)
    ensures
        base58_view(r) == payable_script(addr@, net),
        r matches Some(s) ==> rdts_ok(s@),
{
    match decode_script(addr, net) {
        Some(s) => if rdts_output_ok(s.as_slice()) {
            Some(s)
        } else {
            None
        },
        None => None,
    }
}

/// Where a username's worker suffix or modifier starts: at the first `.` or `~`, or at its end.
pub open spec fn suffix_at(u: Seq<char>) -> nat
    decreases u.len(),
{
    if u.len() == 0 || u[0] == '.' || u[0] == '~' {
        0
    } else {
        1 + suffix_at(u.drop_first())
    }
}

/// The suffix starts within the text or at its end, at a separator, and after none.
pub proof fn lemma_suffix_at(u: Seq<char>)
    ensures
        suffix_at(u) <= u.len(),
        suffix_at(u) < u.len() ==> u[suffix_at(u) as int] == '.' || u[suffix_at(u) as int] == '~',
        forall|i: int| 0 <= i < suffix_at(u) ==> u[i] != '.' && u[i] != '~',
    decreases u.len(),
{
    if u.len() > 0 && u[0] != '.' && u[0] != '~' {
        let t = u.drop_first();
        lemma_suffix_at(t);
        assert forall|i: int| 0 <= i < suffix_at(u) implies u[i] != '.' && u[i] != '~' by {
            if i > 0 {
                assert(u[i] == t[i - 1]);
            }
        }
        if suffix_at(u) < u.len() {
            assert(u[suffix_at(u) as int] == t[suffix_at(t) as int]);
        }
    }
}

fn suffix_index(u: &Vec<char>) -> (n: usize)
    ensures
        n == suffix_at(u@),
        n <= u@.len(),
{
    let mut i: usize = 0;
    assert(u@.skip(0) =~= u@);
    while i < u.len() && u[i] != '.' && u[i] != '~'
        invariant
            i <= u@.len(),
            suffix_at(u@) == i + suffix_at(u@.skip(i as int)),
        decreases u@.len() - i,
    {
        assert(u@.skip(i as int).drop_first() =~= u@.skip(i + 1));
        i = i + 1;
    }
    i
}

/// The identity a username maps to.
pub open spec fn identity_in(username: Seq<char>) -> Seq<char> {
    trim_of(username).take(suffix_at(trim_of(username)) as int)
}

/// The worker a username names, or nothing.
pub open spec fn worker_in(username: Seq<char>) -> Seq<char> {
    let u = trim_of(username);
    if suffix_at(u) < u.len() {
        u.skip(suffix_at(u) as int + 1)
    } else {
        Seq::empty()
    }
}

/// The worker name: what follows the first `.` or `~` of a username, or nothing.
pub fn worker_of(username: &str) -> (w: String)
    ensures
        w@ == worker_in(username@),
{
    let u: Vec<char> = trimmed_chars(username);
    let n: usize = suffix_index(&u);
    if n < u.len() {
        let w: String = text_of(copy_range(u.as_slice(), n + 1, u.len()).as_slice());
        assert(w@ =~= u@.skip(n + 1));
        w
    } else {
        String::new()
    }
}

/// The identity a username maps to: the part before the first `.` (worker suffix) or `~`
/// (gateway username modifier).
pub fn identity_of(username: &str) -> (i: String)
    ensures
        i@ == identity_in(username@),
{
    let u: Vec<char> = trimmed_chars(username);
    let n: usize = suffix_index(&u);
    let i: String = text_of(copy_range(u.as_slice(), 0, n).as_slice());
    assert(i@ =~= u@.take(n as int));
    i
}

/// The form an identity is kept and paid under: a segwit address in lower case, anything else
/// as it is.
pub open spec fn canonical_of(ident: Seq<char>) -> Seq<char> {
    if segwit_decoded(ident).is_some() {
        lower_of(ident)
    } else {
        ident
    }
}

/// Folding is idempotent.
pub proof fn lemma_canonical_idempotent(ident: Seq<char>)
    ensures
        canonical_of(canonical_of(ident)) == canonical_of(ident),
{
    lemma_lower_idempotent(ident);
}

/// Folds an identity to the form it is kept under. Bech32 is case-insensitive, so that two
/// casings are one payout address and must be one row of the window; what an identity is paid
/// to does not change. A text of mixed case is no such address and stays as it is.
pub fn canonical_identity(ident: &str) -> (r: String)
    ensures
        r@ == canonical_of(ident@),
        is_mixed_case(ident@) ==> r@ == ident@,
        forall|net: Network|
            #![trigger payable_script(r@, net)]
            payable_script(r@, net) == payable_script(ident@, net),
        forall|net: Network|
            #![trigger script_of(r@, net)]
            script_of(r@, net) == script_of(ident@, net),
{
    match segwit_decode(ident) {
        Some((hrp, _, _)) => {
            let r: String = to_lower(ident);
            proof {
                if ident@.len() > 0 {
                    assert(!is_space(ident@[0]) && !is_space(ident@[ident@.len() - 1]));
                }
                assert(trim_of(ident@) == ident@);
                lemma_lower_keeps(ident@);
                lemma_lower_idempotent(hrp@);
            }
            r
        },
        None => ident.to_owned(),
    }
}

/// A text that has a separator in its first place where a suffix starts.
proof fn lemma_suffix_of(identity: Seq<char>, sep: char, worker: Seq<char>)
    requires
        sep == '.' || sep == '~',
        forall|i: int| 0 <= i < identity.len() ==> #[trigger] identity[i] != '.' && identity[i] != '~',
    ensures
        suffix_at(identity) == identity.len(),
        suffix_at(identity + seq![sep] + worker) == identity.len(),
    decreases identity.len(),
{
    let s = identity + seq![sep] + worker;
    if identity.len() > 0 {
        let r = identity.drop_first();
        assert forall|i: int| 0 <= i < r.len() implies #[trigger] r[i] != '.' && r[i] != '~' by {
            assert(r[i] == identity[i + 1]);
        }
        lemma_suffix_of(r, sep, worker);
        assert(s.drop_first() =~= r + seq![sep] + worker);
        assert(s[0] == identity[0]);
    }
}

/// A username is an identity, or an identity, a `.` or a `~`, and a worker. White space around it
/// does not count.
pub proof fn lemma_usernames(identity: Seq<char>, sep: char, worker: Seq<char>)
    requires
        sep == '.' || sep == '~',
        forall|i: int| 0 <= i < identity.len() ==> #[trigger] identity[i] != '.' && identity[i] != '~',
    ensures
        trim_of(identity) == identity ==> identity_in(identity) == identity && worker_in(
            identity,
        ).len() == 0,
        ({
            let u = identity + seq![sep] + worker;
            trim_of(u) == u ==> identity_in(u) == identity && worker_in(u) == worker
        }),
{
    lemma_suffix_of(identity, sep, worker);
    let u = identity + seq![sep] + worker;
    assert(u.take(identity.len() as int) =~= identity);
    assert(u.skip(identity.len() as int + 1) =~= worker);
    assert(identity.take(identity.len() as int) =~= identity);
}

/// The parts of a username make it up again: its identity has neither separator, and what follows
/// is nothing, or a separator and the worker.
pub proof fn lemma_username_parts(username: Seq<char>)
    ensures
        ({
            let u = trim_of(username);
            let i = identity_in(username);
            let w = worker_in(username);
            &&& forall|k: int| 0 <= k < i.len() ==> #[trigger] i[k] != '.' && i[k] != '~'
            &&& u == i && w.len() == 0 || u == i + seq!['.'] + w || u == i + seq!['~'] + w
        }),
{
    let u = trim_of(username);
    let n = suffix_at(u) as int;
    lemma_suffix_at(u);
    let i = identity_in(username);
    let w = worker_in(username);
    if n < u.len() {
        assert(u =~= i + seq![u[n]] + w);
    } else {
        assert(u =~= i);
    }
}

/// The output scripts of addresses. A pay-to-key-hash address gives `76 a9 14`, the hash and
/// `88 ac`; a pay-to-script-hash address `a9 14`, the hash and `87`; their version bytes are those
/// of the network. A payload of another version or length gives none.
pub proof fn lemma_legacy_scripts(raw: Seq<u8>, net: Network)
    ensures
        ({
            let key: u8 = if net is Mainnet {
                0
            } else {
                111
            };
            let script: u8 = if net is Mainnet {
                5
            } else {
                196
            };
            match base58_output_of(raw, net) {
                Some(s) => {
                    &&& raw.len() == 21 && (raw[0] == key || raw[0] == script)
                    &&& raw[0] == key ==> s.len() == 25 && s[0] == 0x76 && s[1] == 0xa9 && s[2]
                        == 20 && s.subrange(3, 23) == raw.skip(1) && s[23] == 0x88 && s[24] == 0xac
                    &&& raw[0] == script ==> s.len() == 23 && s[0] == 0xa9 && s[1] == 20
                        && s.subrange(2, 22) == raw.skip(1) && s[22] == 0x87
                },
                None => raw.len() != 21 || (raw[0] != key && raw[0] != script),
            }
        }),
{
    if let Some(s) = base58_output_of(raw, net) {
        if raw[0] == net.spec_p2pkh_version() {
            assert(s.subrange(3, 23) =~= raw.skip(1));
        } else {
            assert(s.subrange(2, 22) =~= raw.skip(1));
        }
    }
}

/// The output script of a segwit address is its version, 0 or an opcode of 0x51 to 0x60, and its
/// program behind its length, where its prefix is the network's in either case; so that different
/// versions or programs have different scripts. Under another prefix there is none.
pub proof fn lemma_segwit_scripts(hrp: Seq<char>, ver: u8, prog: Seq<u8>, net: Network)
    requires
        ver <= 16,
        2 <= prog.len() <= 40,
    ensures
        ({
            let mine = match net {
                Network::Mainnet => "bc"@,
                Network::Testnet => "tb"@,
                Network::Signet => "tb"@,
                Network::Regtest => "bcrt"@,
            };
            match segwit_output_of((hrp, ver, prog), net) {
                Some(s) => {
                    &&& lower_of(hrp) == mine
                    &&& s.len() == 2 + prog.len()
                    &&& ver == 0 ==> s[0] == 0
                    &&& ver > 0 ==> s[0] == 0x50 + ver
                    &&& s[1] == prog.len()
                    &&& s.skip(2) == prog
                },
                None => lower_of(hrp) != mine,
            }
        }),
{
    if let Some(s) = segwit_output_of((hrp, ver, prog), net) {
        assert(s.skip(2) =~= prog);
    }
}

/// A coinbase can carry a script of 34 bytes, or of 83 where it carries data. An address is payable
/// if and only if it has a script and a coinbase can carry that; and its script is then what it is
/// paid to. Text around an address does not count but for white space.
pub proof fn lemma_what_is_payable(addr: Seq<char>, net: Network)
    ensures
        ({
            let s = script_of(addr, net);
            let p = payable_script(addr, net);
            &&& s.is_none() ==> p.is_none()
            &&& s matches Some(x) ==> {
                let fits = x.len() <= 34 || (x[0] == 0x6a && x.len() <= 83);
                &&& fits ==> p == Some(x)
                &&& !fits ==> p.is_none()
            }
            &&& encode_utf8(trim_of(addr)).len() > 90 ==> p.is_none()
            &&& script_of(trim_of(addr), net) == s
        }),
{
    crate::text::lemma_trim(addr);
}

/// An address decodes as segwit where it is one, and else as base58check.
pub proof fn lemma_address_kinds(addr: Seq<char>, net: Network)
    requires
        trim_of(addr) == addr,
        0 < addr.len(),
        encode_utf8(addr).len() <= 90,
    ensures
        segwit_decoded(addr) matches Some(d) ==> script_of(addr, net) == segwit_output_of(d, net),
        segwit_decoded(addr).is_none() ==> (base58_decoded(addr) matches Some(raw) ==> script_of(
            addr,
            net,
        ) == base58_output_of(raw, net)),
        segwit_decoded(addr).is_none() && base58_decoded(addr).is_none() ==> script_of(
            addr,
            net,
        ).is_none(),
{
}

/// The names of networks.
pub proof fn lemma_network_names()
    ensures
        Network::named("mainnet"@) == Some(Network::Mainnet),
        Network::named("main"@) == Some(Network::Mainnet),
        Network::named("bitcoin"@) == Some(Network::Mainnet),
        Network::named("testnet"@) == Some(Network::Testnet),
        Network::named("test"@) == Some(Network::Testnet),
        Network::named("testnet3"@) == Some(Network::Testnet),
        Network::named("testnet4"@) == Some(Network::Testnet),
        Network::named("signet"@) == Some(Network::Signet),
        Network::named("regtest"@) == Some(Network::Regtest),
{
    reveal_strlit("mainnet");
    reveal_strlit("main");
    reveal_strlit("bitcoin");
    reveal_strlit("testnet");
    reveal_strlit("test");
    reveal_strlit("testnet3");
    reveal_strlit("testnet4");
    reveal_strlit("signet");
    reveal_strlit("regtest");
    assert("testnet"@[0] == 't' && "mainnet"@[0] == 'm' && "main"@[0] == 'm' && "bitcoin"@[0] == 'b');
    assert("test"@[0] == 't' && "testnet3"@[0] == 't' && "testnet4"@[0] == 't');
    assert("signet"@[0] == 's' && "regtest"@[0] == 'r');
}

} // verus!
