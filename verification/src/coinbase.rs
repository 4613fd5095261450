//! The coinbase transaction: putting a gateway's halves together, reading it back, and its
//! form inside a block.

use crate::bytes::{
    bytes_eq, le_bytes, le_nat, lemma_le_bytes_len, lemma_le_bytes_of_nat, lemma_le_nat_bound,
    lemma_le_nat_of_bytes, lemma_pow_256, push_bytes, push_le, push_zeros, read_le, slice_of,
    zeros,
};
use vstd::prelude::*;

verus! {

/// Bytes between the two halves of a coinbase that stand for the extranonce; they are zero.
pub const EXTRANONCE_SLOT: usize = 12;

/// First byte of a script that only carries data.
pub const OP_RETURN: u8 = 0x6a;

/// One output of a transaction.
#[derive(Clone, Debug, PartialEq, Eq)]
pub struct TxOut {
    pub value: u64,
    pub script: Vec<u8>,
}

/// What a [`TxOut`] holds.
#[verifier::ext_equal]
pub struct TxOutView {
    pub value: u64,
    pub script: Seq<u8>,
}

impl View for TxOut {
    type V = TxOutView;

    open spec fn view(&self) -> TxOutView {
        TxOutView { value: self.value, script: self.script@ }
    }
}

/// Whether a script only carries data.
pub open spec fn is_data_script(script: Seq<u8>) -> bool {
    script.len() > 0 && script[0] == OP_RETURN
}

/// Whether a script only carries data.
pub fn starts_with_op_return(script: &[u8]) -> (r: bool)
    ensures
        r == is_data_script(script@),
{
    script.len() > 0 && script[0] == OP_RETURN
}

impl TxOut {
    /// Whether the output only carries data.
    pub fn is_op_return(&self) -> (r: bool)
        ensures
            r == is_data_script(self.script@),
    {
        starts_with_op_return(self.script.as_slice())
    }

    /// A copy of the output.
    pub fn duplicate(&self) -> (r: TxOut)
        ensures
            r@ == self@,
    {
        let script: Vec<u8> = slice_of(self.script.as_slice(), 0, self.script.len());
        assert(script@ =~= self.script@);
        TxOut { value: self.value, script }
    }
}

/// The outputs of a list.
pub open spec fn outs_view(outs: Seq<TxOut>) -> Seq<TxOutView> {
    Seq::new(outs.len(), |i: int| outs[i]@)
}

/// `a + b`, or the largest 64-bit number when that does not fit.
pub open spec fn sat_add(a: u64, b: u64) -> u64 {
    if a + b > u64::MAX {
        u64::MAX
    } else {
        (a + b) as u64
    }
}

/// What the outputs are worth together, saturating.
pub open spec fn total_value(outs: Seq<TxOutView>) -> u64
    decreases outs.len(),
{
    if outs.len() == 0 {
        0
    } else {
        sat_add(total_value(outs.drop_last()), outs.last().value)
    }
}

/// What the outputs pay to `script` together, saturating.
pub open spec fn paid_to_script(outs: Seq<TxOutView>, script: Seq<u8>) -> u64
    decreases outs.len(),
{
    if outs.len() == 0 {
        0
    } else if outs.last().script == script {
        sat_add(paid_to_script(outs.drop_last(), script), outs.last().value)
    } else {
        paid_to_script(outs.drop_last(), script)
    }
}

/// A parsed coinbase transaction.
#[derive(Clone, Debug, PartialEq, Eq)]
pub struct Coinbase {
    pub version: u32,
    pub script_sig: Vec<u8>,
    pub sequence: u32,
    pub outputs: Vec<TxOut>,
    pub lock_time: u32,
    /// The height the input script starts with.
    pub height: Option<u32>,
}

/// What a [`Coinbase`] holds, the height aside: that is read off the input script.
#[verifier::ext_equal]
pub struct CoinbaseView {
    pub version: u32,
    pub script_sig: Seq<u8>,
    pub sequence: u32,
    pub outputs: Seq<TxOutView>,
    pub lock_time: u32,
}

impl View for Coinbase {
    type V = CoinbaseView;

    open spec fn view(&self) -> CoinbaseView {
        CoinbaseView {
            version: self.version,
            script_sig: self.script_sig@,
            sequence: self.sequence,
            outputs: outs_view(self.outputs@),
            lock_time: self.lock_time,
        }
    }
}

impl Coinbase {
    /// The height is the one the input script starts with.
    pub open spec fn wf(&self) -> bool {
        self.height == script_height(self.script_sig@)
    }

    /// What the outputs are worth together, saturating.
    pub fn total_output_value(&self) -> (v: u64)
        ensures
            v == total_value(self@.outputs),
    {
        let mut v: u64 = 0;
        let mut i: usize = 0;
        let ghost all = self@.outputs;
        while i < self.outputs.len()
            invariant
                i <= self.outputs@.len(),
                all == outs_view(self.outputs@),
                v == total_value(all.take(i as int)),
            decreases self.outputs@.len() - i,
        {
            assert(all.take(i + 1).drop_last() =~= all.take(i as int));
            v = v.saturating_add(self.outputs[i].value);
            i = i + 1;
        }
        assert(all.take(all.len() as int) =~= all);
        v
    }

    /// What the outputs pay to `script` together, saturating.
    pub fn paid_to(&self, script: &[u8]) -> (v: u64)
        ensures
            v == paid_to_script(self@.outputs, script@),
    {
        let mut v: u64 = 0;
        let mut i: usize = 0;
        let ghost all = self@.outputs;
        while i < self.outputs.len()
            invariant
                i <= self.outputs@.len(),
                all == outs_view(self.outputs@),
                v == paid_to_script(all.take(i as int), script@),
            decreases self.outputs@.len() - i,
        {
            assert(all.take(i + 1).drop_last() =~= all.take(i as int));
            if bytes_eq(self.outputs[i].script.as_slice(), script) {
                v = v.saturating_add(self.outputs[i].value);
            }
            i = i + 1;
        }
        assert(all.take(all.len() as int) =~= all);
        v
    }

    /// A copy of the transaction.
    pub fn duplicate(&self) -> (r: Coinbase)
        ensures
            r@ == self@,
            r.height == self.height,
    {
        let script_sig: Vec<u8> = slice_of(self.script_sig.as_slice(), 0, self.script_sig.len());
        assert(script_sig@ =~= self.script_sig@);
        let mut outputs: Vec<TxOut> = Vec::new();
        let mut i: usize = 0;
        while i < self.outputs.len()
            invariant
                i <= self.outputs@.len(),
                outputs@.len() == i,
                forall|j: int| 0 <= j < i ==> outputs@[j]@ == self.outputs@[j]@,
            decreases self.outputs@.len() - i,
        {
            outputs.push(self.outputs[i].duplicate());
            i = i + 1;
        }
        assert(outs_view(outputs@) =~= outs_view(self.outputs@));
        Coinbase {
            version: self.version,
            script_sig,
            sequence: self.sequence,
            outputs,
            lock_time: self.lock_time,
            height: self.height,
        }
    }
}

/// The height a coinbase input script starts with: a small-number opcode or a push of one to
/// four bytes.
pub open spec fn script_height(s: Seq<u8>) -> Option<u32> {
    if s.len() == 0 {
        None
    } else if 0x51 <= s[0] <= 0x60 {
        Some((s[0] - 0x50) as u32)
    } else if 1 <= s[0] <= 4 && s.len() > s[0] {
        Some(le_nat(s.subrange(1, 1 + s[0])) as u32)
    } else {
        None
    }
}

fn height_of(s: &[u8]) -> (h: Option<u32>)
    ensures
        h == script_height(s@),
{
    if s.len() == 0 {
        return None;
    }
    let first: u8 = s[0];
    if 0x51 <= first && first <= 0x60 {
        return Some((first - 0x50) as u32);
    }
    if 1 <= first && first <= 4 && s.len() > first as usize {
        let n: u64 = read_le(s, 1, first as usize);
        proof {
            lemma_le_nat_bound(s@.subrange(1, 1 + first));
            lemma_pow_256(first as nat);
        }
        return Some(n as u32);
    }
    None
}

/// The coinbase a share hashed: the halves around a zero extranonce (a gateway that sends an
/// empty second half sent the whole transaction as the first), the target byte written in.
pub open spec fn assembled(coinb1: Seq<u8>, coinb2: Seq<u8>, target_index: int, pot: u8) -> Seq<u8> {
    let whole = if coinb2.len() == 0 {
        coinb1
    } else {
        coinb1 + zeros(EXTRANONCE_SLOT as nat) + coinb2
    };
    if target_index < whole.len() {
        whole.update(target_index, pot)
    } else {
        whole
    }
}

/// Rebuilds the coinbase a share hashed.
pub fn assemble(coinb1: &[u8], coinb2: &[u8], target_index: usize, pot: u8) -> (v: Vec<u8>)
    ensures
        v@ == assembled(coinb1@, coinb2@, target_index as int, pot),
{
    let mut v: Vec<u8> = slice_of(coinb1, 0, coinb1.len());
    assert(v@ =~= coinb1@);
    if coinb2.len() > 0 {
        push_zeros(&mut v, EXTRANONCE_SLOT);
        push_bytes(&mut v, coinb2);
    }
    if target_index < v.len() {
        v.set(target_index, pot);
    }
    v
}

/// A count or length as it stands in a transaction: one byte, or a marker and two, four or
/// eight.
pub open spec fn varint(n: nat) -> Seq<u8> {
    if n < 0xfd {
        le_bytes(n, 1)
    } else if n < 0x1_0000 {
        seq![0xfdu8] + le_bytes(n, 2)
    } else if n < 0x1_0000_0000 {
        seq![0xfeu8] + le_bytes(n, 4)
    } else {
        seq![0xffu8] + le_bytes(n, 8)
    }
}

/// Appends a count or length.
pub fn write_varint(out: &mut Vec<u8>, n: u64)
    ensures
        final(out)@ == old(out)@ + varint(n as nat),
{
    let ghost start = out@;
    if n < 0xfd {
        push_le(out, n, 1);
    } else if n < 0x1_0000 {
        out.push(0xfd);
        push_le(out, n, 2);
    } else if n < 0x1_0000_0000 {
        out.push(0xfe);
        push_le(out, n, 4);
    } else {
        out.push(0xff);
        push_le(out, n, 8);
    }
    assert(out@ =~= start + varint(n as nat));
}

/// Reads a count or length in its shortest form: the number and the bytes it took.
pub open spec fn read_varint(s: Seq<u8>) -> Option<(nat, nat)> {
    if s.len() < 1 {
        None
    } else if s[0] < 0xfd {
        Some((s[0] as nat, 1))
    } else {
        let w: nat = if s[0] == 0xfd {
            2
        } else if s[0] == 0xfe {
            4
        } else {
            8
        };
        if s.len() < 1 + w {
            None
        } else {
            let n = le_nat(s.subrange(1, 1 + w as int));
            if n >= shortest_from(w) {
                Some((n, 1 + w))
            } else {
                None
            }
        }
    }
}

/// The smallest number whose shortest form has a marker and `w` bytes.
pub open spec fn shortest_from(w: nat) -> nat {
    if w == 2 {
        0xfd
    } else if w == 4 {
        0x1_0000
    } else {
        0x1_0000_0000
    }
}

/// What is written is read back, whatever follows it.
pub proof fn lemma_varint_round_trip(n: nat, rest: Seq<u8>)
    requires
        n <= u64::MAX,
    ensures
        read_varint(varint(n) + rest) == Some((n, varint(n).len())),
{
    let s = varint(n) + rest;
    lemma_pow_256(1);
    lemma_pow_256(2);
    lemma_pow_256(4);
    lemma_pow_256(8);
    let w: nat = if n < 0xfd {
        1
    } else if n < 0x1_0000 {
        2
    } else if n < 0x1_0000_0000 {
        4
    } else {
        8
    };
    lemma_le_bytes_len(n, w);
    lemma_le_nat_of_bytes(n, w);
    if n < 0xfd {
        lemma_le_bytes_len(n / 256, 0);
        assert(s[0] == n);
    } else {
        assert(s.subrange(1, 1 + w as int) =~= le_bytes(n, w));
    }
}

/// What is read is what would be written.
pub proof fn lemma_varint_unique(s: Seq<u8>)
    ensures
        read_varint(s) matches Some((n, len)) ==> n <= u64::MAX && len <= s.len() && s.take(
            len as int,
        ) == varint(n),
{
    if let Some((n, len)) = read_varint(s) {
        lemma_pow_256(1);
        lemma_pow_256(2);
        lemma_pow_256(4);
        lemma_pow_256(8);
        if s[0] < 0xfd {
            assert(le_bytes(n, 1) =~= seq![s[0]]) by {
                lemma_le_bytes_len(n / 256, 0);
            }
            assert(s.take(1) =~= varint(n));
        } else {
            let w = (len - 1) as nat;
            let body = s.subrange(1, 1 + w as int);
            lemma_le_nat_bound(body);
            lemma_le_bytes_of_nat(body);
            assert(s.take(len as int) =~= seq![s[0]] + body);
        }
    }
}

/// Reads a count or length at `at`: the number and where it ends.
fn varint_at(b: &[u8], at: usize) -> (r: Option<(u64, usize)>)
    requires
        at <= b@.len(),
    ensures
        r.is_some() == read_varint(b@.skip(at as int)).is_some(),
        r matches Some((n, end)) ==> at < end <= b@.len() && read_varint(b@.skip(at as int)) == Some(
            (n as nat, (end - at) as nat),
        ),
{
    let len: usize = b.len();
    if len - at < 1 {
        return None;
    }
    let first: u8 = b[at];
    assert(b@.skip(at as int)[0] == first);
    if first < 0xfd {
        return Some((first as u64, at + 1));
    }
    let w: usize = if first == 0xfd {
        2
    } else if first == 0xfe {
        4
    } else {
        8
    };
    if len - at < 1 + w {
        return None;
    }
    let n: u64 = read_le(b, at + 1, w);
    assert(b@.skip(at as int).subrange(1, 1 + w as int) =~= b@.subrange(at + 1, at + 1 + w));
    let least: u64 = if w == 2 {
        0xfd
    } else if w == 4 {
        0x1_0000
    } else {
        0x1_0000_0000
    };
    if n >= least {
        Some((n, at + 1 + w))
    } else {
        None
    }
}

/// An output as it stands in a transaction.
pub open spec fn out_bytes(o: TxOutView) -> Seq<u8> {
    le_bytes(o.value as nat, 8) + varint(o.script.len()) + o.script
}

/// Outputs one after another.
pub open spec fn outs_bytes(outs: Seq<TxOutView>) -> Seq<u8>
    decreases outs.len(),
{
    if outs.len() == 0 {
        Seq::empty()
    } else {
        out_bytes(outs[0]) + outs_bytes(outs.drop_first())
    }
}

/// The outpoint of a coinbase input.
pub open spec fn null_outpoint() -> Seq<u8> {
    zeros(32) + Seq::new(4, |i: int| 0xffu8)
}

/// The transaction in its legacy form.
pub open spec fn coinbase_bytes_of(c: CoinbaseView) -> Seq<u8> {
    le_bytes(c.version as nat, 4) + (varint(1) + (null_outpoint() + (varint(c.script_sig.len()) + (
    c.script_sig + (le_bytes(c.sequence as nat, 4) + (varint(c.outputs.len()) + (outs_bytes(
        c.outputs,
    ) + le_bytes(c.lock_time as nat, 4))))))))
}

/// Lengths that a transaction can state.
pub open spec fn encodable(c: CoinbaseView) -> bool {
    &&& c.script_sig.len() <= u64::MAX
    &&& c.outputs.len() <= u64::MAX
    &&& forall|i: int| 0 <= i < c.outputs.len() ==> (#[trigger] c.outputs[i]).script.len() <= u64::MAX
}

/// Reads one output: the output and the bytes it took.
pub open spec fn read_out(s: Seq<u8>) -> Option<(TxOutView, nat)> {
    if s.len() < 8 {
        None
    } else {
        match read_varint(s.skip(8)) {
            None => None,
            Some((n, l)) => if s.len() < 8 + l + n {
                None
            } else {
                Some(
                    (
                        TxOutView {
                            value: le_nat(s.take(8)) as u64,
                            script: s.subrange(8 + l as int, 8 + l + n as int),
                        },
                        8 + l + n,
                    ),
                )
            },
        }
    }
}

/// Reads `n` outputs: the outputs and the bytes they took.
pub open spec fn read_outs(s: Seq<u8>, n: nat) -> Option<(Seq<TxOutView>, nat)>
    decreases n,
{
    if n == 0 {
        Some((Seq::empty(), 0))
    } else {
        match read_out(s) {
            None => None,
            Some((o, l)) => match read_outs(s.skip(l as int), (n - 1) as nat) {
                None => None,
                Some((rest, m)) => Some((seq![o] + rest, l + m)),
            },
        }
    }
}

/// Reads a legacy coinbase transaction that takes up the whole string.
pub open spec fn read_coinbase(s: Seq<u8>) -> Option<CoinbaseView> {
    if s.len() < 41 || s[4] != 1 || s.subrange(5, 41) != null_outpoint() {
        None
    } else {
        match read_varint(s.skip(41)) {
            None => None,
            Some((n, l)) => {
                let at: int = 41int + l;
                if s.len() < at + n + 4 {
                    None
                } else {
                    match read_varint(s.skip(at + n + 4)) {
                        None => None,
                        Some((k, m)) => {
                            let from: int = at + n + 4 + m;
                            match read_outs(s.skip(from as int), k) {
                                None => None,
                                Some((outputs, taken)) => if s.len() != from + taken + 4 {
                                    None
                                } else {
                                    Some(
                                        CoinbaseView {
                                            version: le_nat(s.take(4)) as u32,
                                            script_sig: s.subrange(at as int, at + n),
                                            sequence: le_nat(
                                                s.subrange(at + n, at + n + 4),
                                            ) as u32,
                                            outputs,
                                            lock_time: le_nat(s.skip(from + taken)) as u32,
                                        },
                                    )
                                },
                            }
                        },
                    }
                }
            },
        }
    }
}

proof fn lemma_out_round_trip(o: TxOutView, rest: Seq<u8>)
    requires
        o.script.len() <= u64::MAX,
    ensures
        read_out(out_bytes(o) + rest) == Some((o, out_bytes(o).len())),
{
    let s = out_bytes(o) + rest;
    lemma_le_bytes_len(o.value as nat, 8);
    lemma_pow_256(8);
    lemma_le_nat_of_bytes(o.value as nat, 8);
    assert(s.take(8) =~= le_bytes(o.value as nat, 8));
    lemma_varint_round_trip(o.script.len(), o.script + rest);
    assert(s.skip(8) =~= varint(o.script.len()) + (o.script + rest));
    let l = varint(o.script.len()).len();
    assert(s.subrange(8 + l as int, 8 + l + o.script.len() as int) =~= o.script);
}

proof fn lemma_out_unique(s: Seq<u8>)
    ensures
        read_out(s) matches Some((o, len)) ==> 8 < len <= s.len() && o.script.len() <= u64::MAX
            && s.take(len as int) == out_bytes(o),
{
    if let Some((o, len)) = read_out(s) {
        lemma_varint_unique(s.skip(8));
        let (n, l) = read_varint(s.skip(8)).unwrap();
        lemma_le_bytes_of_nat(s.take(8));
        lemma_le_nat_bound(s.take(8));
        lemma_pow_256(8);
        assert(s.skip(8).take(l as int) =~= s.subrange(8, 8 + l as int));
        assert(s.take(len as int) =~= s.take(8) + s.subrange(8, 8 + l as int) + s.subrange(
            8 + l as int,
            8 + l + n as int,
        ));
        assert(o.script.len() == n);
    }
}

proof fn lemma_outs_round_trip(outs: Seq<TxOutView>, rest: Seq<u8>)
    requires
        forall|i: int| 0 <= i < outs.len() ==> (#[trigger] outs[i]).script.len() <= u64::MAX,
    ensures
        read_outs(outs_bytes(outs) + rest, outs.len()) == Some((outs, outs_bytes(outs).len())),
    decreases outs.len(),
{
    if outs.len() > 0 {
        let tail = outs.drop_first();
        let s = outs_bytes(outs) + rest;
        lemma_out_round_trip(outs[0], outs_bytes(tail) + rest);
        assert(s =~= out_bytes(outs[0]) + (outs_bytes(tail) + rest));
        let l = out_bytes(outs[0]).len();
        assert(s.skip(l as int) =~= outs_bytes(tail) + rest);
        lemma_outs_round_trip(tail, rest);
        assert(seq![outs[0]] + tail =~= outs);
    } else {
        assert(outs =~= Seq::empty());
    }
}

proof fn lemma_outs_unique(s: Seq<u8>, n: nat)
    ensures
        read_outs(s, n) matches Some((outs, len)) ==> len <= s.len() && outs.len() == n && s.take(
            len as int,
        ) == outs_bytes(outs) && forall|i: int|
            0 <= i < n ==> (#[trigger] outs[i]).script.len() <= u64::MAX,
    decreases n,
{
    if n > 0 {
        if let Some((outs, len)) = read_outs(s, n) {
            lemma_out_unique(s);
            let (o, l) = read_out(s).unwrap();
            lemma_outs_unique(s.skip(l as int), (n - 1) as nat);
            let (rest, m) = read_outs(s.skip(l as int), (n - 1) as nat).unwrap();
            assert(outs.drop_first() =~= rest);
            assert(s.take(len as int) =~= s.take(l as int) + s.skip(l as int).take(m as int));
            assert forall|i: int| 0 <= i < n implies (#[trigger] outs[i]).script.len()
                <= u64::MAX by {
                if i > 0 {
                    assert(outs[i] == rest[i - 1]);
                }
            }
        }
    } else {
        assert(s.take(0) =~= Seq::empty());
    }
}

/// A field at `n` is what stands there, and the rest follows it.
proof fn lemma_field(s: Seq<u8>, n: int, x: Seq<u8>, y: Seq<u8>)
    requires
        0 <= n <= s.len(),
        s.skip(n) == x + y,
    ensures
        n + x.len() + y.len() == s.len(),
        s.subrange(n, n + x.len()) == x,
        s.skip(n + x.len()) == y,
{
    let r = s.skip(n);
    assert(r.len() == s.len() - n);
    assert(s.subrange(n, n + x.len()) =~= x) by {
        assert forall|i: int| 0 <= i < x.len() implies s[n + i] == x[i] by {
            assert(r[i] == s[n + i]);
        }
    }
    assert(s.skip(n + x.len()) =~= y) by {
        assert forall|i: int| 0 <= i < y.len() implies s[n + x.len() + i] == y[i] by {
            assert(r[x.len() + i] == s[n + x.len() + i]);
        }
    }
}

/// A transaction whose fields stand in their places is read as those fields.
proof fn lemma_read_fields(c: CoinbaseView, s: Seq<u8>, l: nat, m: nat, taken: nat)
    requires
        s.len() == 41 + l + c.script_sig.len() + 4 + m + taken + 4,
        s.subrange(0, 4) == le_bytes(c.version as nat, 4),
        s[4] == 1,
        s.subrange(5, 41) == null_outpoint(),
        read_varint(s.skip(41)) == Some((c.script_sig.len(), l)),
        s.subrange(41 + l as int, 41 + l + c.script_sig.len() as int) == c.script_sig,
        s.subrange(
            41 + l + c.script_sig.len() as int,
            41 + l + c.script_sig.len() + 4 as int,
        ) == le_bytes(c.sequence as nat, 4),
        read_varint(s.skip(41 + l + c.script_sig.len() + 4 as int)) == Some(
            (c.outputs.len(), m),
        ),
        read_outs(
            s.skip(41 + l + c.script_sig.len() + 4 + m as int),
            c.outputs.len(),
        ) == Some((c.outputs, taken)),
        s.skip(41 + l + c.script_sig.len() + 4 + m + taken as int) == le_bytes(
            c.lock_time as nat,
            4,
        ),
    ensures
        read_coinbase(s) == Some(c),
{
    lemma_pow_256(4);
    lemma_le_nat_of_bytes(c.version as nat, 4);
    lemma_le_nat_of_bytes(c.sequence as nat, 4);
    lemma_le_nat_of_bytes(c.lock_time as nat, 4);
    assert(s.take(4) == s.subrange(0, 4));
    let r = read_coinbase(s).unwrap();
    assert(r.version == c.version);
    assert(r.sequence == c.sequence);
    assert(r.lock_time == c.lock_time);
}

/// A coinbase that was written is read back as it was.
#[verifier::spinoff_prover]
#[verifier::rlimit(40)]
pub proof fn lemma_coinbase_round_trip(c: CoinbaseView)
    requires
        encodable(c),
    ensures
        read_coinbase(coinbase_bytes_of(c)) == Some(c),
{
    let s = coinbase_bytes_of(c);
    let a = le_bytes(c.version as nat, 4);
    let v1 = varint(1);
    let n = c.script_sig.len();
    let v2 = varint(n);
    let q = le_bytes(c.sequence as nat, 4);
    let v3 = varint(c.outputs.len());
    let o = outs_bytes(c.outputs);
    let t = le_bytes(c.lock_time as nat, 4);
    lemma_le_bytes_len(c.version as nat, 4);
    lemma_le_bytes_len(c.sequence as nat, 4);
    lemma_le_bytes_len(c.lock_time as nat, 4);
    assert(v1 =~= seq![1u8]) by {
        lemma_le_bytes_len(0, 0);
    }
    let t7 = o + t;
    let t6 = v3 + t7;
    let t5 = q + t6;
    let t4 = c.script_sig + t5;
    let t3 = v2 + t4;
    let t2 = null_outpoint() + t3;
    let t1 = v1 + t2;
    let at: int = 41int + v2.len();
    let from: int = at + n + 4 + v3.len();
    assert(s.skip(0) =~= s);
    lemma_field(s, 0, a, t1);
    lemma_field(s, 4, v1, t2);
    assert(s[4] == s.subrange(4, 5)[0]);
    lemma_field(s, 5, null_outpoint(), t3);
    lemma_field(s, 41, v2, t4);
    lemma_field(s, at, c.script_sig, t5);
    lemma_field(s, at + n, q, t6);
    lemma_field(s, at + n + 4, v3, t7);
    lemma_field(s, from, o, t);
    lemma_varint_round_trip(n, t4);
    lemma_varint_round_trip(c.outputs.len(), t7);
    lemma_outs_round_trip(c.outputs, t);
    lemma_read_fields(c, s, v2.len(), v3.len(), o.len());
}

/// The rest of a string is its next field and what follows that.
proof fn lemma_split(s: Seq<u8>, n: int, m: int)
    requires
        0 <= n <= m <= s.len(),
    ensures
        s.skip(n) == s.subrange(n, m) + s.skip(m),
        s.skip(n).take(m - n) == s.subrange(n, m),
{
    assert(s.skip(n) =~= s.subrange(n, m) + s.skip(m));
    assert(s.skip(n).take(m - n) =~= s.subrange(n, m));
}

/// A string is its fields one after another.
proof fn lemma_pieces(s: Seq<u8>, at: int, n: int, from: int, end: int)
    requires
        41 <= at,
        0 <= n,
        at + n + 4 <= from <= end <= s.len(),
    ensures
        s == s.subrange(0, 4) + (s.subrange(4, 5) + (s.subrange(5, 41) + (s.subrange(41, at) + (
        s.subrange(at, at + n) + (s.subrange(at + n, at + n + 4) + (s.subrange(at + n + 4, from) + (
        s.subrange(from, end) + s.skip(end)))))))),
        s.skip(41).take(at - 41) == s.subrange(41, at),
        s.skip(at + n + 4).take(from - (at + n + 4)) == s.subrange(at + n + 4, from),
        s.skip(from).take(end - from) == s.subrange(from, end),
{
    lemma_split(s, 0, 4);
    lemma_split(s, 4, 5);
    lemma_split(s, 5, 41);
    lemma_split(s, 41, at);
    lemma_split(s, at, at + n);
    lemma_split(s, at + n, at + n + 4);
    lemma_split(s, at + n + 4, from);
    lemma_split(s, from, end);
    assert(s.skip(0) =~= s);
}

/// A coinbase that is read is written back byte for byte.
#[verifier::spinoff_prover]
#[verifier::rlimit(40)]
pub proof fn lemma_coinbase_unique(s: Seq<u8>)
    ensures
        read_coinbase(s) matches Some(c) ==> encodable(c) && coinbase_bytes_of(c) == s,
{
    if let Some(c) = read_coinbase(s) {
        let (n, l) = read_varint(s.skip(41)).unwrap();
        let at: int = 41int + l;
        let (k, m) = read_varint(s.skip(at + n + 4)).unwrap();
        let from: int = at + n + 4 + m;
        let (outputs, taken) = read_outs(s.skip(from), k).unwrap();
        lemma_varint_unique(s.skip(41));
        lemma_varint_unique(s.skip(at + n + 4));
        lemma_outs_unique(s.skip(from), k);
        lemma_pow_256(4);
        let end = from + taken;
        lemma_four_bytes(s.take(4));
        lemma_four_bytes(s.subrange(at + n, at + n + 4));
        lemma_four_bytes(s.skip(end));
        lemma_pieces(s, at, n as int, from, end as int);
        assert(s.take(4) =~= s.subrange(0, 4));
        assert(varint(1) =~= s.subrange(4, 5)) by {
            lemma_le_bytes_len(0, 0);
        }
    }
}

/// Four bytes are the bytes of the 32-bit number they stand for.
proof fn lemma_four_bytes(s: Seq<u8>)
    requires
        s.len() == 4,
    ensures
        le_bytes((le_nat(s) as u32) as nat, 4) == s,
{
    lemma_pow_256(4);
    lemma_le_nat_bound(s);
    lemma_le_bytes_of_nat(s);
}

/// Why bytes are not a coinbase transaction.
#[derive(Clone, Copy, Debug, PartialEq, Eq)]
pub enum ParseError {
    /// Not one input that spends nothing.
    NotACoinbase,
    /// Ends early, goes on after its end, or states a length in a long form.
    Malformed,
}

/// Reads a legacy coinbase transaction.
pub fn parse(b: &[u8]) -> (r: Result<Coinbase, ParseError>)
    ensures
        r.is_ok() == read_coinbase(b@).is_some(),
        r matches Ok(c) ==> c.wf() && read_coinbase(b@) == Some(c@),
        r == Err::<Coinbase, ParseError>(ParseError::NotACoinbase) <==> (b@.len() < 41 || b@[4] != 1
            || b@.subrange(5, 41) != null_outpoint()),
{
    let len: usize = b.len();
    if len < 41 {
        return Err(ParseError::NotACoinbase);
    }
    let mut null: Vec<u8> = Vec::new();
    push_zeros(&mut null, 32);
    push_le(&mut null, 0xffff_ffff, 4);
    proof {
        let ones = Seq::new(4, |i: int| 0xffu8);
        lemma_le_bytes_of_nat(ones);
        assert(le_nat(ones) == 0xffff_ffff) by {
            reveal_with_fuel(le_nat, 5);
            assert(ones.drop_first().drop_first().drop_first().drop_first() =~= Seq::empty());
        }
        assert(null@ =~= null_outpoint());
    }
    let prev: Vec<u8> = slice_of(b, 5, 41);
    if b[4] != 1 || !bytes_eq(prev.as_slice(), null.as_slice()) {
        return Err(ParseError::NotACoinbase);
    }
    let (n, at) = match varint_at(b, 41) {
        None => {
            return Err(ParseError::Malformed);
        },
        Some(x) => x,
    };
    if n > (len - at) as u64 || ((len - at) as u64 - n) < 4 {
        return Err(ParseError::Malformed);
    }
    let sig_end: usize = at + n as usize;
    let script_sig: Vec<u8> = slice_of(b, at, sig_end);
    let sequence: u64 = read_le(b, sig_end, 4);
    let (k, from) = match varint_at(b, sig_end + 4) {
        None => {
            return Err(ParseError::Malformed);
        },
        Some(x) => x,
    };
    let (outputs, end) = match outputs_at(b, from, k) {
        None => {
            return Err(ParseError::Malformed);
        },
        Some(x) => x,
    };
    if len - end != 4 {
        return Err(ParseError::Malformed);
    }
    let version: u64 = read_le(b, 0, 4);
    let lock_time: u64 = read_le(b, end, 4);
    proof {
        lemma_pow_256(4);
        lemma_le_nat_bound(b@.subrange(0, 4));
        lemma_le_nat_bound(b@.subrange(sig_end as int, sig_end + 4));
        lemma_le_nat_bound(b@.subrange(end as int, end + 4));
        assert(b@.subrange(0, 4) =~= b@.take(4));
        assert(b@.subrange(end as int, end + 4) =~= b@.skip(end as int));
    }
    let height: Option<u32> = height_of(script_sig.as_slice());
    Ok(
        Coinbase {
            version: version as u32,
            script_sig,
            sequence: sequence as u32,
            outputs,
            lock_time: lock_time as u32,
            height,
        },
    )
}

/// Reads `k` outputs at `from`: the outputs and where they end.
fn outputs_at(b: &[u8], from: usize, k: u64) -> (r: Option<(Vec<TxOut>, usize)>)
    requires
        from <= b@.len(),
    ensures
        r.is_some() == read_outs(b@.skip(from as int), k as nat).is_some(),
        r matches Some((outs, end)) ==> from <= end <= b@.len() && read_outs(
            b@.skip(from as int),
            k as nat,
        ) == Some((outs_view(outs@), (end - from) as nat)),
{
    let len: usize = b.len();
    let mut outs: Vec<TxOut> = Vec::new();
    let mut at: usize = from;
    let mut i: u64 = 0;
    let ghost whole = read_outs(b@.skip(from as int), k as nat);
    proof {
        if let Some((rest, m)) = whole {
            assert(outs_view(outs@) + rest =~= rest);
        }
    }
    while i < k
        invariant
            i <= k,
            from <= at <= len,
            len == b@.len(),
            whole == read_outs(b@.skip(from as int), k as nat),
            match read_outs(b@.skip(at as int), (k - i) as nat) {
                None => whole.is_none(),
                Some((rest, m)) => whole == Some((outs_view(outs@) + rest, (at - from + m) as nat)),
            },
        decreases k - i,
    {
        let ghost s = b@.skip(at as int);
        if len - at < 8 {
            return None;
        }
        assert(s.skip(8) =~= b@.skip(at + 8));
        let (n, start) = match varint_at(b, at + 8) {
            None => {
                return None;
            },
            Some(x) => x,
        };
        if n > (len - start) as u64 {
            return None;
        }
        let end: usize = start + n as usize;
        let value: u64 = read_le(b, at, 8);
        let script: Vec<u8> = slice_of(b, start, end);
        let ghost before = outs_view(outs@);
        outs.push(TxOut { value, script });
        proof {
            assert(s.take(8) =~= b@.subrange(at as int, at + 8));
            assert(s.subrange(start - at, end - at) =~= b@.subrange(start as int, end as int));
            let o = outs@.last()@;
            assert(read_out(s) == Some((o, (end - at) as nat)));
            assert(s.skip(end - at) =~= b@.skip(end as int));
            assert(outs_view(outs@) =~= before.push(o));
            if let Some((rest, m)) = read_outs(b@.skip(end as int), (k - i - 1) as nat) {
                assert(before + (seq![o] + rest) =~= outs_view(outs@) + rest);
            }
        }
        at = end;
        i = i + 1;
    }
    proof {
        assert(outs_view(outs@) + Seq::<TxOutView>::empty() =~= outs_view(outs@));
    }
    Some((outs, at))
}

/// Whether a script commits to the block's witnesses.
pub open spec fn is_witness_commitment(script: Seq<u8>) -> bool {
    script.len() >= 38 && script.take(6) == seq![0x6au8, 0x24, 0xaa, 0x21, 0xa9, 0xed]
}

/// Whether any output commits to the block's witnesses.
pub open spec fn commits_to_witnesses(outs: Seq<TxOutView>) -> bool {
    exists|i: int| 0 <= i < outs.len() && is_witness_commitment((#[trigger] outs[i]).script)
}

/// The coinbase in the form a block carries: with the witness marker and the 32-byte reserved
/// value when an output commits to witnesses, else as it is.
pub open spec fn block_form(legacy: Seq<u8>, outs: Seq<TxOutView>) -> Seq<u8> {
    if commits_to_witnesses(outs) {
        legacy.take(4) + seq![0u8, 1u8] + legacy.subrange(4, legacy.len() - 4) + seq![1u8, 32u8]
            + zeros(32) + legacy.skip(legacy.len() - 4)
    } else {
        legacy
    }
}

/// Puts a coinbase in the form a block carries.
pub fn with_witness(legacy: &[u8], cb: &Coinbase) -> (v: Vec<u8>)
    requires
        legacy@.len() >= 8,
    ensures
        v@ == block_form(legacy@, cb@.outputs),
{
    let mut i: usize = 0;
    let mut found: bool = false;
    let prefix: [u8; 6] = [0x6a, 0x24, 0xaa, 0x21, 0xa9, 0xed];
    assert(prefix@ =~= seq![0x6au8, 0x24, 0xaa, 0x21, 0xa9, 0xed]);
    let ghost outs = cb@.outputs;
    while i < cb.outputs.len()
        invariant
            i <= cb.outputs@.len(),
            outs == outs_view(cb.outputs@),
            prefix@ == seq![0x6au8, 0x24, 0xaa, 0x21, 0xa9, 0xed],
            found == exists|j: int| 0 <= j < i && is_witness_commitment((#[trigger] outs[j]).script),
        decreases cb.outputs@.len() - i,
    {
        let script: &Vec<u8> = &cb.outputs[i].script;
        assert(outs[i as int].script == script@);
        if script.len() >= 38 {
            let head: Vec<u8> = slice_of(script.as_slice(), 0, 6);
            assert(head@ =~= script@.take(6));
            if bytes_eq(head.as_slice(), prefix.as_slice()) {
                found = true;
                assert(is_witness_commitment(outs[i as int].script));
            }
        }
        i = i + 1;
    }
    let mut v: Vec<u8> = Vec::new();
    if found {
        let len: usize = legacy.len();
        let head: Vec<u8> = slice_of(legacy, 0, 4);
        let body: Vec<u8> = slice_of(legacy, 4, len - 4);
        let tail: Vec<u8> = slice_of(legacy, len - 4, len);
        push_bytes(&mut v, head.as_slice());
        v.push(0);
        v.push(1);
        push_bytes(&mut v, body.as_slice());
        v.push(1);
        v.push(32);
        push_zeros(&mut v, 32);
        push_bytes(&mut v, tail.as_slice());
        assert(tail@ =~= legacy@.skip(len - 4));
        assert(head@ =~= legacy@.take(4));
        assert(v@ =~= block_form(legacy@, outs));
    } else {
        push_bytes(&mut v, legacy);
        assert(v@ =~= legacy@);
    }
    v
}

/// One more output adds its value to what the outputs are worth, and to what they pay its own
/// script and no other.
pub proof fn lemma_one_more_output(outs: Seq<TxOutView>, o: TxOutView, script: Seq<u8>)
    ensures
        total_value(Seq::empty()) == 0,
        paid_to_script(Seq::empty(), script) == 0,
        total_value(outs) + o.value <= u64::MAX ==> total_value(outs.push(o)) == total_value(outs)
            + o.value,
        total_value(outs) + o.value > u64::MAX ==> total_value(outs.push(o)) == u64::MAX,
        o.script != script ==> paid_to_script(outs.push(o), script) == paid_to_script(outs, script),
        o.script == script && paid_to_script(outs, script) + o.value <= u64::MAX
            ==> paid_to_script(outs.push(o), script) == paid_to_script(outs, script) + o.value,
        o.script == script && paid_to_script(outs, script) + o.value > u64::MAX
            ==> paid_to_script(outs.push(o), script) == u64::MAX,
{
    assert(outs.push(o).drop_last() =~= outs);
}

/// What outputs pay a script is part of what they are worth: all of it where every output pays
/// that script, none where none does.
pub proof fn lemma_paid_is_part_of_the_value(outs: Seq<TxOutView>, script: Seq<u8>)
    ensures
        paid_to_script(outs, script) <= total_value(outs),
        (forall|i: int| 0 <= i < outs.len() ==> (#[trigger] outs[i]).script == script)
            ==> paid_to_script(outs, script) == total_value(outs),
        (forall|i: int| 0 <= i < outs.len() ==> (#[trigger] outs[i]).script != script)
            ==> paid_to_script(outs, script) == 0,
        forall|i: int|
            0 <= i < outs.len() ==> (#[trigger] outs[i]).value <= total_value(outs) && (
            outs[i].script == script ==> outs[i].value <= paid_to_script(outs, script)),
    decreases outs.len(),
{
    if outs.len() > 0 {
        let r = outs.drop_last();
        let n = outs.len() - 1;
        assert forall|i: int| 0 <= i < n implies (#[trigger] outs[i]) == r[i] by {}
        assert forall|i: int| 0 <= i < r.len() implies (#[trigger] r[i]) == outs[i] by {}
        lemma_paid_is_part_of_the_value(r, script);
        assert(outs[n] == outs.last());
    }
}

/// The coinbase a share hashed, byte by byte: the first half, twelve zero bytes and the second
/// half, or the first half alone where the second is empty; but for the target byte, which stands
/// at its index.
pub proof fn lemma_assembled_bytes(coinb1: Seq<u8>, coinb2: Seq<u8>, target_index: int, pot: u8)
    requires
        target_index >= 0,
    ensures
        ({
            let b = assembled(coinb1, coinb2, target_index, pot);
            let n = coinb1.len() as int;
            &&& coinb2.len() == 0 ==> b.len() == n
            &&& coinb2.len() > 0 ==> b.len() == n + 12 + coinb2.len()
            &&& target_index < b.len() ==> b[target_index] == pot
            &&& forall|i: int| 0 <= i < n && i != target_index ==> #[trigger] b[i] == coinb1[i]
            &&& forall|i: int|
                n <= i < n + 12 && i < b.len() && i != target_index ==> #[trigger] b[i] == 0
            &&& forall|i: int|
                0 <= i < coinb2.len() && i + n + 12 != target_index ==> b[i + n + 12]
                    == #[trigger] coinb2[i]
        }),
{
    let b = assembled(coinb1, coinb2, target_index, pot);
    let n = coinb1.len() as int;
    assert forall|i: int| 0 <= i < coinb2.len() && i + n + 12 != target_index implies b[i + n + 12]
        == #[trigger] coinb2[i] by {}
}

/// A count below 253 is one byte; a larger one is a marker and its bytes, two, four or eight of
/// them, least significant first.
pub proof fn lemma_varint_forms(n: nat)
    requires
        n <= u64::MAX,
    ensures
        n < 253 ==> varint(n) == seq![n as u8],
        253 <= n < 0x1_0000 ==> varint(n).len() == 3 && varint(n)[0] == 0xfd && le_nat(
            varint(n).skip(1),
        ) == n,
        0x1_0000 <= n < 0x1_0000_0000 ==> varint(n).len() == 5 && varint(n)[0] == 0xfe && le_nat(
            varint(n).skip(1),
        ) == n,
        0x1_0000_0000 <= n ==> varint(n).len() == 9 && varint(n)[0] == 0xff && le_nat(
            varint(n).skip(1),
        ) == n,
{
    let v = varint(n);
    if n < 0xfd {
        assert(le_bytes(n / 256, 0) =~= Seq::empty());
        assert(v =~= seq![n as u8]);
    } else {
        let w: nat = if n < 0x1_0000 {
            2
        } else if n < 0x1_0000_0000 {
            4
        } else {
            8
        };
        lemma_le_bytes_len(n, w);
        lemma_pow_256(w);
        lemma_le_nat_of_bytes(n, w);
        assert(v.skip(1) =~= le_bytes(n, w));
    }
}

/// Where the fields of a coinbase transaction stand: the version, one input that spends nothing,
/// the input script behind its length, the sequence, the outputs behind their number, and the lock
/// time. An output is its value, the length of its script and the script.
pub proof fn lemma_coinbase_layout(c: CoinbaseView)
    ensures
        ({
            let b = coinbase_bytes_of(c);
            let at = 41 + varint(c.script_sig.len()).len() as int;
            let end = at + c.script_sig.len();
            let outs = end + 4 + varint(c.outputs.len()).len() as int;
            &&& le_nat(b.subrange(0, 4)) == c.version
            &&& b[4] == 1
            &&& forall|i: int| 5 <= i < 37 ==> #[trigger] b[i] == 0
            &&& forall|i: int| 37 <= i < 41 ==> #[trigger] b[i] == 0xff
            &&& b.subrange(41, at) == varint(c.script_sig.len())
            &&& b.subrange(at, end) == c.script_sig
            &&& le_nat(b.subrange(end, end + 4)) == c.sequence
            &&& b.subrange(end + 4, outs) == varint(c.outputs.len())
            &&& b.subrange(outs, b.len() - 4) == outs_bytes(c.outputs)
            &&& le_nat(b.skip(b.len() - 4)) == c.lock_time
        }),
{
    let b = coinbase_bytes_of(c);
    let v = le_bytes(c.version as nat, 4);
    let q = le_bytes(c.sequence as nat, 4);
    let l = le_bytes(c.lock_time as nat, 4);
    let sl = varint(c.script_sig.len());
    let ol = varint(c.outputs.len());
    let ob = outs_bytes(c.outputs);
    lemma_le_bytes_len(c.version as nat, 4);
    lemma_le_bytes_len(c.sequence as nat, 4);
    lemma_le_bytes_len(c.lock_time as nat, 4);
    lemma_pow_256(4);
    lemma_le_nat_of_bytes(c.version as nat, 4);
    lemma_le_nat_of_bytes(c.sequence as nat, 4);
    lemma_le_nat_of_bytes(c.lock_time as nat, 4);
    lemma_varint_forms(1);
    let at = 41 + sl.len() as int;
    let end = at + c.script_sig.len();
    let outs = end + 4 + ol.len() as int;
    assert(b.len() == outs + ob.len() + 4);
    assert(b.subrange(0, 4) =~= v);
    assert(b[4] == varint(1)[0]);
    assert forall|i: int| 5 <= i < 37 implies #[trigger] b[i] == 0 by {
        assert(b[i] == null_outpoint()[i - 5]);
    }
    assert forall|i: int| 37 <= i < 41 implies #[trigger] b[i] == 0xff by {
        assert(b[i] == null_outpoint()[i - 5]);
    }
    assert(b.subrange(41, at) =~= sl);
    assert(b.subrange(at, end) =~= c.script_sig);
    assert(b.subrange(end, end + 4) =~= q);
    assert(b.subrange(end + 4, outs) =~= ol);
    assert(b.subrange(outs, b.len() - 4) =~= ob);
    assert(b.skip(b.len() - 4) =~= l);
}

/// Outputs stand one after another, each as its value, the length of its script and the script.
pub proof fn lemma_outputs_layout(o: TxOutView, rest: Seq<TxOutView>)
    ensures
        outs_bytes(Seq::empty()) == Seq::<u8>::empty(),
        ({
            let b = outs_bytes(seq![o] + rest);
            let at = 8 + varint(o.script.len()).len() as int;
            &&& le_nat(b.take(8)) == o.value
            &&& b.subrange(8, at) == varint(o.script.len())
            &&& b.subrange(at, at + o.script.len()) == o.script
            &&& b.skip(at + o.script.len()) == outs_bytes(rest)
        }),
{
    let b = outs_bytes(seq![o] + rest);
    let at = 8 + varint(o.script.len()).len() as int;
    lemma_le_bytes_len(o.value as nat, 8);
    lemma_pow_256(8);
    lemma_le_nat_of_bytes(o.value as nat, 8);
    assert((seq![o] + rest).drop_first() =~= rest);
    assert(b.take(8) =~= le_bytes(o.value as nat, 8));
    assert(b.subrange(8, at) =~= varint(o.script.len()));
    assert(b.subrange(at, at + o.script.len()) =~= o.script);
    assert(b.skip(at + o.script.len()) =~= outs_bytes(rest));
}

/// The height at the start of an input script: 1 to 16 as an opcode, any other as a push of one to
/// four bytes, least significant first, whatever follows. Other scripts state none.
pub proof fn lemma_script_heights(k: u8, b: Seq<u8>, rest: Seq<u8>)
    requires
        1 <= k <= 16,
        1 <= b.len() <= 4,
    ensures
        script_height(seq![(0x50 + k) as u8] + rest) == Some(k as u32),
        script_height(seq![b.len() as u8] + b + rest) == Some(le_nat(b) as u32),
        le_nat(b) <= u32::MAX,
        script_height(Seq::empty()).is_none(),
        script_height(seq![0u8] + rest).is_none(),
        script_height(seq![b.len() as u8] + b.drop_last()).is_none(),
{
    let s = seq![b.len() as u8] + b + rest;
    assert(s.subrange(1, 1 + s[0]) =~= b);
    lemma_le_nat_bound(b);
    lemma_pow_256(b.len());
}

/// A coinbase without a witness commitment goes into a block as it is. One with a commitment gets
/// the marker behind its version and the reserved value before its lock time: without those it is
/// what it was.
pub proof fn lemma_block_form(legacy: Seq<u8>, outs: Seq<TxOutView>)
    requires
        legacy.len() >= 8,
    ensures
        ({
            let b = block_form(legacy, outs);
            let n = legacy.len() as int;
            let committed = exists|i: int|
                0 <= i < outs.len() && is_witness_commitment((#[trigger] outs[i]).script);
            &&& !committed ==> b == legacy
            &&& committed ==> {
                &&& b.len() == n + 36
                &&& b[4] == 0 && b[5] == 1
                &&& b[n - 2] == 1 && b[n - 1] == 32
                &&& forall|i: int| n <= i < n + 32 ==> #[trigger] b[i] == 0
                &&& b.take(4) + b.subrange(6, n - 2) + b.skip(n + 32) == legacy
            }
        }),
{
    let b = block_form(legacy, outs);
    let n = legacy.len() as int;
    if commits_to_witnesses(outs) {
        assert(b.take(4) + b.subrange(6, n - 2) + b.skip(n + 32) =~= legacy);
    }
}

/// A witness commitment is an output that carries data, 36 bytes of it, which begin with
/// `aa21a9ed`.
pub proof fn lemma_witness_commitments(script: Seq<u8>)
    ensures
        is_witness_commitment(script) <==> script.len() >= 38 && script[0] == 0x6a && script[1]
            == 36 && script[2] == 0xaa && script[3] == 0x21 && script[4] == 0xa9 && script[5]
            == 0xed,
        is_data_script(script) <==> script.len() > 0 && script[0] == 0x6a,
{
    let head = seq![0x6au8, 0x24, 0xaa, 0x21, 0xa9, 0xed];
    if script.len() >= 38 {
        assert forall|i: int| 0 <= i < 6 implies script.take(6)[i] == script[i] by {}
        if script[0] == 0x6a && script[1] == 36 && script[2] == 0xaa && script[3] == 0x21
            && script[4] == 0xa9 && script[5] == 0xed {
            assert(script.take(6) =~= head);
        }
        if script.take(6) == head {
            assert(script.take(6)[0] == 0x6a && script.take(6)[1] == 36 && script.take(6)[2] == 0xaa
                && script.take(6)[3] == 0x21 && script.take(6)[4] == 0xa9 && script.take(6)[5]
                == 0xed);
        }
    }
}

} // verus!
