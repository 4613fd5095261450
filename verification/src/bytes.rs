//! Byte strings: little-endian integers, comparison, concatenation.

use vstd::arithmetic::power::{lemma_pow0, lemma_pow1, lemma_pow_adds, lemma_pow_positive, pow};
use vstd::prelude::*;

verus! {

/// A 32-byte digest or target, least significant byte first.
pub type Hash32 = [u8; 32];

/// The number a byte string stands for, least significant byte first.
pub open spec fn le_nat(s: Seq<u8>) -> nat
    decreases s.len(),
{
    if s.len() == 0 {
        0
    } else {
        s[0] as nat + 256 * le_nat(s.drop_first())
    }
}

/// The `len` least significant bytes of `n`, least significant first.
pub open spec fn le_bytes(n: nat, len: nat) -> Seq<u8>
    decreases len,
{
    if len == 0 {
        Seq::empty()
    } else {
        seq![(n % 256) as u8] + le_bytes(n / 256, (len - 1) as nat)
    }
}

/// A string of `len` zero bytes.
pub open spec fn zeros(len: nat) -> Seq<u8> {
    Seq::new(len, |i: int| 0u8)
}

pub proof fn lemma_le_bytes_len(n: nat, len: nat)
    ensures
        le_bytes(n, len).len() == len,
    decreases len,
{
    if len > 0 {
        lemma_le_bytes_len(n / 256, (len - 1) as nat);
    }
}

/// Reading back the bytes of a number that fits gives the number.
pub proof fn lemma_le_nat_of_bytes(n: nat, len: nat)
    requires
        n < pow(256, len),
    ensures
        le_nat(le_bytes(n, len)) == n,
    decreases len,
{
    lemma_le_bytes_len(n, len);
    if len == 0 {
        lemma_pow0(256);
    } else {
        let m = (len - 1) as nat;
        lemma_pow_adds(256, 1, m);
        lemma_pow1(256);
        assert(n / 256 < pow(256, m));
        lemma_le_nat_of_bytes(n / 256, m);
        assert(le_bytes(n, len).drop_first() =~= le_bytes(n / 256, m));
    }
}

/// Writing the number of a byte string gives the byte string.
pub proof fn lemma_le_bytes_of_nat(s: Seq<u8>)
    ensures
        le_bytes(le_nat(s), s.len()) =~= s,
    decreases s.len(),
{
    if s.len() > 0 {
        let rest = s.drop_first();
        lemma_le_bytes_of_nat(rest);
        let n = le_nat(s);
        assert(n % 256 == s[0]);
        assert(n / 256 == le_nat(rest));
    }
}

/// A byte string of length `len` stands for a number below `256^len`.
pub proof fn lemma_le_nat_bound(s: Seq<u8>)
    ensures
        le_nat(s) < pow(256, s.len()),
    decreases s.len(),
{
    if s.len() == 0 {
        lemma_pow0(256);
    } else {
        lemma_le_nat_bound(s.drop_first());
        lemma_pow_adds(256, 1, (s.len() - 1) as nat);
        lemma_pow1(256);
    }
}

/// The most significant byte carries weight `256^(len-1)`.
pub proof fn lemma_le_nat_push(s: Seq<u8>, b: u8)
    ensures
        le_nat(s.push(b)) == le_nat(s) + b * pow(256, s.len()),
    decreases s.len(),
{
    if s.len() == 0 {
        lemma_pow0(256);
        assert(s.push(b).drop_first() =~= s);
        assert(le_nat(s.push(b)) == b + 256 * le_nat(s));
    } else {
        let rest = s.drop_first();
        lemma_le_nat_push(rest, b);
        assert(s.push(b).drop_first() =~= rest.push(b));
        lemma_pow_adds(256, 1, rest.len());
        lemma_pow1(256);
        let p = pow(256, rest.len());
        lemma_pow_positive(256, rest.len());
        assert(256 * (b * p) == b * (256 * p)) by (nonlinear_arith);
    }
}

/// Appends the `n` least significant bytes of `x`, least significant first.
pub fn push_le(out: &mut Vec<u8>, x: u64, n: usize)
    requires
        n <= 8,
    ensures
        final(out)@ == old(out)@ + le_bytes(x as nat, n as nat),
{
    let mut rest: u64 = x;
    let mut i: usize = 0;
    let ghost start = out@;
    while i < n
        invariant
            i <= n <= 8,
            start + le_bytes(x as nat, n as nat) =~= out@ + le_bytes(
                rest as nat,
                (n - i) as nat,
            ),
        decreases n - i,
    {
        let b: u8 = (rest % 256) as u8;
        assert(le_bytes(rest as nat, (n - i) as nat) =~= seq![b] + le_bytes(
            (rest / 256) as nat,
            (n - i - 1) as nat,
        ));
        out.push(b);
        rest = rest / 256;
        i = i + 1;
    }
}

/// Reads `n` bytes of `b` from `at` as a number, least significant first.
pub fn read_le(b: &[u8], at: usize, n: usize) -> (x: u64)
    requires
        n <= 8,
        at + n <= b@.len(),
    ensures
        x == le_nat(b@.subrange(at as int, at + n)),
{
    let mut x: u64 = 0;
    let mut i: usize = n;
    let end: usize = b.len();
    assert(b@.subrange(at + n, at + n) =~= Seq::<u8>::empty());
    while i > 0
        invariant
            i <= n <= 8,
            at + n <= b@.len() == end,
            x == le_nat(b@.subrange(at + i, at + n)),
        decreases i,
    {
        let ghost tail = b@.subrange(at + i, at + n);
        let ghost next = b@.subrange(at + i - 1, at + n);
        proof {
            assert(next.drop_first() =~= tail);
            lemma_le_nat_bound(next);
            lemma_pow_256(next.len());
        }
        i = i - 1;
        x = 256 * x + b[at + i] as u64;
    }
    x
}

pub proof fn lemma_pow_256(n: nat)
    requires
        n <= 8,
    ensures
        pow(256, n) <= 0x1_0000_0000_0000_0000,
        n <= 4 ==> pow(256, n) <= 0x1_0000_0000,
        n == 8 ==> pow(256, n) == 0x1_0000_0000_0000_0000,
        n == 4 ==> pow(256, n) == 0x1_0000_0000,
        n == 2 ==> pow(256, n) == 0x1_0000,
        n == 1 ==> pow(256, n) == 0x100,
{
    reveal(pow);
    reveal_with_fuel(pow, 9);
}

/// Whether two byte strings are the same.
pub fn bytes_eq(a: &[u8], b: &[u8]) -> (r: bool)
    ensures
        r == (a@ == b@),
{
    if a.len() != b.len() {
        return false;
    }
    let mut i: usize = 0;
    while i < a.len()
        invariant
            i <= a@.len(),
            a@.len() == b@.len(),
            forall|j: int| 0 <= j < i ==> a@[j] == b@[j],
        decreases a@.len() - i,
    {
        if a[i] != b[i] {
            return false;
        }
        i = i + 1;
    }
    assert(a@ =~= b@);
    true
}

/// Appends a copy of `b`.
pub fn push_bytes(out: &mut Vec<u8>, b: &[u8])
    ensures
        final(out)@ == old(out)@ + b@,
{
    let mut i: usize = 0;
    let ghost start = out@;
    assert(start + b@.subrange(0, 0) =~= start);
    while i < b.len()
        invariant
            i <= b@.len(),
            out@ == start + b@.subrange(0, i as int),
        decreases b@.len() - i,
    {
        out.push(b[i]);
        assert(b@.subrange(0, i + 1) =~= b@.subrange(0, i as int).push(b@[i as int]));
        assert(start + b@.subrange(0, i + 1) =~= (start + b@.subrange(0, i as int)).push(
            b@[i as int],
        ));
        i = i + 1;
    }
    assert(b@.subrange(0, b@.len() as int) =~= b@);
}

/// Appends `n` zero bytes.
pub fn push_zeros(out: &mut Vec<u8>, n: usize)
    ensures
        final(out)@ == old(out)@ + zeros(n as nat),
{
    let mut i: usize = 0;
    let ghost start = out@;
    assert(start + zeros(0) =~= start);
    while i < n
        invariant
            i <= n,
            out@ == start + zeros(i as nat),
        decreases n - i,
    {
        out.push(0);
        assert(start + zeros((i + 1) as nat) =~= (start + zeros(i as nat)).push(0));
        i = i + 1;
    }
}

/// A copy of `b[from..to]`.
pub fn slice_of(b: &[u8], from: usize, to: usize) -> (r: Vec<u8>)
    requires
        from <= to <= b@.len(),
    ensures
        r@ == b@.subrange(from as int, to as int),
{
    let mut r: Vec<u8> = Vec::new();
    let mut i: usize = from;
    while i < to
        invariant
            from <= i <= to <= b@.len(),
            r@ == b@.subrange(from as int, i as int),
        decreases to - i,
    {
        r.push(b[i]);
        assert(b@.subrange(from as int, i + 1) =~= b@.subrange(from as int, i as int).push(
            b@[i as int],
        ));
        i = i + 1;
    }
    r
}

/// The bytes of `b` as a digest.
pub fn to_hash(b: &[u8]) -> (h: Hash32)
    requires
        b@.len() == 32,
    ensures
        h@ == b@,
{
    let mut h: Hash32 = [0u8; 32];
    let mut i: usize = 0;
    while i < 32
        invariant
            i <= 32,
            b@.len() == 32,
            forall|j: int| 0 <= j < i ==> h@[j] == b@[j],
        decreases 32 - i,
    {
        h[i] = b[i];
        i = i + 1;
    }
    assert(h@ =~= b@);
    h
}

/// The digest with its bytes in the opposite order.
pub fn reversed(h: &Hash32) -> (r: Hash32)
    ensures
        r@ == h@.reverse(),
{
    let mut r: Hash32 = [0u8; 32];
    let mut i: usize = 0;
    while i < 32
        invariant
            i <= 32,
            forall|j: int| 0 <= j < i ==> r@[j] == h@[31 - j],
        decreases 32 - i,
    {
        r[i] = h[31 - i];
        i = i + 1;
    }
    assert(r@ =~= h@.reverse());
    r
}

/// Whether bytes begin with other bytes.
pub open spec fn begins_with(b: Seq<u8>, prefix: Seq<u8>) -> bool {
    prefix.len() <= b.len() && b.take(prefix.len() as int) == prefix
}

/// Tells whether bytes begin with other bytes.
pub fn starts_with(b: &[u8], prefix: &[u8]) -> (r: bool)
    ensures
        r == begins_with(b@, prefix@),
{
    if prefix.len() > b.len() {
        return false;
    }
    let mut i: usize = 0;
    while i < prefix.len()
        invariant
            i <= prefix@.len() <= b@.len(),
            forall|k: int| 0 <= k < i ==> b@[k] == prefix@[k],
        decreases prefix@.len() - i,
    {
        if b[i] != prefix[i] {
            assert(b@.take(prefix@.len() as int)[i as int] != prefix@[i as int]);
            return false;
        }
        i = i + 1;
    }
    assert(b@.take(prefix@.len() as int) =~= prefix@);
    true
}

/// Bytes begin with others exactly where those and some rest make them up.
pub proof fn lemma_beginnings(b: Seq<u8>, prefix: Seq<u8>, rest: Seq<u8>)
    ensures
        begins_with(prefix + rest, prefix),
        begins_with(b, prefix) ==> b == prefix + b.skip(prefix.len() as int),
        prefix.len() > b.len() ==> !begins_with(b, prefix),
{
    assert((prefix + rest).take(prefix.len() as int) =~= prefix);
    if begins_with(b, prefix) {
        assert(b =~= prefix + b.skip(prefix.len() as int));
    }
}

} // verus!
