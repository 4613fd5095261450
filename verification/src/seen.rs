//! Every share hash the pool has credited, by block height.
//!
//! A share is credited once, ever: nothing a gateway sends can empty the set, and at a hard cap
//! new work is refused rather than old work forgotten.

use crate::bytes::{bytes_eq, le_nat, read_le};
use crate::pow::Hash32;
use std::collections::HashMap;
use vstd::prelude::*;

verus! {

broadcast use vstd::std_specs::hash::group_hash_axioms;

/// What became of a share hash.
#[derive(Clone, Copy, Debug, PartialEq, Eq, Structural)]
pub enum Seen {
    /// New work; it has been recorded.
    Fresh,
    /// This exact hash was already credited.
    Duplicate,
    /// The set is at capacity; the share was not recorded and must not be credited.
    Full,
}

/// The hashes of one height, in buckets by their low bytes.
struct HeightSet {
    height: u32,
    buckets: HashMap<u64, Vec<Hash32>>,
    count: usize,
}

/// The bucket of a hash.
spec fn bucket_of(h: Hash32) -> u64 {
    le_nat(h@.subrange(0, 8)) as u64
}

fn bucket(h: &Hash32) -> (k: u64)
    ensures
        k == bucket_of(*h),
{
    read_le(h.as_slice(), 0, 8)
}

impl HeightSet {
    spec fn hashes(&self) -> Set<Hash32> {
        Set::new(
            |h: Hash32|
                self.buckets@.contains_key(bucket_of(h)) && self.buckets@[bucket_of(h)]@.contains(
                    h,
                ),
        )
    }

    spec fn wf(&self) -> bool {
        &&& self.hashes().finite()
        &&& self.hashes().len() == self.count
    }

    fn new(height: u32) -> (s: HeightSet)
        ensures
            s.wf(),
            s.height == height,
            s.hashes() == Set::<Hash32>::empty(),
    {
        let s = HeightSet { height, buckets: HashMap::new(), count: 0 };
        assert(s.hashes() =~= Set::<Hash32>::empty());
        s
    }

    fn contains(&self, h: &Hash32) -> (r: bool)
        ensures
            r == self.hashes().contains(*h),
    {
        let k: u64 = bucket(h);
        match self.buckets.get(&k) {
            None => false,
            Some(b) => {
                let mut i: usize = 0;
                while i < b.len()
                    invariant
                        i <= b@.len(),
                        k == bucket_of(*h),
                        self.buckets@.contains_key(k),
                        b == self.buckets@[k],
                        forall|j: int| 0 <= j < i ==> b@[j] != *h,
                    decreases b@.len() - i,
                {
                    if bytes_eq(b[i].as_slice(), h.as_slice()) {
                        assert(b@[i as int] =~= *h);
                        assert(b@.contains(*h));
                        return true;
                    }
                    i = i + 1;
                }
                false
            },
        }
    }

    fn insert(&mut self, h: Hash32)
        requires
            old(self).wf(),
            !old(self).hashes().contains(h),
            old(self).count < usize::MAX,
        ensures
            final(self).wf(),
            final(self).height == old(self).height,
            final(self).hashes() == old(self).hashes().insert(h),
    {
        let ghost before = *self;
        let k: u64 = bucket(&h);
        let mut b: Vec<Hash32> = match self.buckets.remove(&k) {
            Some(b) => b,
            None => Vec::new(),
        };
        let ghost held = b@;
        b.push(h);
        proof {
            assert forall|x: Hash32| b@.contains(x) == (held.contains(x) || x == h) by {
                if held.contains(x) {
                    let j = choose|j: int| 0 <= j < held.len() && held[j] == x;
                    assert(b@[j] == x);
                }
                assert(b@[held.len() as int] == h);
            }
        }
        self.buckets.insert(k, b);
        self.count = self.count + 1;
        proof {
            assert forall|x: Hash32|
                self.hashes().contains(x) == before.hashes().insert(h).contains(x) by {
                if bucket_of(x) == k {
                    assert(before.buckets@.contains_key(k) ==> before.buckets@[k]@ == held);
                    assert(!before.buckets@.contains_key(k) ==> held.len() == 0);
                    assert(self.buckets@[k]@.contains(x) == (held.contains(x) || x == h));
                } else {
                    assert(self.buckets@.contains_key(bucket_of(x))
                        == before.buckets@.contains_key(bucket_of(x)));
                }
            }
            assert(self.hashes() =~= before.hashes().insert(h));
        }
    }
}

/// The hashes credited at one height.
#[verifier::ext_equal]
pub struct HeightView {
    pub height: u32,
    pub hashes: Set<Hash32>,
}

/// Where a height is, or would be, among heights in ascending order.
pub open spec fn height_index(v: Seq<HeightView>, height: u32) -> nat
    decreases v.len(),
{
    if v.len() == 0 || v[0].height >= height {
        0
    } else {
        1 + height_index(v.drop_first(), height)
    }
}

/// Whether a height has an entry.
pub open spec fn has_height(v: Seq<HeightView>, height: u32) -> bool {
    height_index(v, height) < v.len() && v[height_index(v, height) as int].height == height
}

/// The hashes credited at a height.
pub open spec fn hashes_at(v: Seq<HeightView>, height: u32) -> Set<Hash32> {
    if has_height(v, height) {
        v[height_index(v, height) as int].hashes
    } else {
        Set::empty()
    }
}

/// The heights with one of them holding `hashes`.
pub open spec fn with_height(v: Seq<HeightView>, height: u32, hashes: Set<Hash32>) -> Seq<
    HeightView,
> {
    let i = height_index(v, height) as int;
    let e = HeightView { height, hashes };
    if has_height(v, height) {
        v.update(i, e)
    } else {
        v.insert(i, e)
    }
}

/// How many hashes are kept.
pub open spec fn hashes_kept(v: Seq<HeightView>) -> nat
    decreases v.len(),
{
    if v.len() == 0 {
        0
    } else {
        v[0].hashes.len() + hashes_kept(v.drop_first())
    }
}

/// Whether heights are in ascending order and hold finitely many hashes each.
pub open spec fn heights_ok(v: Seq<HeightView>) -> bool {
    &&& forall|i: int, j: int|
        0 <= i < j < v.len() ==> (#[trigger] v[i]).height < (#[trigger] v[j]).height
    &&& forall|i: int| 0 <= i < v.len() ==> (#[trigger] v[i]).hashes.finite()
}

/// Every share hash the pool has credited, by block height.
pub struct SeenShares {
    by_height: Vec<HeightSet>,
    total: usize,
}

impl View for SeenShares {
    type V = Seq<HeightView>;

    closed spec fn view(&self) -> Seq<HeightView> {
        Seq::new(
            self.by_height@.len(),
            |i: int|
                HeightView {
                    height: self.by_height@[i].height,
                    hashes: self.by_height@[i].hashes(),
                },
        )
    }
}

pub proof fn lemma_height_index(v: Seq<HeightView>, height: u32)
    requires
        heights_ok(v),
    ensures
        height_index(v, height) <= v.len(),
        forall|i: int| 0 <= i < height_index(v, height) ==> (#[trigger] v[i]).height < height,
        forall|i: int| height_index(v, height) <= i < v.len() ==> (#[trigger] v[i]).height >= height,
    decreases v.len(),
{
    if v.len() > 0 && v[0].height < height {
        let t = v.drop_first();
        assert(heights_ok(t)) by {
            assert forall|i: int, j: int| 0 <= i < j < t.len() implies (#[trigger] t[i]).height < (
            #[trigger] t[j]).height by {
                assert(t[i] == v[i + 1] && t[j] == v[j + 1]);
            }
            assert forall|i: int| 0 <= i < t.len() implies (#[trigger] t[i]).hashes.finite() by {
                assert(t[i] == v[i + 1]);
            }
        }
        lemma_height_index(t, height);
        assert forall|i: int| 0 <= i < height_index(v, height) implies (#[trigger] v[i]).height
            < height by {
            if i > 0 {
                assert(t[i - 1] == v[i]);
            }
        }
        assert forall|i: int| height_index(v, height) <= i < v.len() implies (
        #[trigger] v[i]).height >= height by {
            assert(t[i - 1] == v[i]);
        }
    } else if v.len() > 0 {
        assert forall|i: int| 0 <= i < v.len() implies (#[trigger] v[i]).height >= height by {
            if i > 0 {
                assert(v[0].height < v[i].height);
            }
        }
    }
}

proof fn lemma_kept_insert(v: Seq<HeightView>, i: int, e: HeightView)
    requires
        0 <= i <= v.len(),
    ensures
        hashes_kept(v.insert(i, e)) == hashes_kept(v) + e.hashes.len(),
    decreases v.len(),
{
    let n = v.insert(i, e);
    if i == 0 {
        assert(n.drop_first() =~= v);
    } else {
        lemma_kept_insert(v.drop_first(), i - 1, e);
        assert(n.drop_first() =~= v.drop_first().insert(i - 1, e));
    }
}

proof fn lemma_kept_update(v: Seq<HeightView>, i: int, e: HeightView)
    requires
        0 <= i < v.len(),
    ensures
        hashes_kept(v.update(i, e)) == hashes_kept(v) - v[i].hashes.len() + e.hashes.len(),
        v[i].hashes.len() <= hashes_kept(v),
    decreases v.len(),
{
    let n = v.update(i, e);
    if i == 0 {
        assert(n.drop_first() =~= v.drop_first());
    } else {
        lemma_kept_update(v.drop_first(), i - 1, e);
        assert(n.drop_first() =~= v.drop_first().update(i - 1, e));
    }
}

/// Putting hashes at a height keeps the order, changes no other height, and counts them.
pub proof fn lemma_with_height(v: Seq<HeightView>, height: u32, hashes: Set<Hash32>)
    requires
        heights_ok(v),
        hashes.finite(),
    ensures
        heights_ok(with_height(v, height, hashes)),
        hashes_at(with_height(v, height, hashes), height) == hashes,
        has_height(with_height(v, height, hashes), height),
        forall|h: u32|
            #![trigger hashes_at(with_height(v, height, hashes), h)]
            h != height ==> hashes_at(with_height(v, height, hashes), h) == hashes_at(v, h),
        hashes_kept(with_height(v, height, hashes)) == hashes_kept(v) - hashes_at(
            v,
            height,
        ).len() + hashes.len(),
{
    let n = with_height(v, height, hashes);
    let k = height_index(v, height) as int;
    let e = HeightView { height, hashes };
    lemma_height_index(v, height);
    if has_height(v, height) {
        lemma_kept_update(v, k, e);
    } else {
        lemma_kept_insert(v, k, e);
        if k < v.len() {
            assert(v[k].height != height);
        }
    }
    assert(heights_ok(n)) by {
        assert forall|i: int, j: int| 0 <= i < j < n.len() implies (#[trigger] n[i]).height < (
        #[trigger] n[j]).height by {
            if has_height(v, height) {
                assert(n[i].height == v[i].height && n[j].height == v[j].height);
            } else {
                let a = if i < k { i } else { i - 1 };
                let b = if j < k { j } else { j - 1 };
                if i != k {
                    assert(n[i] == v[a]);
                }
                if j != k {
                    assert(n[j] == v[b]);
                }
            }
        }
        assert forall|i: int| 0 <= i < n.len() implies (#[trigger] n[i]).hashes.finite() by {
            if !has_height(v, height) && i != k {
                let a = if i < k { i } else { i - 1 };
                assert(n[i] == v[a]);
            }
        }
    }
    lemma_height_index(n, height);
    assert(n[k] == e);
    let at = height_index(n, height) as int;
    if at > k {
        assert(n[k].height < height);
    } else if at < k {
        assert(n[at] == v[at]);
        assert(n[at].height >= height);
        assert(v[at].height < height);
    }
    assert(at == k);
    assert forall|h: u32| h != height implies #[trigger] hashes_at(n, h) == hashes_at(v, h) by {
        lemma_same_elsewhere(v, height, hashes, h);
    }
}

proof fn lemma_same_elsewhere(v: Seq<HeightView>, height: u32, hashes: Set<Hash32>, h: u32)
    requires
        heights_ok(v),
        heights_ok(with_height(v, height, hashes)),
        h != height,
    ensures
        hashes_at(with_height(v, height, hashes), h) == hashes_at(v, h),
{
    let n = with_height(v, height, hashes);
    let k = height_index(v, height) as int;
    lemma_height_index(v, height);
    lemma_height_index(v, h);
    lemma_height_index(n, h);
    let a = height_index(v, h) as int;
    let b = height_index(n, h) as int;
    if has_height(v, height) {
        if a < b {
            assert(n[a].height == v[a].height);
        } else if b < a {
            assert(n[b].height == v[b].height);
        }
        assert(a == b);
    } else {
        if has_height(v, h) {
            let c = if a < k { a } else { a + 1 };
            assert(n[c] == v[a]);
            if b < c {
                assert(n[b].height < n[c].height);
            } else if c < b {
                assert(n[c].height < h);
            }
            assert(b == c);
        } else if has_height(n, h) {
            assert(b != k);
            let c = if b < k { b } else { b - 1 };
            assert(v[c] == n[b]);
            if c < a {
                assert(v[c].height < h);
            } else if a < c {
                assert(v[a].height < v[c].height);
            }
        }
    }
}

impl Default for SeenShares {
    fn default() -> (s: SeenShares)
        ensures
            s.wf(),
            s@ == Seq::<HeightView>::empty(),
    {
        let s = SeenShares { by_height: Vec::new(), total: 0 };
        assert(s@ =~= Seq::empty());
        s
    }
}

/// What becomes of a hash.
pub open spec fn seen_outcome(v: Seq<HeightView>, height: u32, hash: Hash32) -> Seen {
    if hashes_at(v, height).contains(hash) {
        Seen::Duplicate
    } else if hashes_at(v, height).len() >= SeenShares::MAX_PER_HEIGHT || hashes_kept(v)
        >= SeenShares::MAX_TOTAL {
        Seen::Full
    } else {
        Seen::Fresh
    }
}

/// The heights after a hash.
pub open spec fn seen_after(v: Seq<HeightView>, height: u32, hash: Hash32) -> Seq<HeightView> {
    match seen_outcome(v, height, hash) {
        Seen::Duplicate => v,
        Seen::Full => with_height(v, height, hashes_at(v, height)),
        Seen::Fresh => with_height(v, height, hashes_at(v, height).insert(hash)),
    }
}

/// The heights at or above `min_height`.
pub open spec fn heights_from(v: Seq<HeightView>, min_height: u32) -> Seq<HeightView> {
    v.skip(height_index(v, min_height) as int)
}

/// A share is fresh at most once: right after it was, and however often it comes again, it is a
/// duplicate.
pub proof fn lemma_credited_once(v: Seq<HeightView>, height: u32, hash: Hash32)
    requires
        heights_ok(v),
        seen_outcome(v, height, hash) == Seen::Fresh,
    ensures
        seen_outcome(seen_after(v, height, hash), height, hash) == Seen::Duplicate,
        seen_after(seen_after(v, height, hash), height, hash) == seen_after(v, height, hash),
{
    lemma_finite_at(v, height);
    lemma_with_height(v, height, hashes_at(v, height).insert(hash));
}

proof fn lemma_finite_at(v: Seq<HeightView>, height: u32)
    requires
        heights_ok(v),
    ensures
        hashes_at(v, height).finite(),
{
    lemma_height_index(v, height);
}

/// Whatever hash comes in, the heights stay in order.
pub proof fn lemma_seen_after_ok(v: Seq<HeightView>, height: u32, hash: Hash32)
    requires
        heights_ok(v),
    ensures
        heights_ok(seen_after(v, height, hash)),
{
    lemma_finite_at(v, height);
    lemma_with_height(v, height, hashes_at(v, height).insert(hash));
    lemma_with_height(v, height, hashes_at(v, height));
}

/// Nothing that comes in is forgotten for it: what was a duplicate stays one, whatever hash at
/// whatever height comes, and whether or not the set is full.
pub proof fn lemma_never_forgotten(
    v: Seq<HeightView>,
    height: u32,
    hash: Hash32,
    other_height: u32,
    other: Hash32,
)
    requires
        heights_ok(v),
        seen_outcome(v, height, hash) == Seen::Duplicate,
    ensures
        heights_ok(seen_after(v, other_height, other)),
        seen_outcome(seen_after(v, other_height, other), height, hash) == Seen::Duplicate,
{
    lemma_finite_at(v, other_height);
    lemma_with_height(v, other_height, hashes_at(v, other_height).insert(other));
    lemma_with_height(v, other_height, hashes_at(v, other_height));
}

/// What is remembered stays bounded, however much work comes: at the caps new hashes are refused.
pub proof fn lemma_seen_is_bounded(v: Seq<HeightView>, height: u32, hash: Hash32, other: u32)
    requires
        heights_ok(v),
        hashes_kept(v) <= SeenShares::MAX_TOTAL,
        hashes_at(v, other).len() <= SeenShares::MAX_PER_HEIGHT,
    ensures
        hashes_kept(seen_after(v, height, hash)) <= SeenShares::MAX_TOTAL,
        hashes_at(seen_after(v, height, hash), other).len() <= SeenShares::MAX_PER_HEIGHT,
{
    lemma_finite_at(v, height);
    lemma_with_height(v, height, hashes_at(v, height).insert(hash));
    lemma_with_height(v, height, hashes_at(v, height));
    if other != height {
        assert(hashes_at(seen_after(v, height, hash), other) == hashes_at(v, other));
    }
}

/// Pruning forgets only the heights below the given one.
pub proof fn lemma_prune(v: Seq<HeightView>, min_height: u32, height: u32)
    requires
        heights_ok(v),
    ensures
        heights_ok(heights_from(v, min_height)),
        height >= min_height ==> hashes_at(heights_from(v, min_height), height) == hashes_at(
            v,
            height,
        ),
        height < min_height ==> hashes_at(heights_from(v, min_height), height) == Set::<
            Hash32,
        >::empty(),
{
    let k = height_index(v, min_height) as int;
    let n = heights_from(v, min_height);
    lemma_height_index(v, min_height);
    assert(heights_ok(n)) by {
        assert forall|i: int, j: int| 0 <= i < j < n.len() implies (#[trigger] n[i]).height < (
        #[trigger] n[j]).height by {
            assert(n[i] == v[i + k] && n[j] == v[j + k]);
        }
        assert forall|i: int| 0 <= i < n.len() implies (#[trigger] n[i]).hashes.finite() by {
            assert(n[i] == v[i + k]);
        }
    }
    lemma_height_index(n, height);
    lemma_height_index(v, height);
    let a = height_index(v, height) as int;
    let b = height_index(n, height) as int;
    if height < min_height {
        if has_height(n, height) {
            assert(n[b] == v[b + k]);
        }
    } else {
        if a < k {
            assert(v[a].height < min_height);
            assert(v[a].height >= height);
        }
        if b + k < a {
            assert(n[b] == v[b + k]);
            assert(n[b].height >= height);
            assert(v[b + k].height < height);
        } else if a < b + k {
            assert(n[a - k] == v[a]);
            assert(n[a - k].height < height);
            assert(v[a].height >= height);
        }
        assert(a == b + k);
        if b < n.len() {
            assert(n[b] == v[a]);
        }
    }
}

impl SeenShares {
    /// Distinct credited shares kept per height.
    pub const MAX_PER_HEIGHT: usize = 1_000_000;

    /// Distinct credited shares kept across all heights.
    pub const MAX_TOTAL: usize = 2_500_000;

    /// Heights in order, and a total that counts what is kept.
    pub closed spec fn wf(&self) -> bool {
        &&& heights_ok(self@)
        &&& self.total == hashes_kept(self@)
        &&& forall|i: int| 0 <= i < self.by_height@.len() ==> (#[trigger] self.by_height@[i]).wf()
    }

    /// Well-formed heights are in order.
    pub proof fn lemma_heights_ok(&self)
        requires
            self.wf(),
        ensures
            heights_ok(self@),
    {
    }

    /// Where a height is, or would be.
    fn position(&self, height: u32) -> (i: usize)
        requires
            self.wf(),
        ensures
            i == height_index(self@, height),
            i <= self.by_height@.len(),
    {
        let mut i: usize = 0;
        let ghost v = self@;
        assert(v.skip(0) =~= v);
        while i < self.by_height.len() && self.by_height[i].height < height
            invariant
                i <= self.by_height@.len(),
                v == self@,
                height_index(v, height) == i + height_index(v.skip(i as int), height),
            decreases self.by_height@.len() - i,
        {
            assert(v.skip(i as int).drop_first() =~= v.skip(i + 1));
            assert(v.skip(i as int)[0].height == self.by_height@[i as int].height);
            i = i + 1;
        }
        if i < self.by_height.len() {
            assert(v.skip(i as int)[0].height == self.by_height@[i as int].height);
        }
        i
    }

    /// Records a hash at a height, unless it was credited before or the set is full.
    pub fn insert(&mut self, height: u32, hash: Hash32) -> (r: Seen)
        requires
            old(self).wf(),
        ensures
            final(self).wf(),
            r == seen_outcome(old(self)@, height, hash),
            final(self)@ == seen_after(old(self)@, height, hash),
    {
        let ghost v = self@;
        let i: usize = self.position(height);
        proof {
            lemma_height_index(v, height);
            lemma_finite_at(v, height);
            lemma_with_height(v, height, hashes_at(v, height));
            lemma_with_height(v, height, hashes_at(v, height).insert(hash));
        }
        let present: bool = i < self.by_height.len() && self.by_height[i].height == height;
        if !present {
            assert(!has_height(v, height));
            self.by_height.insert(i, HeightSet::new(height));
            assert(self@ =~= with_height(v, height, Set::empty()));
        } else {
            assert(has_height(v, height));
            assert(v[i as int].hashes == self.by_height@[i as int].hashes());
            assert(with_height(v, height, hashes_at(v, height)) =~= v);
        }
        let ghost made = *self;
        assert(made@[i as int].hashes == hashes_at(v, height));
        assert(made@ == with_height(v, height, hashes_at(v, height)));
        if self.by_height[i].contains(&hash) {
            return Seen::Duplicate;
        }
        proof {
            lemma_kept_update(made@, i as int, made@[i as int]);
        }
        if self.by_height[i].count >= Self::MAX_PER_HEIGHT || self.total >= Self::MAX_TOTAL {
            return Seen::Full;
        }
        let mut set: HeightSet = self.by_height.remove(i);
        set.insert(hash);
        self.by_height.insert(i, set);
        self.total = self.total + 1;
        proof {
            assert(self@ =~= made@.update(
                i as int,
                HeightView { height, hashes: hashes_at(v, height).insert(hash) },
            ));
            assert(self@ =~= with_height(v, height, hashes_at(v, height).insert(hash)));
            assert forall|j: int| 0 <= j < self.by_height@.len() implies (
            #[trigger] self.by_height@[j]).wf() by {
                if j != i {
                    assert(self.by_height@[j] == made.by_height@[j]);
                }
            }
        }
        Seen::Fresh
    }

    /// Forgets every height below `min_height`.
    pub fn prune_below(&mut self, min_height: u32)
        requires
            old(self).wf(),
        ensures
            final(self).wf(),
            final(self)@ == heights_from(old(self)@, min_height),
    {
        let ghost v = self@;
        assert(v.skip(0) =~= v);
        let mut gone: Ghost<int> = Ghost(0int);
        while self.by_height.len() > 0 && self.by_height[0].height < min_height
            invariant
                self.wf(),
                0 <= gone@ <= v.len(),
                self@ == v.skip(gone@),
                height_index(v, min_height) == gone@ + height_index(self@, min_height),
            decreases self.by_height@.len(),
        {
            let ghost now = self@;
            let ghost now_sets = self.by_height@;
            let first: HeightSet = self.by_height.remove(0);
            proof {
                assert(now[0].hashes == now_sets[0].hashes());
                assert(now[0].hashes.len() == first.count);
            }
            self.total = self.total - first.count;
            proof {
                assert(self@ =~= now.drop_first());
                assert(v.skip(gone@ + 1) =~= now.drop_first());
                assert forall|j: int| 0 <= j < self.by_height@.len() implies (
                #[trigger] self.by_height@[j]).wf() by {
                    assert(self.by_height@[j] == now_sets[j + 1]);
                }
                assert(heights_ok(self@)) by {
                    let t = self@;
                    assert forall|i: int, j: int| 0 <= i < j < t.len() implies (
                    #[trigger] t[i]).height < (#[trigger] t[j]).height by {
                        assert(t[i] == now[i + 1] && t[j] == now[j + 1]);
                    }
                    assert forall|i: int| 0 <= i < t.len() implies (
                    #[trigger] t[i]).hashes.finite() by {
                        assert(t[i] == now[i + 1]);
                    }
                }
                gone@ = gone@ + 1;
            }
        }
        proof {
            if self.by_height@.len() > 0 {
                assert(self@[0].height == self.by_height@[0].height);
            }
            assert(height_index(self@, min_height) == 0);
        }
    }

    /// How many hashes are kept.
    pub fn len(&self) -> (n: usize)
        requires
            self.wf(),
        ensures
            n == hashes_kept(self@),
    {
        self.total
    }

    /// How many heights have an entry.
    pub fn heights(&self) -> (n: usize)
        ensures
            n == self@.len(),
    {
        self.by_height.len()
    }
}

/// New work is taken as long as there is room, a million at its height and two and a half million
/// in all, and then it is remembered beside what was, at its height and at no other.
pub proof fn lemma_new_work_is_taken(v: Seq<HeightView>, height: u32, hash: Hash32, other: u32)
    requires
        heights_ok(v),
        !hashes_at(v, height).contains(hash),
        hashes_at(v, height).len() < 1_000_000,
        hashes_kept(v) < 2_500_000,
    ensures
        seen_outcome(v, height, hash) == Seen::Fresh,
        hashes_at(seen_after(v, height, hash), height) == hashes_at(v, height).insert(hash),
        other != height ==> hashes_at(seen_after(v, height, hash), other) == hashes_at(v, other),
        hashes_kept(seen_after(v, height, hash)) == hashes_kept(v) + 1,
{
    lemma_finite_at(v, height);
    lemma_with_height(v, height, hashes_at(v, height).insert(hash));
    assert(hashes_at(with_height(v, height, hashes_at(v, height).insert(hash)), other) == hashes_at(
        seen_after(v, height, hash),
        other,
    ));
}

/// Work that was taken before is refused, and work there is no room for; neither is remembered.
pub proof fn lemma_other_work_is_refused(v: Seq<HeightView>, height: u32, hash: Hash32, other: u32)
    requires
        heights_ok(v),
    ensures
        hashes_at(v, height).contains(hash) <==> seen_outcome(v, height, hash) == Seen::Duplicate,
        hashes_at(v, height).len() >= 1_000_000 || hashes_kept(v) >= 2_500_000 ==> seen_outcome(
            v,
            height,
            hash,
        ) != Seen::Fresh,
        seen_outcome(v, height, hash) != Seen::Fresh ==> hashes_at(
            seen_after(v, height, hash),
            other,
        ) == hashes_at(v, other) && hashes_kept(seen_after(v, height, hash)) == hashes_kept(v),
{
    lemma_finite_at(v, height);
    lemma_with_height(v, height, hashes_at(v, height));
    assert(hashes_at(with_height(v, height, hashes_at(v, height)), other) == hashes_at(v, other));
}

/// The hashes kept are those of each height.
pub proof fn lemma_hashes_of_heights(v: Seq<HeightView>, h: HeightView)
    ensures
        hashes_kept(Seq::empty()) == 0,
        hashes_kept(seq![h] + v) == h.hashes.len() + hashes_kept(v),
{
    assert((seq![h] + v).drop_first() =~= v);
}

} // verus!
