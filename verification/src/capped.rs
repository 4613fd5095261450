//! How a capped split divides what is left after the fee: by weight, with nobody below a floor.
//!
//! Whoever's share by weight would be below the floor is lifted to it. The others divide the rest
//! by weight, and as lifting leaves them less, this is repeated until nobody falls short.

use vstd::prelude::*;

verus! {

/// What all weights come to.
pub open spec fn weight_sum(w: Seq<nat>) -> nat
    decreases w.len(),
{
    if w.len() == 0 {
        0
    } else {
        weight_sum(w.drop_last()) + w.last()
    }
}

/// What the weights of those come to who are not lifted.
pub open spec fn open_sum(w: Seq<nat>, lifted: Seq<bool>) -> nat
    decreases w.len(),
{
    if w.len() == 0 {
        0
    } else {
        open_sum(w.drop_last(), lifted.drop_last()) + if lifted.last() {
            0
        } else {
            w.last()
        }
    }
}

/// How many are lifted.
pub open spec fn lifted_count(lifted: Seq<bool>) -> nat
    decreases lifted.len(),
{
    if lifted.len() == 0 {
        0
    } else {
        lifted_count(lifted.drop_last()) + if lifted.last() {
            1nat
        } else {
            0
        }
    }
}

/// What is left for those who are not lifted.
pub open spec fn rest_of(lifted: Seq<bool>, value: u64, floor: u64) -> nat {
    let taken = floor as nat * lifted_count(lifted);
    if taken <= value {
        (value - taken) as nat
    } else {
        0
    }
}

/// What `weight` of `total` earns of `rest`, rounded down.
pub open spec fn share(rest: nat, weight: nat, total: nat) -> nat {
    if total == 0 {
        0
    } else {
        rest * weight / total
    }
}

/// Whether someone who is not lifted would get less than the floor.
pub open spec fn falls_short(
    w: Seq<nat>,
    lifted: Seq<bool>,
    value: u64,
    floor: u64,
    i: int,
) -> bool {
    !lifted[i] && share(rest_of(lifted, value, floor), w[i], open_sum(w, lifted)) < floor
}

/// Those who are lifted, and those who now fall short.
pub open spec fn lifted_more(w: Seq<nat>, lifted: Seq<bool>, value: u64, floor: u64) -> Seq<bool> {
    Seq::new(lifted.len(), |i: int| lifted[i] || falls_short(w, lifted, value, floor, i))
}

/// No more are lifted than there are.
pub proof fn lemma_count_bound(lifted: Seq<bool>)
    ensures
        lifted_count(lifted) <= lifted.len(),
    decreases lifted.len(),
{
    if lifted.len() > 0 {
        lemma_count_bound(lifted.drop_last());
    }
}

/// Lifting more makes the count grow.
pub proof fn lemma_count_grows(a: Seq<bool>, b: Seq<bool>)
    requires
        a.len() == b.len(),
        forall|i: int| 0 <= i < a.len() ==> a[i] ==> #[trigger] b[i],
    ensures
        lifted_count(a) <= lifted_count(b),
        a != b ==> lifted_count(a) < lifted_count(b),
    decreases a.len(),
{
    if a.len() > 0 {
        let x = a.drop_last();
        let y = b.drop_last();
        assert forall|i: int| 0 <= i < x.len() implies x[i] ==> #[trigger] y[i] by {
            assert(b[i] == y[i]);
        }
        lemma_count_grows(x, y);
        assert(b[b.len() - 1] == b.last());
        if a != b && x == y {
            assert(a =~= x.push(a.last()));
            assert(b =~= y.push(b.last()));
        }
    } else {
        assert(a =~= b);
    }
}

/// Who is lifted in the end, when some are already.
pub open spec fn lift(w: Seq<nat>, lifted: Seq<bool>, value: u64, floor: u64) -> Seq<bool>
    decreases lifted.len() - lifted_count(lifted),
{
    let more = lifted_more(w, lifted, value, floor);
    if more == lifted {
        lifted
    } else {
        proof {
            lemma_count_grows(lifted, more);
            lemma_count_bound(more);
        }
        lift(w, more, value, floor)
    }
}

/// Nobody is lifted.
pub open spec fn none_lifted(n: nat) -> Seq<bool> {
    Seq::new(n, |i: int| false)
}

/// What each gets who is lifted or not.
pub open spec fn amounts_under(w: Seq<nat>, lifted: Seq<bool>, value: u64, floor: u64) -> Seq<nat> {
    Seq::new(
        w.len(),
        |i: int|
            if lifted[i] {
                floor as nat
            } else {
                share(rest_of(lifted, value, floor), w[i], open_sum(w, lifted))
            },
    )
}

/// What each gets of `value`.
pub open spec fn amounts(w: Seq<nat>, value: u64, floor: u64) -> Seq<nat> {
    amounts_under(w, lift(w, none_lifted(w.len()), value, floor), value, floor)
}

/// What is handed out to those who are not lifted.
spec fn shares_sum(w: Seq<nat>, lifted: Seq<bool>, rest: nat, total: nat) -> nat
    decreases w.len(),
{
    if w.len() == 0 {
        0
    } else {
        shares_sum(w.drop_last(), lifted.drop_last(), rest, total) + if lifted.last() {
            0
        } else {
            share(rest, w.last(), total)
        }
    }
}

proof fn lemma_share(rest: nat, weight: nat, total: nat)
    requires
        total > 0,
    ensures
        total * share(rest, weight, total) <= rest * weight,
        rest * weight < total * (share(rest, weight, total) + 1),
{
    let x = (rest * weight) as int;
    vstd::arithmetic::div_mod::lemma_fundamental_div_mod(x, total as int);
    vstd::arithmetic::div_mod::lemma_mod_bound(x, total as int);
    let q = share(rest, weight, total);
    assert(q == x / total as int);
    assert(total * (q + 1) == total * q + total) by (nonlinear_arith);
}

/// The shares come to no more than the rest, and to less than one for each below it.
proof fn lemma_shares(w: Seq<nat>, lifted: Seq<bool>, rest: nat, total: nat)
    requires
        w.len() == lifted.len(),
        total > 0,
    ensures
        total * shares_sum(w, lifted, rest, total) <= rest * open_sum(w, lifted),
        rest * open_sum(w, lifted) <= total * (shares_sum(w, lifted, rest, total) + (w.len()
            - lifted_count(lifted))),
        w.len() > lifted_count(lifted) ==> rest * open_sum(w, lifted) < total * (shares_sum(
            w,
            lifted,
            rest,
            total,
        ) + (w.len() - lifted_count(lifted))),
        lifted_count(lifted) <= w.len(),
    decreases w.len(),
{
    lemma_count_bound(lifted);
    if w.len() > 0 {
        let u = w.drop_last();
        let l = lifted.drop_last();
        lemma_shares(u, l, rest, total);
        lemma_count_bound(l);
        let s0 = shares_sum(u, l, rest, total) as int;
        let o0 = open_sum(u, l) as int;
        let n0 = u.len() - lifted_count(l);
        let r = rest as int;
        let t = total as int;
        if !lifted.last() {
            let x = w.last() as int;
            let q = share(rest, w.last(), total) as int;
            lemma_share(rest, w.last(), total);
            assert(t * (s0 + q) == t * s0 + t * q) by (nonlinear_arith);
            assert(r * (o0 + x) == r * o0 + r * x) by (nonlinear_arith);
            assert(t * (s0 + q + (n0 + 1)) == t * (s0 + n0) + t * (q + 1)) by (nonlinear_arith);
        }
    } else {
        assert(total * 0 == 0);
        assert(rest * 0 == 0) by (nonlinear_arith);
    }
}

proof fn lemma_rest(lifted: Seq<bool>, value: u64, floor: u64)
    requires
        floor * lifted.len() <= value,
    ensures
        rest_of(lifted, value, floor) + floor * lifted_count(lifted) == value,
        rest_of(lifted, value, floor) >= floor * (lifted.len() - lifted_count(lifted)),
{
    lemma_count_bound(lifted);
    let f = floor as int;
    let n = lifted.len() as int;
    let c = lifted_count(lifted) as int;
    assert(f * c <= f * n) by (nonlinear_arith)
        requires
            0 <= c <= n,
            f >= 0,
    ;
    assert(f * (n - c) == f * n - f * c) by (nonlinear_arith);
}

/// Of those whose shares all fall short, some set falls short together.
proof fn lemma_short_shares(
    w: Seq<nat>,
    lifted: Seq<bool>,
    more: Seq<bool>,
    rest: nat,
    total: nat,
    floor: u64,
)
    requires
        w.len() == lifted.len() == more.len(),
        total > 0,
        floor > 0,
        open_sum(w, more) == 0,
        forall|i: int|
            0 <= i < w.len() ==> (#[trigger] more[i]) ==> lifted[i] || share(rest, w[i], total)
                < floor,
    ensures
        rest * open_sum(w, lifted) <= total * (floor * (w.len() - lifted_count(lifted))),
        w.len() > lifted_count(lifted) ==> rest * open_sum(w, lifted) < total * (floor * (w.len()
            - lifted_count(lifted))),
    decreases w.len(),
{
    lemma_count_bound(lifted);
    if w.len() > 0 {
        let u = w.drop_last();
        let l = lifted.drop_last();
        let m = more.drop_last();
        assert forall|i: int| 0 <= i < u.len() implies (#[trigger] m[i]) ==> l[i] || share(
            rest,
            u[i],
            total,
        ) < floor by {
            assert(m[i] == more[i] && l[i] == lifted[i] && u[i] == w[i]);
        }
        lemma_short_shares(u, l, m, rest, total, floor);
        lemma_count_bound(l);
        let o0 = open_sum(u, l) as int;
        let n0 = u.len() - lifted_count(l);
        let r = rest as int;
        let t = total as int;
        let f = floor as int;
        if !lifted.last() {
            let x = w.last() as int;
            assert(more.last() == more[more.len() - 1]);
            assert(r * x < t * f) by {
                if more.last() {
                    lemma_share(rest, w.last(), total);
                    let q = share(rest, w.last(), total) as int;
                    assert(q < f);
                    assert(t * (q + 1) <= t * f) by (nonlinear_arith)
                        requires
                            q + 1 <= f,
                            t > 0,
                    ;
                } else {
                    assert(x == 0);
                    assert(r * x == 0) by (nonlinear_arith)
                        requires
                            x == 0,
                    ;
                    assert(t * f > 0) by (nonlinear_arith)
                        requires
                            t > 0,
                            f > 0,
                    ;
                }
            }
            assert(r * (o0 + x) == r * o0 + r * x) by (nonlinear_arith);
            assert(t * (f * (n0 + 1)) == t * (f * n0) + t * f) by (nonlinear_arith);
        }
    } else {
        assert(rest * 0 == 0) by (nonlinear_arith);
        assert(total * (floor * 0) == 0) by (nonlinear_arith);
    }
}

/// Lifting never takes in everyone who has a weight.
proof fn lemma_someone_stays(w: Seq<nat>, lifted: Seq<bool>, value: u64, floor: u64)
    requires
        w.len() == lifted.len(),
        floor > 0,
        floor * w.len() <= value,
        open_sum(w, lifted) > 0,
    ensures
        open_sum(w, lifted_more(w, lifted, value, floor)) > 0,
{
    let more = lifted_more(w, lifted, value, floor);
    let rest = rest_of(lifted, value, floor);
    let total = open_sum(w, lifted);
    if open_sum(w, more) == 0 {
        lemma_rest(lifted, value, floor);
        lemma_open_count(w, lifted);
        lemma_short_shares(w, lifted, more, rest, total, floor);
        let n = w.len() - lifted_count(lifted);
        let f = floor as int;
        assert(total * rest >= total * (f * n)) by (nonlinear_arith)
            requires
                rest >= f * n,
                total > 0,
        ;
        assert(rest * total == total * rest) by (nonlinear_arith);
    }
}

proof fn lemma_open_count(w: Seq<nat>, lifted: Seq<bool>)
    requires
        w.len() == lifted.len(),
        open_sum(w, lifted) > 0,
    ensures
        lifted_count(lifted) < w.len(),
    decreases w.len(),
{
    if w.len() > 0 {
        lemma_count_bound(lifted.drop_last());
        if lifted.last() {
            lemma_open_count(w.drop_last(), lifted.drop_last());
        }
    }
}

proof fn lemma_none_lifted(w: Seq<nat>)
    ensures
        open_sum(w, none_lifted(w.len())) == weight_sum(w),
        lifted_count(none_lifted(w.len())) == 0,
    decreases w.len(),
{
    if w.len() > 0 {
        lemma_none_lifted(w.drop_last());
        assert(none_lifted(w.len()).drop_last() =~= none_lifted(w.drop_last().len()));
    }
}

/// When lifting ends, nobody falls short, and someone with a weight is not lifted.
proof fn lemma_lift(w: Seq<nat>, lifted: Seq<bool>, value: u64, floor: u64)
    requires
        w.len() == lifted.len(),
    ensures
        ({
            let f = lift(w, lifted, value, floor);
            &&& f.len() == w.len()
            &&& forall|i: int| 0 <= i < w.len() ==> !#[trigger] falls_short(w, f, value, floor, i)
            &&& floor > 0 && floor * w.len() <= value && open_sum(w, lifted) > 0 ==> open_sum(w, f)
                > 0
        }),
    decreases lifted.len() - lifted_count(lifted),
{
    let more = lifted_more(w, lifted, value, floor);
    if more == lifted {
        assert forall|i: int| 0 <= i < w.len() implies !#[trigger] falls_short(
            w,
            lifted,
            value,
            floor,
            i,
        ) by {
            assert(more[i] == lifted[i]);
        }
    } else {
        lemma_count_grows(lifted, more);
        lemma_count_bound(more);
        if floor > 0 && floor * w.len() <= value && open_sum(w, lifted) > 0 {
            lemma_someone_stays(w, lifted, value, floor);
        }
        lemma_lift(w, more, value, floor);
    }
}

proof fn lemma_amounts_sum(w: Seq<nat>, lifted: Seq<bool>, floor: nat, rest: nat, total: nat)
    requires
        w.len() == lifted.len(),
    ensures
        weight_sum(
            Seq::new(
                w.len(),
                |i: int|
                    if lifted[i] {
                        floor
                    } else {
                        share(rest, w[i], total)
                    },
            ),
        ) == floor * lifted_count(lifted) + shares_sum(w, lifted, rest, total),
    decreases w.len(),
{
    let a = Seq::new(
        w.len(),
        |i: int|
            if lifted[i] {
                floor
            } else {
                share(rest, w[i], total)
            },
    );
    if w.len() > 0 {
        let u = w.drop_last();
        let l = lifted.drop_last();
        lemma_amounts_sum(u, l, floor, rest, total);
        let b = Seq::new(
            u.len(),
            |i: int|
                if l[i] {
                    floor
                } else {
                    share(rest, u[i], total)
                },
        );
        assert(a.drop_last() =~= b);
        let c = lifted_count(l) as int;
        assert(floor * (c + 1) == floor * c + floor) by (nonlinear_arith);
    } else {
        assert(floor * 0 == 0) by (nonlinear_arith);
    }
}

/// A capped division gives nobody less than the floor, hands out no more than the value, and keeps
/// back less than one for each who has a part in it.
pub proof fn lemma_amounts(w: Seq<nat>, value: u64, floor: u64)
    requires
        floor > 0,
        floor * w.len() <= value,
        weight_sum(w) > 0,
    ensures
        amounts(w, value, floor).len() == w.len(),
        forall|i: int| 0 <= i < w.len() ==> floor <= #[trigger] amounts(w, value, floor)[i] <= value,
        weight_sum(amounts(w, value, floor)) <= value,
        value < weight_sum(amounts(w, value, floor)) + w.len(),
{
    let none = none_lifted(w.len());
    lemma_none_lifted(w);
    lemma_lift(w, none, value, floor);
    let f = lift(w, none, value, floor);
    let a = amounts(w, value, floor);
    let rest = rest_of(f, value, floor);
    let total = open_sum(w, f);
    lemma_rest(f, value, floor);
    lemma_open_count(w, f);
    lemma_shares(w, f, rest, total);
    lemma_amounts_sum(w, f, floor as nat, rest, total);
    let s = shares_sum(w, f, rest, total) as int;
    let n = w.len() - lifted_count(f);
    let r = rest as int;
    let t = total as int;
    assert(s <= r) by (nonlinear_arith)
        requires
            t * s <= r * t,
            t > 0,
    ;
    assert(r < s + n) by (nonlinear_arith)
        requires
            r * t < t * (s + n),
            t > 0,
    ;
    assert forall|i: int| 0 <= i < w.len() implies floor <= #[trigger] a[i] <= value by {
        assert(!falls_short(w, f, value, floor, i));
        lemma_weight_bound(a, i);
    }
}

proof fn lemma_share_order(rest: nat, a: nat, b: nat, total: nat)
    requires
        a <= b,
    ensures
        share(rest, a, total) <= share(rest, b, total),
{
    if total > 0 {
        lemma_share(rest, a, total);
        lemma_share(rest, b, total);
        let x = share(rest, a, total) as int;
        let y = share(rest, b, total) as int;
        let t = total as int;
        assert(rest * a <= rest * b) by (nonlinear_arith)
            requires
                a <= b,
        ;
        assert(x <= y) by (nonlinear_arith)
            requires
                t * x < t * (y + 1),
                t > 0,
        ;
    }
}

/// Whoever has no more weight than someone lifted is lifted too.
spec fn lifts_the_least(w: Seq<nat>, lifted: Seq<bool>) -> bool {
    forall|i: int, j: int|
        0 <= i < w.len() && 0 <= j < w.len() && w[i] >= w[j] && #[trigger] lifted[i]
            ==> #[trigger] lifted[j]
}

proof fn lemma_lift_order(w: Seq<nat>, lifted: Seq<bool>, value: u64, floor: u64)
    requires
        w.len() == lifted.len(),
        lifts_the_least(w, lifted),
    ensures
        lift(w, lifted, value, floor).len() == w.len(),
        lifts_the_least(w, lift(w, lifted, value, floor)),
    decreases lifted.len() - lifted_count(lifted),
{
    let more = lifted_more(w, lifted, value, floor);
    if more != lifted {
        lemma_count_grows(lifted, more);
        lemma_count_bound(more);
        assert forall|i: int, j: int|
            0 <= i < w.len() && 0 <= j < w.len() && w[i] >= w[j] && #[trigger] more[i] implies
            #[trigger] more[j] by {
            if lifted[i] {
                assert(lifted[j]);
            } else {
                lemma_share_order(
                    rest_of(lifted, value, floor),
                    w[j],
                    w[i],
                    open_sum(w, lifted),
                );
            }
        }
        lemma_lift_order(w, more, value, floor);
    }
}

/// More weight never gets less.
pub proof fn lemma_more_weight_gets_no_less(w: Seq<nat>, value: u64, floor: u64, i: int, j: int)
    requires
        floor > 0,
        floor * w.len() <= value,
        weight_sum(w) > 0,
        0 <= i < w.len(),
        0 <= j < w.len(),
        w[i] >= w[j],
    ensures
        amounts(w, value, floor)[i] >= amounts(w, value, floor)[j],
{
    let none = none_lifted(w.len());
    lemma_lift_order(w, none, value, floor);
    lemma_amounts(w, value, floor);
    let l = lift(w, none, value, floor);
    assert(amounts(w, value, floor)[i] >= floor);
    if l[i] {
        assert(l[j]);
    }
    lemma_share_order(rest_of(l, value, floor), w[j], w[i], open_sum(w, l));
}

/// One weight is no more than all.
pub proof fn lemma_weight_bound(w: Seq<nat>, i: int)
    requires
        0 <= i < w.len(),
    ensures
        w[i] <= weight_sum(w),
    decreases w.len(),
{
    if i < w.len() - 1 {
        lemma_weight_bound(w.drop_last(), i);
    }
}

/// Weights as mathematical values.
pub open spec fn weights_view(v: Seq<u128>) -> Seq<nat> {
    Seq::new(v.len(), |i: int| v[i] as nat)
}

/// `rest * weight / total` and what is left of it, one bit of `rest` at a time.
fn scale(rest: u64, weight: u128, total: u128) -> (r: (u128, u128))
    requires
        weight <= total <= 0xff_ffff_ffff_ffff_ffff_ffff_ffff,
        total > 0,
    ensures
        r.0 * total + r.1 == rest * weight,
        r.1 < total,
        r.0 <= rest,
    decreases rest,
{
    if rest == 0 {
        assert(0 * total == 0 && 0 * weight == 0);
        return (0, 0);
    }
    let half: u64 = rest / 2;
    let bit: u64 = rest % 2;
    let (q, r) = scale(half, weight, total);
    let t: u128 = 2 * r + if bit == 1 {
        weight
    } else {
        0
    };
    let up: u128 = t / total;
    let left: u128 = t % total;
    proof {
        let tt = total as int;
        vstd::arithmetic::div_mod::lemma_fundamental_div_mod(t as int, tt);
        assert(rest * weight == 2 * (half * weight) + bit * weight) by (nonlinear_arith)
            requires
                rest == 2 * half + bit,
        ;
        assert(bit * weight == (if bit == 1 {
            weight as int
        } else {
            0
        })) by (nonlinear_arith)
            requires
                bit == 0 || bit == 1,
        ;
        assert((2 * q + up) * tt == 2 * (q * tt) + tt * up) by (nonlinear_arith);
        let all = 2 * q + up;
        assert(all <= rest) by (nonlinear_arith)
            requires
                all * tt + left == rest * weight,
                left >= 0,
                weight <= tt,
                tt > 0,
                rest >= 0,
        ;
    }
    (2 * q + up, left)
}

fn share_of(rest: u64, weight: u128, total: u128) -> (r: u64)
    requires
        weight <= total <= 0xff_ffff_ffff_ffff_ffff_ffff_ffff,
    ensures
        r == share(rest as nat, weight as nat, total as nat),
{
    if total == 0 {
        return 0;
    }
    let (q, left) = scale(rest, weight, total);
    proof {
        vstd::arithmetic::div_mod::lemma_fundamental_div_mod_converse(
            (rest * weight) as int,
            total as int,
            q as int,
            left as int,
        );
    }
    q as u64
}

proof fn lemma_open_bound(w: Seq<nat>, lifted: Seq<bool>)
    requires
        w.len() == lifted.len(),
    ensures
        open_sum(w, lifted) <= weight_sum(w),
        forall|i: int| 0 <= i < w.len() && !#[trigger] lifted[i] ==> w[i] <= open_sum(w, lifted),
    decreases w.len(),
{
    if w.len() > 0 {
        let u = w.drop_last();
        let l = lifted.drop_last();
        lemma_open_bound(u, l);
        assert forall|i: int| 0 <= i < w.len() && !#[trigger] lifted[i] implies w[i] <= open_sum(
            w,
            lifted,
        ) by {
            if i < u.len() {
                assert(!l[i] && u[i] == w[i]);
            }
        }
    }
}

proof fn lemma_prefix(w: Seq<nat>, lifted: Seq<bool>, i: int)
    requires
        w.len() == lifted.len(),
        0 <= i <= w.len(),
    ensures
        open_sum(w.take(i), lifted.take(i)) <= open_sum(w, lifted),
        lifted_count(lifted.take(i)) <= lifted_count(lifted),
    decreases w.len() - i,
{
    if i < w.len() {
        lemma_prefix(w, lifted, i + 1);
        assert(w.take(i + 1).drop_last() =~= w.take(i));
        assert(lifted.take(i + 1).drop_last() =~= lifted.take(i));
    } else {
        assert(w.take(i) =~= w);
        assert(lifted.take(i) =~= lifted);
    }
}

/// What is left for those who are not lifted, and their weight.
fn open_part(weights: &Vec<u128>, lifted: &Vec<bool>, value: u64, floor: u64) -> (r: (u64, u128))
    requires
        weights@.len() == lifted@.len(),
        weight_sum(weights_view(weights@)) <= 0xff_ffff_ffff_ffff_ffff_ffff_ffff,
        floor * weights@.len() <= value,
    ensures
        r.0 == rest_of(lifted@, value, floor),
        r.1 == open_sum(weights_view(weights@), lifted@),
{
    let ghost w = weights_view(weights@);
    let mut rest: u64 = value;
    let mut total: u128 = 0;
    let mut i: usize = 0;
    assert(floor * 0 == 0);
    proof {
        lemma_open_bound(w, lifted@);
        lemma_rest(lifted@, value, floor);
    }
    while i < weights.len()
        invariant
            i <= weights@.len() == lifted@.len(),
            w == weights_view(weights@),
            rest + floor * lifted_count(lifted@.take(i as int)) == value,
            rest_of(lifted@, value, floor) + floor * lifted_count(lifted@) == value,
            total == open_sum(w.take(i as int), lifted@.take(i as int)),
            open_sum(w, lifted@) <= 0xff_ffff_ffff_ffff_ffff_ffff_ffff,
        decreases weights@.len() - i,
    {
        proof {
            assert(w.take(i + 1).drop_last() =~= w.take(i as int));
            assert(lifted@.take(i + 1).drop_last() =~= lifted@.take(i as int));
            lemma_prefix(w, lifted@, i + 1);
            let f = floor as int;
            let c = lifted_count(lifted@.take(i as int)) as int;
            let d = lifted_count(lifted@.take(i + 1)) as int;
            let e = lifted_count(lifted@) as int;
            assert(f * (c + 1) == f * c + f) by (nonlinear_arith);
            assert(f * d <= f * e) by (nonlinear_arith)
                requires
                    d <= e,
                    f >= 0,
            ;
        }
        if lifted[i] {
            rest = rest - floor;
        } else {
            total = total + weights[i];
        }
        i = i + 1;
    }
    assert(w.take(w.len() as int) =~= w);
    assert(lifted@.take(lifted@.len() as int) =~= lifted@);
    (rest, total)
}

/// Divides a value by weight, with nobody below the floor.
pub fn divide(weights: &Vec<u128>, value: u64, floor: u64) -> (r: Vec<u64>)
    requires
        weight_sum(weights_view(weights@)) <= 0xff_ffff_ffff_ffff_ffff_ffff_ffff,
        floor * weights@.len() <= value,
    ensures
        r@.len() == weights@.len(),
        forall|i: int|
            0 <= i < r@.len() ==> (#[trigger] r@[i]) == amounts(
                weights_view(weights@),
                value,
                floor,
            )[i],
{
    let ghost w = weights_view(weights@);
    let n: usize = weights.len();
    let mut lifted: Vec<bool> = Vec::new();
    let mut i: usize = 0;
    while i < n
        invariant
            i <= n,
            lifted@ == none_lifted(i as nat),
        decreases n - i,
    {
        lifted.push(false);
        i = i + 1;
        assert(lifted@ =~= none_lifted(i as nat));
    }
    let mut part: (u64, u128) = open_part(weights, &lifted, value, floor);
    let mut settled: bool = false;
    while !settled
        invariant
            n == weights@.len(),
            w == weights_view(weights@),
            lifted@.len() == n,
            weight_sum(w) <= 0xff_ffff_ffff_ffff_ffff_ffff_ffff,
            floor * weights@.len() <= value,
            part.0 == rest_of(lifted@, value, floor),
            part.1 == open_sum(w, lifted@),
            lift(w, none_lifted(w.len()), value, floor) == lift(w, lifted@, value, floor),
            settled ==> lifted_more(w, lifted@, value, floor) == lifted@,
        decreases n - lifted_count(lifted@), if settled { 0int } else { 1 },
    {
        let mut more: Vec<bool> = Vec::new();
        let mut changed: bool = false;
        let ghost next = lifted_more(w, lifted@, value, floor);
        let mut k: usize = 0;
        proof {
            lemma_open_bound(w, lifted@);
        }
        assert(more@ =~= lifted@.take(0));
        while k < n
            invariant
                k <= n == weights@.len() == lifted@.len(),
                w == weights_view(weights@),
                next == lifted_more(w, lifted@, value, floor),
                more@ == next.take(k as int),
                changed == (more@ != lifted@.take(k as int)),
                part.0 == rest_of(lifted@, value, floor),
                part.1 == open_sum(w, lifted@),
                part.1 <= 0xff_ffff_ffff_ffff_ffff_ffff_ffff,
                forall|i: int| 0 <= i < n && !#[trigger] lifted@[i] ==> w[i] <= part.1,
            decreases n - k,
        {
            let ghost before = more@;
            let short: bool = !lifted[k] && share_of(part.0, weights[k], part.1) < floor;
            assert(short == falls_short(w, lifted@, value, floor, k as int));
            more.push(lifted[k] || short);
            proof {
                assert(more@ =~= next.take(k + 1));
                assert(lifted@.take(k + 1) =~= lifted@.take(k as int).push(lifted@[k as int]));
                if before != lifted@.take(k as int) && more@ == lifted@.take(k + 1) {
                    assert(more@.drop_last() =~= before);
                    assert(lifted@.take(k + 1).drop_last() =~= lifted@.take(k as int));
                }
                if short {
                    assert(more@[k as int] != lifted@.take(k + 1)[k as int]);
                } else if before == lifted@.take(k as int) {
                    assert(more@ =~= lifted@.take(k + 1));
                }
            }
            changed = changed || short;
            k = k + 1;
        }
        proof {
            assert(next.take(n as int) =~= next);
            assert(lifted@.take(n as int) =~= lifted@);
            if changed {
                lemma_count_grows(lifted@, next);
                lemma_count_bound(next);
            }
        }
        if changed {
            lifted = more;
            part = open_part(weights, &lifted, value, floor);
        } else {
            settled = true;
        }
    }
    let mut r: Vec<u64> = Vec::new();
    let mut i: usize = 0;
    let ghost all = amounts(w, value, floor);
    assert(all == amounts_under(w, lifted@, value, floor));
    proof {
        lemma_open_bound(w, lifted@);
    }
    while i < n
        invariant
            i <= n == weights@.len() == lifted@.len(),
            w == weights_view(weights@),
            all == amounts_under(w, lifted@, value, floor),
            part.0 == rest_of(lifted@, value, floor),
            part.1 == open_sum(w, lifted@),
            part.1 <= 0xff_ffff_ffff_ffff_ffff_ffff_ffff,
            forall|i: int| 0 <= i < n && !#[trigger] lifted@[i] ==> w[i] <= part.1,
            r@.len() == i,
            forall|j: int| 0 <= j < i ==> (#[trigger] r@[j]) == all[j],
        decreases n - i,
    {
        let x: u64 = if lifted[i] {
            floor
        } else {
            share_of(part.0, weights[i], part.1)
        };
        r.push(x);
        i = i + 1;
    }
    r
}

/// Where everyone's part by weight reaches the floor, everyone gets exactly that part.
pub proof fn lemma_by_weight_where_it_reaches(w: Seq<nat>, value: u64, floor: u64)
    requires
        weight_sum(w) > 0,
        forall|i: int|
            0 <= i < w.len() ==> value * (#[trigger] w[i]) / (weight_sum(w) as int) >= floor,
    ensures
        amounts(w, value, floor).len() == w.len(),
        forall|i: int|
            0 <= i < w.len() ==> (#[trigger] amounts(w, value, floor)[i]) == value * w[i] / (
            weight_sum(w) as int),
{
    let none = none_lifted(w.len());
    lemma_none_lifted(w);
    assert(floor as nat * 0 == 0) by (nonlinear_arith);
    assert(rest_of(none, value, floor) == value);
    assert forall|i: int| 0 <= i < w.len() implies share(value as nat, w[i], weight_sum(w))
        == value * (#[trigger] w[i]) / (weight_sum(w) as int) by {
        assert(value as nat * w[i] == value * w[i]);
    }
    assert(lifted_more(w, none, value, floor) =~= none) by {
        assert forall|i: int| 0 <= i < w.len() implies !falls_short(w, none, value, floor, i) by {
            assert(w[i] == w[i]);
        }
    }
    assert(lift(w, none, value, floor) == none);
}

/// Those above the floor divide by weight: of two, what each gets is to the other's as their
/// weights are, but for rounding.
pub proof fn lemma_above_the_floor_by_weight(w: Seq<nat>, value: u64, floor: u64, i: int, j: int)
    requires
        floor > 0,
        0 <= i < w.len(),
        0 <= j < w.len(),
        amounts(w, value, floor)[i] > floor,
        amounts(w, value, floor)[j] > floor,
    ensures
        amounts(w, value, floor)[i] * w[j] < (amounts(w, value, floor)[j] + 1) * w[i],
{
    let l = lift(w, none_lifted(w.len()), value, floor);
    let rest = rest_of(l, value, floor);
    let total = open_sum(w, l);
    let a = amounts(w, value, floor)[i] as int;
    let b = amounts(w, value, floor)[j] as int;
    assert(!l[i] && !l[j]);
    assert(total > 0);
    lemma_share(rest, w[i], total);
    lemma_share(rest, w[j], total);
    let x = w[i] as int;
    let y = w[j] as int;
    let r = rest as int;
    let t = total as int;
    assert(x > 0) by (nonlinear_arith)
        requires
            t * a <= r * x,
            t > 0,
            a > 0,
            x >= 0,
    ;
    assert(t * a * y <= r * x * y) by (nonlinear_arith)
        requires
            t * a <= r * x,
            y >= 0,
    ;
    assert(r * x * y < t * (b + 1) * x) by (nonlinear_arith)
        requires
            r * y < t * (b + 1),
            x > 0,
    ;
    assert(a * y < (b + 1) * x) by (nonlinear_arith)
        requires
            t * a * y < t * (b + 1) * x,
            t > 0,
    ;
}

} // verus!
