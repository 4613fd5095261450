//! Canonical JSON can be read in one way only: where the texts are the same, so is what they hold.

use crate::json::{
    array_text, escaped, escaped_all, in_order, joined, json_quoted, member_texts, object_text,
};
use crate::names::{in_name_order, lemma_row_unique, lists_name, map_of};
use crate::text::{
    decimal_of, digit_char, hex_digit, lemma_text_before_total, lemma_text_before_trans, text_before,
};
use vstd::prelude::*;

verus! {

/// Where a reader is: outside texts, inside one, or right after a backslash in one.
pub enum Place {
    Out,
    In,
    Escaped,
}

/// How far a reader gets from `s` on before it meets the end of what it is in: a comma or a
/// bracket that closes none it has opened, or, where `colon` says so, a colon.
pub open spec fn reach(s: Seq<char>, depth: nat, place: Place, colon: bool) -> nat
    decreases s.len(),
{
    if s.len() == 0 {
        0
    } else {
        let c = s[0];
        let rest = s.drop_first();
        match place {
            Place::Escaped => 1 + reach(rest, depth, Place::In, colon),
            Place::In => 1 + reach(
                rest,
                depth,
                if c == '\\' {
                    Place::Escaped
                } else if c == '"' {
                    Place::Out
                } else {
                    Place::In
                },
                colon,
            ),
            Place::Out => if c == '"' {
                1 + reach(rest, depth, Place::In, colon)
            } else if c == '[' || c == '{' {
                1 + reach(rest, depth + 1, Place::Out, colon)
            } else if c == ']' || c == '}' {
                if depth == 0 {
                    0
                } else {
                    1 + reach(rest, (depth - 1) as nat, Place::Out, colon)
                }
            } else if depth == 0 && (c == ',' || (colon && c == ':')) {
                0
            } else {
                1 + reach(rest, depth, Place::Out, colon)
            },
        }
    }
}

/// Whether a reader gets through `t`, at `from` brackets deep or deeper, and is then where it was.
pub open spec fn is_whole(t: Seq<char>, from: nat, colon: bool) -> bool {
    forall|d: nat, r: Seq<char>|
        d >= from ==> #[trigger] reach(t + r, d, Place::Out, colon) == t.len() + reach(
            r,
            d,
            Place::Out,
            colon,
        )
}

/// Whether `t` is a value: something, and whole wherever it stands.
pub open spec fn is_value(t: Seq<char>) -> bool {
    t.len() > 0 && is_whole(t, 0, false)
}

/// A character that is neither a quote nor a bracket is whole, but for the separators where they
/// separate.
proof fn lemma_whole_char(c: char, from: nat, colon: bool)
    requires
        c != '"' && c != '[' && c != '{' && c != ']' && c != '}',
        from > 0 || (c != ',' && !(colon && c == ':')),
    ensures
        is_whole(seq![c], from, colon),
{
    assert forall|d: nat, r: Seq<char>| d >= from implies #[trigger] reach(
        seq![c] + r,
        d,
        Place::Out,
        colon,
    ) == 1 + reach(r, d, Place::Out, colon) by {
        assert((seq![c] + r).drop_first() =~= r);
    }
}

/// Two whole texts make one.
proof fn lemma_whole_pair(a: Seq<char>, b: Seq<char>, from: nat, colon: bool)
    requires
        is_whole(a, from, colon),
        is_whole(b, from, colon),
    ensures
        is_whole(a + b, from, colon),
{
    assert forall|d: nat, r: Seq<char>| d >= from implies #[trigger] reach(
        (a + b) + r,
        d,
        Place::Out,
        colon,
    ) == (a + b).len() + reach(r, d, Place::Out, colon) by {
        assert((a + b) + r =~= a + (b + r));
        assert(reach(a + (b + r), d, Place::Out, colon) == a.len() + reach(
            b + r,
            d,
            Place::Out,
            colon,
        ));
        assert(reach(b + r, d, Place::Out, colon) == b.len() + reach(r, d, Place::Out, colon));
    }
}

/// Brackets make what is whole inside them whole everywhere.
proof fn lemma_whole_brackets(open: char, x: Seq<char>, close: char, colon: bool)
    requires
        open == '[' || open == '{',
        close == ']' || close == '}',
        is_whole(x, 1, colon),
    ensures
        is_whole(seq![open] + x + seq![close], 0, colon),
{
    let t = seq![open] + x + seq![close];
    assert forall|d: nat, r: Seq<char>| d >= 0 implies #[trigger] reach(
        t + r,
        d,
        Place::Out,
        colon,
    ) == t.len() + reach(r, d, Place::Out, colon) by {
        let tail = seq![close] + r;
        assert((t + r).drop_first() =~= x + tail);
        assert((t + r)[0] == open);
        assert(reach(x + tail, (d + 1) as nat, Place::Out, colon) == x.len() + reach(
            tail,
            (d + 1) as nat,
            Place::Out,
            colon,
        ));
        assert(tail[0] == close);
        assert(tail.drop_first() =~= r);
    }
}

proof fn lemma_reach_escaped(c: char, x: Seq<char>, d: nat, colon: bool)
    ensures
        reach(escaped(c) + x, d, Place::In, colon) == escaped(c).len() + reach(
            x,
            d,
            Place::In,
            colon,
        ),
{
    reveal_with_fuel(reach, 7);
    let e = escaped(c);
    let s = e + x;
    let n = c as u32;
    if e.len() == 1 {
        assert(s.drop_first() =~= x);
    } else if e.len() == 2 {
        assert(s.drop_first().drop_first() =~= x);
        assert(s.drop_first()[0] == e[1]);
    } else {
        let s1 = s.drop_first();
        let s2 = s1.drop_first();
        let s3 = s2.drop_first();
        let s4 = s3.drop_first();
        let s5 = s4.drop_first();
        assert(s5.drop_first() =~= x);
        assert(s2[0] == '0' && s3[0] == '0');
        assert(s4[0] == hex_digit(n as int / 16));
        assert(s5[0] == hex_digit(n as int % 16));
    }
}

proof fn lemma_reach_text(s: Seq<char>, x: Seq<char>, d: nat, colon: bool)
    ensures
        reach(escaped_all(s) + x, d, Place::In, colon) == escaped_all(s).len() + reach(
            x,
            d,
            Place::In,
            colon,
        ),
    decreases s.len(),
{
    if s.len() > 0 {
        let tail = escaped(s.last()) + x;
        assert(escaped_all(s) + x =~= escaped_all(s.drop_last()) + tail);
        lemma_reach_text(s.drop_last(), tail, d, colon);
        lemma_reach_escaped(s.last(), x, d, colon);
    } else {
        assert(escaped_all(s) + x =~= x);
    }
}

/// A quoted text is a value.
pub proof fn lemma_quoted_is_value(s: Seq<char>, colon: bool)
    ensures
        is_value(json_quoted(s)),
        is_whole(json_quoted(s), 0, colon),
{
    lemma_quoted_whole(s, colon);
    lemma_quoted_whole(s, false);
}

proof fn lemma_quoted_whole(s: Seq<char>, colon: bool)
    ensures
        is_whole(json_quoted(s), 0, colon),
{
    let t = json_quoted(s);
    assert forall|d: nat, r: Seq<char>| d >= 0 implies #[trigger] reach(
        t + r,
        d,
        Place::Out,
        colon,
    ) == t.len() + reach(r, d, Place::Out, colon) by {
        let tail = seq!['"'] + r;
        assert((t + r)[0] == '"');
        assert((t + r).drop_first() =~= escaped_all(s) + tail);
        lemma_reach_text(s, tail, d, colon);
        assert(tail.drop_first() =~= r);
    }
}

/// A number is a value.
pub proof fn lemma_decimal_is_value(n: nat)
    ensures
        is_value(decimal_of(n)),
    decreases n,
{
    let c = digit_char(n % 10);
    lemma_whole_char(c, 0, false);
    if n >= 10 {
        lemma_decimal_is_value(n / 10);
        lemma_whole_pair(decimal_of(n / 10), seq![c], 0, false);
        assert(decimal_of(n) =~= decimal_of(n / 10) + seq![c]);
    } else {
        assert(decimal_of(n) =~= seq![c]);
    }
}

/// The numbers of the same decimals are the same.
pub proof fn lemma_decimal_faithful(a: nat, b: nat)
    requires
        decimal_of(a) == decimal_of(b),
    ensures
        a == b,
    decreases a,
{
    lemma_decimal_len(a);
    lemma_decimal_len(b);
    assert(decimal_of(a).last() == digit_char(a % 10));
    assert(decimal_of(b).last() == digit_char(b % 10));
    if a >= 10 && b >= 10 {
        assert(decimal_of(a / 10) =~= decimal_of(a).drop_last());
        assert(decimal_of(b / 10) =~= decimal_of(b).drop_last());
        lemma_decimal_faithful(a / 10, b / 10);
    }
}

proof fn lemma_decimal_len(n: nat)
    ensures
        decimal_of(n).len() > 0,
        n >= 10 ==> decimal_of(n).len() > 1,
    decreases n,
{
    if n >= 10 {
        lemma_decimal_len(n / 10);
    }
}

/// The text of one character tells which it was and where it ends.
proof fn lemma_escaped_faithful(c: char, d: char, x: Seq<char>, y: Seq<char>)
    requires
        escaped(c) + x == escaped(d) + y,
    ensures
        c == d,
        x == y,
{
    let a = escaped(c);
    let b = escaped(d);
    let s = a + x;
    let n = c as u32;
    let m = d as u32;
    assert(s[0] == a[0] && s[0] == b[0]);
    if a.len() > 1 {
        assert(a[0] == '\\');
        assert(b.len() > 1);
        assert(s[1] == a[1] && s[1] == b[1]);
        if a.len() > 2 {
            assert(b.len() > 2);
            assert(s[4] == a[4] && s[4] == b[4]);
            assert(s[5] == a[5] && s[5] == b[5]);
            assert(n / 16 < 2 && m / 16 < 2);
            assert(n / 16 == m / 16);
            assert(n % 16 == m % 16);
        }
    }
    assert(n == m);
    assert(c == d);
    assert(s.skip(a.len() as int) =~= x);
    assert(s.skip(b.len() as int) =~= y);
}

proof fn lemma_escaped_all_first(s: Seq<char>)
    requires
        s.len() > 0,
    ensures
        escaped_all(s) == escaped(s[0]) + escaped_all(s.drop_first()),
    decreases s.len(),
{
    let t = s.drop_first();
    if s.len() == 1 {
        assert(s.drop_last() =~= Seq::empty());
        assert(t =~= Seq::empty());
        assert(s.last() == s[0]);
        assert(escaped_all(s) =~= escaped(s[0]) + escaped_all(t));
    } else {
        let init = s.drop_last();
        lemma_escaped_all_first(init);
        assert(init.drop_first() =~= t.drop_last());
        assert(escaped_all(s) =~= escaped(s[0]) + (escaped_all(t.drop_last()) + escaped(t.last())));
    }
}

/// The texts of the same quoted text are the same.
pub proof fn lemma_quoted_faithful(s: Seq<char>, t: Seq<char>)
    requires
        json_quoted(s) == json_quoted(t),
    ensures
        s == t,
{
    let a = json_quoted(s);
    assert(escaped_all(s) =~= a.subrange(1, a.len() - 1));
    assert(escaped_all(t) =~= a.subrange(1, a.len() - 1));
    lemma_escaped_all_faithful(s, t);
}

proof fn lemma_escaped_all_faithful(s: Seq<char>, t: Seq<char>)
    requires
        escaped_all(s) == escaped_all(t),
    ensures
        s == t,
    decreases s.len(),
{
    if s.len() > 0 {
        lemma_escaped_all_first(s);
    }
    if t.len() > 0 {
        lemma_escaped_all_first(t);
    }
    if s.len() > 0 && t.len() > 0 {
        lemma_escaped_faithful(
            s[0],
            t[0],
            escaped_all(s.drop_first()),
            escaped_all(t.drop_first()),
        );
        lemma_escaped_all_faithful(s.drop_first(), t.drop_first());
        assert(s =~= seq![s[0]] + s.drop_first());
        assert(t =~= seq![t[0]] + t.drop_first());
    } else {
        assert(s =~= t);
    }
}

proof fn lemma_joined_first(v: Seq<Seq<char>>)
    requires
        v.len() > 1,
    ensures
        joined(v) == v[0] + seq![','] + joined(v.drop_first()),
    decreases v.len(),
{
    reveal_strlit(",");
    let t = v.drop_first();
    assert(","@ =~= seq![',']);
    if v.len() == 2 {
        assert(joined(v.drop_last()) == v[0]);
        assert(joined(t) == v[1]);
    } else {
        let init = v.drop_last();
        lemma_joined_first(init);
        assert(init.drop_first() =~= t.drop_last());
        assert(joined(v) =~= v[0] + seq![','] + (joined(t.drop_last()) + ","@ + t.last()));
    }
}

/// Values with commas between them are whole inside brackets.
proof fn lemma_joined_whole(v: Seq<Seq<char>>)
    requires
        forall|i: int| 0 <= i < v.len() ==> is_value(#[trigger] v[i]),
    ensures
        is_whole(joined(v), 1, false),
    decreases v.len(),
{
    if v.len() == 0 {
        assert forall|d: nat, r: Seq<char>| d >= 1 implies #[trigger] reach(
            joined(v) + r,
            d,
            Place::Out,
            false,
        ) == joined(v).len() + reach(r, d, Place::Out, false) by {
            assert(joined(v) + r =~= r);
        }
    } else if v.len() > 1 {
        let t = v.drop_first();
        assert forall|i: int| 0 <= i < t.len() implies is_value(#[trigger] t[i]) by {
            assert(t[i] == v[i + 1]);
        }
        lemma_joined_whole(t);
        lemma_joined_first(v);
        lemma_whole_char(',', 1, false);
        assert(is_whole(v[0], 1, false));
        lemma_whole_pair(v[0], seq![','], 1, false);
        lemma_whole_pair(v[0] + seq![','], joined(t), 1, false);
    }
}

/// Values with commas between them, up to a closing bracket, can be told apart.
proof fn lemma_joined_faithful(v: Seq<Seq<char>>, w: Seq<Seq<char>>, close: char)
    requires
        close == ']' || close == '}',
        forall|i: int| 0 <= i < v.len() ==> is_value(#[trigger] v[i]),
        forall|i: int| 0 <= i < w.len() ==> is_value(#[trigger] w[i]),
        joined(v) + seq![close] == joined(w) + seq![close],
    ensures
        v == w,
    decreases v.len(),
{
    let s = joined(v) + seq![close];
    let a = lemma_first_reach(v, close);
    let b = lemma_first_reach(w, close);
    if v.len() > 0 && w.len() > 0 {
        assert(v[0] =~= s.take(v[0].len() as int));
        assert(w[0] =~= s.take(w[0].len() as int));
        assert(a == s.skip(v[0].len() as int));
        assert(b == s.skip(w[0].len() as int));
        assert(v[0] == w[0]);
        if v.len() > 1 && w.len() > 1 {
            let x = v.drop_first();
            let y = w.drop_first();
            assert forall|i: int| 0 <= i < x.len() implies is_value(#[trigger] x[i]) by {
                assert(x[i] == v[i + 1]);
            }
            assert forall|i: int| 0 <= i < y.len() implies is_value(#[trigger] y[i]) by {
                assert(y[i] == w[i + 1]);
            }
            assert(joined(x) + seq![close] =~= a.drop_first());
            assert(joined(y) + seq![close] =~= b.drop_first());
            lemma_joined_faithful(x, y, close);
            assert(v =~= seq![v[0]] + x);
            assert(w =~= seq![w[0]] + y);
        } else {
            assert(v.len() == 1 && w.len() == 1);
            assert(v =~= w);
        }
    } else {
        assert(v =~= w);
    }
}

/// A reader of values stops after the first; what is left.
proof fn lemma_first_reach(v: Seq<Seq<char>>, close: char) -> (rest: Seq<char>)
    requires
        close == ']' || close == '}',
        forall|i: int| 0 <= i < v.len() ==> is_value(#[trigger] v[i]),
    ensures
        v.len() == 0 ==> reach(joined(v) + seq![close], 0, Place::Out, false) == 0,
        v.len() > 0 ==> {
            &&& reach(joined(v) + seq![close], 0, Place::Out, false) == v[0].len()
            &&& joined(v) + seq![close] == v[0] + rest
            &&& rest == (joined(v) + seq![close]).skip(v[0].len() as int)
            &&& v[0].len() > 0
        },
        v.len() == 1 ==> rest == seq![close],
        v.len() > 1 ==> rest == seq![','] + (joined(v.drop_first()) + seq![close]),
{
    let s = joined(v) + seq![close];
    if v.len() == 0 {
        assert(s =~= seq![close]);
        s
    } else {
        let rest = if v.len() == 1 {
            seq![close]
        } else {
            seq![','] + (joined(v.drop_first()) + seq![close])
        };
        if v.len() > 1 {
            lemma_joined_first(v);
        }
        assert(s =~= v[0] + rest);
        assert(is_value(v[0]));
        assert(reach(v[0] + rest, 0, Place::Out, false) == v[0].len() + reach(
            rest,
            0,
            Place::Out,
            false,
        ));
        assert(rest =~= s.skip(v[0].len() as int));
        rest
    }
}

proof fn lemma_bracket_texts(x: Seq<char>)
    ensures
        "["@ + x + "]"@ == seq!['['] + x + seq![']'],
        "{"@ + x + "}"@ == seq!['{'] + x + seq!['}'],
{
    reveal_strlit("[");
    reveal_strlit("]");
    reveal_strlit("{");
    reveal_strlit("}");
    assert("["@ =~= seq!['[']);
    assert("]"@ =~= seq![']']);
    assert("{"@ =~= seq!['{']);
    assert("}"@ =~= seq!['}']);
}

/// An array of values is a value, and its text tells its items.
pub proof fn lemma_array_is_value(v: Seq<Seq<char>>)
    requires
        forall|i: int| 0 <= i < v.len() ==> is_value(#[trigger] v[i]),
    ensures
        is_value(array_text(v)),
{
    lemma_bracket_texts(joined(v));
    lemma_joined_whole(v);
    lemma_whole_brackets('[', joined(v), ']', false);
}

/// Arrays of values with the same text have the same items.
pub proof fn lemma_array_faithful(v: Seq<Seq<char>>, w: Seq<Seq<char>>)
    requires
        forall|i: int| 0 <= i < v.len() ==> is_value(#[trigger] v[i]),
        forall|i: int| 0 <= i < w.len() ==> is_value(#[trigger] w[i]),
        array_text(v) == array_text(w),
    ensures
        v == w,
{
    lemma_bracket_texts(joined(v));
    lemma_bracket_texts(joined(w));
    let s = array_text(v);
    assert(joined(v) + seq![']'] =~= s.drop_first());
    assert(joined(w) + seq![']'] =~= s.drop_first());
    lemma_joined_faithful(v, w, ']');
}

/// A member of an object reads as one piece.
proof fn lemma_member_is_value(k: Seq<char>, t: Seq<char>)
    requires
        is_value(t),
    ensures
        is_value(json_quoted(k) + ":"@ + t),
{
    reveal_strlit(":");
    assert(":"@ =~= seq![':']);
    lemma_quoted_is_value(k, false);
    lemma_whole_char(':', 0, false);
    lemma_whole_pair(json_quoted(k), seq![':'], 0, false);
    lemma_whole_pair(json_quoted(k) + seq![':'], t, 0, false);
}

/// A member's text tells its name and the text of its value.
proof fn lemma_member_faithful(k: Seq<char>, t: Seq<char>, l: Seq<char>, u: Seq<char>)
    requires
        json_quoted(k) + ":"@ + t == json_quoted(l) + ":"@ + u,
    ensures
        k == l,
        t == u,
{
    reveal_strlit(":");
    assert(":"@ =~= seq![':']);
    let s = json_quoted(k) + ":"@ + t;
    lemma_quoted_is_value(k, true);
    lemma_quoted_is_value(l, true);
    let x = seq![':'] + t;
    let y = seq![':'] + u;
    assert(s =~= json_quoted(k) + x);
    assert(s =~= json_quoted(l) + y);
    assert(reach(json_quoted(k) + x, 0, Place::Out, true) == json_quoted(k).len() + reach(
        x,
        0,
        Place::Out,
        true,
    ));
    assert(reach(json_quoted(l) + y, 0, Place::Out, true) == json_quoted(l).len() + reach(
        y,
        0,
        Place::Out,
        true,
    ));
    assert(x[0] == ':' && y[0] == ':');
    let n = json_quoted(k).len() as int;
    assert(json_quoted(k) =~= s.take(n));
    assert(json_quoted(l) =~= s.take(n));
    lemma_quoted_faithful(k, l);
    assert(t =~= s.skip(n + 1));
    assert(u =~= s.skip(n + 1));
}

/// Members can be listed in name order.
proof fn lemma_order_exists(m: Map<Seq<char>, Seq<char>>) -> (rows: Seq<(Seq<char>, Seq<char>)>)
    requires
        m.dom().finite(),
    ensures
        in_name_order(rows),
        map_of(rows) == m,
    decreases m.dom().len(),
{
    if m.dom().len() == 0 {
        let rows = Seq::<(Seq<char>, Seq<char>)>::empty();
        assert(m.dom() =~= Set::empty());
        assert(map_of(rows) =~= m) by {
            assert forall|k: Seq<char>| !map_of(rows).contains_key(k) by {
                assert(!lists_name(rows, k));
            }
            assert forall|k: Seq<char>| !m.contains_key(k) by {
                assert(!m.dom().contains(k));
            }
        }
        rows
    } else {
        let k = m.dom().choose();
        let less = m.remove(k);
        assert(less.dom() =~= m.dom().remove(k));
        let rows = lemma_order_exists(less);
        lemma_row_added(rows, k, m[k])
    }
}

/// A member that is not listed can be listed.
proof fn lemma_row_added(rows: Seq<(Seq<char>, Seq<char>)>, k: Seq<char>, t: Seq<char>) -> (n: Seq<
    (Seq<char>, Seq<char>),
>)
    requires
        in_name_order(rows),
        !map_of(rows).contains_key(k),
    ensures
        in_name_order(n),
        map_of(n) == map_of(rows).insert(k, t),
    decreases rows.len(),
{
    let p = lemma_row_place(rows, k);
    let n = rows.insert(p, (k, t));
    assert forall|i: int, j: int| 0 <= i < j < n.len() implies text_before(
        (#[trigger] n[i]).0,
        (#[trigger] n[j]).0,
    ) by {
        let a = if i < p { i } else { i - 1 };
        let b = if j < p { j } else { j - 1 };
        if i != p && j != p {
            assert(n[i] == rows[a] && n[j] == rows[b]);
            assert(text_before(rows[a].0, rows[b].0));
        } else if i == p {
            assert(n[j] == rows[b]);
        } else {
            assert(n[i] == rows[a]);
        }
    }
    let m = map_of(rows).insert(k, t);
    assert forall|x: Seq<char>| map_of(n).contains_key(x) == m.contains_key(x) by {
        if lists_name(n, x) {
            let i = choose|i: int| 0 <= i < n.len() && (#[trigger] n[i]).0 == x;
            if i != p {
                assert(n[i] == rows[if i < p { i } else { i - 1 }]);
                assert(lists_name(rows, x));
            }
        }
        if lists_name(rows, x) {
            let i = choose|i: int| 0 <= i < rows.len() && (#[trigger] rows[i]).0 == x;
            assert(n[if i < p { i } else { i + 1 }] == rows[i]);
            assert(lists_name(n, x));
        }
        assert(n[p].0 == k);
        assert(lists_name(n, k));
    }
    assert forall|x: Seq<char>| #[trigger] map_of(n).contains_key(x) implies map_of(n)[x] == m[x] by {
        let i = choose|i: int| 0 <= i < n.len() && (#[trigger] n[i]).0 == x;
        lemma_row_unique(n, i);
        if i != p {
            let a = if i < p { i } else { i - 1 };
            assert(n[i] == rows[a]);
            lemma_row_unique(rows, a);
            assert(lists_name(rows, x));
            assert(x != k);
        }
    }
    assert(map_of(n) =~= m);
    n
}

/// Where a member that is not listed belongs.
proof fn lemma_row_place(rows: Seq<(Seq<char>, Seq<char>)>, k: Seq<char>) -> (p: int)
    requires
        in_name_order(rows),
        !map_of(rows).contains_key(k),
    ensures
        0 <= p <= rows.len(),
        forall|i: int| 0 <= i < p ==> text_before((#[trigger] rows[i]).0, k),
        forall|i: int| p <= i < rows.len() ==> text_before(k, (#[trigger] rows[i]).0),
    decreases rows.len(),
{
    if rows.len() == 0 {
        0
    } else {
        let last = rows.last();
        let init = rows.drop_last();
        assert(rows[rows.len() - 1].0 == last.0);
        assert(lists_name(rows, last.0));
        lemma_text_before_total(last.0, k);
        if text_before(last.0, k) {
            assert forall|i: int| 0 <= i < rows.len() implies text_before((#[trigger] rows[i]).0, k)
                by {
                if i < rows.len() - 1 {
                    assert(text_before(rows[i].0, rows[rows.len() - 1].0));
                    lemma_text_before_trans(rows[i].0, last.0, k);
                }
            }
            rows.len() as int
        } else {
            assert forall|i: int, j: int| 0 <= i < j < init.len() implies text_before(
                (#[trigger] init[i]).0,
                (#[trigger] init[j]).0,
            ) by {
                assert(text_before(rows[i].0, rows[j].0));
            }
            if lists_name(init, k) {
                let i = choose|i: int| 0 <= i < init.len() && (#[trigger] init[i]).0 == k;
                assert(rows[i].0 == k);
            }
            assert(!map_of(init).contains_key(k));
            let p = lemma_row_place(init, k);
            assert forall|i: int| 0 <= i < p implies text_before((#[trigger] rows[i]).0, k) by {
                assert(rows[i] == init[i]);
            }
            assert forall|i: int| p <= i < rows.len() implies text_before(
                k,
                (#[trigger] rows[i]).0,
            ) by {
                if i < rows.len() - 1 {
                    assert(rows[i] == init[i]);
                }
            }
            p
        }
    }
}

/// The listing of members in name order is one.
proof fn lemma_in_order(m: Map<Seq<char>, Seq<char>>)
    requires
        m.dom().finite(),
    ensures
        in_name_order(in_order(m)),
        map_of(in_order(m)) == m,
{
    let rows = lemma_order_exists(m);
    assert(in_name_order(rows) && map_of(rows) == m);
}

/// Whether an object has finitely many members, each of them a value.
pub open spec fn has_values(m: Map<Seq<char>, Seq<char>>) -> bool {
    &&& m.dom().finite()
    &&& forall|k: Seq<char>| #[trigger] m.contains_key(k) ==> is_value(m[k])
}

proof fn lemma_members_are_values(m: Map<Seq<char>, Seq<char>>)
    requires
        has_values(m),
    ensures
        forall|i: int|
            0 <= i < member_texts(in_order(m)).len() ==> is_value(
                #[trigger] member_texts(in_order(m))[i],
            ),
{
    lemma_in_order(m);
    let rows = in_order(m);
    assert forall|i: int| 0 <= i < member_texts(rows).len() implies is_value(
        #[trigger] member_texts(rows)[i],
    ) by {
        lemma_row_unique(rows, i);
        assert(m.contains_key(rows[i].0));
        lemma_member_is_value(rows[i].0, rows[i].1);
    }
}

/// An object of values is a value.
pub proof fn lemma_object_is_value(m: Map<Seq<char>, Seq<char>>)
    requires
        has_values(m),
    ensures
        is_value(object_text(m)),
{
    let v = member_texts(in_order(m));
    lemma_members_are_values(m);
    lemma_bracket_texts(joined(v));
    lemma_joined_whole(v);
    lemma_whole_brackets('{', joined(v), '}', false);
}

/// Objects of values with the same text have the same members.
pub proof fn lemma_object_faithful(m: Map<Seq<char>, Seq<char>>, n: Map<Seq<char>, Seq<char>>)
    requires
        has_values(m),
        has_values(n),
        object_text(m) == object_text(n),
    ensures
        m == n,
{
    let a = in_order(m);
    let b = in_order(n);
    let v = member_texts(a);
    let w = member_texts(b);
    lemma_members_are_values(m);
    lemma_members_are_values(n);
    lemma_bracket_texts(joined(v));
    lemma_bracket_texts(joined(w));
    let s = object_text(m);
    assert(joined(v) + seq!['}'] =~= s.drop_first());
    assert(joined(w) + seq!['}'] =~= s.drop_first());
    lemma_joined_faithful(v, w, '}');
    assert(a.len() == v.len() && b.len() == w.len());
    assert forall|i: int| 0 <= i < a.len() implies a[i] == b[i] by {
        assert(v[i] == w[i]);
        lemma_member_faithful(a[i].0, a[i].1, b[i].0, b[i].1);
    }
    assert(a =~= b);
    lemma_in_order(m);
    lemma_in_order(n);
}

} // verus!
