//! JSON documents of integers and texts, in a form every writer agrees on: keys in order, no
//! white space.

use crate::bytes::push_bytes;
use crate::names::{in_name_order, lemma_row_unique, lists_name, map_of, row_of, NameMap};
use crate::text::{decimal, decimal_of, hex_digit, lemma_text_before_total, text_before};
use vstd::prelude::*;
use vstd::string::StringExecFns;
use vstd::utf8::encode_utf8;

verus! {

/// A JSON document without fractions.
#[derive(Debug, PartialEq, Eq)]
pub enum Json {
    Null,
    Bool(bool),
    Number(u64),
    Text(String),
    Array(Vec<Json>),
    Object(NameMap<Json>),
}

/// A character inside a JSON string: a quote, a backslash and the control characters are escaped.
pub open spec fn escaped(c: char) -> Seq<char> {
    let n = c as u32;
    if n == 0x22 {
        seq!['\\', '"']
    } else if n == 0x5c {
        seq!['\\', '\\']
    } else if n == 0x08 {
        seq!['\\', 'b']
    } else if n == 0x09 {
        seq!['\\', 't']
    } else if n == 0x0a {
        seq!['\\', 'n']
    } else if n == 0x0c {
        seq!['\\', 'f']
    } else if n == 0x0d {
        seq!['\\', 'r']
    } else if n < 0x20 {
        seq!['\\', 'u', '0', '0', hex_digit(n as int / 16), hex_digit(n as int % 16)]
    } else {
        seq![c]
    }
}

/// The characters of a text inside a JSON string.
pub open spec fn escaped_all(s: Seq<char>) -> Seq<char>
    decreases s.len(),
{
    if s.len() == 0 {
        Seq::empty()
    } else {
        escaped_all(s.drop_last()) + escaped(s.last())
    }
}

/// A text as a JSON string.
pub open spec fn json_quoted(s: Seq<char>) -> Seq<char> {
    seq!['"'] + escaped_all(s) + seq!['"']
}

/// Calls `serde_json::to_string` on a text: it is put in quotes, with what JSON wants escaped
/// written as the shortest escape there is and everything else as it is. Writing a text does not
/// fail.
#[verifier::external_body]
fn quoted(s: &str) -> (r: String)
    ensures
        r@ == json_quoted(s@),
{
    serde_json::to_string(s).unwrap_or_default()
}

/// The text of a document.
pub open spec fn json_text(j: Json) -> Seq<char>
    decreases j,
{
    match j {
        Json::Null => "null"@,
        Json::Bool(b) => if b {
            "true"@
        } else {
            "false"@
        },
        Json::Number(n) => decimal_of(n as nat),
        Json::Text(s) => json_quoted(s@),
        Json::Array(v) => "["@ + items_text(v@) + "]"@,
        Json::Object(m) => "{"@ + members_text(m.entries@) + "}"@,
    }
}

/// The texts of documents, with commas between them.
pub open spec fn items_text(v: Seq<Json>) -> Seq<char>
    decreases v,
{
    if v.len() == 0 {
        Seq::empty()
    } else if v.len() == 1 {
        json_text(v[0])
    } else {
        items_text(v.subrange(0, v.len() - 1)) + ","@ + json_text(v[v.len() - 1])
    }
}

/// The texts of named documents, with commas between them.
pub open spec fn members_text(v: Seq<(String, Json)>) -> Seq<char>
    decreases v,
{
    if v.len() == 0 {
        Seq::empty()
    } else {
        let last = json_quoted(v[v.len() - 1].0@) + ":"@ + json_text(v[v.len() - 1].1);
        if v.len() == 1 {
            last
        } else {
            members_text(v.subrange(0, v.len() - 1)) + ","@ + last
        }
    }
}

/// Appends the text of a document.
fn write_json(out: &mut String, j: &Json)
    ensures
        final(out)@ == old(out)@ + json_text(*j),
    decreases j,
{
    let ghost start = out@;
    match j {
        Json::Null => {
            out.append("null");
        },
        Json::Bool(b) => {
            if *b {
                out.append("true");
            } else {
                out.append("false");
            }
        },
        Json::Number(n) => {
            out.append(decimal(*n).as_str());
        },
        Json::Text(s) => {
            out.append(quoted(s.as_str()).as_str());
        },
        Json::Array(v) => {
            out.append("[");
            let mut i: usize = 0;
            assert(v@.take(0) =~= Seq::empty());
            assert(start + "["@ + Seq::<char>::empty() =~= start + "["@);
            while i < v.len()
                invariant
                    i <= v@.len(),
                    *j == Json::Array(*v),
                    out@ == start + "["@ + items_text(v@.take(i as int)),
                decreases v@.len() - i,
            {
                if i > 0 {
                    out.append(",");
                }
                proof {
                    let here = v@.take(i + 1);
                    assert(here.subrange(0, here.len() - 1) =~= v@.take(i as int));
                    assert(here[here.len() - 1] == v@[i as int]);
                }
                proof {
                    assert(decreases_to!(*j => j->Array_0));
                    assert(decreases_to!(*v => v@));
                    assert(decreases_to!(v@ => v@[i as int]));
                }
                write_json(out, &v[i]);
                assert(out@ =~= start + "["@ + items_text(v@.take(i + 1)));
                i = i + 1;
            }
            assert(v@.take(v@.len() as int) =~= v@);
            out.append("]");
            assert(out@ =~= start + json_text(*j));
        },
        Json::Object(m) => {
            out.append("{");
            let mut i: usize = 0;
            let ghost v = m.entries@;
            assert(v.take(0) =~= Seq::empty());
            assert(start + "{"@ + Seq::<char>::empty() =~= start + "{"@);
            while i < m.entries.len()
                invariant
                    i <= v.len(),
                    v == m.entries@,
                    *j == Json::Object(*m),
                    out@ == start + "{"@ + members_text(v.take(i as int)),
                decreases v.len() - i,
            {
                if i > 0 {
                    out.append(",");
                }
                proof {
                    let here = v.take(i + 1);
                    assert(here.subrange(0, here.len() - 1) =~= v.take(i as int));
                    assert(here[here.len() - 1] == v[i as int]);
                }
                out.append(quoted(m.entries[i].0.as_str()).as_str());
                out.append(":");
                proof {
                    assert(decreases_to!(*j => j->Object_0));
                    assert(decreases_to!(*m => m.entries));
                    assert(decreases_to!(m.entries => m.entries@));
                    assert(decreases_to!(m.entries@ => m.entries@[i as int]));
                    assert(decreases_to!(m.entries@[i as int] => m.entries@[i as int].1));
                }
                write_json(out, &m.entries[i].1);
                assert(out@ =~= start + "{"@ + members_text(v.take(i + 1)));
                i = i + 1;
            }
            assert(v.take(v.len() as int) =~= v);
            out.append("}");
            assert(out@ =~= start + json_text(*j));
        },
    }
}

/// The canonical bytes of a document.
pub fn canonical_bytes(j: &Json) -> (b: Vec<u8>)
    ensures
        b@ == encode_utf8(json_text(*j)),
{
    let mut s: String = String::new();
    write_json(&mut s, j);
    let mut b: Vec<u8> = Vec::new();
    push_bytes(&mut b, s.as_str().as_bytes());
    assert(s@ =~= json_text(*j));
    assert(b@ =~= encode_utf8(s@));
    b
}

/// Texts with commas between them.
pub open spec fn joined(v: Seq<Seq<char>>) -> Seq<char>
    decreases v.len(),
{
    if v.len() == 0 {
        Seq::empty()
    } else if v.len() == 1 {
        v[0]
    } else {
        joined(v.drop_last()) + ","@ + v.last()
    }
}

/// The text of an array whose items have these texts.
pub open spec fn array_text(v: Seq<Seq<char>>) -> Seq<char> {
    "["@ + joined(v) + "]"@
}

/// The members of an object in the order they are written.
pub open spec fn in_order(t: Map<Seq<char>, Seq<char>>) -> Seq<(Seq<char>, Seq<char>)> {
    choose|rows: Seq<(Seq<char>, Seq<char>)>| in_name_order(rows) && map_of(rows) == t
}

/// The text of each member.
pub open spec fn member_texts(rows: Seq<(Seq<char>, Seq<char>)>) -> Seq<Seq<char>> {
    Seq::new(rows.len(), |i: int| json_quoted(rows[i].0) + ":"@ + rows[i].1)
}

/// The text of an object whose members have these texts: in the order of their names.
pub open spec fn object_text(t: Map<Seq<char>, Seq<char>>) -> Seq<char> {
    "{"@ + joined(member_texts(in_order(t))) + "}"@
}

/// The texts of named documents.
pub open spec fn texts_of(m: Map<Seq<char>, Json>) -> Map<Seq<char>, Seq<char>> {
    Map::new(|k: Seq<char>| m.contains_key(k), |k: Seq<char>| json_text(m[k]))
}

/// The texts of documents.
pub open spec fn all_texts(v: Seq<Json>) -> Seq<Seq<char>> {
    Seq::new(v.len(), |i: int| json_text(v[i]))
}

/// An array's text is that of its items.
pub proof fn lemma_items_text(v: Seq<Json>)
    ensures
        items_text(v) == joined(all_texts(v)),
    decreases v.len(),
{
    if v.len() > 1 {
        let init = v.subrange(0, v.len() - 1);
        lemma_items_text(init);
        assert(all_texts(v).drop_last() =~= all_texts(init));
    }
}

/// The rows of named documents as texts.
spec fn text_rows(v: Seq<(String, Json)>) -> Seq<(Seq<char>, Seq<char>)> {
    Seq::new(v.len(), |i: int| (v[i].0@, json_text(v[i].1)))
}

proof fn lemma_members_text(v: Seq<(String, Json)>)
    ensures
        members_text(v) == joined(member_texts(text_rows(v))),
    decreases v.len(),
{
    if v.len() > 1 {
        let init = v.subrange(0, v.len() - 1);
        lemma_members_text(init);
        assert(member_texts(text_rows(v)).drop_last() =~= member_texts(text_rows(init)));
    }
}

/// An object's text is that of its members, whatever order they came in.
pub proof fn lemma_object_text(m: NameMap<Json>)
    requires
        m.wf(),
    ensures
        json_text(Json::Object(m)) == object_text(texts_of(m@)),
{
    let rows = text_rows(m.entries@);
    lemma_members_text(m.entries@);
    let t = texts_of(m@);
    assert(in_name_order(rows)) by {
        assert forall|i: int, j: int| 0 <= i < j < rows.len() implies text_before(
            (#[trigger] rows[i]).0,
            (#[trigger] rows[j]).0,
        ) by {
            assert(text_before(m.rows()[i].0, m.rows()[j].0));
        }
    }
    assert forall|k: Seq<char>| map_of(rows).contains_key(k) == t.contains_key(k) by {
        if lists_name(rows, k) {
            let i = choose|i: int| 0 <= i < rows.len() && (#[trigger] rows[i]).0 == k;
            assert(m.rows()[i].0 == k);
        }
        if lists_name(m.rows(), k) {
            let i = choose|i: int| 0 <= i < m.rows().len() && (#[trigger] m.rows()[i]).0 == k;
            assert(rows[i].0 == k);
        }
    }
    assert forall|k: Seq<char>| #[trigger] map_of(rows).contains_key(k) implies map_of(rows)[k]
        == t[k] by {
        let i = choose|i: int| 0 <= i < rows.len() && (#[trigger] rows[i]).0 == k;
        lemma_row_unique(rows, i);
        lemma_row_unique(m.rows(), i);
    }
    assert(map_of(rows) =~= t);
    lemma_order_unique(rows, in_order(t));
}

/// A map has one listing in strict name order.
proof fn lemma_order_unique(u: Seq<(Seq<char>, Seq<char>)>, v: Seq<(Seq<char>, Seq<char>)>)
    requires
        in_name_order(u),
        in_name_order(v),
        map_of(u) == map_of(v),
    ensures
        u == v,
    decreases u.len(),
{
    if u.len() == 0 {
        if v.len() > 0 {
            lemma_row_unique(v, 0);
            assert(lists_name(u, v[0].0));
        }
        assert(u =~= v);
    } else {
        lemma_row_unique(u, 0);
        assert(lists_name(v, u[0].0));
        let a = row_of(v, u[0].0);
        lemma_row_unique(v, 0);
        assert(lists_name(u, v[0].0));
        let b = row_of(u, v[0].0);
        lemma_text_before_total(u[0].0, v[0].0);
        if a > 0 {
            assert(text_before(v[0].0, v[a].0));
            if b > 0 {
                assert(text_before(u[0].0, u[b].0));
            } else {
                lemma_text_before_total(v[0].0, v[0].0);
            }
        }
        assert(a == 0);
        lemma_row_unique(v, 0);
        assert(u[0] == v[0]);
        let u1 = u.drop_first();
        let v1 = v.drop_first();
        lemma_tail_map(u);
        lemma_tail_map(v);
        lemma_order_unique(u1, v1);
        assert(u =~= seq![u[0]] + u1);
        assert(v =~= seq![v[0]] + v1);
    }
}

proof fn lemma_tail_map(u: Seq<(Seq<char>, Seq<char>)>)
    requires
        in_name_order(u),
        u.len() > 0,
    ensures
        in_name_order(u.drop_first()),
        map_of(u.drop_first()) == map_of(u).remove(u[0].0),
{
    let t = u.drop_first();
    assert forall|i: int, j: int| 0 <= i < j < t.len() implies text_before(
        (#[trigger] t[i]).0,
        (#[trigger] t[j]).0,
    ) by {
        assert(t[i] == u[i + 1] && t[j] == u[j + 1]);
    }
    assert forall|k: Seq<char>|
        map_of(t).contains_key(k) == map_of(u).remove(u[0].0).contains_key(k) by {
        if lists_name(t, k) {
            let i = choose|i: int| 0 <= i < t.len() && (#[trigger] t[i]).0 == k;
            assert(u[i + 1].0 == k);
            assert(text_before(u[0].0, u[i + 1].0));
            lemma_text_before_total(u[0].0, u[0].0);
        }
        if lists_name(u, k) && k != u[0].0 {
            let i = choose|i: int| 0 <= i < u.len() && (#[trigger] u[i]).0 == k;
            assert(t[i - 1].0 == k);
        }
    }
    assert forall|k: Seq<char>| #[trigger] map_of(t).contains_key(k) implies map_of(t)[k] == map_of(
        u,
    ).remove(u[0].0)[k] by {
        let i = choose|i: int| 0 <= i < t.len() && (#[trigger] t[i]).0 == k;
        lemma_row_unique(t, i);
        lemma_row_unique(u, i + 1);
        assert(t[i] == u[i + 1]);
    }
    assert(map_of(t) =~= map_of(u).remove(u[0].0));
}

/// Puts a member into an object.
pub fn put(m: &mut NameMap<Json>, name: &str, v: Json)
    requires
        old(m).wf(),
    ensures
        final(m).wf(),
        texts_of(final(m)@) == texts_of(old(m)@).insert(name@, json_text(v)),
{
    let ghost before = m@;
    m.insert(name, v);
    assert(texts_of(m@) =~= texts_of(before).insert(name@, json_text(v)));
}

/// An object without members.
pub fn empty_object() -> (m: NameMap<Json>)
    ensures
        m.wf(),
        texts_of(m@) == Map::<Seq<char>, Seq<char>>::empty(),
{
    let m: NameMap<Json> = NameMap::new();
    assert(texts_of(m@) =~= Map::empty());
    m
}

/// An object.
pub fn object(m: NameMap<Json>) -> (j: Json)
    requires
        m.wf(),
    ensures
        json_text(j) == object_text(texts_of(m@)),
{
    proof {
        lemma_object_text(m);
    }
    Json::Object(m)
}

/// An array.
pub fn array(v: Vec<Json>) -> (j: Json)
    ensures
        json_text(j) == array_text(all_texts(v@)),
{
    proof {
        lemma_items_text(v@);
    }
    Json::Array(v)
}

} // verus!
