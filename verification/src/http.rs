//! The requests of the stats server and the heads of its answers.

use crate::text::{chars_of, copy_range, decimal, decimal_of, is_space, space, text_eq, text_of};
use vstd::prelude::*;

verus! {

/// What a request asks for.
#[derive(Clone, Debug, PartialEq, Eq)]
pub enum Route {
    Stats,
    Ledger,
    Health,
    /// A snapshot, by what may be its hash.
    Snapshot(String),
    NotFound,
}

/// What a request asks for, as a mathematical value.
pub enum RouteView {
    Stats,
    Ledger,
    Health,
    Snapshot(Seq<char>),
    NotFound,
}

impl View for Route {
    type V = RouteView;

    open spec fn view(&self) -> RouteView {
        match self {
            Route::Stats => RouteView::Stats,
            Route::Ledger => RouteView::Ledger,
            Route::Health => RouteView::Health,
            Route::Snapshot(h) => RouteView::Snapshot(h@),
            Route::NotFound => RouteView::NotFound,
        }
    }
}

/// The words of a text, between white space.
pub open spec fn words_of(s: Seq<char>) -> Seq<Seq<char>>
    decreases s.len(),
{
    if s.len() == 0 {
        Seq::empty()
    } else {
        let before = words_of(s.drop_last());
        if is_space(s.last()) {
            before
        } else if s.len() > 1 && !is_space(s[s.len() - 2]) {
            before.drop_last().push(before.last().push(s.last()))
        } else {
            before.push(seq![s.last()])
        }
    }
}

proof fn lemma_in_a_word(s: Seq<char>)
    requires
        s.len() > 0,
        !is_space(s.last()),
    ensures
        words_of(s).len() > 0,
    decreases s.len(),
{
    if s.len() > 1 && !is_space(s[s.len() - 2]) {
        lemma_in_a_word(s.drop_last());
    }
}

fn words(s: &str) -> (out: Vec<Vec<char>>)
    ensures
        out@.len() == words_of(s@).len(),
        forall|i: int| 0 <= i < out@.len() ==> (#[trigger] out@[i])@ == words_of(s@)[i],
{
    let v: Vec<char> = chars_of(s);
    let mut out: Vec<Vec<char>> = Vec::new();
    let mut i: usize = 0;
    assert(v@.take(0) =~= Seq::empty());
    while i < v.len()
        invariant
            i <= v@.len(),
            out@.len() == words_of(v@.take(i as int)).len(),
            forall|k: int|
                0 <= k < out@.len() ==> (#[trigger] out@[k])@ == words_of(v@.take(i as int))[k],
        decreases v@.len() - i,
    {
        let c: char = v[i];
        let ghost here = v@.take(i + 1);
        assert(here.drop_last() =~= v@.take(i as int));
        assert(here.last() == c);
        if !space(c) {
            if i > 0 && !space(v[i - 1]) {
                proof {
                    assert(v@.take(i as int).last() == v@[i - 1]);
                    lemma_in_a_word(v@.take(i as int));
                    assert(here[here.len() - 2] == v@[i - 1]);
                }
                let ghost before = out@;
                let mut w: Vec<char> = out.pop().unwrap();
                w.push(c);
                let ghost grown = w@;
                out.push(w);
                proof {
                    let want = words_of(here);
                    assert(grown == before.last()@.push(c));
                    assert forall|k: int| 0 <= k < out@.len() implies (#[trigger] out@[k])@
                        == want[k] by {
                        if k < before.len() - 1 {
                            assert(out@[k] == before[k]);
                        }
                    }
                }
            } else {
                if i > 0 {
                    assert(here[here.len() - 2] == v@[i - 1]);
                }
                let mut w: Vec<char> = Vec::new();
                w.push(c);
                let ghost one = w@;
                let ghost before = out@;
                out.push(w);
                proof {
                    assert(one =~= seq![c]);
                    let want = words_of(here);
                    assert forall|k: int| 0 <= k < out@.len() implies (#[trigger] out@[k])@
                        == want[k] by {
                        if k < before.len() {
                            assert(out@[k] == before[k]);
                        }
                    }
                }
            }
        }
        i = i + 1;
    }
    assert(v@.take(v@.len() as int) =~= v@);
    out
}

/// A text up to a question mark.
pub open spec fn before_query(s: Seq<char>) -> Seq<char>
    decreases s.len(),
{
    if s.len() == 0 || s[0] == '?' {
        Seq::empty()
    } else {
        seq![s[0]] + before_query(s.drop_first())
    }
}

/// The path a request is for: its second word, up to a question mark.
pub open spec fn path_of(request: Seq<char>) -> Seq<char> {
    let w = words_of(request);
    if w.len() < 2 {
        seq!['/']
    } else {
        before_query(w[1])
    }
}

/// Whether a text begins with another.
pub open spec fn begins(s: Seq<char>, prefix: Seq<char>) -> bool {
    prefix.len() <= s.len() && s.take(prefix.len() as int) == prefix
}

/// Whether a text ends in another.
pub open spec fn ends(s: Seq<char>, suffix: Seq<char>) -> bool {
    suffix.len() <= s.len() && s.skip(s.len() - suffix.len()) == suffix
}

/// A text without every copy of a prefix before it.
pub open spec fn without_prefix(s: Seq<char>, prefix: Seq<char>) -> Seq<char>
    decreases s.len(),
{
    if prefix.len() > 0 && begins(s, prefix) {
        without_prefix(s.skip(prefix.len() as int), prefix)
    } else {
        s
    }
}

/// A text without every copy of a suffix after it.
pub open spec fn without_suffix(s: Seq<char>, suffix: Seq<char>) -> Seq<char>
    decreases s.len(),
{
    if suffix.len() > 0 && ends(s, suffix) {
        without_suffix(s.take(s.len() - suffix.len()), suffix)
    } else {
        s
    }
}

/// Whether `s` has `part` at `at`.
fn has_at(s: &Vec<char>, at: usize, part: &Vec<char>) -> (r: bool)
    requires
        at + part@.len() <= s@.len(),
    ensures
        r == (s@.subrange(at as int, at + part@.len()) == part@),
{
    let len: usize = s.len();
    let mut i: usize = 0;
    while i < part.len()
        invariant
            i <= part@.len(),
            len == s@.len(),
            at + part@.len() <= len,
            forall|k: int| 0 <= k < i ==> s@[at + k] == part@[k],
        decreases part@.len() - i,
    {
        if s[at + i] != part[i] {
            assert(s@.subrange(at as int, at + part@.len())[i as int] != part@[i as int]);
            return false;
        }
        i = i + 1;
    }
    assert(s@.subrange(at as int, at + part@.len()) =~= part@);
    true
}

fn strip(s: &Vec<char>, prefix: &Vec<char>, suffix: &Vec<char>) -> (r: Vec<char>)
    requires
        prefix@.len() > 0,
        suffix@.len() > 0,
    ensures
        r@ == without_suffix(without_prefix(s@, prefix@), suffix@),
{
    let n: usize = s.len();
    let mut from: usize = 0;
    assert(s@.skip(0) =~= s@);
    while n - from >= prefix.len() && has_at(s, from, prefix)
        invariant
            from <= n == s@.len(),
            prefix@.len() > 0,
            without_prefix(s@, prefix@) == without_prefix(s@.skip(from as int), prefix@),
        decreases n - from,
    {
        proof {
            let t = s@.skip(from as int);
            assert(t.take(prefix@.len() as int) =~= s@.subrange(
                from as int,
                from + prefix@.len(),
            ));
            assert(t.skip(prefix@.len() as int) =~= s@.skip(from + prefix@.len()));
        }
        from = from + prefix.len();
    }
    let ghost mid = s@.skip(from as int);
    proof {
        if n - from >= prefix@.len() {
            assert(mid.take(prefix@.len() as int) =~= s@.subrange(
                from as int,
                from + prefix@.len(),
            ));
        }
        assert(without_prefix(s@, prefix@) == mid);
    }
    let mut to: usize = n;
    assert(s@.subrange(from as int, n as int) =~= mid);
    while to - from >= suffix.len() && has_at(s, to - suffix.len(), suffix)
        invariant
            from <= to <= n == s@.len(),
            suffix@.len() > 0,
            without_suffix(mid, suffix@) == without_suffix(
                s@.subrange(from as int, to as int),
                suffix@,
            ),
        decreases to,
    {
        proof {
            let t = s@.subrange(from as int, to as int);
            let k = t.len() - suffix@.len();
            assert(t.skip(k) =~= s@.subrange(to - suffix@.len(), to as int));
            assert(t.take(k) =~= s@.subrange(from as int, to - suffix@.len()));
        }
        to = to - suffix.len();
    }
    proof {
        let t = s@.subrange(from as int, to as int);
        if to - from >= suffix@.len() {
            assert(t.skip(t.len() - suffix@.len()) =~= s@.subrange(
                to - suffix@.len(),
                to as int,
            ));
        }
    }
    copy_range(s.as_slice(), from, to)
}

/// What a path asks for.
pub open spec fn route_of(path: Seq<char>) -> RouteView {
    if path == "/"@ || path == "/stats.json"@ || path == "/stats"@ {
        RouteView::Stats
    } else if path == "/ledger.json"@ {
        RouteView::Ledger
    } else if path == "/healthz"@ {
        RouteView::Health
    } else if begins(path, "/snapshot/"@) {
        RouteView::Snapshot(without_suffix(without_prefix(path, "/snapshot/"@), ".json"@))
    } else {
        RouteView::NotFound
    }
}

fn up_to_query(s: &Vec<char>) -> (r: Vec<char>)
    ensures
        r@ == before_query(s@),
{
    let mut r: Vec<char> = Vec::new();
    let mut i: usize = 0;
    assert(s@.skip(0) =~= s@);
    assert(Seq::<char>::empty() + before_query(s@) =~= before_query(s@));
    while i < s.len() && s[i] != '?'
        invariant
            i <= s@.len(),
            before_query(s@) == r@ + before_query(s@.skip(i as int)),
        decreases s@.len() - i,
    {
        proof {
            let t = s@.skip(i as int);
            assert(t.drop_first() =~= s@.skip(i + 1));
            assert(r@ + (seq![t[0]] + before_query(s@.skip(i + 1))) =~= r@.push(t[0])
                + before_query(s@.skip(i + 1)));
        }
        r.push(s[i]);
        i = i + 1;
    }
    assert(r@ + Seq::<char>::empty() =~= r@);
    r
}

/// Tells what a request asks for.
pub fn route(request: &str) -> (r: Route)
    ensures
        r@ == route_of(path_of(request@)),
{
    let w: Vec<Vec<char>> = words(request);
    let path: Vec<char> = if w.len() < 2 {
        let mut p: Vec<char> = Vec::new();
        p.push('/');
        assert(p@ =~= seq!['/']);
        p
    } else {
        up_to_query(&w[1])
    };
    let text: String = text_of(path.as_slice());
    if text_eq(text.as_str(), "/") || text_eq(text.as_str(), "/stats.json") || text_eq(
        text.as_str(),
        "/stats",
    ) {
        return Route::Stats;
    }
    if text_eq(text.as_str(), "/ledger.json") {
        return Route::Ledger;
    }
    if text_eq(text.as_str(), "/healthz") {
        return Route::Health;
    }
    let prefix: Vec<char> = chars_of("/snapshot/");
    let suffix: Vec<char> = chars_of(".json");
    proof {
        reveal_strlit("/snapshot/");
        reveal_strlit(".json");
    }
    if path.len() >= prefix.len() && has_at(&path, 0, &prefix) {
        assert(path@.take(prefix@.len() as int) =~= path@.subrange(0, prefix@.len() as int));
        let h: Vec<char> = strip(&path, &prefix, &suffix);
        return Route::Snapshot(text_of(h.as_slice()));
    }
    assert(!begins(path@, prefix@)) by {
        if begins(path@, prefix@) {
            assert(path@.take(prefix@.len() as int) =~= path@.subrange(0, prefix@.len() as int));
        }
    }
    Route::NotFound
}

/// The head of an answer.
pub open spec fn head_of(status: Seq<char>, ctype: Seq<char>, len: nat) -> Seq<char> {
    "HTTP/1.1 "@ + status + "\r\nContent-Type: "@ + ctype + "\r\nContent-Length: "@ + decimal_of(len)
        + "\r\nAccess-Control-Allow-Origin: *\r\nCache-Control: no-store\r\nConnection: close\r\n\r\n"@
}

/// Makes the head of an answer whose body has `len` bytes.
pub fn head(status: &str, ctype: &str, len: u64) -> (s: String)
    ensures
        s@ == head_of(status@, ctype@, len as nat),
{
    let mut s: String = "HTTP/1.1 ".to_owned();
    s.append(status);
    s.append("\r\nContent-Type: ");
    s.append(ctype);
    s.append("\r\nContent-Length: ");
    let n: String = decimal(len);
    s.append(n.as_str());
    s.append(
        "\r\nAccess-Control-Allow-Origin: *\r\nCache-Control: no-store\r\nConnection: close\r\n\r\n",
    );
    s
}

/// A path ends before a question mark, and is whole where there is none.
pub proof fn lemma_paths_end_before_a_query(path: Seq<char>, query: Seq<char>)
    requires
        forall|i: int| 0 <= i < path.len() ==> #[trigger] path[i] != '?',
    ensures
        before_query(path) == path,
        before_query(path + seq!['?'] + query) == path,
    decreases path.len(),
{
    let s = path + seq!['?'] + query;
    if path.len() > 0 {
        let r = path.drop_first();
        assert forall|i: int| 0 <= i < r.len() implies #[trigger] r[i] != '?' by {
            assert(r[i] == path[i + 1]);
        }
        lemma_paths_end_before_a_query(r, query);
        assert(s.drop_first() =~= r + seq!['?'] + query);
        assert(s[0] == path[0]);
        assert(seq![path[0]] + r =~= path);
    } else {
        assert(before_query(s) =~= path);
        assert(path =~= Seq::empty());
    }
}

proof fn lemma_one_word(w: Seq<char>)
    requires
        w.len() > 0,
        forall|i: int| 0 <= i < w.len() ==> !is_space(#[trigger] w[i]),
    ensures
        words_of(w) == seq![w],
    decreases w.len(),
{
    let r = w.drop_last();
    assert(w[w.len() - 1] == w.last());
    if r.len() > 0 {
        assert forall|i: int| 0 <= i < r.len() implies !is_space(#[trigger] r[i]) by {
            assert(r[i] == w[i]);
        }
        lemma_one_word(r);
        assert(!is_space(w[w.len() - 2]));
        assert(r.push(w.last()) =~= w);
        assert(words_of(w) =~= seq![w]);
    } else {
        assert(words_of(r) =~= Seq::empty());
        assert(seq![w.last()] =~= w);
        assert(words_of(w) =~= seq![w]);
    }
}

/// White space parts the words before it from those after it.
proof fn lemma_words_part(a: Seq<char>, space: char, b: Seq<char>)
    requires
        is_space(space),
    ensures
        words_of(a + seq![space] + b) == words_of(a) + words_of(b),
    decreases b.len(),
{
    let s = a + seq![space] + b;
    if b.len() == 0 {
        assert(s.drop_last() =~= a);
        assert(words_of(s) =~= words_of(a) + words_of(b));
    } else {
        let c = b.drop_last();
        lemma_words_part(a, space, c);
        assert(s.drop_last() =~= a + seq![space] + c);
        assert(s.last() == b.last());
        assert(s[s.len() - 2] == if c.len() > 0 {
            b[b.len() - 2]
        } else {
            space
        });
        if !is_space(b.last()) && c.len() > 0 && !is_space(b[b.len() - 2]) {
            assert(c.last() == b[b.len() - 2]);
            lemma_in_a_word(c);
        }
        assert(words_of(s) =~= words_of(a) + words_of(b));
    }
}

/// The path of a request is its second word: what stands between the method and the next white
/// space, up to a question mark. A request without one is for the root.
pub proof fn lemma_request_paths(method: Seq<char>, path: Seq<char>, rest: Seq<char>)
    requires
        method.len() > 0,
        path.len() > 0,
        forall|i: int| 0 <= i < method.len() ==> !is_space(#[trigger] method[i]),
        forall|i: int| 0 <= i < path.len() ==> !is_space(#[trigger] path[i]),
    ensures
        path_of(method + seq![' '] + (path + seq![' '] + rest)) == before_query(path),
        path_of(method + seq![' '] + path) == before_query(path),
        path_of(method) == seq!['/'],
        path_of(Seq::empty()) == seq!['/'],
{
    assert(is_space(' '));
    lemma_one_word(method);
    lemma_one_word(path);
    lemma_words_part(path, ' ', rest);
    lemma_words_part(method, ' ', path + seq![' '] + rest);
    lemma_words_part(method, ' ', path);
    let w = words_of(method + seq![' '] + (path + seq![' '] + rest));
    assert(w == seq![method] + (seq![path] + words_of(rest)));
    assert(w[1] == path);
}

/// A snapshot is asked for by its hash, with or without `.json` behind it.
pub proof fn lemma_snapshot_routes(hash: Seq<char>)
    requires
        forall|i: int| 0 <= i < hash.len() ==> #[trigger] hash[i] != '/' && hash[i] != '.',
        hash.len() == 64,
    ensures
        route_of("/snapshot/"@ + hash + ".json"@) == RouteView::Snapshot(hash),
        route_of("/snapshot/"@ + hash) == RouteView::Snapshot(hash),
{
    reveal_strlit("/snapshot/");
    reveal_strlit(".json");
    reveal_strlit("/");
    reveal_strlit("/stats.json");
    reveal_strlit("/stats");
    reveal_strlit("/ledger.json");
    reveal_strlit("/healthz");
    let p = "/snapshot/"@;
    let q = ".json"@;
    let a = p + hash + q;
    let b = p + hash;
    assert(a.take(10) =~= p);
    assert(b.take(10) =~= p);
    assert(a.skip(10) =~= hash + q);
    assert(b.skip(10) =~= hash);
    let c = hash + q;
    assert(c.take(10)[0] == hash[0] && p[0] == '/');
    assert(hash.take(10)[0] == hash[0]);
    assert(without_prefix(c, p) == c);
    assert(without_prefix(hash, p) == hash);
    assert(without_prefix(a, p) == c);
    assert(without_prefix(b, p) == hash);
    assert(c.skip(c.len() - 5) =~= q);
    assert(c.take(c.len() - 5) =~= hash);
    assert(hash.skip(hash.len() - 5)[0] == hash[hash.len() - 5]);
    assert(q[0] == '.');
    assert(without_suffix(hash, q) == hash);
    assert(without_suffix(c, q) == hash);
    assert(a.len() == 79 && b.len() == 74);
}

/// The other paths that are served, and that no other is.
pub proof fn lemma_routes(path: Seq<char>)
    ensures
        path == "/"@ || path == "/stats"@ || path == "/stats.json"@ ==> route_of(path)
            == RouteView::Stats,
        route_of("/ledger.json"@) == RouteView::Ledger,
        route_of("/healthz"@) == RouteView::Health,
        route_of(path) is Snapshot ==> path.len() >= 10 && path.take(10) == "/snapshot/"@,
        route_of(path) is Stats ==> path == "/"@ || path == "/stats"@ || path == "/stats.json"@,
        route_of(path) is Ledger ==> path == "/ledger.json"@,
        route_of(path) is Health ==> path == "/healthz"@,
{
    reveal_strlit("/snapshot/");
    reveal_strlit("/");
    reveal_strlit("/stats.json");
    reveal_strlit("/stats");
    reveal_strlit("/ledger.json");
    reveal_strlit("/healthz");
    assert("/ledger.json"@.len() == 12 && "/healthz"@.len() == 8 && "/"@.len() == 1);
    assert("/stats.json"@.len() == 11 && "/stats"@.len() == 6);
}

/// Every copy of a prefix before a text is taken, and every copy of a suffix after it, and nothing
/// where there is none.
pub proof fn lemma_what_is_stripped(s: Seq<char>, part: Seq<char>)
    requires
        part.len() > 0,
    ensures
        without_prefix(part + s, part) == without_prefix(s, part),
        without_suffix(s + part, part) == without_suffix(s, part),
        !(exists|rest: Seq<char>| s == #[trigger] (part + rest)) ==> without_prefix(s, part) == s,
        !(exists|rest: Seq<char>| s == #[trigger] (rest + part)) ==> without_suffix(s, part) == s,
{
    let n = part.len() as int;
    assert((part + s).take(n) =~= part);
    assert((part + s).skip(n) =~= s);
    assert((s + part).skip((s + part).len() - n) =~= part);
    assert((s + part).take((s + part).len() - n) =~= s);
    if begins(s, part) {
        assert(s =~= part + s.skip(n));
    }
    if ends(s, part) {
        assert(s =~= s.take(s.len() - n) + part);
    }
}

/// The head of an answer begins with the protocol and the status, says the type and the length of
/// the body in decimal, and ends in an empty line.
pub proof fn lemma_answer_heads(status: Seq<char>, ctype: Seq<char>, len: nat)
    ensures
        ({
            let h = head_of(status, ctype, len);
            let a = 9 + status.len() + 2;
            let b = a + 14 + ctype.len() + 2;
            &&& begins(h, "HTTP/1.1 "@ + status)
            &&& h[a - 2] == '\r' && h[a - 1] == '\n'
            &&& begins(h.skip(a as int), "Content-Type: "@ + ctype)
            &&& h[b - 2] == '\r' && h[b - 1] == '\n'
            &&& begins(h.skip(b as int), "Content-Length: "@ + decimal_of(len) + "\r\n"@)
            &&& ends(h, "\r\n\r\n"@)
        }),
{
    let x = "HTTP/1.1 "@;
    let y = "\r\nContent-Type: "@;
    let z = "\r\nContent-Length: "@;
    let end =
        "\r\nAccess-Control-Allow-Origin: *\r\nCache-Control: no-store\r\nConnection: close\r\n\r\n"@;
    reveal_strlit("HTTP/1.1 ");
    reveal_strlit("\r\nContent-Type: ");
    reveal_strlit("\r\nContent-Length: ");
    reveal_strlit("Content-Type: ");
    reveal_strlit("Content-Length: ");
    reveal_strlit("\r\n");
    reveal_strlit("\r\n\r\n");
    reveal_strlit(
        "\r\nAccess-Control-Allow-Origin: *\r\nCache-Control: no-store\r\nConnection: close\r\n\r\n",
    );
    let h = head_of(status, ctype, len);
    let a = (9 + status.len() + 2) as int;
    let b = a + 14 + ctype.len() + 2;
    let p = x + status;
    assert(h.take(p.len() as int) =~= p);
    let q = "Content-Type: "@ + ctype;
    assert(h.skip(a).take(q.len() as int) =~= q);
    let d = decimal_of(len);
    let r = "Content-Length: "@ + d + "\r\n"@;
    assert(h.skip(b).take(r.len() as int) =~= r);
    assert(h.skip(h.len() - 4) =~= "\r\n\r\n"@);
}

} // verus!
