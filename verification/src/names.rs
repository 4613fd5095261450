//! A map from names to small values, kept in the order of the names.

use crate::text::{lemma_text_before_total, lemma_text_before_trans, text_before, text_eq, text_less};
use vstd::prelude::*;

verus! {

/// A map from names to values, in name order.
#[derive(Clone, Debug, PartialEq, Eq)]
pub struct NameMap<V> {
    pub entries: Vec<(String, V)>,
}

/// Whether a list names `k`.
pub open spec fn lists_name<V>(rows: Seq<(Seq<char>, V)>, k: Seq<char>) -> bool {
    exists|i: int| 0 <= i < rows.len() && (#[trigger] rows[i]).0 == k
}

/// Where a list names `k`.
pub open spec fn row_of<V>(rows: Seq<(Seq<char>, V)>, k: Seq<char>) -> int {
    choose|i: int| 0 <= i < rows.len() && (#[trigger] rows[i]).0 == k
}

/// The map that a list stands for.
pub open spec fn map_of<V>(rows: Seq<(Seq<char>, V)>) -> Map<Seq<char>, V> {
    Map::new(|k: Seq<char>| lists_name(rows, k), |k: Seq<char>| rows[row_of(rows, k)].1)
}

/// Whether a list is in strict name order.
pub open spec fn in_name_order<V>(rows: Seq<(Seq<char>, V)>) -> bool {
    forall|i: int, j: int|
        0 <= i < j < rows.len() ==> text_before((#[trigger] rows[i]).0, (#[trigger] rows[j]).0)
}

/// In strict name order each name stands once.
pub proof fn lemma_row_unique<V>(rows: Seq<(Seq<char>, V)>, i: int)
    requires
        in_name_order(rows),
        0 <= i < rows.len(),
    ensures
        row_of(rows, rows[i].0) == i,
        map_of(rows).contains_key(rows[i].0),
        map_of(rows)[rows[i].0] == rows[i].1,
{
    let k = rows[i].0;
    assert(lists_name(rows, k));
    let j = row_of(rows, k);
    lemma_text_before_total(k, k);
    if j < i {
        assert(text_before(rows[j].0, rows[i].0));
    } else if i < j {
        assert(text_before(rows[i].0, rows[j].0));
    }
}

impl<V> View for NameMap<V> {
    type V = Map<Seq<char>, V>;

    open spec fn view(&self) -> Map<Seq<char>, V> {
        map_of(self.rows())
    }
}

impl<V> NameMap<V> {
    /// The entries in name order.
    pub open spec fn rows(&self) -> Seq<(Seq<char>, V)> {
        Seq::new(self.entries@.len(), |i: int| (self.entries@[i].0@, self.entries@[i].1))
    }

    /// The entries are in strict name order.
    pub open spec fn wf(&self) -> bool {
        in_name_order(self.rows())
    }
}

impl<V> NameMap<V> {
    /// A map without entries.
    pub fn new() -> (m: NameMap<V>)
        ensures
            m.wf(),
            m.rows() == Seq::<(Seq<char>, V)>::empty(),
            m@ == Map::<Seq<char>, V>::empty(),
    {
        let m = NameMap { entries: Vec::new() };
        assert(m.rows() =~= Seq::empty());
        assert(m@ =~= Map::empty());
        m
    }

    /// How many entries there are.
    pub fn len(&self) -> (n: usize)
        ensures
            n == self.rows().len(),
    {
        self.entries.len()
    }

    /// The name of an entry, in name order.
    pub fn name_at(&self, i: usize) -> (s: &str)
        requires
            i < self.rows().len(),
        ensures
            s@ == self.rows()[i as int].0,
    {
        self.entries[i].0.as_str()
    }

    /// Where `name` stands or would stand.
    fn position(&self, name: &str) -> (i: usize)
        requires
            self.wf(),
        ensures
            i <= self.rows().len(),
            forall|j: int| 0 <= j < i ==> text_before((#[trigger] self.rows()[j]).0, name@),
            forall|j: int|
                i <= j < self.rows().len() ==> !text_before((#[trigger] self.rows()[j]).0, name@),
    {
        let mut i: usize = 0;
        while i < self.entries.len() && text_less(self.entries[i].0.as_str(), name)
            invariant
                i <= self.entries@.len(),
                forall|j: int| 0 <= j < i ==> text_before((#[trigger] self.rows()[j]).0, name@),
            decreases self.entries@.len() - i,
        {
            i = i + 1;
        }
        proof {
            assert forall|j: int| i <= j < self.rows().len() implies !text_before(
                (#[trigger] self.rows()[j]).0,
                name@,
            ) by {
                if text_before(self.rows()[j].0, name@) && j > i {
                    lemma_text_before_trans(self.rows()[i as int].0, self.rows()[j].0, name@);
                }
            }
        }
        i
    }

    /// Where `name` stands, if it does.
    fn find(&self, name: &str) -> (r: Option<usize>)
        requires
            self.wf(),
        ensures
            r.is_some() == self@.contains_key(name@),
            r matches Some(i) ==> i < self.rows().len() && self.rows()[i as int].0 == name@,
    {
        let i: usize = self.position(name);
        if i < self.entries.len() && text_eq(self.entries[i].0.as_str(), name) {
            assert(self.rows()[i as int].0 == name@);
            return Some(i);
        }
        proof {
            if self@.contains_key(name@) {
                let j = row_of(self.rows(), name@);
                lemma_text_before_total(name@, name@);
                assert(j >= i);
                if j > i {
                    assert(text_before(self.rows()[i as int].0, self.rows()[j].0));
                }
            }
        }
        None
    }

    /// Puts a value under `name`.
    pub fn insert(&mut self, name: &str, v: V)
        requires
            old(self).wf(),
        ensures
            final(self).wf(),
            final(self)@ == old(self)@.insert(name@, v),
    {
        let ghost before = self.rows();
        if let Some(i) = self.find(name) {
            let name2: String = name.to_owned();
            self.entries.set(i, (name2, v));
            proof {
                let after = self.rows();
                assert(after =~= before.update(i as int, (name@, v)));
                assert forall|k: Seq<char>| lists_name(after, k) == lists_name(before, k) by {
                    if lists_name(before, k) {
                        assert(after[row_of(before, k)].0 == k);
                    }
                    if lists_name(after, k) {
                        assert(before[row_of(after, k)].0 == k);
                    }
                }
                lemma_row_unique(before, i as int);
                lemma_row_unique(after, i as int);
                assert forall|k: Seq<char>| #[trigger] map_of(after).contains_key(k) implies map_of(
                    after,
                )[k] == map_of(before).insert(name@, v)[k] by {
                    let j = row_of(after, k);
                    lemma_row_unique(after, j);
                    lemma_row_unique(before, j);
                }
                assert(self@ =~= map_of(before).insert(name@, v));
            }
            return ;
        }
        let i: usize = self.position(name);
        self.entries.insert(i, (name.to_owned(), v));
        proof {
            let after = self.rows();
            assert(after =~= before.insert(i as int, (name@, v)));
            assert forall|a: int, b: int| 0 <= a < b < after.len() implies text_before(
                (#[trigger] after[a]).0,
                (#[trigger] after[b]).0,
            ) by {
                let ba = if a < i { a } else { a - 1 };
                let bb = if b < i { b } else { b - 1 };
                if a == i {
                    lemma_text_before_total(name@, before[bb].0);
                    assert(after[b] == before[bb]);
                    assert(before[bb].0 != name@) by {
                        if before[bb].0 == name@ {
                            assert(lists_name(before, name@));
                        }
                    }
                } else if b == i {
                    assert(after[a] == before[ba]);
                } else {
                    assert(after[a] == before[ba] && after[b] == before[bb]);
                }
            }
            lemma_row_unique(after, i as int);
            assert forall|k: Seq<char>|
                map_of(after).contains_key(k) == map_of(before).insert(name@, v).contains_key(
                    k,
                ) by {
                if lists_name(before, k) {
                    let j = row_of(before, k);
                    let a = if j < i { j } else { j + 1 };
                    assert(after[a].0 == k);
                }
                if lists_name(after, k) && k != name@ {
                    let a = row_of(after, k);
                    let j = if a < i { a } else { a - 1 };
                    assert(before[j].0 == k);
                }
            }
            assert forall|k: Seq<char>| #[trigger] map_of(after).contains_key(k) implies map_of(
                after,
            )[k] == map_of(before).insert(name@, v)[k] by {
                if k != name@ {
                    let a = row_of(after, k);
                    let j = if a < i { a } else { a - 1 };
                    assert(before[j] == after[a]);
                    lemma_row_unique(before, j);
                }
            }
            assert(self@ =~= map_of(before).insert(name@, v));
        }
    }

    /// Takes `name` out.
    pub fn remove(&mut self, name: &str)
        requires
            old(self).wf(),
        ensures
            final(self).wf(),
            final(self)@ == old(self)@.remove(name@),
    {
        let ghost before = self.rows();
        match self.find(name) {
            None => {
                assert(self@ =~= map_of(before).remove(name@));
            },
            Some(i) => {
                let _ = self.entries.remove(i);
                proof {
                    let after = self.rows();
                    assert(after =~= before.remove(i as int));
                    lemma_row_unique(before, i as int);
                    assert forall|a: int, b: int| 0 <= a < b < after.len() implies text_before(
                        (#[trigger] after[a]).0,
                        (#[trigger] after[b]).0,
                    ) by {
                        let ba = if a < i { a } else { a + 1 };
                        let bb = if b < i { b } else { b + 1 };
                        assert(after[a] == before[ba] && after[b] == before[bb]);
                    }
                    assert forall|k: Seq<char>|
                        map_of(after).contains_key(k) == map_of(before).remove(name@).contains_key(
                            k,
                        ) by {
                        if lists_name(before, k) && k != name@ {
                            let j = row_of(before, k);
                            let a = if j < i { j } else { j - 1 };
                            assert(after[a].0 == k);
                        }
                        if lists_name(after, k) {
                            let a = row_of(after, k);
                            let j = if a < i { a } else { a + 1 };
                            assert(before[j].0 == k);
                            lemma_row_unique(before, j);
                        }
                    }
                    assert forall|k: Seq<char>| #[trigger]
                        map_of(after).contains_key(k) implies map_of(after)[k] == map_of(
                        before,
                    ).remove(name@)[k] by {
                        let a = row_of(after, k);
                        let j = if a < i { a } else { a + 1 };
                        assert(before[j] == after[a]);
                        lemma_row_unique(before, j);
                    }
                    assert(self@ =~= map_of(before).remove(name@));
                }
            },
        }
    }
}

impl<V: Copy> NameMap<V> {
    /// The value of an entry, in name order.
    pub fn value_at(&self, i: usize) -> (v: V)
        requires
            i < self.rows().len(),
        ensures
            v == self.rows()[i as int].1,
    {
        self.entries[i].1
    }

    /// The value under `name`.
    pub fn get(&self, name: &str) -> (r: Option<V>)
        requires
            self.wf(),
        ensures
            r.is_some() == self@.contains_key(name@),
            r matches Some(v) ==> v == self@[name@],
    {
        match self.find(name) {
            Some(i) => {
                proof {
                    lemma_row_unique(self.rows(), i as int);
                }
                Some(self.entries[i].1)
            },
            None => None,
        }
    }

    /// A map with the same entries.
    pub fn duplicate(&self) -> (m: NameMap<V>)
        ensures
            m.rows() == self.rows(),
            m@ == self@,
    {
        let mut entries: Vec<(String, V)> = Vec::new();
        let mut i: usize = 0;
        while i < self.entries.len()
            invariant
                i <= self.entries@.len(),
                entries@.len() == i,
                forall|j: int|
                    0 <= j < i ==> (#[trigger] entries@[j]).0@ == self.entries@[j].0@
                        && entries@[j].1 == self.entries@[j].1,
            decreases self.entries@.len() - i,
        {
            entries.push((self.entries[i].0.clone(), self.entries[i].1));
            i = i + 1;
        }
        let m = NameMap { entries };
        assert(m.rows() =~= self.rows());
        m
    }
}

} // verus!
