//! A small map keyed by strings, kept as a list of distinct keys in
//! insertion order.
use vstd::prelude::*;
use crate::text::str_eq;

verus! {

/// No key occurs twice.
pub open spec fn keys_distinct<T>(s: Seq<(Seq<char>, T)>) -> bool {
    forall|a: int, b: int|
        0 <= a < s.len() && 0 <= b < s.len() && a != b ==> (#[trigger] s[a]).0 != (#[trigger] s[b]).0
}

/// The map that a list of pairs with distinct keys stands for.
pub open spec fn table<T>(s: Seq<(Seq<char>, T)>) -> Map<Seq<char>, T> {
    Map::new(
        |k: Seq<char>| exists|m: int| 0 <= m < s.len() && (#[trigger] s[m]).0 == k,
        |k: Seq<char>| s[choose|m: int| 0 <= m < s.len() && (#[trigger] s[m]).0 == k].1,
    )
}

pub proof fn lemma_table_get<T>(s: Seq<(Seq<char>, T)>, m: int)
    requires
        keys_distinct(s),
        0 <= m < s.len(),
    ensures
        table(s).dom().contains(s[m].0),
        table(s)[s[m].0] == s[m].1,
{
    let k = s[m].0;
    assert(exists|x: int| 0 <= x < s.len() && (#[trigger] s[x]).0 == k);
    let c = choose|x: int| 0 <= x < s.len() && (#[trigger] s[x]).0 == k;
    assert(c == m);
}

pub proof fn lemma_table_absent<T>(s: Seq<(Seq<char>, T)>, k: Seq<char>)
    requires
        forall|m: int| 0 <= m < s.len() ==> (#[trigger] s[m]).0 != k,
    ensures
        !table(s).dom().contains(k),
{
}

pub proof fn lemma_table_push<T>(s: Seq<(Seq<char>, T)>, k: Seq<char>, v: T)
    requires
        keys_distinct(s),
        !table(s).dom().contains(k),
    ensures
        keys_distinct(s.push((k, v))),
        table(s.push((k, v))) == table(s).insert(k, v),
{
    let t = s.push((k, v));
    assert forall|a: int, b: int| 0 <= a < t.len() && 0 <= b < t.len() && a != b implies (#[trigger] t[a]).0
        != (#[trigger] t[b]).0 by {
        if a == s.len() && b < s.len() {
            assert(t[b] == s[b]);
            if s[b].0 == k {
                assert(table(s).dom().contains(k));
            }
        } else if b == s.len() && a < s.len() {
            assert(t[a] == s[a]);
            if s[a].0 == k {
                assert(table(s).dom().contains(k));
            }
        } else {
            assert(t[a] == s[a] && t[b] == s[b]);
        }
    }
    assert(table(t) =~= table(s).insert(k, v)) by {
        assert forall|x: Seq<char>| #[trigger] table(t).dom().contains(x) <==> table(s).insert(
            k,
            v,
        ).dom().contains(x) by {
            if table(t).dom().contains(x) {
                let m = choose|m: int| 0 <= m < t.len() && (#[trigger] t[m]).0 == x;
                if m < s.len() {
                    assert(t[m] == s[m]);
                }
            }
            if table(s).dom().contains(x) {
                let m = choose|m: int| 0 <= m < s.len() && (#[trigger] s[m]).0 == x;
                assert(t[m] == s[m]);
            }
            if x == k {
                assert(t[s.len() as int].0 == k);
            }
        }
        assert forall|x: Seq<char>| #[trigger] table(t).dom().contains(x) implies table(t)[x] == table(
            s,
        ).insert(k, v)[x] by {
            let m = choose|m: int| 0 <= m < t.len() && (#[trigger] t[m]).0 == x;
            lemma_table_get(t, m);
            if m < s.len() {
                assert(t[m] == s[m]);
                lemma_table_get(s, m);
            }
        }
    }
}

pub proof fn lemma_table_update<T>(s: Seq<(Seq<char>, T)>, m: int, v: T)
    requires
        keys_distinct(s),
        0 <= m < s.len(),
    ensures
        keys_distinct(s.update(m, (s[m].0, v))),
        table(s.update(m, (s[m].0, v))) == table(s).insert(s[m].0, v),
{
    let t = s.update(m, (s[m].0, v));
    assert forall|a: int, b: int| 0 <= a < t.len() && 0 <= b < t.len() && a != b implies (#[trigger] t[a]).0
        != (#[trigger] t[b]).0 by {
        assert(t[a].0 == s[a].0 && t[b].0 == s[b].0);
    }
    lemma_table_get(s, m);
    assert(table(t) =~= table(s).insert(s[m].0, v)) by {
        assert forall|x: Seq<char>| #[trigger] table(t).dom().contains(x) <==> table(s).insert(
            s[m].0,
            v,
        ).dom().contains(x) by {
            if table(t).dom().contains(x) {
                let j = choose|j: int| 0 <= j < t.len() && (#[trigger] t[j]).0 == x;
                assert(s[j].0 == x);
            }
            if table(s).dom().contains(x) {
                let j = choose|j: int| 0 <= j < s.len() && (#[trigger] s[j]).0 == x;
                assert(t[j].0 == x);
            }
            if x == s[m].0 {
                assert(t[m].0 == x);
            }
        }
        assert forall|x: Seq<char>| #[trigger] table(t).dom().contains(x) implies table(t)[x] == table(
            s,
        ).insert(s[m].0, v)[x] by {
            let j = choose|j: int| 0 <= j < t.len() && (#[trigger] t[j]).0 == x;
            lemma_table_get(t, j);
            if j != m {
                lemma_table_get(s, j);
            }
        }
    }
}

pub proof fn lemma_table_remove<T>(s: Seq<(Seq<char>, T)>, m: int)
    requires
        keys_distinct(s),
        0 <= m < s.len(),
    ensures
        keys_distinct(s.remove(m)),
        table(s.remove(m)) == table(s).remove(s[m].0),
{
    let t = s.remove(m);
    assert forall|a: int, b: int| 0 <= a < t.len() && 0 <= b < t.len() && a != b implies (#[trigger] t[a]).0
        != (#[trigger] t[b]).0 by {
        let a2 = if a < m {
            a
        } else {
            a + 1
        };
        let b2 = if b < m {
            b
        } else {
            b + 1
        };
        assert(t[a] == s[a2] && t[b] == s[b2]);
    }
    assert(table(t) =~= table(s).remove(s[m].0)) by {
        assert forall|x: Seq<char>| #[trigger] table(t).dom().contains(x) <==> table(s).remove(
            s[m].0,
        ).dom().contains(x) by {
            if table(t).dom().contains(x) {
                let j = choose|j: int| 0 <= j < t.len() && (#[trigger] t[j]).0 == x;
                let j2 = if j < m {
                    j
                } else {
                    j + 1
                };
                assert(t[j] == s[j2]);
                assert(s[j2].0 != s[m].0);
            }
            if table(s).remove(s[m].0).dom().contains(x) {
                let j = choose|j: int| 0 <= j < s.len() && (#[trigger] s[j]).0 == x;
                assert(j != m);
                if j < m {
                    assert(t[j] == s[j]);
                } else {
                    assert(t[j - 1] == s[j]);
                }
            }
        }
        assert forall|x: Seq<char>| #[trigger] table(t).dom().contains(x) implies table(t)[x] == table(
            s,
        ).remove(s[m].0)[x] by {
            let j = choose|j: int| 0 <= j < t.len() && (#[trigger] t[j]).0 == x;
            lemma_table_get(t, j);
            let j2 = if j < m {
                j
            } else {
                j + 1
            };
            assert(t[j] == s[j2]);
            lemma_table_get(s, j2);
        }
    }
}

/// The number of keys of a list with distinct keys is its length.
pub proof fn lemma_table_len<T>(s: Seq<(Seq<char>, T)>)
    requires
        keys_distinct(s),
    ensures
        table(s).dom().finite(),
        table(s).dom().len() == s.len(),
    decreases s.len(),
{
    if s.len() == 0 {
        assert(table(s).dom() =~= Set::<Seq<char>>::empty());
    } else {
        let init = s.drop_last();
        assert(keys_distinct(init)) by {
            assert forall|a: int, b: int| 0 <= a < init.len() && 0 <= b < init.len() && a != b implies (#[trigger] init[a]).0
                != (#[trigger] init[b]).0 by {
                assert(init[a] == s[a] && init[b] == s[b]);
            }
        }
        lemma_table_len(init);
        assert forall|m: int| 0 <= m < init.len() implies (#[trigger] init[m]).0 != s.last().0 by {
            assert(init[m] == s[m]);
        }
        lemma_table_absent(init, s.last().0);
        lemma_table_push(init, s.last().0, s.last().1);
        assert(init.push((s.last().0, s.last().1)) =~= s);
    }
}

/// A map from strings to values, in insertion order.
#[derive(Debug, Clone)]
pub struct StrMap<V> {
    entries: Vec<(String, V)>,
}

impl<V: View> StrMap<V> {
    /// The key/value pairs, in order.
    pub closed spec fn pairs(&self) -> Seq<(Seq<char>, V::V)> {
        self.entries@.map_values(|p: (String, V)| (p.0@, p.1@))
    }

    /// The map the pairs stand for.
    pub open spec fn map(&self) -> Map<Seq<char>, V::V> {
        table(self.pairs())
    }

    pub open spec fn wf(&self) -> bool {
        keys_distinct(self.pairs())
    }

    pub fn new() -> (m: Self)
        ensures
            m.wf(),
            m.pairs() == Seq::<(Seq<char>, V::V)>::empty(),
            m.map() == Map::<Seq<char>, V::V>::empty(),
    {
        let m = StrMap { entries: Vec::new() };
        assert(m.pairs() =~= Seq::<(Seq<char>, V::V)>::empty());
        assert(m.map() =~= Map::<Seq<char>, V::V>::empty());
        m
    }

    fn position(&self, key: &str) -> (r: Option<usize>)
        ensures
            r matches Some(j) ==> j < self.pairs().len() && self.pairs()[j as int].0 == key@,
            r is None ==> forall|a: int| 0 <= a < self.pairs().len() ==> (#[trigger] self.pairs()[a]).0 != key@,
    {
        let mut j: usize = 0;
        while j < self.entries.len()
            invariant
                j <= self.entries@.len(),
                forall|a: int| 0 <= a < j ==> (#[trigger] self.pairs()[a]).0 != key@,
            decreases self.entries@.len() - j,
        {
            if str_eq(self.entries[j].0.as_str(), key) {
                return Some(j);
            }
            j = j + 1;
        }
        None
    }

    /// The value stored under `key`, if any.
    pub fn get(&self, key: &str) -> (r: Option<&V>)
        requires
            self.wf(),
        ensures
            r is Some <==> self.map().dom().contains(key@),
            r matches Some(v) ==> v@ == self.map()[key@],
    {
        match self.position(key) {
            Some(j) => {
                proof {
                    lemma_table_get(self.pairs(), j as int);
                }
                Some(&self.entries[j].1)
            },
            None => {
                proof {
                    lemma_table_absent(self.pairs(), key@);
                }
                None
            },
        }
    }

    /// Stores `value` under `key`, in place of any value stored before.
    pub fn insert(&mut self, key: String, value: V)
        requires
            old(self).wf(),
        ensures
            final(self).wf(),
            final(self).map() == old(self).map().insert(key@, value@),
    {
        let ghost s = self.pairs();
        match self.position(key.as_str()) {
            Some(j) => {
                let ghost before = self.entries@;
                let k = self.entries[j].0.clone();
                self.entries.set(j, (k, value));
                proof {
                    assert(self.pairs() =~= s.update(j as int, (s[j as int].0, value@)));
                    lemma_table_update(s, j as int, value@);
                }
            },
            None => {
                let ghost kv = key@;
                let ghost vv = value@;
                self.entries.push((key, value));
                proof {
                    lemma_table_absent(s, kv);
                    assert(self.pairs() =~= s.push((kv, vv)));
                    lemma_table_push(s, kv, vv);
                }
            },
        }
    }

    /// Removes `key` and its value, if present.
    pub fn remove(&mut self, key: &str)
        requires
            old(self).wf(),
        ensures
            final(self).wf(),
            final(self).map() == old(self).map().remove(key@),
    {
        let ghost s = self.pairs();
        match self.position(key) {
            Some(j) => {
                self.entries.remove(j);
                proof {
                    assert(self.pairs() =~= s.remove(j as int));
                    lemma_table_remove(s, j as int);
                }
            },
            None => {
                proof {
                    lemma_table_absent(s, key@);
                    assert(s.len() == self.pairs().len());
                    assert(table(s).remove(key@) =~= table(s));
                }
            },
        }
    }

    /// The number of keys.
    pub fn len(&self) -> (n: usize)
        requires
            self.wf(),
        ensures
            n == self.map().dom().len(),
            n == self.pairs().len(),
    {
        proof {
            lemma_table_len(self.pairs());
        }
        self.entries.len()
    }

    /// The `i`-th pair.
    pub fn entry_at(&self, i: usize) -> (r: (&String, &V))
        requires
            i < self.pairs().len(),
        ensures
            r.0@ == self.pairs()[i as int].0,
            r.1@ == self.pairs()[i as int].1,
    {
        (&self.entries[i].0, &self.entries[i].1)
    }

    /// Removes every pair.
    pub fn clear(&mut self)
        ensures
            final(self).wf(),
            final(self).map() == Map::<Seq<char>, V::V>::empty(),
            final(self).pairs() == Seq::<(Seq<char>, V::V)>::empty(),
    {
        self.entries.clear();
        assert(self.pairs() =~= Seq::<(Seq<char>, V::V)>::empty());
        assert(self.map() =~= Map::<Seq<char>, V::V>::empty());
    }
}

} // verus!
