//! A small map from strings to values, kept as a list of entries; the first
//! entry with a key is the one that counts.
use vstd::prelude::*;

verus! {

/// The map a list of entries stands for: the first entry with a key wins.
pub open spec fn list_map<V>(es: Seq<(String, V)>) -> Map<Seq<char>, V>
    decreases es.len(),
{
    if es.len() == 0 {
        Map::empty()
    } else {
        list_map(es.drop_first()).insert(es[0].0@, es[0].1)
    }
}

pub proof fn lemma_list_map_first<V>(es: Seq<(String, V)>, k: Seq<char>, i: int)
    requires
        0 <= i <= es.len(),
        forall|j: int| 0 <= j < i ==> (#[trigger] es[j]).0@ != k,
    ensures
        i < es.len() && es[i].0@ == k ==> list_map(es).contains_key(k) && list_map(es)[k] == es[i].1,
        i == es.len() ==> !list_map(es).contains_key(k),
    decreases i,
{
    if i > 0 {
        let t = es.drop_first();
        assert forall|j: int| 0 <= j < i - 1 implies (#[trigger] t[j]).0@ != k by {
            assert(t[j] == es[j + 1]);
        }
        lemma_list_map_first(t, k, i - 1);
    }
}

/// Dropping an entry with the key `k` leaves the map without `k` the same.
pub proof fn lemma_list_map_remove_at<V>(es: Seq<(String, V)>, k: Seq<char>, p: int)
    requires
        0 <= p < es.len(),
        es[p].0@ == k,
    ensures
        list_map(es.remove(p)).remove(k) == list_map(es).remove(k),
    decreases p,
{
    if p == 0 {
        assert(es.remove(0) =~= es.drop_first());
        assert(list_map(es.drop_first()).remove(k) =~= list_map(es).remove(k));
    } else {
        let t = es.drop_first();
        lemma_list_map_remove_at(t, k, p - 1);
        assert(es.remove(p).drop_first() =~= t.remove(p - 1));
        assert(es.remove(p)[0] == es[0]);
        let r = es.remove(p);
        assert(list_map(r) == list_map(r.drop_first()).insert(r[0].0@, r[0].1));
        assert(list_map(es) == list_map(t).insert(es[0].0@, es[0].1));
        if es[0].0@ == k {
            assert(list_map(r).remove(k) =~= list_map(r.drop_first()).remove(k));
            assert(list_map(es).remove(k) =~= list_map(t).remove(k));
        } else {
            assert(list_map(r).remove(k) =~= list_map(r.drop_first()).remove(k).insert(es[0].0@, es[0].1));
            assert(list_map(es).remove(k) =~= list_map(t).remove(k).insert(es[0].0@, es[0].1));
        }
    }
}

/// No two entries have the same key.
pub open spec fn keys_distinct<V>(es: Seq<(String, V)>) -> bool {
    forall|i: int, j: int| 0 <= i < j < es.len() ==> (#[trigger] es[i]).0@ != (#[trigger] es[j]).0@
}

/// With distinct keys, each entry is what the map holds under its key, and
/// each key of the map has an entry.
pub proof fn lemma_distinct_entries<V>(es: Seq<(String, V)>)
    requires
        keys_distinct(es),
    ensures
        forall|i: int| 0 <= i < es.len() ==> #[trigger] list_map(es).contains_key(es[i].0@)
            && list_map(es)[es[i].0@] == es[i].1,
        forall|k: Seq<char>| #[trigger] list_map(es).contains_key(k) ==> exists|i: int| 0 <= i < es.len() && (
            #[trigger] es[i]).0@ == k,
    decreases es.len(),
{
    if es.len() > 0 {
        let t = es.drop_first();
        assert forall|i: int, j: int| 0 <= i < j < t.len() implies (#[trigger] t[i]).0@ != (#[trigger] t[j]).0@ by {
            assert(t[i] == es[i + 1] && t[j] == es[j + 1]);
        }
        lemma_distinct_entries(t);
        assert(list_map(es) == list_map(t).insert(es[0].0@, es[0].1));
        assert forall|i: int| 0 <= i < es.len() implies #[trigger] list_map(es).contains_key(es[i].0@)
            && list_map(es)[es[i].0@] == es[i].1 by {
            if i > 0 {
                assert(es[i] == t[i - 1]);
                assert(es[0].0@ != es[i].0@);
                assert(list_map(t).contains_key(t[i - 1].0@));
            }
        }
        assert forall|k: Seq<char>| #[trigger] list_map(es).contains_key(k) implies exists|i: int| 0 <= i < es.len() && (
            #[trigger] es[i]).0@ == k by {
            if k != es[0].0@ {
                assert(list_map(t).contains_key(k));
                let i = choose|i: int| 0 <= i < t.len() && (#[trigger] t[i]).0@ == k;
                assert(es[i + 1] == t[i]);
            } else {
                assert(es[0].0@ == k);
            }
        }
    }
}

pub struct StrMap<V> {
    entries: Vec<(String, V)>,
}

impl<V> StrMap<V> {
    /// The entries, in order.
    pub closed spec fn list(&self) -> Seq<(String, V)> {
        self.entries@
    }

    /// Well-formed: no key occurs twice among the entries.
    pub closed spec fn wf(&self) -> bool {
        keys_distinct(self.entries@)
    }
}

impl<V> View for StrMap<V> {
    type V = Map<Seq<char>, V>;

    closed spec fn view(&self) -> Map<Seq<char>, V> {
        list_map(self.entries@)
    }
}

impl<V> StrMap<V> {
    /// An empty map.
    pub fn new() -> (r: StrMap<V>)
        ensures
            r@ == Map::<Seq<char>, V>::empty(),
            r.wf(),
    {
        StrMap { entries: Vec::new() }
    }

    fn position(&self, key: &String) -> (r: Option<usize>)
        ensures
            match r {
                Some(p) => p < self.entries@.len() && self.entries@[p as int].0@ == key@
                    && self@.contains_key(key@) && self@[key@] == self.entries@[p as int].1,
                None => !self@.contains_key(key@),
            },
    {
        let mut i: usize = 0;
        while i < self.entries.len()
            invariant
                i <= self.entries.len(),
                forall|j: int| 0 <= j < i ==> (#[trigger] self.entries@[j]).0@ != key@,
            decreases self.entries.len() - i,
        {
            if self.entries[i].0 == *key {
                proof {
                    lemma_list_map_first(self.entries@, key@, i as int);
                }
                return Some(i);
            }
            i = i + 1;
        }
        proof {
            lemma_list_map_first(self.entries@, key@, i as int);
        }
        None
    }

    /// Whether the key is present.
    pub fn contains(&self, key: &String) -> (r: bool)
        ensures
            r == self@.contains_key(key@),
    {
        self.position(key).is_some()
    }

    /// The value under the key.
    pub fn get(&self, key: &String) -> (r: Option<&V>)
        ensures
            match r {
                Some(v) => self@.contains_key(key@) && *v == self@[key@],
                None => !self@.contains_key(key@),
            },
    {
        match self.position(key) {
            Some(p) => Some(&self.entries[p].1),
            None => None,
        }
    }

    /// Removes the key; hands back the value it held.
    pub fn remove(&mut self, key: &String) -> (r: Option<V>)
        ensures
            final(self)@ == old(self)@.remove(key@),
            old(self).wf() ==> final(self).wf(),
            match r {
                Some(v) => old(self)@.contains_key(key@) && v == old(self)@[key@],
                None => !old(self)@.contains_key(key@),
            },
    {
        let first = self.position(key);
        let mut taken: Option<V> = None;
        let mut i: usize = 0;
        while i < self.entries.len()
            invariant
                i <= self.entries.len(),
                list_map(self.entries@).remove(key@) == old(self)@.remove(key@),
                old(self).wf() ==> keys_distinct(self.entries@),
                forall|j: int| 0 <= j < i ==> (#[trigger] self.entries@[j]).0@ != key@,
                match taken {
                    Some(v) => old(self)@.contains_key(key@) && v == old(self)@[key@],
                    None => list_map(self.entries@).contains_key(key@) == old(self)@.contains_key(key@)
                        && (old(self)@.contains_key(key@) ==> list_map(self.entries@)[key@] == old(self)@[key@]),
                },
            decreases self.entries.len() - i,
        {
            if self.entries[i].0 == *key {
                proof {
                    lemma_list_map_remove_at(self.entries@, key@, i as int);
                    lemma_list_map_first(self.entries@, key@, i as int);
                }
                let ghost before = self.entries@;
                let e = self.entries.remove(i);
                assert(self.entries@ == before.remove(i as int));
                assert(keys_distinct(before) ==> keys_distinct(self.entries@)) by {
                    if keys_distinct(before) {
                        assert forall|a: int, b: int| 0 <= a < b < self.entries@.len() implies (
                            #[trigger] self.entries@[a]).0@ != (#[trigger] self.entries@[b]).0@ by {
                            let a0 = if a < i { a } else { a + 1 };
                            let b0 = if b < i { b } else { b + 1 };
                            assert(self.entries@[a] == before[a0] && self.entries@[b] == before[b0]);
                        }
                    }
                }
                if taken.is_none() {
                    taken = Some(e.1);
                }
            } else {
                i = i + 1;
            }
        }
        proof {
            lemma_list_map_first(self.entries@, key@, i as int);
            assert(list_map(self.entries@) =~= list_map(self.entries@).remove(key@));
        }
        taken
    }

    /// Sets the key to the value, replacing what it held.
    pub fn insert(&mut self, key: String, value: V)
        ensures
            final(self)@ == old(self)@.insert(key@, value),
            final(self).list().len() >= 1,
            final(self).list()[0] == (key, value),
            list_map(final(self).list().drop_first()) == old(self)@.remove(key@),
            old(self).wf() ==> final(self).wf(),
    {
        let _ = self.remove(&key);
        let ghost mid = self.entries@;
        let ghost k = key@;
        let ghost v = value;
        let mut front: Vec<(String, V)> = Vec::new();
        front.push((key, value));
        std::mem::swap(&mut front, &mut self.entries);
        self.entries.append(&mut front);
        proof {
            let es = self.entries@;
            assert(es.drop_first() =~= mid);
            assert(list_map(es) =~= list_map(mid).insert(k, v));
            assert(es[0].0@ == k && es[0].1 == v);
            if keys_distinct(mid) {
                assert(!list_map(mid).contains_key(k));
                assert forall|j: int| 0 <= j < mid.len() implies (#[trigger] mid[j]).0@ != k by {
                    lemma_distinct_entries(mid);
                    assert(list_map(mid).contains_key(mid[j].0@));
                }
                assert forall|a: int, b: int| 0 <= a < b < es.len() implies (#[trigger] es[a]).0@ != (
                    #[trigger] es[b]).0@ by {
                    assert(es[b] == mid[b - 1]);
                    if a > 0 {
                        assert(es[a] == mid[a - 1]);
                    }
                }
            }
        }
    }

    /// Takes out every value under a distinct key, the most recently set first;
    /// the map is left empty.
    pub fn drain(&mut self) -> (r: Vec<(String, V)>)
        ensures
            final(self)@ == Map::<Seq<char>, V>::empty(),
            list_map(r@) == old(self)@,
            r@ == old(self).list(),
            old(self).wf() ==> keys_distinct(r@),
            final(self).wf(),
    {
        let mut out: Vec<(String, V)> = Vec::new();
        std::mem::swap(&mut out, &mut self.entries);
        out
    }
}

} // verus!
