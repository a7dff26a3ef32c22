//! A map from texts to values that keeps its keys in ascending order.

use vstd::prelude::*;

use crate::text::{
    ascending, lemma_less_irreflexive, lemma_less_total, lemma_less_transitive, less, same_text,
    text_less,
};

verus! {

/// Values under texts, held in ascending order of the texts, each once.
#[derive(Debug, Clone, PartialEq, Eq)]
pub struct TextMap<V> {
    entries: Vec<(String, V)>,
}

impl<V> TextMap<V> {
    /// The keys, in ascending order.
    pub closed spec fn keys(&self) -> Seq<Seq<char>> {
        self.entries@.map_values(|entry: (String, V)| entry.0@)
    }

    /// The values, in the order of their keys.
    pub closed spec fn values(&self) -> Seq<V> {
        self.entries@.map_values(|entry: (String, V)| entry.1)
    }

    /// Every key stands once, in its place.
    pub open spec fn wf(&self) -> bool {
        ascending(self.keys())
    }
}

/// The value that stands beside a key in two lists of one length.
pub open spec fn paired<V>(keys: Seq<Seq<char>>, values: Seq<V>) -> Map<Seq<char>, V> {
    Map::new(
        |key: Seq<char>| keys.contains(key),
        |key: Seq<char>| values[keys.index_of(key)],
    )
}

impl<V> View for TextMap<V> {
    type V = Map<Seq<char>, V>;

    open spec fn view(&self) -> Map<Seq<char>, V> {
        paired(self.keys(), self.values())
    }
}

/// In an ascending list every text stands at one place.
pub proof fn lemma_ascending_once(keys: Seq<Seq<char>>, i: int)
    requires
        ascending(keys),
        0 <= i < keys.len(),
    ensures
        keys.contains(keys[i]),
        keys.index_of(keys[i]) == i,
{
    let j = keys.index_of(keys[i]);
    assert(keys.contains(keys[i]));
    assert(0 <= j < keys.len() && keys[j] == keys[i]);
    lemma_less_irreflexive(keys[i]);
    if j < i {
        assert(text_less(keys[j], keys[i]));
    } else if i < j {
        assert(text_less(keys[i], keys[j]));
    }
}

/// Two ascending lists that hold the same texts are one list.
pub proof fn lemma_ascending_unique(a: Seq<Seq<char>>, b: Seq<Seq<char>>)
    requires
        ascending(a),
        ascending(b),
        forall|key: Seq<char>| a.contains(key) <==> b.contains(key),
    ensures
        a == b,
    decreases a.len(),
{
    if a.len() == 0 {
        if b.len() > 0 {
            assert(b.contains(b[0]));
        }
        assert(a =~= b);
    } else {
        assert(a.contains(a.last()));
        let at = b.index_of(a.last());
        assert(b.contains(a.last()) && b[at] == a.last() && 0 <= at < b.len());
        if at < b.len() - 1 {
            assert(b.contains(b.last()));
            let k = a.index_of(b.last());
            assert(a.contains(b.last()) && a[k] == b.last() && 0 <= k < a.len());
            assert(text_less(b[at], b[b.len() - 1]));
            lemma_less_irreflexive(a.last());
            if k < a.len() - 1 {
                assert(text_less(a[k], a[a.len() - 1]));
                lemma_less_transitive(a.last(), b.last(), a.last());
            }
        }
        let s = a.drop_last();
        let t = b.drop_last();
        assert forall|key: Seq<char>| s.contains(key) <==> t.contains(key) by {
            lemma_less_irreflexive(a.last());
            if s.contains(key) {
                let i = s.index_of(key);
                assert(s[i] == a[i]);
                assert(a.contains(key));
                let j = b.index_of(key);
                assert(b.contains(key) && b[j] == key);
                assert(text_less(a[i], a[a.len() - 1]));
                assert(j != b.len() - 1);
                assert(t[j] == key);
            }
            if t.contains(key) {
                let i = t.index_of(key);
                assert(t[i] == b[i]);
                assert(b.contains(key));
                let j = a.index_of(key);
                assert(a.contains(key) && a[j] == key);
                assert(text_less(b[i], b[b.len() - 1]));
                assert(j != a.len() - 1);
                assert(s[j] == key);
            }
        }
        assert(ascending(s)) by {
            assert forall|i: int, j: int| 0 <= i < j < s.len() implies text_less(
                #[trigger] s[i],
                #[trigger] s[j],
            ) by {
                assert(text_less(a[i], a[j]));
            }
        }
        assert(ascending(t)) by {
            assert forall|i: int, j: int| 0 <= i < j < t.len() implies text_less(
                #[trigger] t[i],
                #[trigger] t[j],
            ) by {
                assert(text_less(b[i], b[j]));
            }
        }
        lemma_ascending_unique(s, t);
        assert(a =~= s.push(a.last()));
        assert(b =~= t.push(b.last()));
    }
}

impl<V> TextMap<V> {
    /// Two maps that hold the same hold it in the same order.
    pub proof fn lemma_order(&self, other: &TextMap<V>)
        requires
            self.wf(),
            other.wf(),
            self@.dom() =~= other@.dom(),
        ensures
            self.keys() == other.keys(),
    {
        assert forall|key: Seq<char>| self.keys().contains(key) <==> other.keys().contains(key) by {
            assert(self@.dom().contains(key) <==> other@.dom().contains(key));
        }
        lemma_ascending_unique(self.keys(), other.keys());
    }

    /// The keys are the keys of the map, and each stands beside its value.
    pub proof fn lemma_entries(&self)
        requires
            self.wf(),
        ensures
            self.keys().len() == self.values().len(),
            forall|key: Seq<char>|
                self.keys().contains(key) <==> #[trigger] self@.contains_key(key),
            forall|i: int|
                #![trigger self.keys()[i]]
                #![trigger self.values()[i]]
                0 <= i < self.keys().len() ==> self@.contains_key(self.keys()[i])
                    && self@[self.keys()[i]] == self.values()[i],
    {
        assert forall|i: int|
            #![trigger self.keys()[i]]
            #![trigger self.values()[i]]
            0 <= i < self.keys().len() implies self@.contains_key(self.keys()[i])
            && self@[self.keys()[i]] == self.values()[i] by {
            lemma_ascending_once(self.keys(), i);
        }
    }

    /// A map without entries.
    pub fn new() -> (map: Self)
        ensures
            map.wf(),
            map@ == Map::<Seq<char>, V>::empty(),
            map.keys() == Seq::<Seq<char>>::empty(),
    {
        let map = TextMap { entries: Vec::new() };
        proof {
            assert(map.keys() =~= Seq::<Seq<char>>::empty());
            assert(map@ =~= Map::<Seq<char>, V>::empty());
        }
        map
    }

    /// How many entries the map has.
    pub fn len(&self) -> (count: usize)
        ensures
            count == self.keys().len(),
            count == self.values().len(),
    {
        self.entries.len()
    }

    /// The key at a place.
    pub fn key_at(&self, i: usize) -> (key: &str)
        requires
            i < self.keys().len(),
        ensures
            key@ == self.keys()[i as int],
    {
        self.entries[i].0.as_str()
    }

    /// The value at a place.
    pub fn value_at(&self, i: usize) -> (value: &V)
        requires
            i < self.keys().len(),
        ensures
            *value == self.values()[i as int],
    {
        &self.entries[i].1
    }

    /// The value at a place, to change.
    pub fn value_at_mut(&mut self, i: usize) -> (value: &mut V)
        requires
            i < old(self).keys().len(),
        ensures
            *value == old(self).values()[i as int],
            final(self).keys() == old(self).keys(),
            final(self).values() == old(self).values().update(i as int, *final(value)),
    {
        let ghost entries = self.entries@;
        proof {
            assert forall|v: V|
                (#[trigger] entries.update(i as int, (entries[i as int].0, v))).map_values(
                    |entry: (String, V)| entry.0@,
                ) =~= entries.map_values(|entry: (String, V)| entry.0@) && entries.update(
                    i as int,
                    (entries[i as int].0, v),
                ).map_values(|entry: (String, V)| entry.1) =~= entries.map_values(
                    |entry: (String, V)| entry.1,
                ).update(i as int, v) by {}
        }
        &mut self.entries[i].1
    }

    /// Take out the entry at a place.
    pub fn remove_at(&mut self, i: usize) -> (value: V)
        requires
            old(self).wf(),
            i < old(self).keys().len(),
        ensures
            final(self).wf(),
            value == old(self).values()[i as int],
            final(self).keys() == old(self).keys().remove(i as int),
            final(self).values() == old(self).values().remove(i as int),
    {
        let ghost keys = self.keys();
        let ghost values = self.values();
        let (_, value) = self.entries.remove(i);
        proof {
            let now = self.keys();
            assert(now =~= keys.remove(i as int));
            assert(self.values() =~= values.remove(i as int));
            assert forall|a: int, b: int| 0 <= a < b < now.len() implies text_less(
                #[trigger] now[a],
                #[trigger] now[b],
            ) by {
                let c = if a < i {
                    a
                } else {
                    a + 1
                };
                let d = if b < i {
                    b
                } else {
                    b + 1
                };
                assert(text_less(keys[c], keys[d]));
            }
        }
        value
    }

    /// Where a key stands, or would stand.
    fn slot(&self, key: &str) -> (at: usize)
        requires
            self.wf(),
        ensures
            at <= self.keys().len(),
            forall|i: int| 0 <= i < at ==> text_less(#[trigger] self.keys()[i], key@),
            at < self.keys().len() ==> !text_less(self.keys()[at as int], key@),
            at < self.keys().len() && self.keys()[at as int] != key@ ==> text_less(
                key@,
                self.keys()[at as int],
            ),
            self.keys().contains(key@) <==> at < self.keys().len() && self.keys()[at as int]
                == key@,
            at < self.keys().len() && self.keys()[at as int] == key@ ==> self.keys().index_of(key@)
                == at,
    {
        let mut at: usize = 0;
        while at < self.entries.len() && less(self.entries[at].0.as_str(), key)
            invariant
                at <= self.entries@.len(),
                forall|i: int| 0 <= i < at ==> text_less(#[trigger] self.keys()[i], key@),
            decreases self.entries@.len() - at,
        {
            proof {
                assert(self.keys()[at as int] == self.entries@[at as int].0@);
            }
            at = at + 1;
        }
        proof {
            let keys = self.keys();
            if at < keys.len() {
                assert(keys[at as int] == self.entries@[at as int].0@);
                lemma_less_total(keys[at as int], key@);
                if keys[at as int] == key@ {
                    lemma_ascending_once(keys, at as int);
                }
            }
            if keys.contains(key@) {
                let j = keys.index_of(key@);
                lemma_less_irreflexive(key@);
                assert(keys[j] == key@);
                if j < at {
                    assert(text_less(keys[j], key@));
                } else if at < j {
                    assert(text_less(keys[at as int], keys[j]));
                }
            }
        }
        at
    }

    /// Whether the map holds a key.
    pub fn contains_key(&self, key: &str) -> (res: bool)
        requires
            self.wf(),
        ensures
            res == self@.contains_key(key@),
    {
        let at = self.slot(key);
        at < self.entries.len() && same_text(self.entries[at].0.as_str(), key)
    }

    /// The value under a key.
    pub fn get(&self, key: &str) -> (res: Option<&V>)
        requires
            self.wf(),
        ensures
            match res {
                Some(value) => self@.contains_key(key@) && self@[key@] == *value,
                None => !self@.contains_key(key@),
            },
    {
        let at = self.slot(key);
        if at < self.entries.len() && same_text(self.entries[at].0.as_str(), key) {
            Some(&self.entries[at].1)
        } else {
            None
        }
    }

    /// The value under a key, to change.
    pub fn get_mut(&mut self, key: &str) -> (res: Option<&mut V>)
        requires
            old(self).wf(),
        ensures
            final(self).wf(),
            final(self).keys() == old(self).keys(),
            match res {
                Some(value) => {
                    &&& old(self)@.contains_key(key@)
                    &&& *value == old(self)@[key@]
                    &&& final(self)@ == old(self)@.insert(key@, *final(value))
                },
                None => !old(self)@.contains_key(key@) && *final(self) == *old(self),
            },
    {
        let at = self.slot(key);
        if at < self.entries.len() && same_text(self.entries[at].0.as_str(), key) {
            proof {
                let keys = self.keys();
                let values = self.values();
                lemma_ascending_once(keys, at as int);
                assert forall|v: V| #[trigger] paired(keys, values.update(at as int, v)) =~= paired(
                    keys,
                    values,
                ).insert(key@, v) by {
                    assert forall|k: Seq<char>| keys.contains(k) implies paired(
                        keys,
                        values.update(at as int, v),
                    )[k] == paired(keys, values).insert(key@, v)[k] by {
                        let i = keys.index_of(k);
                        assert(keys[i] == k);
                    }
                }
            }
            Some(self.value_at_mut(at))
        } else {
            None
        }
    }

    /// Put a value under a key, in place of what stood there.
    pub fn insert(&mut self, key: String, value: V) -> (res: Option<V>)
        requires
            old(self).wf(),
        ensures
            final(self).wf(),
            final(self)@ == old(self)@.insert(key@, value),
            match res {
                Some(former) => old(self)@.contains_key(key@) && old(self)@[key@] == former,
                None => !old(self)@.contains_key(key@),
            },
            old(self)@.contains_key(key@) ==> final(self).keys() == old(self).keys(),
    {
        let at = self.slot(key.as_str());
        let ghost keys = self.keys();
        let ghost values = self.values();
        let ghost text = key@;
        if at < self.entries.len() && same_text(self.entries[at].0.as_str(), key.as_str()) {
            let (name, former) = self.entries.remove(at);
            self.entries.insert(at, (name, value));
            proof {
                assert(self.keys() =~= keys);
                assert(self.values() =~= values.update(at as int, value));
                assert forall|k: Seq<char>| self@.contains_key(k) implies self@[k] == old(
                    self,
                )@.insert(text, value)[k] by {
                    let i = keys.index_of(k);
                    assert(keys[i] == k);
                }
                assert(self@ =~= old(self)@.insert(text, value));
            }
            Some(former)
        } else {
            self.entries.insert(at, (key, value));
            proof {
                let now = self.keys();
                assert(now =~= keys.insert(at as int, text));
                assert(self.values() =~= values.insert(at as int, value));
                assert forall|i: int, j: int| 0 <= i < j < now.len() implies text_less(
                    #[trigger] now[i],
                    #[trigger] now[j],
                ) by {
                    if i == at {
                        assert(now[j] == keys[j - 1]);
                        if j - 1 > at {
                            assert(text_less(keys[at as int], keys[j - 1]));
                            lemma_less_transitive(text, keys[at as int], keys[j - 1]);
                        }
                    } else if j == at {
                        assert(now[i] == keys[i]);
                    } else {
                        let a = if i < at {
                            i
                        } else {
                            i - 1
                        };
                        let b = if j < at {
                            j
                        } else {
                            j - 1
                        };
                        assert(now[i] == keys[a]);
                        assert(now[j] == keys[b]);
                        assert(text_less(keys[a], keys[b]));
                    }
                }
                assert forall|k: Seq<char>| #[trigger] self@.contains_key(k) <==> old(
                    self,
                )@.insert(text, value).contains_key(k) by {
                    if now.contains(k) {
                        let i = now.index_of(k);
                        assert(now[i] == k);
                        if i < at {
                            assert(keys[i] == k);
                        } else if i > at {
                            assert(keys[i - 1] == k);
                        }
                    }
                    if keys.contains(k) {
                        let i = keys.index_of(k);
                        assert(keys[i] == k);
                        if i < at {
                            assert(now[i] == k);
                        } else {
                            assert(now[i + 1] == k);
                        }
                    }
                    if k == text {
                        assert(now[at as int] == k);
                    }
                }
                assert forall|k: Seq<char>| self@.contains_key(k) implies self@[k] == old(
                    self,
                )@.insert(text, value)[k] by {
                    let i = now.index_of(k);
                    assert(now[i] == k);
                    if k == text {
                        lemma_ascending_once(now, at as int);
                    } else if i < at {
                        assert(keys[i] == k);
                        lemma_ascending_once(keys, i);
                    } else {
                        assert(keys[i - 1] == k);
                        lemma_ascending_once(keys, i - 1);
                    }
                }
                assert(self@ =~= old(self)@.insert(text, value));
            }
            None
        }
    }

    /// Take out what stands under a key.
    pub fn remove(&mut self, key: &str) -> (res: Option<V>)
        requires
            old(self).wf(),
        ensures
            final(self).wf(),
            final(self)@ == old(self)@.remove(key@),
            match res {
                Some(former) => old(self)@.contains_key(key@) && old(self)@[key@] == former,
                None => !old(self)@.contains_key(key@),
            },
    {
        let at = self.slot(key);
        let ghost keys = self.keys();
        let ghost values = self.values();
        if at < self.entries.len() && same_text(self.entries[at].0.as_str(), key) {
            let (_, former) = self.entries.remove(at);
            proof {
                let now = self.keys();
                assert(now =~= keys.remove(at as int));
                assert(self.values() =~= values.remove(at as int));
                assert forall|i: int, j: int| 0 <= i < j < now.len() implies text_less(
                    #[trigger] now[i],
                    #[trigger] now[j],
                ) by {
                    let a = if i < at {
                        i
                    } else {
                        i + 1
                    };
                    let b = if j < at {
                        j
                    } else {
                        j + 1
                    };
                    assert(text_less(keys[a], keys[b]));
                }
                assert forall|k: Seq<char>| #[trigger] self@.contains_key(k) <==> old(
                    self,
                )@.remove(key@).contains_key(k) by {
                    if now.contains(k) {
                        let i = now.index_of(k);
                        assert(now[i] == k);
                        let a = if i < at {
                            i
                        } else {
                            i + 1
                        };
                        assert(keys[a] == k);
                        lemma_ascending_once(keys, a);
                    }
                    if keys.contains(k) && k != key@ {
                        let i = keys.index_of(k);
                        assert(keys[i] == k);
                        if i < at {
                            assert(now[i] == k);
                        } else {
                            assert(now[i - 1] == k);
                        }
                    }
                }
                assert forall|k: Seq<char>| self@.contains_key(k) implies self@[k] == old(
                    self,
                )@.remove(key@)[k] by {
                    let i = now.index_of(k);
                    assert(now[i] == k);
                    let a = if i < at {
                        i
                    } else {
                        i + 1
                    };
                    assert(keys[a] == k);
                    lemma_ascending_once(keys, a);
                }
                assert(self@ =~= old(self)@.remove(key@));
            }
            Some(former)
        } else {
            proof {
                assert(self@ =~= old(self)@.remove(key@));
            }
            None
        }
    }
}

} // verus!
