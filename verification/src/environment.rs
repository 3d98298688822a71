//! The environment: a finite map from text keys to text values.

use crate::order::{
    lemma_text_lt_irreflexive, lemma_text_lt_total, lemma_text_lt_transitive, text_eq, text_less,
    text_lt,
};
use vstd::prelude::*;

verus! {

/// One key with its value.
#[derive(Debug, PartialEq, Eq)]
pub struct Entry {
    pub key: String,
    pub value: String,
}

impl Clone for Entry {
    /// A copy with the same key and value.
    fn clone(&self) -> (copy: Self)
        ensures
            copy == *self,
    {
        Entry { key: self.key.clone(), value: self.value.clone() }
    }
}

impl Entry {
    /// The entry as a pair of texts.
    pub open spec fn pair(self) -> (Seq<char>, Seq<char>) {
        (self.key@, self.value@)
    }
}

/// The entries as pairs of texts, in the same order.
pub open spec fn entry_pairs(entries: Seq<Entry>) -> Seq<(Seq<char>, Seq<char>)> {
    entries.map_values(|e: Entry| e.pair())
}

/// The keys of `pairs` are strictly ascending, so no key occurs twice.
pub open spec fn keys_ascending(pairs: Seq<(Seq<char>, Seq<char>)>) -> bool {
    forall|i: int, j: int|
        #![trigger pairs[i], pairs[j]]
        0 <= i < j < pairs.len() ==> text_lt(pairs[i].0, pairs[j].0)
}

/// Some pair of `pairs` has the key `key`.
pub open spec fn has_key(pairs: Seq<(Seq<char>, Seq<char>)>, key: Seq<char>) -> bool {
    exists|i: int| 0 <= i < pairs.len() && (#[trigger] pairs[i]).0 == key
}

/// The place of a pair with the key `key`.
pub open spec fn index_of_key(pairs: Seq<(Seq<char>, Seq<char>)>, key: Seq<char>) -> int {
    choose|i: int| 0 <= i < pairs.len() && (#[trigger] pairs[i]).0 == key
}

/// The map that holds each key of `pairs` with its value.
pub open spec fn pairs_to_map(pairs: Seq<(Seq<char>, Seq<char>)>) -> Map<Seq<char>, Seq<char>> {
    Map::new(|k: Seq<char>| has_key(pairs, k), |k: Seq<char>| pairs[index_of_key(pairs, k)].1)
}

/// With ascending keys, the map holds at each key the value of the one pair
/// that has it.
pub proof fn lemma_lookup(pairs: Seq<(Seq<char>, Seq<char>)>, i: int)
    requires
        keys_ascending(pairs),
        0 <= i < pairs.len(),
    ensures
        has_key(pairs, pairs[i].0),
        index_of_key(pairs, pairs[i].0) == i,
        pairs_to_map(pairs).contains_key(pairs[i].0),
        pairs_to_map(pairs)[pairs[i].0] == pairs[i].1,
{
    let j = index_of_key(pairs, pairs[i].0);
    lemma_text_lt_irreflexive(pairs[i].0);
    if i < j {
        assert(text_lt(pairs[i].0, pairs[j].0));
    } else if j < i {
        assert(text_lt(pairs[j].0, pairs[i].0));
    }
}

/// What putting `pair` at the place `at` does to the map: `after` is `before`
/// with `pair` put in at `at`, or in place of the pair at `at` that has its key.
proof fn lemma_put(
    before: Seq<(Seq<char>, Seq<char>)>,
    at: int,
    pair: (Seq<char>, Seq<char>),
    after: Seq<(Seq<char>, Seq<char>)>,
)
    requires
        keys_ascending(before),
        0 <= at <= before.len(),
        forall|i: int| 0 <= i < at ==> text_lt((#[trigger] before[i]).0, pair.0),
        at < before.len() ==> !text_lt(before[at].0, pair.0),
        after == if at < before.len() && !text_lt(pair.0, before[at].0) {
            before.update(at, pair)
        } else {
            before.insert(at, pair)
        },
    ensures
        keys_ascending(after),
        pairs_to_map(after) == pairs_to_map(before).insert(pair.0, pair.1),
        at < before.len() && !text_lt(pair.0, before[at].0) ==> before[at].0 == pair.0
            && pairs_to_map(before).contains_key(pair.0) && pairs_to_map(before)[pair.0]
            == before[at].1,
        !(at < before.len() && !text_lt(pair.0, before[at].0)) ==> !pairs_to_map(
            before,
        ).contains_key(pair.0),
{
    let replaces = at < before.len() && !text_lt(pair.0, before[at].0);
    if at < before.len() {
        lemma_text_lt_total(pair.0, before[at].0);
    }
    assert forall|j: int| at <= j < before.len() && !replaces implies text_lt(
        pair.0,
        (#[trigger] before[j]).0,
    ) by {
        if at < j {
            assert(text_lt(before[at].0, before[j].0));
            lemma_text_lt_transitive(pair.0, before[at].0, before[j].0);
        }
    }
    assert(keys_ascending(after)) by {
        assert forall|i: int, j: int| 0 <= i < j < after.len() implies text_lt(
            (#[trigger] after[i]).0,
            (#[trigger] after[j]).0,
        ) by {
            if replaces {
                assert(after[i].0 == before[i].0);
                assert(after[j].0 == before[j].0);
                assert(text_lt(before[i].0, before[j].0));
            } else {
                if j < at {
                    assert(text_lt(before[i].0, before[j].0));
                } else if j == at {
                    assert(after[i] == before[i]);
                } else if i < at {
                    assert(after[j] == before[j - 1]);
                    assert(text_lt(before[i].0, before[j - 1].0));
                } else if i == at {
                    assert(after[j] == before[j - 1]);
                } else {
                    assert(after[i] == before[i - 1]);
                    assert(after[j] == before[j - 1]);
                    assert(text_lt(before[i - 1].0, before[j - 1].0));
                }
            }
        }
    }
    if !replaces {
        if has_key(before, pair.0) {
            let i = index_of_key(before, pair.0);
            lemma_text_lt_irreflexive(pair.0);
            if i >= at {
                assert(text_lt(pair.0, before[i].0));
            }
        }
    } else {
        lemma_lookup(before, at);
    }
    let old_map = pairs_to_map(before);
    let new_map = pairs_to_map(after);
    assert forall|k: Seq<char>| new_map.contains_key(k) <==> old_map.insert(
        pair.0,
        pair.1,
    ).contains_key(k) by {
        if has_key(after, k) {
            let i = index_of_key(after, k);
            if replaces {
                assert(after[i].0 == before[i].0);
            } else if i < at {
                assert(after[i] == before[i]);
            } else if i > at {
                assert(after[i] == before[i - 1]);
            }
        }
        if has_key(before, k) {
            let i = index_of_key(before, k);
            if replaces {
                assert(after[i].0 == before[i].0);
            } else if i < at {
                assert(after[i] == before[i]);
            } else {
                assert(after[i + 1] == before[i]);
            }
        }
        if k == pair.0 {
            assert(after[at] == pair);
        }
    }
    assert forall|k: Seq<char>| new_map.contains_key(k) implies new_map[k] == old_map.insert(
        pair.0,
        pair.1,
    )[k] by {
        let i = index_of_key(after, k);
        lemma_lookup(after, i);
        if replaces {
            if i != at {
                assert(after[i] == before[i]);
                lemma_lookup(before, i);
            }
        } else if i < at {
            assert(after[i] == before[i]);
            lemma_lookup(before, i);
        } else if i > at {
            assert(after[i] == before[i - 1]);
            lemma_lookup(before, i - 1);
        }
        if k == pair.0 {
            lemma_lookup(after, at);
        }
    }
    assert(new_map =~= old_map.insert(pair.0, pair.1));
}

/// The map of ascending pairs is the map of all but the last, with the last put in.
pub proof fn lemma_pairs_to_map_last(pairs: Seq<(Seq<char>, Seq<char>)>)
    requires
        keys_ascending(pairs),
        pairs.len() > 0,
    ensures
        keys_ascending(pairs.drop_last()),
        pairs_to_map(pairs) == pairs_to_map(pairs.drop_last()).insert(
            pairs.last().0,
            pairs.last().1,
        ),
        !pairs_to_map(pairs.drop_last()).contains_key(pairs.last().0),
{
    let front = pairs.drop_last();
    assert forall|i: int, j: int| 0 <= i < j < front.len() implies text_lt(
        (#[trigger] front[i]).0,
        (#[trigger] front[j]).0,
    ) by {
        assert(text_lt(pairs[i].0, pairs[j].0));
    }
    assert forall|i: int| 0 <= i < front.len() implies text_lt(
        (#[trigger] front[i]).0,
        pairs.last().0,
    ) by {
        assert(text_lt(pairs[i].0, pairs[pairs.len() - 1].0));
    }
    assert(front.insert(front.len() as int, pairs.last()) =~= pairs);
    lemma_put(front, front.len() as int, pairs.last(), pairs);
}

/// Ascending pairs are determined by their map: two environments that hold
/// the same keys with the same values hold them in the same order.
pub proof fn lemma_pairs_determined(
    p: Seq<(Seq<char>, Seq<char>)>,
    q: Seq<(Seq<char>, Seq<char>)>,
)
    requires
        keys_ascending(p),
        keys_ascending(q),
        pairs_to_map(p) == pairs_to_map(q),
    ensures
        p == q,
    decreases p.len(),
{
    if p.len() == 0 || q.len() == 0 {
        if p.len() > 0 {
            lemma_lookup(p, 0);
            assert(has_key(q, p[0].0));
        }
        if q.len() > 0 {
            lemma_lookup(q, 0);
            assert(has_key(p, q[0].0));
        }
        assert(p =~= q);
    } else {
        let m = pairs_to_map(p);
        let p_last = p.len() - 1;
        let q_last = q.len() - 1;
        lemma_lookup(p, p_last);
        lemma_lookup(q, q_last);
        assert(has_key(q, p[p_last].0));
        assert(has_key(p, q[q_last].0));
        let j = index_of_key(q, p[p_last].0);
        let i = index_of_key(p, q[q_last].0);
        lemma_text_lt_total(p[p_last].0, q[q_last].0);
        if j < q_last {
            assert(text_lt(q[j].0, q[q_last].0));
            if i < p_last {
                assert(text_lt(p[i].0, p[p_last].0));
            }
        }
        assert(p[p_last].0 == q[q_last].0);
        assert(p[p_last] == q[q_last]);
        lemma_pairs_to_map_last(p);
        lemma_pairs_to_map_last(q);
        assert(pairs_to_map(p.drop_last()) =~= m.remove(p[p_last].0));
        assert(pairs_to_map(q.drop_last()) =~= m.remove(p[p_last].0));
        lemma_pairs_determined(p.drop_last(), q.drop_last());
        assert(p =~= p.drop_last().push(p[p_last]));
        assert(q =~= q.drop_last().push(q[q_last]));
    }
}

/// The map of ascending pairs has as many keys as there are pairs.
pub proof fn lemma_pairs_count(pairs: Seq<(Seq<char>, Seq<char>)>)
    requires
        keys_ascending(pairs),
    ensures
        pairs_to_map(pairs).dom().finite(),
        pairs_to_map(pairs).dom().len() == pairs.len(),
    decreases pairs.len(),
{
    if pairs.len() == 0 {
        assert(pairs_to_map(pairs).dom() =~= Set::empty());
    } else {
        lemma_pairs_to_map_last(pairs);
        lemma_pairs_count(pairs.drop_last());
        assert(pairs_to_map(pairs).dom() =~= pairs_to_map(pairs.drop_last()).dom().insert(
            pairs.last().0,
        ));
    }
}

/// A key/value environment. Its entries are kept in ascending key order.
#[derive(Debug, PartialEq, Eq)]
pub struct Environment {
    entries: Vec<Entry>,
}

impl View for Environment {
    type V = Map<Seq<char>, Seq<char>>;

    open spec fn view(&self) -> Map<Seq<char>, Seq<char>> {
        pairs_to_map(self.pairs())
    }
}

impl Clone for Environment {
    /// A copy with the same entries.
    fn clone(&self) -> (copy: Self)
        ensures
            copy.pairs() == self.pairs(),
            copy@ == self@,
    {
        proof {
            use_type_invariant(self);
        }
        let mut entries: Vec<Entry> = Vec::new();
        let mut i: usize = 0;
        while i < self.entries.len()
            invariant
                i <= self.entries.len(),
                entries.len() == i,
                entry_pairs(entries@) == entry_pairs(self.entries@).take(i as int),
            decreases self.entries.len() - i,
        {
            let ghost before = entries@;
            entries.push(self.entries[i].clone());
            proof {
                let wanted = entry_pairs(self.entries@).take(i + 1);
                assert forall|j: int| 0 <= j < wanted.len() implies entry_pairs(entries@)[j]
                    == wanted[j] by {
                    if j < i {
                        assert(entries@[j] == before[j]);
                        assert(entry_pairs(before)[j] == entry_pairs(self.entries@).take(
                            i as int,
                        )[j]);
                    }
                }
                assert(entry_pairs(entries@) =~= wanted);
            }
            i += 1;
        }
        assert(entry_pairs(self.entries@).take(i as int) =~= entry_pairs(self.entries@));
        Environment { entries }
    }
}

impl Environment {
    /// The entries in ascending key order.
    pub closed spec fn pairs(&self) -> Seq<(Seq<char>, Seq<char>)> {
        entry_pairs(self.entries@)
    }

    /// The keys are strictly ascending.
    #[verifier::type_invariant]
    pub open spec fn wf(&self) -> bool {
        keys_ascending(self.pairs())
    }

    /// The empty environment.
    pub fn new() -> (env: Self)
        ensures
            env.pairs() == Seq::<(Seq<char>, Seq<char>)>::empty(),
            env@ == Map::<Seq<char>, Seq<char>>::empty(),
    {
        let env = Environment { entries: Vec::new() };
        assert(env.pairs() =~= Seq::empty());
        assert(env@ =~= Map::empty());
        env
    }

    /// Sets `key` to `value` and returns the value that `key` had before, if
    /// it had one.
    pub fn insert(&mut self, key: String, value: String) -> (previous: Option<String>)
        ensures
            final(self)@ == old(self)@.insert(key@, value@),
            match previous {
                Some(p) => old(self)@.contains_key(key@) && p@ == old(self)@[key@],
                None => !old(self)@.contains_key(key@),
            },
    {
        proof {
            use_type_invariant(&*self);
        }
        let ghost before = self.pairs();
        let mut entries: Vec<Entry> = Vec::new();
        core::mem::swap(&mut entries, &mut self.entries);
        let mut at: usize = 0;
        while at < entries.len() && text_less(entries[at].key.as_str(), key.as_str())
            invariant
                at <= entries.len(),
                forall|i: int| 0 <= i < at ==> text_lt((#[trigger] entries@[i]).key@, key@),
            decreases entries.len() - at,
        {
            at += 1;
        }
        let found = at < entries.len() && !text_less(key.as_str(), entries[at].key.as_str());
        let ghost pair = (key@, value@);
        let previous = if found {
            entries.push(Entry { key, value });
            let replaced = entries.swap_remove(at);
            Some(replaced.value)
        } else {
            entries.insert(at, Entry { key, value });
            None
        };
        let ghost after = entry_pairs(entries@);
        proof {
            if found {
                assert(after =~= before.update(at as int, pair));
            } else {
                assert(after =~= before.insert(at as int, pair));
            }
            lemma_put(before, at as int, pair, after);
        }
        self.entries = entries;
        previous
    }

    /// The value of `key`, if it has one.
    pub fn get(&self, key: &str) -> (value: Option<&str>)
        ensures
            match value {
                Some(v) => self@.contains_key(key@) && v@ == self@[key@],
                None => !self@.contains_key(key@),
            },
    {
        proof {
            use_type_invariant(self);
        }
        let mut i: usize = 0;
        while i < self.entries.len()
            invariant
                i <= self.entries.len(),
                self.wf(),
                forall|j: int| 0 <= j < i ==> (#[trigger] self.pairs()[j]).0 != key@,
            decreases self.entries.len() - i,
        {
            if text_eq(self.entries[i].key.as_str(), key) {
                proof {
                    lemma_lookup(self.pairs(), i as int);
                }
                return Some(self.entries[i].value.as_str());
            }
            i += 1;
        }
        None
    }

    /// The entries in ascending key order.
    pub fn entries(&self) -> (entries: &Vec<Entry>)
        ensures
            entry_pairs(entries@) == self.pairs(),
    {
        &self.entries
    }

    /// Whether there is no entry.
    pub fn is_empty(&self) -> (empty: bool)
        ensures
            empty == (self.pairs().len() == 0),
            empty == (self@ == Map::<Seq<char>, Seq<char>>::empty()),
    {
        proof {
            use_type_invariant(self);
            if self.pairs().len() > 0 {
                lemma_lookup(self.pairs(), 0);
            } else {
                assert(self@ =~= Map::empty());
            }
        }
        self.entries.len() == 0
    }

    /// The number of entries.
    pub fn len(&self) -> (n: usize)
        ensures
            n == self.pairs().len(),
            n == self@.dom().len(),
    {
        proof {
            use_type_invariant(self);
            lemma_pairs_count(self.pairs());
        }
        self.entries.len()
    }
}

} // verus!
