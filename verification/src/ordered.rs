//! A map kept in the order of its keys.
use crate::text;
use vstd::prelude::*;

verus! {

/// A key of a sorted map. Keys are ordered, and told apart, by their bytes.
pub trait OrderedKey: Sized {
    spec fn key(&self) -> Seq<u8>;

    fn precedes(&self, other: &Self) -> (result: bool)
        ensures
            result == text::before(self.key(), other.key()),
    ;

    fn matches_key(&self, other: &Self) -> (result: bool)
        ensures
            result == (self.key() == other.key()),
    ;
}

/// A value that can be copied exactly.
pub trait Duplicate: Sized {
    fn duplicate(&self) -> (result: Self)
        ensures
            result == *self,
    ;
}

/// Key-value pairs in strictly ascending order of their keys.
#[derive(Debug, PartialEq)]
pub struct SortedMap<K: OrderedKey, V> {
    entries: Vec<(K, V)>,
}

/// Keys ascend strictly.
pub open spec fn ascending<K: OrderedKey, V>(pairs: Seq<(K, V)>) -> bool {
    forall|i: int, j: int|
        0 <= i < j < pairs.len() ==> text::before(
            (#[trigger] pairs[i]).0.key(),
            (#[trigger] pairs[j]).0.key(),
        )
}

pub open spec fn has_key<K: OrderedKey, V>(pairs: Seq<(K, V)>, key: Seq<u8>) -> bool {
    exists|i: int| 0 <= i < pairs.len() && (#[trigger] pairs[i]).0.key() == key
}

pub open spec fn index_of<K: OrderedKey, V>(pairs: Seq<(K, V)>, key: Seq<u8>) -> int {
    choose|i: int| 0 <= i < pairs.len() && (#[trigger] pairs[i]).0.key() == key
}

/// What each key maps to.
pub open spec fn map_of<K: OrderedKey, V>(pairs: Seq<(K, V)>) -> Map<Seq<u8>, V> {
    Map::new(|key: Seq<u8>| has_key(pairs, key), |key: Seq<u8>| pairs[index_of(pairs, key)].1)
}

/// Number of keys before `key`.
pub open spec fn rank<K: OrderedKey, V>(pairs: Seq<(K, V)>, key: Seq<u8>) -> int
    decreases pairs.len(),
{
    if pairs.len() == 0 || !text::before(pairs[0].0.key(), key) {
        0
    } else {
        1 + rank(pairs.drop_first(), key)
    }
}

/// The pairs once `key` maps to `value`; an existing key stays.
pub open spec fn with_pair<K: OrderedKey, V>(pairs: Seq<(K, V)>, key: K, value: V) -> Seq<(K, V)> {
    if has_key(pairs, key.key()) {
        let i = index_of(pairs, key.key());
        pairs.update(i, (pairs[i].0, value))
    } else {
        pairs.insert(rank(pairs, key.key()), (key, value))
    }
}

proof fn lemma_unique<K: OrderedKey, V>(pairs: Seq<(K, V)>, i: int, j: int)
    requires
        ascending(pairs),
        0 <= i < pairs.len(),
        0 <= j < pairs.len(),
        pairs[i].0.key() == pairs[j].0.key(),
    ensures
        i == j,
{
    if i < j {
        lemma_not_before_itself(pairs[i].0.key());
    } else if j < i {
        lemma_not_before_itself(pairs[i].0.key());
    }
}

proof fn lemma_not_before_itself(key: Seq<u8>)
    ensures
        !text::before(key, key),
{
    text::before_irreflexive(key);
}

/// In ascending pairs each key maps to the value beside it.
pub proof fn pair_is_mapped<K: OrderedKey, V>(pairs: Seq<(K, V)>, i: int)
    requires
        ascending(pairs),
        0 <= i < pairs.len(),
    ensures
        has_key(pairs, pairs[i].0.key()),
        index_of(pairs, pairs[i].0.key()) == i,
        map_of(pairs).contains_key(pairs[i].0.key()),
        map_of(pairs)[pairs[i].0.key()] == pairs[i].1,
{
    let key = pairs[i].0.key();
    assert(has_key(pairs, key));
    lemma_unique(pairs, index_of(pairs, key), i);
}

/// One more of ascending pairs maps one more key.
pub proof fn prefix_is_mapped<K: OrderedKey, V>(pairs: Seq<(K, V)>, i: int)
    requires
        ascending(pairs),
        0 <= i < pairs.len(),
    ensures
        !map_of(pairs.take(i)).contains_key(pairs[i].0.key()),
        map_of(pairs.take(i + 1)) == map_of(pairs.take(i)).insert(
            pairs[i].0.key(),
            pairs[i].1,
        ),
{
    let before = pairs.take(i);
    lemma_add(before, i, pairs[i].0, pairs[i].1);
    assert(before.insert(i, (pairs[i].0, pairs[i].1)) =~= pairs.take(i + 1));
}

/// A key's position is its rank.
proof fn lemma_rank<K: OrderedKey, V>(pairs: Seq<(K, V)>, key: Seq<u8>, i: int)
    requires
        0 <= i <= pairs.len(),
        forall|j: int| 0 <= j < i ==> text::before((#[trigger] pairs[j]).0.key(), key),
        i < pairs.len() ==> !text::before(pairs[i].0.key(), key),
    ensures
        rank(pairs, key) == i,
    decreases i,
{
    if i > 0 {
        let rest = pairs.drop_first();
        assert(text::before(pairs[0].0.key(), key));
        assert forall|j: int| 0 <= j < i - 1 implies text::before((#[trigger] rest[j]).0.key(), key) by {
            assert(rest[j] == pairs[j + 1]);
        }
        lemma_rank(rest, key, i - 1);
    }
}

proof fn lemma_replace<K: OrderedKey, V>(pairs: Seq<(K, V)>, i: int, value: V)
    requires
        ascending(pairs),
        0 <= i < pairs.len(),
    ensures
        ascending(pairs.update(i, (pairs[i].0, value))),
        map_of(pairs.update(i, (pairs[i].0, value))) == map_of(pairs).insert(
            pairs[i].0.key(),
            value,
        ),
{
    let next = pairs.update(i, (pairs[i].0, value));
    assert forall|a: int, b: int| 0 <= a < b < next.len() implies text::before(
        (#[trigger] next[a]).0.key(),
        (#[trigger] next[b]).0.key(),
    ) by {
        assert(next[a].0 == pairs[a].0 && next[b].0 == pairs[b].0);
    }
    let left = map_of(next);
    let right = map_of(pairs).insert(pairs[i].0.key(), value);
    assert forall|key: Seq<u8>| #[trigger] left.contains_key(key) == right.contains_key(key) by {
        if has_key(next, key) {
            let j = index_of(next, key);
            assert(next[j].0 == pairs[j].0);
            pair_is_mapped(pairs, j);
        }
        if has_key(pairs, key) {
            let j = index_of(pairs, key);
            assert(next[j].0 == pairs[j].0);
            pair_is_mapped(next, j);
        }
        pair_is_mapped(next, i);
    }
    assert forall|key: Seq<u8>| #[trigger] left.contains_key(key) implies left[key] == right[key] by {
        let j = index_of(next, key);
        pair_is_mapped(next, j);
        pair_is_mapped(pairs, j);
        pair_is_mapped(pairs, i);
        if j != i {
            if key == pairs[i].0.key() {
                lemma_unique(pairs, i, j);
            }
        }
    }
    assert(left =~= right);
}

proof fn lemma_add<K: OrderedKey, V>(pairs: Seq<(K, V)>, i: int, key: K, value: V)
    requires
        ascending(pairs),
        0 <= i <= pairs.len(),
        forall|j: int| 0 <= j < i ==> text::before((#[trigger] pairs[j]).0.key(), key.key()),
        i < pairs.len() ==> text::before(key.key(), pairs[i].0.key()),
    ensures
        !has_key(pairs, key.key()),
        rank(pairs, key.key()) == i,
        ascending(pairs.insert(i, (key, value))),
        map_of(pairs.insert(i, (key, value))) == map_of(pairs).insert(key.key(), value),
{
    let next = pairs.insert(i, (key, value));
    assert forall|j: int| i <= j < pairs.len() implies text::before(
        key.key(),
        (#[trigger] pairs[j]).0.key(),
    ) by {
        if j > i {
            text::before_transitive(key.key(), pairs[i].0.key(), pairs[j].0.key());
        }
    }
    if has_key(pairs, key.key()) {
        let j = index_of(pairs, key.key());
        lemma_not_before_itself(key.key());
        assert(text::before(pairs[j].0.key(), key.key()) || text::before(
            key.key(),
            pairs[j].0.key(),
        ));
    }
    if i < pairs.len() {
        if text::before(pairs[i].0.key(), key.key()) {
            text::before_transitive(key.key(), pairs[i].0.key(), key.key());
            lemma_not_before_itself(key.key());
        }
    }
    lemma_rank(pairs, key.key(), i);
    assert forall|a: int, b: int| 0 <= a < b < next.len() implies text::before(
        (#[trigger] next[a]).0.key(),
        (#[trigger] next[b]).0.key(),
    ) by {
        let x = if a < i { a } else { a - 1 };
        let y = if b < i { b } else { b - 1 };
        assert(a != i ==> next[a] == pairs[x]);
        assert(b != i ==> next[b] == pairs[y]);
    }
    let left = map_of(next);
    let right = map_of(pairs).insert(key.key(), value);
    assert forall|k: Seq<u8>| #[trigger] left.contains_key(k) == right.contains_key(k) by {
        if has_key(next, k) {
            let j = index_of(next, k);
            if j != i {
                assert(next[j] == pairs[if j < i { j } else { j - 1 }]);
                pair_is_mapped(pairs, if j < i { j } else { j - 1 });
            }
        }
        if has_key(pairs, k) {
            let j = index_of(pairs, k);
            assert(next[if j < i { j } else { j + 1 }] == pairs[j]);
            pair_is_mapped(next, if j < i { j } else { j + 1 });
        }
        pair_is_mapped(next, i);
    }
    assert forall|k: Seq<u8>| #[trigger] left.contains_key(k) implies left[k] == right[k] by {
        let j = index_of(next, k);
        pair_is_mapped(next, j);
        if j != i {
            let x = if j < i { j } else { j - 1 };
            assert(next[j] == pairs[x]);
            pair_is_mapped(pairs, x);
        }
    }
    assert(left =~= right);
}

proof fn lemma_remove<K: OrderedKey, V>(pairs: Seq<(K, V)>, i: int)
    requires
        ascending(pairs),
        0 <= i < pairs.len(),
    ensures
        ascending(pairs.remove(i)),
        map_of(pairs.remove(i)) == map_of(pairs).remove(pairs[i].0.key()),
{
    let next = pairs.remove(i);
    assert forall|a: int, b: int| 0 <= a < b < next.len() implies text::before(
        (#[trigger] next[a]).0.key(),
        (#[trigger] next[b]).0.key(),
    ) by {
        assert(next[a] == pairs[if a < i { a } else { a + 1 }]);
        assert(next[b] == pairs[if b < i { b } else { b + 1 }]);
    }
    let left = map_of(next);
    let right = map_of(pairs).remove(pairs[i].0.key());
    assert forall|k: Seq<u8>| #[trigger] left.contains_key(k) == right.contains_key(k) by {
        if has_key(next, k) {
            let j = index_of(next, k);
            let x = if j < i { j } else { j + 1 };
            assert(next[j] == pairs[x]);
            pair_is_mapped(pairs, x);
            if k == pairs[i].0.key() {
                lemma_unique(pairs, x, i);
            }
        }
        if right.contains_key(k) {
            let j = index_of(pairs, k);
            pair_is_mapped(pairs, i);
            assert(next[if j < i { j } else { j - 1 }] == pairs[j]);
            pair_is_mapped(next, if j < i { j } else { j - 1 });
        }
    }
    assert forall|k: Seq<u8>| #[trigger] left.contains_key(k) implies left[k] == right[k] by {
        let j = index_of(next, k);
        let x = if j < i { j } else { j + 1 };
        pair_is_mapped(next, j);
        assert(next[j] == pairs[x]);
        pair_is_mapped(pairs, x);
    }
    assert(left =~= right);
}

/// What precedes a key's rank comes before the key, what follows does not.
proof fn lemma_rank_range<K: OrderedKey, V>(pairs: Seq<(K, V)>, key: Seq<u8>)
    ensures
        0 <= rank(pairs, key) <= pairs.len(),
        forall|j: int|
            0 <= j < rank(pairs, key) ==> text::before((#[trigger] pairs[j]).0.key(), key),
        rank(pairs, key) < pairs.len() ==> !text::before(pairs[rank(pairs, key)].0.key(), key),
    decreases pairs.len(),
{
    if pairs.len() > 0 && text::before(pairs[0].0.key(), key) {
        let rest = pairs.drop_first();
        lemma_rank_range(rest, key);
        assert forall|j: int| 0 <= j < rank(pairs, key) implies text::before(
            (#[trigger] pairs[j]).0.key(),
            key,
        ) by {
            if j > 0 {
                assert(rest[j - 1] == pairs[j]);
            }
        }
    }
}

/// Putting a pair in changes what its key maps to and nothing else.
pub proof fn pair_is_put<K: OrderedKey, V>(pairs: Seq<(K, V)>, key: K, value: V)
    requires
        ascending(pairs),
    ensures
        ascending(with_pair(pairs, key, value)),
        map_of(with_pair(pairs, key, value)) == map_of(pairs).insert(key.key(), value),
{
    if has_key(pairs, key.key()) {
        lemma_replace(pairs, index_of(pairs, key.key()), value);
    } else {
        let i = rank(pairs, key.key());
        lemma_rank_range(pairs, key.key());
        if i < pairs.len() {
            assert(pairs[i].0.key() != key.key());
            text::before_total(pairs[i].0.key(), key.key());
        }
        lemma_add(pairs, i, key, value);
    }
}

/// Lists with the same keys have them in the same places.
pub proof fn keys_fix_places<K: OrderedKey, V, W>(a: Seq<(K, V)>, b: Seq<(K, W)>)
    requires
        ascending(a),
        ascending(b),
        forall|key: Seq<u8>| #[trigger] has_key(a, key) == has_key(b, key),
    ensures
        a.len() == b.len(),
        forall|i: int| 0 <= i < a.len() ==> (#[trigger] a[i]).0.key() == b[i].0.key(),
    decreases a.len(),
{
    if a.len() == 0 {
        if b.len() > 0 {
            pair_is_mapped(b, 0);
            assert(!has_key(a, b[0].0.key()));
        }
    } else {
        let m = a.len() - 1;
        let top = a[m].0.key();
        pair_is_mapped(a, m);
        assert(has_key(b, top));
        let j = index_of(b, top);
        let n = b.len() - 1;
        pair_is_mapped(b, n);
        let last = b[n].0.key();
        assert(has_key(a, last));
        let i = index_of(a, last);
        if j < n {
            assert(text::before(b[j].0.key(), b[n].0.key()));
            if i < m {
                assert(text::before(a[i].0.key(), a[m].0.key()));
                text::before_transitive(top, last, top);
            }
            lemma_not_before_itself(top);
        }
        assert(last == top);
        let shorter = a.drop_last();
        let other = b.drop_last();
        assert(ascending(shorter));
        assert(ascending(other));
        assert forall|key: Seq<u8>| #[trigger] has_key(shorter, key) == has_key(other, key) by {
            lemma_not_before_itself(top);
            if has_key(shorter, key) {
                let k = index_of(shorter, key);
                pair_is_mapped(a, k);
                assert(text::before(a[k].0.key(), a[m].0.key()));
                assert(has_key(b, key));
                let l = index_of(b, key);
                assert(l < n);
                assert(other[l].0.key() == key);
            }
            if has_key(other, key) {
                let k = index_of(other, key);
                pair_is_mapped(b, k);
                assert(text::before(b[k].0.key(), b[n].0.key()));
                assert(has_key(a, key));
                let l = index_of(a, key);
                assert(l < m);
                assert(shorter[l].0.key() == key);
            }
        }
        keys_fix_places(shorter, other);
        assert forall|k: int| 0 <= k < a.len() implies (#[trigger] a[k]).0.key()
            == b[k].0.key() by {
            if k < m {
                assert(shorter[k].0.key() == other[k].0.key());
            }
        }
    }
}

/// Putting a pair in brings no key but its own.
pub proof fn keys_are_given<K: OrderedKey, V>(pairs: Seq<(K, V)>, key: K, value: V)
    ensures
        forall|p: int|
            0 <= p < with_pair(pairs, key, value).len() ==> (#[trigger] with_pair(
                pairs,
                key,
                value,
            )[p]).0 == key || exists|q: int|
                0 <= q < pairs.len() && (#[trigger] pairs[q]).0 == with_pair(
                    pairs,
                    key,
                    value,
                )[p].0,
{
    let after = with_pair(pairs, key, value);
    lemma_rank_range(pairs, key.key());
    let at = rank(pairs, key.key());
    assert forall|p: int| 0 <= p < after.len() implies (#[trigger] after[p]).0 == key || exists|
        q: int,
    |
        0 <= q < pairs.len() && (#[trigger] pairs[q]).0 == after[p].0 by {
        if has_key(pairs, key.key()) {
            assert(pairs[p].0 == after[p].0);
        } else if p < at {
            assert(pairs[p].0 == after[p].0);
        } else if p > at {
            assert(pairs[p - 1].0 == after[p].0);
        }
    }
}

/// Taking a pair out unmaps its key and changes nothing else.
pub proof fn pair_is_taken<K: OrderedKey, V>(pairs: Seq<(K, V)>, key: Seq<u8>)
    requires
        ascending(pairs),
        has_key(pairs, key),
    ensures
        ascending(pairs.remove(index_of(pairs, key))),
        map_of(pairs.remove(index_of(pairs, key))) == map_of(pairs).remove(key),
{
    lemma_remove(pairs, index_of(pairs, key));
}

impl<K: OrderedKey, V> SortedMap<K, V> {
    /// The pairs in ascending order.
    pub closed spec fn pairs(&self) -> Seq<(K, V)> {
        self.entries@
    }

    /// What each key maps to.
    pub open spec fn view(&self) -> Map<Seq<u8>, V> {
        map_of(self.pairs())
    }

    #[verifier::type_invariant]
    spec fn sorted(self) -> bool {
        ascending(self.entries@)
    }

    pub fn new() -> (result: Self)
        ensures
            result.pairs() == Seq::<(K, V)>::empty(),
            result@ == Map::<Seq<u8>, V>::empty(),
    {
        let result = SortedMap { entries: Vec::new() };
        assert(result@ =~= Map::<Seq<u8>, V>::empty());
        result
    }

    pub fn len(&self) -> (length: usize)
        ensures
            length == self.pairs().len(),
            ascending(self.pairs()),
    {
        proof {
            use_type_invariant(self);
        }
        self.entries.len()
    }

    pub fn key_at(&self, i: usize) -> (key: &K)
        requires
            i < self.pairs().len(),
        ensures
            *key == self.pairs()[i as int].0,
    {
        &self.entries[i].0
    }

    pub fn value_at(&self, i: usize) -> (value: &V)
        requires
            i < self.pairs().len(),
        ensures
            *value == self.pairs()[i as int].1,
    {
        &self.entries[i].1
    }

    /// Position of `key`.
    pub fn position(&self, key: &K) -> (position: Option<usize>)
        ensures
            ascending(self.pairs()),
            match position {
                Some(i) => {
                    &&& i < self.pairs().len()
                    &&& self.pairs()[i as int].0.key() == key.key()
                    &&& index_of(self.pairs(), key.key()) == i
                    &&& has_key(self.pairs(), key.key())
                    &&& self@.contains_key(key.key())
                    &&& self@[key.key()] == self.pairs()[i as int].1
                },
                None => !has_key(self.pairs(), key.key()) && !self@.contains_key(key.key()),
            },
    {
        proof {
            use_type_invariant(self);
        }
        let mut i: usize = 0;
        while i < self.entries.len()
            invariant
                i <= self.entries@.len(),
                ascending(self.entries@),
                forall|j: int| 0 <= j < i ==> (#[trigger] self.entries@[j]).0.key() != key.key(),
            decreases self.entries@.len() - i,
        {
            if self.entries[i].0.matches_key(key) {
                proof {
                    pair_is_mapped(self.entries@, i as int);
                }
                return Some(i);
            }
            i = i + 1;
        }
        None
    }

    pub fn contains(&self, key: &K) -> (result: bool)
        ensures
            result == self@.contains_key(key.key()),
    {
        self.position(key).is_some()
    }

    pub fn get(&self, key: &K) -> (value: Option<&V>)
        ensures
            match value {
                Some(found) => self@.contains_key(key.key()) && *found == self@[key.key()],
                None => !self@.contains_key(key.key()),
            },
    {
        match self.position(key) {
            Some(i) => Some(&self.entries[i].1),
            None => None,
        }
    }

    /// Maps `key` to `value`.
    pub fn set(&mut self, key: K, value: V)
        ensures
            final(self)@ == old(self)@.insert(key.key(), value),
            final(self).pairs() == with_pair(old(self).pairs(), key, value),
            final(self).pairs().len() == old(self).pairs().len() + if has_key(
                old(self).pairs(),
                key.key(),
            ) {
                0int
            } else {
                1
            },
    {
        let position = self.position(&key);
        let mut entries: Vec<(K, V)> = Vec::new();
        std::mem::swap(&mut entries, &mut self.entries);
        let ghost before = entries@;
        match position {
            Some(i) => {
                proof {
                    lemma_replace(before, i as int, value);
                }
                let (kept, _) = entries.remove(i);
                entries.insert(i, (kept, value));
                assert(entries@ =~= before.update(i as int, (before[i as int].0, value)));
                self.entries = entries;
            },
            None => {
                let mut i: usize = 0;
                while i < entries.len() && entries[i].0.precedes(&key)
                    invariant
                        i <= entries@.len(),
                        entries@ == before,
                        forall|j: int|
                            0 <= j < i ==> text::before(
                                (#[trigger] before[j]).0.key(),
                                key.key(),
                            ),
                    decreases entries@.len() - i,
                {
                    i = i + 1;
                }
                proof {
                    if i < before.len() {
                        assert(before[i as int].0.key() != key.key());
                        text::before_total(before[i as int].0.key(), key.key());
                    }
                    lemma_add(before, i as int, key, value);
                }
                entries.insert(i, (key, value));
                self.entries = entries;
            },
        }
    }

    /// Adds a pair whose key comes after all others.
    pub fn push_last(&mut self, key: K, value: V)
        requires
            forall|i: int|
                0 <= i < old(self).pairs().len() ==> text::before(
                    (#[trigger] old(self).pairs()[i]).0.key(),
                    key.key(),
                ),
        ensures
            final(self).pairs() == old(self).pairs().push((key, value)),
            final(self)@ == old(self)@.insert(key.key(), value),
    {
        proof {
            use_type_invariant(&*self);
        }
        let mut entries: Vec<(K, V)> = Vec::new();
        std::mem::swap(&mut entries, &mut self.entries);
        proof {
            assert(entries@ == old(self).pairs());
            assert forall|j: int| 0 <= j < entries@.len() implies text::before(
                (#[trigger] entries@[j]).0.key(),
                key.key(),
            ) by {
                assert(old(self).pairs()[j] == entries@[j]);
            }
            lemma_add(entries@, entries@.len() as int, key, value);
            assert(entries@.insert(entries@.len() as int, (key, value)) =~= entries@.push(
                (key, value),
            ));
        }
        entries.push((key, value));
        self.entries = entries;
    }

    /// Replaces the value at position `i`.
    pub fn set_at(&mut self, i: usize, value: V)
        requires
            i < old(self).pairs().len(),
        ensures
            final(self).pairs() == old(self).pairs().update(
                i as int,
                (old(self).pairs()[i as int].0, value),
            ),
            final(self)@ == old(self)@.insert(old(self).pairs()[i as int].0.key(), value),
    {
        proof {
            use_type_invariant(&*self);
        }
        let mut entries: Vec<(K, V)> = Vec::new();
        std::mem::swap(&mut entries, &mut self.entries);
        let ghost before = entries@;
        proof {
            lemma_replace(before, i as int, value);
        }
        let (kept, _) = entries.remove(i);
        entries.insert(i, (kept, value));
        assert(entries@ =~= before.update(i as int, (before[i as int].0, value)));
        self.entries = entries;
    }

    /// The pairs in ascending order.
    pub fn into_pairs(self) -> (pairs: Vec<(K, V)>)
        ensures
            pairs@ == self.pairs(),
            ascending(pairs@),
    {
        proof {
            use_type_invariant(&self);
        }
        self.entries
    }

    /// Removes the pair at position `i`.
    pub fn remove_at(&mut self, i: usize) -> (removed: (K, V))
        requires
            i < old(self).pairs().len(),
        ensures
            removed == old(self).pairs()[i as int],
            final(self).pairs() == old(self).pairs().remove(i as int),
            final(self)@ == old(self)@.remove(old(self).pairs()[i as int].0.key()),
    {
        proof {
            use_type_invariant(&*self);
        }
        let mut entries: Vec<(K, V)> = Vec::new();
        std::mem::swap(&mut entries, &mut self.entries);
        proof {
            lemma_remove(entries@, i as int);
        }
        let removed = entries.remove(i);
        self.entries = entries;
        removed
    }
}

impl<K: OrderedKey + Duplicate, V: Duplicate> SortedMap<K, V> {
    /// An exact copy.
    pub fn copied(&self) -> (result: Self)
        ensures
            result.pairs() == self.pairs(),
            result@ == self@,
    {
        proof {
            use_type_invariant(self);
        }
        let mut entries: Vec<(K, V)> = Vec::new();
        let mut i: usize = 0;
        while i < self.entries.len()
            invariant
                i <= self.entries@.len(),
                entries@ == self.entries@.take(i as int),
            decreases self.entries@.len() - i,
        {
            entries.push((self.entries[i].0.duplicate(), self.entries[i].1.duplicate()));
            assert(entries@ =~= self.entries@.take(i + 1));
            i = i + 1;
        }
        assert(entries@ =~= self.entries@);
        SortedMap { entries }
    }
}

} // verus!
