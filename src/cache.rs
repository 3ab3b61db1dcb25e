//! The weighted LRU cache.
use vstd::prelude::*;
use vstd::std_specs::cmp::PartialEqSpec;

use crate::links::{
    covers, lemma_append, lemma_covers_listed, lemma_empty, lemma_linked_facts, lemma_move_last,
    lemma_unlink, link, linked, listed, moved, relabel,
};
use crate::model::{
    distinct_keys, evict, has_key, inserted, lemma_distinct_remove, lemma_position_unique,
    lemma_total_push, lemma_total_remove, position_of, total_weight, value_of, without_key,
};
use crate::weighted::Weighted;

verus! {

/// One stored entry: a key and its value.
pub struct LruCacheItem<K, V> {
    pub key: K,
    pub value: V,
}

impl<K, V> LruCacheItem<K, V> {
    pub fn new(key: K, value: V) -> (r: Self)
        ensures
            r.key == key,
            r.value == value,
    {
        LruCacheItem { key, value }
    }
}

/// Why a cache could not be built or a value not inserted.
#[derive(Debug, PartialEq, Eq, Structural)]
pub enum LruError {
    ExceedsMaximumWeight,
    NonsenseParameters,
}

/// The executable `==` on keys is equality of values.
pub open spec fn key_eq_is_identity<K: PartialEq>() -> bool {
    &&& K::obeys_eq_spec()
    &&& forall|a: K, b: K| (a == b) <==> #[trigger] a.eq_spec(&b)
}

/// A cache bounded by the total weight of its values.
///
/// The entries live in an arena; a doubly linked list over arena indices
/// keeps them in recency order, from the least recently inserted (or
/// re-inserted), the next to be evicted, to the most recent.
pub struct LruWeightedCache<K, V> {
    items: Vec<LruCacheItem<K, V>>,
    prev: Vec<Option<usize>>,
    next: Vec<Option<usize>>,
    oldest: Option<usize>,
    newest: Option<usize>,
    /// The arena indices in recency order, least recent first.
    order: Ghost<Seq<int>>,
    max_item_weight: usize,
    max_total_weight: usize,
    current_weight: usize,
}

/// The pairs held under the order `o`, read from the arena `items`.
spec fn pairs_of<K, V>(o: Seq<int>, items: Seq<LruCacheItem<K, V>>) -> Seq<(K, V)> {
    o.map_values(|j: int| (items[j].key, items[j].value))
}

proof fn lemma_view_after_move<K, V>(
    o: Seq<int>,
    items: Seq<LruCacheItem<K, V>>,
    items2: Seq<LruCacheItem<K, V>>,
    o2: Seq<int>,
    j: int,
    p: int,
)
    requires
        0 <= p < o.len(),
        o[p] == j,
        0 <= j < items.len(),
        forall|r: int| 0 <= r < o.len() ==> 0 <= #[trigger] o[r] < items.len(),
        forall|a: int, b: int|
            0 <= a < o.len() && 0 <= b < o.len() && a != b ==> #[trigger] o[a] != #[trigger] o[b],
        items2 == moved(items, j),
        o2 == if j < items.len() - 1 {
            relabel(o.remove(p), items.len() - 1, j)
        } else {
            o.remove(p)
        },
    ensures
        pairs_of(o2, items2) == pairs_of(o, items).remove(p),
{
    let o1 = o.remove(p);
    let last = items.len() - 1;
    let v = pairs_of(o, items).remove(p);
    assert forall|r: int| 0 <= r < o1.len() implies #[trigger] pairs_of(o2, items2)[r] == v[r] by {
        let r2 = if r < p { r } else { r + 1 };
        assert(o1[r] == o[r2]);
        assert(v[r] == pairs_of(o, items)[r2]);
        assert(o[r2] != j);
        if o1[r] == last {
            assert(o2[r] == j);
        } else {
            assert(o2[r] == o1[r]);
        }
    }
    assert(pairs_of(o2, items2) =~= v);
}

impl<K, V> View for LruWeightedCache<K, V> {
    type V = Seq<(K, V)>;

    /// The stored pairs, least recently inserted first.
    closed spec fn view(&self) -> Seq<(K, V)> {
        pairs_of(self.order@, self.items@)
    }
}

impl<K: core::hash::Hash + Eq, V: Weighted> LruWeightedCache<K, V> {
    /// The heaviest value the cache accepts.
    pub closed spec fn max_item(&self) -> nat {
        self.max_item_weight as nat
    }

    /// The budget for the total weight of the cache.
    pub closed spec fn max_total(&self) -> nat {
        self.max_total_weight as nat
    }

    /// The invariant that every operation keeps.
    pub closed spec fn wf(&self) -> bool {
        &&& self.max_item_weight >= 1
        &&& self.max_total_weight >= self.max_item_weight
        &&& self.current_weight as nat == total_weight(self@)
        &&& self.current_weight <= self.max_total_weight
        &&& distinct_keys(self@)
        &&& linked(self.order@, self.prev@, self.next@, self.oldest, self.newest)
        &&& covers(self.order@, self.items@.len() as int)
        &&& self.order@.len() == self.items@.len()
        &&& self.prev@.len() == self.items@.len()
    }

    /// In every state the operations reach, the keys are distinct, each
    /// stored pair is what a lookup of its key returns, and the total weight
    /// of those values stays within the budget.
    pub proof fn lemma_reachable_state(&self)
        requires
            self.wf(),
        ensures
            distinct_keys(self@),
            total_weight(self@) <= self.max_total(),
            1 <= self.max_item() <= self.max_total(),
            forall|i: int|
                0 <= i < self@.len() ==> value_of(self@, #[trigger] self@[i].0) == Some(self@[i].1),
    {
        assert forall|i: int| 0 <= i < self@.len() implies value_of(
            self@,
            #[trigger] self@[i].0,
        ) == Some(self@[i].1) by {
            lemma_position_unique(self@, i);
        }
    }

    /// Build a cache holding up to `max_count` values of the largest weight
    /// `max_item_weight`; its budget is the product of the two.
    pub fn new(max_count: usize, max_item_weight: usize) -> (r: Result<Self, LruError>)
        requires
            max_count * max_item_weight <= usize::MAX,
        ensures
            match r {
                Ok(c) => {
                    &&& max_count != 0 && max_item_weight != 0
                    &&& c.wf()
                    &&& c@ == Seq::<(K, V)>::empty()
                    &&& c.max_item() == max_item_weight
                    &&& c.max_total() == max_count * max_item_weight
                },
                Err(e) => (max_count == 0 || max_item_weight == 0) && e
                    == LruError::NonsenseParameters,
            },
    {
        if max_count == 0 || max_item_weight == 0 {
            return Err(LruError::NonsenseParameters);
        }
        let max_total_weight = max_item_weight * max_count;
        assert(max_total_weight >= max_item_weight) by (nonlinear_arith)
            requires
                max_total_weight == max_item_weight * max_count,
                max_count >= 1,
        ;
        let c = LruWeightedCache {
            items: Vec::new(),
            prev: Vec::new(),
            next: Vec::new(),
            oldest: None,
            newest: None,
            order: Ghost(Seq::empty()),
            max_item_weight,
            max_total_weight,
            current_weight: 0,
        };
        proof {
            lemma_empty();
        }
        assert(c.prev@ =~= Seq::<Option<usize>>::empty());
        assert(c.next@ =~= Seq::<Option<usize>>::empty());
        assert(c@ =~= Seq::<(K, V)>::empty());
        Ok(c)
    }

    /// The arena index of the entry for `key`, if there is one, found by
    /// walking the list from the oldest entry.
    fn find_index(&self, key: &K) -> (r: Option<usize>)
        requires
            self.wf(),
            key_eq_is_identity::<K>(),
        ensures
            match r {
                Some(j) => {
                    &&& has_key(self@, *key)
                    &&& self.order@[position_of(self@, *key)] == j
                    &&& j < self.items@.len()
                },
                None => !has_key(self@, *key),
            },
    {
        proof {
            lemma_linked_facts(self.order@, self.prev@, self.next@, self.oldest, self.newest, 0);
        }
        let mut cur = self.oldest;
        let ghost mut p: int = 0;
        while cur.is_some()
            invariant
                self.wf(),
                key_eq_is_identity::<K>(),
                0 <= p <= self@.len(),
                cur == link(self.order@, p),
                forall|q: int| 0 <= q < p ==> #[trigger] self@[q].0 != *key,
            decreases self@.len() - p,
        {
            proof {
                lemma_linked_facts(self.order@, self.prev@, self.next@, self.oldest, self.newest, p);
            }
            let j = cur.unwrap();
            assert(self.order@[p] == j as int);
            assert(self@[p] == (self.items@[j as int].key, self.items@[j as int].value));
            if self.items[j].key.eq(key) {
                proof {
                    lemma_position_unique(self@, p);
                }
                return Some(j);
            }
            cur = self.next[j];
            proof {
                p = p + 1;
            }
        }
        None
    }

    /// Splice the entry at arena index `j`, position `p` of the order, out
    /// of the list. The arena is left as it is.
    fn splice_out(&mut self, j: usize, Ghost(p): Ghost<int>)
        requires
            linked(old(self).order@, old(self).prev@, old(self).next@, old(self).oldest, old(self).newest),
            0 <= p < old(self).order@.len(),
            old(self).order@[p] == j,
        ensures
            linked(
                old(self).order@.remove(p),
                final(self).prev@,
                final(self).next@,
                final(self).oldest,
                final(self).newest,
            ),
            !listed(old(self).order@.remove(p), j as int),
            forall|x: int|
                x != j && listed(old(self).order@, x) ==> #[trigger] listed(
                    old(self).order@.remove(p),
                    x,
                ),
            final(self).items == old(self).items,
            final(self).order == old(self).order,
            final(self).prev@.len() == old(self).prev@.len(),
            final(self).max_item_weight == old(self).max_item_weight,
            final(self).max_total_weight == old(self).max_total_weight,
            final(self).current_weight == old(self).current_weight,
    {
        proof {
            lemma_unlink(self.order@, self.prev@, self.next@, self.oldest, self.newest, p);
            lemma_linked_facts(self.order@, self.prev@, self.next@, self.oldest, self.newest, p);
        }
        let pv = self.prev[j];
        let nx = self.next[j];
        match pv {
            Some(a) => {
                self.next[a] = nx;
            },
            None => {
                self.oldest = nx;
            },
        }
        match nx {
            Some(b) => {
                self.prev[b] = pv;
            },
            None => {
                self.newest = pv;
            },
        }
    }

    /// Take the item out of the free arena slot `j`, move the last slot into
    /// it and point that entry's neighbours at `j`.
    fn fill_slot(&mut self, j: usize, Ghost(o1): Ghost<Seq<int>>) -> (r: LruCacheItem<K, V>)
        requires
            linked(o1, old(self).prev@, old(self).next@, old(self).oldest, old(self).newest),
            j < old(self).items@.len(),
            old(self).prev@.len() == old(self).items@.len(),
            !listed(o1, j as int),
            o1.len() == old(self).items@.len() - 1,
            forall|x: int| 0 <= x < old(self).items@.len() && x != j ==> #[trigger] listed(o1, x),
        ensures
            r == old(self).items@[j as int],
            final(self).items@ == moved(old(self).items@, j as int),
            final(self).order@ == if j < old(self).items@.len() - 1 {
                relabel(o1, old(self).items@.len() - 1, j as int)
            } else {
                o1
            },
            linked(final(self).order@, final(self).prev@, final(self).next@, final(self).oldest, final(self).newest),
            covers(final(self).order@, final(self).items@.len() as int),
            final(self).order@.len() == final(self).items@.len(),
            final(self).prev@.len() == final(self).items@.len(),
            final(self).max_item_weight == old(self).max_item_weight,
            final(self).max_total_weight == old(self).max_total_weight,
            final(self).current_weight == old(self).current_weight,
    {
        proof {
            lemma_move_last(o1, self.prev@, self.next@, self.oldest, self.newest, j as int);
            lemma_linked_facts(o1, self.prev@, self.next@, self.oldest, self.newest, 0);
        }
        let ghost prev0 = self.prev@;
        let ghost next0 = self.next@;
        let last = self.items.len() - 1;
        let item = self.items.swap_remove(j);
        self.prev.swap_remove(j);
        self.next.swap_remove(j);
        if j < last {
            let mp = self.prev[j];
            let mn = self.next[j];
            match mp {
                Some(a) => {
                    self.next[a] = Some(j);
                },
                None => {
                    self.oldest = Some(j);
                },
            }
            match mn {
                Some(b) => {
                    self.prev[b] = Some(j);
                },
                None => {
                    self.newest = Some(j);
                },
            }
            self.order = Ghost(relabel(o1, last as int, j as int));
        } else {
            assert(self.prev@ =~= prev0.drop_last());
            assert(self.next@ =~= next0.drop_last());
            self.order = Ghost(o1);
        }
        item
    }

    /// Take the entry at arena index `j`, position `p` of the recency order,
    /// out of the cache.
    fn detach(&mut self, j: usize, Ghost(p): Ghost<int>) -> (r: LruCacheItem<K, V>)
        requires
            old(self).wf(),
            0 <= p < old(self)@.len(),
            old(self).order@[p] == j,
        ensures
            final(self).wf(),
            final(self)@ == old(self)@.remove(p),
            (r.key, r.value) == old(self)@[p],
            !has_key(final(self)@, r.key),
            final(self).max_item() == old(self).max_item(),
            final(self).max_total() == old(self).max_total(),
            forall|k: K| has_key(final(self)@, k) ==> has_key(old(self)@, k),
    {
        let ghost o = self.order@;
        let ghost items0 = self.items@;
        proof {
            lemma_linked_facts(o, self.prev@, self.next@, self.oldest, self.newest, p);
            lemma_total_remove(self@, p);
            lemma_distinct_remove(self@, p);
        }
        self.splice_out(j, Ghost(p));
        let ghost o1 = o.remove(p);
        assert forall|x: int| 0 <= x < items0.len() && x != j implies #[trigger] listed(o1, x) by {
            lemma_covers_listed(o, items0.len() as int, x);
        }
        let item = self.fill_slot(j, Ghost(o1));
        proof {
            lemma_view_after_move(o, items0, self.items@, self.order@, j as int, p);
        }
        let w = item.value.weight();
        self.current_weight = self.current_weight - w;
        item
    }

    /// Put `item` in the most recent place.
    fn attach(&mut self, item: LruCacheItem<K, V>)
        requires
            old(self).wf(),
            old(self)@.len() < usize::MAX,
            !has_key(old(self)@, item.key),
            total_weight(old(self)@) + item.value.weight_spec() <= old(self).max_total(),
        ensures
            final(self).wf(),
            final(self)@ == old(self)@.push((item.key, item.value)),
            final(self).max_item() == old(self).max_item(),
            final(self).max_total() == old(self).max_total(),
    {
        let ghost pair = (item.key, item.value);
        let ghost o = self.order@;
        proof {
            lemma_linked_facts(o, self.prev@, self.next@, self.oldest, self.newest, o.len() - 1);
            lemma_total_push(self@, pair);
            lemma_append(o, self.prev@, self.next@, self.oldest, self.newest);
        }
        let w = item.value.weight();
        self.current_weight = self.current_weight + w;
        let n = self.items.len();
        let nw = self.newest;
        match nw {
            Some(t) => {
                self.next[t] = Some(n);
            },
            None => {
                assert(o.len() == 0);
                self.oldest = Some(n);
            },
        }
        self.prev.push(nw);
        self.next.push(None);
        self.newest = Some(n);
        self.items.push(item);
        self.order = Ghost(o.push(n as int));
        assert forall|r: int| 0 <= r < self@.len() implies #[trigger] self@[r] == old(self)@.push(
            pair,
        )[r] by {
            if r < o.len() {
                assert(self.order@[r] == o[r]);
                assert(o[r] < n);
            }
        }
        assert(self@ =~= old(self)@.push(pair));
        assert forall|a: int, b: int|
            0 <= a < self@.len() && 0 <= b < self@.len() && a != b implies #[trigger] self@[a].0
            != #[trigger] self@[b].0 by {
            if a == old(self)@.len() as int {
                assert(old(self)@[b] == self@[b]);
            } else if b == old(self)@.len() as int {
                assert(old(self)@[a] == self@[a]);
            } else {
                assert(old(self)@[a] == self@[a] && old(self)@[b] == self@[b]);
            }
        }
    }

    /// Drop the least recently inserted entries, oldest first, until a value
    /// of weight `w` fits within the budget.
    fn eject(&mut self, w: usize)
        requires
            old(self).wf(),
            w <= old(self).max_item(),
        ensures
            final(self).wf(),
            final(self)@ == evict(old(self)@, w as nat, old(self).max_total()),
            total_weight(final(self)@) + w <= final(self).max_total(),
            final(self).max_item() == old(self).max_item(),
            final(self).max_total() == old(self).max_total(),
            forall|k: K| has_key(final(self)@, k) ==> has_key(old(self)@, k),
            final(self)@.len() <= old(self)@.len(),
    {
        while w > self.max_total_weight - self.current_weight
            invariant
                self.wf(),
                w <= self.max_item(),
                evict(self@, w as nat, self.max_total()) == evict(
                    old(self)@,
                    w as nat,
                    old(self).max_total(),
                ),
                self.max_item() == old(self).max_item(),
                self.max_total() == old(self).max_total(),
                forall|k: K| has_key(self@, k) ==> has_key(old(self)@, k),
                self@.len() <= old(self)@.len(),
            decreases self@.len(),
        {
            assert(self@.len() > 0);
            assert(self@.remove(0) =~= self@.drop_first());
            proof {
                lemma_linked_facts(self.order@, self.prev@, self.next@, self.oldest, self.newest, 0);
            }
            let j = self.oldest.unwrap();
            let _evicted = self.detach(j, Ghost(0));
        }
    }

    /// Whether `value` is light enough to be inserted.
    pub fn will_accept(&mut self, value: &V) -> (r: bool)
        ensures
            r == (value.weight_spec() <= old(self).max_item()),
            *final(self) == *old(self),
    {
        value.weight() <= self.max_item_weight
    }
    /// Put `value` under `key`, evicting the least recently inserted entries
    /// until the total weight stays within the budget. A value heavier than
    /// the largest accepted weight is refused and the cache left unchanged.
    /// An existing entry for `key` is replaced and becomes the most recent.
    pub fn insert(&mut self, key: K, value: V) -> (r: Result<(), LruError>)
        requires
            old(self).wf(),
            old(self)@.len() < usize::MAX,
            key_eq_is_identity::<K>(),
        ensures
            final(self).wf(),
            final(self).max_item() == old(self).max_item(),
            final(self).max_total() == old(self).max_total(),
            value.weight_spec() > old(self).max_item() ==> {
                &&& r == Err::<(), LruError>(LruError::ExceedsMaximumWeight)
                &&& final(self)@ == old(self)@
            },
            value.weight_spec() <= old(self).max_item() ==> {
                &&& r == Ok::<(), LruError>(())
                &&& final(self)@ == inserted(old(self)@, key, value, old(self).max_total())
            },
    {
        if !self.will_accept(&value) {
            return Err(LruError::ExceedsMaximumWeight);
        }
        let w = value.weight();
        let found = self.find_index(&key);
        match found {
            Some(j) => {
                let mut item = self.detach(j, Ghost(position_of(self@, key)));
                assert(self@ == without_key(old(self)@, key));
                self.eject(w);
                item.value = value;
                self.attach(item);
            },
            None => {
                assert(without_key(old(self)@, key) == old(self)@);
                self.eject(w);
                self.attach(LruCacheItem::new(key, value));
            },
        }
        Ok(())
    }

    /// The value stored under `key`. Reading does not change the recency
    /// order.
    pub fn get(&mut self, key: &K) -> (r: Option<&V>)
        requires
            old(self).wf(),
            key_eq_is_identity::<K>(),
        ensures
            *final(self) == *old(self),
            match r {
                Some(v) => value_of(old(self)@, *key) == Some(*v),
                None => value_of(old(self)@, *key) == None::<V>,
            },
    {
        match self.find_index(key) {
            Some(j) => {
                proof {
                    lemma_position_unique(self@, position_of(self@, *key));
                }
                Some(&self.items[j].value)
            },
            None => None,
        }
    }

    /// Take the entry for `key` out of the cache and hand back its value.
    pub fn remove(&mut self, key: &K) -> (r: Option<V>)
        requires
            old(self).wf(),
            key_eq_is_identity::<K>(),
        ensures
            final(self).wf(),
            final(self).max_item() == old(self).max_item(),
            final(self).max_total() == old(self).max_total(),
            r == value_of(old(self)@, *key),
            final(self)@ == without_key(old(self)@, *key),
    {
        match self.find_index(key) {
            Some(j) => {
                let item = self.detach(j, Ghost(position_of(self@, *key)));
                Some(item.value)
            },
            None => None,
        }
    }

    /// Number of entries in the cache.
    pub fn len(&self) -> (r: usize)
        requires
            self.wf(),
        ensures
            r == self@.len(),
    {
        self.items.len()
    }

    /// Whether the cache holds no entry.
    pub fn is_empty(&self) -> (r: bool)
        requires
            self.wf(),
        ensures
            r == (self@.len() == 0),
    {
        self.items.len() == 0
    }

    /// Current weight of the cache: the sum of the weights of its values,
    /// never above the budget.
    pub fn weight(&self) -> (r: usize)
        requires
            self.wf(),
        ensures
            r == total_weight(self@),
            r <= self.max_total(),
    {
        self.current_weight
    }

    /// Whether an entry for `key` is stored.
    pub fn contains_key(&self, key: &K) -> (r: bool)
        requires
            self.wf(),
            key_eq_is_identity::<K>(),
        ensures
            r == has_key(self@, *key),
    {
        self.find_index(key).is_some()
    }
}

} // verus!
