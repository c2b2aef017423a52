use vstd::prelude::*;
use crate::buckets::{
    buckets_view, buckets_wf, distinct_keys, held_from, in_order, lemma_bucket_changed,
    lemma_bucket_map, lemma_contents_listed, lemma_pair_pushed, lemma_pairs_from_frame,
    lemma_push, lemma_segment, lemma_set_value, lemma_swap_remove, lemma_value_replaced,
    lemma_view_at, lists_contents, pairs_from, bucket_map,
};
use crate::key::{MapKey, slot_of, slot_for, same_key};
use crate::laws::{inserted, lemma_len_counts_distinct_keys};

verus! {

/// The number of buckets after the growth check that precedes an insertion:
/// unchanged while the table has buckets and at most three quarters as many
/// items; otherwise `1` for an empty table and twice the item count else.
pub open spec fn grown_bucket_count(n: nat, items: nat) -> nat {
    if n == 0 || items > 3 * n / 4 {
        if items == 0 {
            1
        } else {
            2 * items
        }
    } else {
        n
    }
}

/// A hash map with separate chaining. Keys are hashed with `DefaultHasher`
/// over their bytes; the table grows when the load passes three quarters.
pub struct HashMap<K, V> {
    buckets: Vec<Vec<(K, V)>>,
    num_items: usize,
}

impl<K: MapKey, V> View for HashMap<K, V> {
    type V = Map<Seq<u8>, V>;

    closed spec fn view(&self) -> Map<Seq<u8>, V> {
        buckets_view(self.buckets@)
    }
}

/// A located pair of the map, borrowed for in-place change of its value.
/// The key must be left as it is: the map's contracts hold only then.
pub struct OccupiedEntry<'a, K, V> {
    pub entry: &'a mut (K, V),
}

/// An absent key together with the bucket it will go to.
pub struct VacantEntry<'a, K, V> {
    pub key: K,
    pub map: &'a mut HashMap<K, V>,
    pub bucket_index: usize,
}

/// The result of looking up a key for update or insertion.
pub enum Entry<'a, K, V> {
    Occupied(OccupiedEntry<'a, K, V>),
    Vacant(VacantEntry<'a, K, V>),
}

impl<'a, K: MapKey, V> VacantEntry<'a, K, V> {
    /// Appends the pair to the recorded bucket and hands out its value.
    pub fn insert(self, val: V) -> (r: &'a mut V)
        requires
            self.map.vacant_at(self.key.key_bytes(), self.bucket_index as int),
        ensures
            *r == val,
            final(self.map).wf(),
            final(self.map)@ == old(self.map)@.insert(self.key.key_bytes(), *final(r)),
    {
        let ghost bs0 = self.map.buckets@;
        let ghost b = self.key.key_bytes();
        let idx = self.bucket_index;
        let map = self.map;
        map.buckets[idx].push((self.key, val));
        map.num_items = map.num_items + 1;
        let at = map.buckets[idx].len() - 1;
        let ghost bs1 = map.buckets@;
        proof {
            assert(bs1 == bs0.update(idx as int, bs1[idx as int]));
            assert forall|bs: Seq<Vec<(K, V)>>|
                #![trigger buckets_wf(bs)]
                #![trigger buckets_view(bs)]
                bs.len() == bs1.len() && (forall|i: int| 0 <= i < bs.len() && i != idx ==> bs[i] == bs1[i])
                    && bs[idx as int]@ == bs1[idx as int]@.update(at as int, (bs1[idx as int]@[at as int].0, bs[idx as int]@[at as int].1))
                implies buckets_wf(bs) && buckets_view(bs) == buckets_view(bs0).insert(b, bs[idx as int]@[at as int].1) by {
                assert(bs[idx as int]@ =~= bs0[idx as int]@.push(bs[idx as int]@[at as int]));
                assert forall|i: int| 0 <= i < bs.len() && i != idx implies bs[i] == bs0[i] by {
                    assert(bs1[i] == bs0[i]);
                }
                lemma_pair_pushed(bs0, idx as int, bs[idx as int]@[at as int], bs);
            }
        }
        &mut map.buckets[idx][at].1
    }
}

impl<'a, K: MapKey, V> Entry<'a, K, V> {
    /// The value of the pair, inserting `default` first if the key is absent.
    pub fn or_insert(self, default: V) -> (r: &'a mut V)
        requires
            match self {
                Entry::Occupied(_) => true,
                Entry::Vacant(e) => e.map.vacant_at(e.key.key_bytes(), e.bucket_index as int),
            },
        ensures
            match self {
                Entry::Occupied(e) => *r == e.entry.1 && *final(e.entry) == (e.entry.0, *final(r)),
                Entry::Vacant(e) => *r == default && final(e.map).wf() && final(e.map)@
                    == e.map@.insert(e.key.key_bytes(), *final(r)),
            },
    {
        match self {
            Entry::Occupied(e) => &mut e.entry.1,
            Entry::Vacant(e) => e.insert(default),
        }
    }

    /// The value of the pair, inserting what `default` makes if the key is
    /// absent; `default` is called only then.
    pub fn or_insert_with<F: FnOnce() -> V>(self, default: F) -> (r: &'a mut V)
        requires
            match self {
                Entry::Occupied(_) => true,
                Entry::Vacant(e) => e.map.vacant_at(e.key.key_bytes(), e.bucket_index as int)
                    && default.requires(()),
            },
        ensures
            match self {
                Entry::Occupied(e) => *r == e.entry.1 && *final(e.entry) == (e.entry.0, *final(r)),
                Entry::Vacant(e) => default.ensures((), *r) && final(e.map).wf() && final(e.map)@
                    == e.map@.insert(e.key.key_bytes(), *final(r)),
            },
    {
        match self {
            Entry::Occupied(e) => &mut e.entry.1,
            Entry::Vacant(e) => e.insert(default()),
        }
    }
}

/// A borrowing cursor over the pairs of a map: bucket by bucket, each bucket
/// in storage order.
pub struct RefIter<'a, K, V> {
    map: &'a HashMap<K, V>,
    bucket_index: usize,
    at: usize,
}

impl<'a, K: MapKey, V> RefIter<'a, K, V> {
    /// The pairs still to come, in the order they come.
    pub closed spec fn remaining(&self) -> Seq<(K, V)> {
        let bs = self.map.buckets@;
        if self.bucket_index < bs.len() {
            bs[self.bucket_index as int]@.skip(self.at as int) + pairs_from(bs, self.bucket_index + 1, false)
        } else {
            Seq::empty()
        }
    }

    pub closed spec fn wf(&self) -> bool {
        self.bucket_index < self.map.buckets@.len() ==> self.at <= self.map.buckets@[self.bucket_index as int]@.len()
    }

    /// The next pair, or `None` once every pair has come.
    pub fn next(&mut self) -> (r: Option<(&'a K, &'a V)>)
        requires
            old(self).wf(),
        ensures
            final(self).wf(),
            match r {
                Some(p) => old(self).remaining().len() > 0 && (*p.0, *p.1) == old(self).remaining()[0]
                    && final(self).remaining() == old(self).remaining().drop_first(),
                None => old(self).remaining().len() == 0 && final(self).remaining().len() == 0,
            },
    {
        let ghost start = self.remaining();
        assert(old(self).remaining() == start);
        let map: &'a HashMap<K, V> = self.map;
        while self.bucket_index < map.buckets.len()
            invariant
                self.map == map,
                self.wf(),
                self.remaining() == start,
                old(self).remaining() == start,
            decreases map.buckets@.len() - self.bucket_index,
        {
            let bucket: &'a Vec<(K, V)> = &map.buckets[self.bucket_index];
            if self.at < bucket.len() {
                let p: &'a (K, V) = &bucket[self.at];
                proof {
                    let bs = map.buckets@;
                    let rest = pairs_from(bs, self.bucket_index + 1, false);
                    assert(bucket@.skip(self.at as int)[0] == *p);
                    assert((bucket@.skip(self.at as int) + rest).drop_first() =~= bucket@.skip(self.at + 1) + rest);
                }
                self.at = self.at + 1;
                assert(start.len() > 0);
                assert(start[0] == *p);
                assert((*p).0 == p.0);
                assert(self.remaining() =~= start.drop_first());
                return Some((&p.0, &p.1));
            }
            proof {
                let bs = map.buckets@;
                let i = self.bucket_index as int;
                assert(bucket@.skip(self.at as int) =~= Seq::<(K, V)>::empty());
                if i + 1 < bs.len() {
                    assert(bs[i + 1]@.skip(0) =~= bs[i + 1]@);
                    assert(pairs_from(bs, i + 1, false) == bs[i + 1]@ + pairs_from(bs, i + 2, false));
                } else {
                    assert(pairs_from(bs, i + 1, false) == Seq::<(K, V)>::empty());
                }
                assert(self.remaining() =~= start);
            }
            self.bucket_index = self.bucket_index + 1;
            self.at = 0;
            proof {
                let bs = map.buckets@;
                let i = self.bucket_index as int;
                if i < bs.len() {
                    assert(bs[i]@.skip(0) =~= bs[i]@);
                    assert(pairs_from(bs, i, false) == bs[i]@ + pairs_from(bs, i + 1, false));
                }
            }
        }
        None
    }
}

/// An owning cursor that empties a map bucket by bucket, taking pairs from
/// the back of each bucket.
pub struct ItemIter<K, V> {
    map: HashMap<K, V>,
    bucket_index: usize,
}

impl<K: MapKey, V> ItemIter<K, V> {
    /// The pairs still to come, in the order they come.
    pub closed spec fn remaining(&self) -> Seq<(K, V)> {
        pairs_from(self.map.buckets@, self.bucket_index as int, true)
    }

    /// The next pair, or `None` once the map is empty.
    pub fn next(&mut self) -> (r: Option<(K, V)>)
        ensures
            match r {
                Some(p) => old(self).remaining().len() > 0 && p == old(self).remaining()[0]
                    && final(self).remaining() == old(self).remaining().drop_first(),
                None => old(self).remaining().len() == 0 && final(self).remaining().len() == 0,
            },
    {
        let ghost start = self.remaining();
        while self.bucket_index < self.map.buckets.len()
            invariant
                self.remaining() == start,
                old(self).remaining() == start,
            decreases self.map.buckets@.len() - self.bucket_index,
        {
            let ghost bs = self.map.buckets@;
            let ghost i = self.bucket_index as int;
            proof {
                lemma_segment(bs[i]@, true);
            }
            let popped = self.map.buckets[self.bucket_index].pop();
            match popped {
                Some(x) => {
                    proof {
                        let nb = self.map.buckets@;
                        let b = bs[i]@;
                        let rest = pairs_from(bs, i + 1, true);
                        assert(nb =~= bs.update(i, nb[i]));
                        assert(nb[i]@ =~= b.drop_last());
                        lemma_segment(b.drop_last(), true);
                        assert(in_order(b, true) =~= seq![x] + in_order(b.drop_last(), true));
                        assert forall|k: int| i + 1 <= k < bs.len() implies #[trigger] nb[k] == bs[k] by {}
                        lemma_pairs_from_frame(bs, nb, i + 1, true);
                        assert(start =~= seq![x] + (in_order(b.drop_last(), true) + rest));
                        assert(self.remaining() =~= start.drop_first());
                    }
                    return Some(x);
                },
                None => {
                    proof {
                        let nb = self.map.buckets@;
                        assert(nb =~= bs.update(i, nb[i]));
                        assert(in_order(bs[i]@, true) =~= Seq::<(K, V)>::empty());
                        assert(pairs_from(bs, i, true) =~= pairs_from(bs, i + 1, true));
                        assert forall|k: int| i + 1 <= k < bs.len() implies #[trigger] nb[k] == bs[k] by {}
                        lemma_pairs_from_frame(bs, nb, i + 1, true);
                    }
                    self.bucket_index = self.bucket_index + 1;
                },
            }
        }
        None
    }
}

/// Scans one bucket for a key.
fn position_in<K: MapKey, V, Q: MapKey + ?Sized>(bucket: &Vec<(K, V)>, key: &Q) -> (r: Option<
    usize,
>)
    ensures
        match r {
            Some(j) => j < bucket@.len() && bucket@[j as int].0.key_bytes() == key.key_bytes(),
            None => forall|j: int|
                0 <= j < bucket@.len() ==> #[trigger] bucket@[j].0.key_bytes()
                    != key.key_bytes(),
        },
{
    let mut j: usize = 0;
    while j < bucket.len()
        invariant
            j <= bucket@.len(),
            forall|i: int| 0 <= i < j ==> #[trigger] bucket@[i].0.key_bytes() != key.key_bytes(),
        decreases bucket@.len() - j,
    {
        if same_key(&bucket[j].0, key) {
            return Some(j);
        }
        j = j + 1;
    }
    None
}

impl<'a, K: MapKey, V> HashMap<K, V> {
    /// The table's invariant: the item count is the number of keys, and
    /// every pair is in the bucket its key hashes to.
    pub closed spec fn wf(&self) -> bool {
        &&& buckets_wf(self.buckets@)
        &&& self@.dom().finite()
        &&& self.num_items == self@.len()
    }

    /// The number of buckets.
    pub closed spec fn bucket_count(&self) -> nat {
        self.buckets@.len()
    }

    /// An empty map with no buckets.
    pub fn new() -> (r: Self)
        ensures
            r.wf(),
            r@ == Map::<Seq<u8>, V>::empty(),
            r.bucket_count() == 0,
    {
        let r = HashMap { buckets: Vec::new(), num_items: 0 };
        assert(r@ =~= Map::<Seq<u8>, V>::empty());
        r
    }

    pub fn is_empty(&self) -> (r: bool)
        requires
            self.wf(),
        ensures
            r == (self@.len() == 0),
    {
        self.num_items == 0
    }

    pub fn len(&self) -> (r: usize)
        requires
            self.wf(),
        ensures
            r == self@.len(),
    {
        self.num_items
    }

    /// The bucket for `key`, or `None` while the table has no buckets.
    fn get_bucket_index<Q: MapKey + ?Sized>(&mut self, key: &Q) -> (r: Option<usize>)
        ensures
            *final(self) == *old(self),
            old(self).buckets@.len() == 0 ==> r.is_none(),
            old(self).buckets@.len() > 0 ==> r.is_some() && r.unwrap() as int == slot_of(
                key.key_bytes(),
                old(self).buckets@.len(),
            ) && r.unwrap() < old(self).buckets@.len(),
    {
        if self.buckets.len() == 0 {
            return None;
        }
        Some(slot_for(key.as_key_bytes(), self.buckets.len()))
    }

    /// The value stored under `key`, if any.
    pub fn get<Q: MapKey + ?Sized>(&mut self, key: &Q) -> (r: Option<&V>)
        requires
            old(self).wf(),
        ensures
            *final(self) == *old(self),
            match r {
                Some(v) => old(self)@.contains_key(key.key_bytes()) && *v == old(self)@[key.key_bytes()],
                None => !old(self)@.contains_key(key.key_bytes()),
            },
    {
        let idx = self.get_bucket_index(key)?;
        proof {
            lemma_view_at(self.buckets@, key.key_bytes());
        }
        match position_in(&self.buckets[idx], key) {
            Some(j) => {
                assert(self.buckets@[idx as int]@[j as int].0.key_bytes() == key.key_bytes());
                Some(&self.buckets[idx][j].1)
            },
            None => None,
        }
    }

    /// Whether a value is stored under `key`.
    pub fn contains_key<Q: MapKey + ?Sized>(&mut self, key: &Q) -> (r: bool)
        requires
            old(self).wf(),
        ensures
            *final(self) == *old(self),
            r == old(self)@.contains_key(key.key_bytes()),
    {
        self.get(key).is_some()
    }

    /// Takes the pair of `key` out of the map and returns its value. Removal
    /// moves the last pair of the bucket into the freed place, so the order
    /// within a bucket is not kept.
    pub fn remove<Q: MapKey + ?Sized>(&mut self, key: &Q) -> (r: Option<V>)
        requires
            old(self).wf(),
        ensures
            final(self).wf(),
            final(self)@ == old(self)@.remove(key.key_bytes()),
            final(self).bucket_count() == old(self).bucket_count(),
            match r {
                Some(v) => old(self)@.contains_key(key.key_bytes()) && v == old(self)@[key.key_bytes()],
                None => !old(self)@.contains_key(key.key_bytes()),
            },
    {
        let ghost b = key.key_bytes();
        let ghost old_bs = self.buckets@;
        let idx = match self.get_bucket_index(key) {
            Some(i) => i,
            None => {
                assert(self@ =~= old(self)@.remove(b));
                return None;
            },
        };
        proof {
            lemma_view_at(self.buckets@, b);
        }
        let j = match position_in(&self.buckets[idx], key) {
            Some(j) => j,
            None => {
                assert(self@ =~= old(self)@.remove(b));
                return None;
            },
        };
        let ghost s = self.buckets@[idx as int]@;
        proof {
            assert(distinct_keys(s));
            lemma_swap_remove(s, j as int);
        }
        let pair = self.buckets[idx].swap_remove(j);
        self.num_items = self.num_items - 1;
        proof {
            let bs = self.buckets@;
            assert(bs =~= old_bs.update(idx as int, bs[idx as int]));
            assert forall|i: int, k: int|
                0 <= i < bs.len() && 0 <= k < bs[i]@.len() implies slot_of(
                #[trigger] bs[i]@[k].0.key_bytes(),
                bs.len() as nat,
            ) == i by {
                if i == idx {
                    let m = if k == j { s.len() - 1 } else { k };
                    assert(bs[i]@[k] == s[m]);
                } else {
                    assert(bs[i] == old_bs[i]);
                }
            }
            assert forall|i: int| 0 <= i < bs.len() implies distinct_keys(#[trigger] bs[i]@) by {
                if i != idx {
                    assert(bs[i] == old_bs[i]);
                }
            }
            assert(self@ =~= old(self)@.remove(b));
        }
        Some(pair.1)
    }



    /// The map is well formed, has buckets, lacks the key `b`, whose slot is
    /// `idx`, and has room to count one more item.
    pub closed spec fn vacant_at(&self, b: Seq<u8>, idx: int) -> bool {
        &&& self.wf()
        &&& self.buckets@.len() > 0
        &&& idx == slot_of(b, self.buckets@.len())
        &&& !self@.contains_key(b)
        &&& self.num_items < usize::MAX
    }

    /// Looks `key` up for update or insertion, growing the table first as
    /// `insert` does, under the same bound on the item count.
    pub fn entry(&'a mut self, key: K) -> (r: Entry<'a, K, V>)
        requires
            old(self).wf(),
            old(self)@.len() <= usize::MAX / 2,
        ensures
            match r {
                Entry::Occupied(e) => old(self)@.contains_key(key.key_bytes())
                    && e.entry.0.key_bytes() == key.key_bytes()
                    && e.entry.1 == old(self)@[key.key_bytes()]
                    && (final(e.entry).0 == e.entry.0 ==> final(self).wf() && final(self)@ == old(
                    self)@.insert(key.key_bytes(), final(e.entry).1)),
                Entry::Vacant(e) => !old(self)@.contains_key(key.key_bytes()) && e.key == key
                    && e.map.vacant_at(key.key_bytes(), e.bucket_index as int) && (*e.map)@ == old(
                    self)@ && *final(self) == *final(e.map),
            },
    {
        self.grow_if_needed();
        let ghost b = key.key_bytes();
        let idx = self.get_bucket_index(&key).unwrap();
        proof {
            lemma_view_at(self.buckets@, b);
        }
        let ghost bs0 = self.buckets@;
        match position_in(&self.buckets[idx], &key) {
            Some(at) => {
                proof {
                    assert(bs0[idx as int]@[at as int].0.key_bytes() == b);
                    assert forall|bs: Seq<Vec<(K, V)>>|
                        #![trigger buckets_wf(bs)]
                        #![trigger buckets_view(bs)]
                        bs.len() == bs0.len() && (forall|i: int| 0 <= i < bs.len() && i != idx ==> bs[i] == bs0[i])
                            && bs[idx as int]@ == bs0[idx as int]@.update(at as int, (bs0[idx as int]@[at as int].0, bs[idx as int]@[at as int].1))
                        implies buckets_wf(bs) && buckets_view(bs) == buckets_view(bs0).insert(b, bs[idx as int]@[at as int].1) by {
                        lemma_value_replaced(bs0, idx as int, at as int, bs);
                    }
                }
                Entry::Occupied(OccupiedEntry { entry: &mut self.buckets[idx][at] })
            },
            None => {
                proof {
                    assert(!self@.contains_key(b));
                }
                Entry::Vacant(VacantEntry { key, map: self, bucket_index: idx })
            },
        }
    }


    /// Every pair of the map, in the order a fresh `iter` gives them.
    pub closed spec fn pairs(&self) -> Seq<(K, V)> {
        pairs_from(self.buckets@, 0, false)
    }

    /// Every pair of the map, in the order `into_iter` gives them.
    pub closed spec fn drain_order(&self) -> Seq<(K, V)> {
        pairs_from(self.buckets@, 0, true)
    }

    /// A borrowing cursor over every pair.
    pub fn iter(&self) -> (r: RefIter<'_, K, V>)
        ensures
            r.wf(),
            r.remaining() == self.pairs(),
    {
        let r = RefIter { map: self, bucket_index: 0, at: 0 };
        proof {
            let bs = self.buckets@;
            if bs.len() > 0 {
                assert(bs[0]@.skip(0) =~= bs[0]@);
                assert(pairs_from(bs, 0, false) == bs[0]@ + pairs_from(bs, 1, false));
            }
        }
        r
    }

    /// An owning cursor that empties the map.
    pub fn into_iter(self) -> (r: ItemIter<K, V>)
        ensures
            r.remaining() == self.drain_order(),
    {
        ItemIter { map: self, bucket_index: 0 }
    }


    /// Both iterations list exactly the stored pairs, each key once: the
    /// borrowing one in bucket and storage order, the owning one in bucket
    /// order with each bucket taken from the back.
    pub proof fn lemma_iteration_lists_contents(&self)
        requires
            self.wf(),
        ensures
            lists_contents(self.pairs(), self@),
            lists_contents(self.drain_order(), self@),
    {
        lemma_contents_listed(self.buckets@, false);
        lemma_contents_listed(self.buckets@, true);
    }

    /// A map built by inserting the pairs of `items` in order.
    pub fn from_iter(items: Vec<(K, V)>) -> (r: Self)
        requires
            items@.len() <= usize::MAX / 2,
        ensures
            r.wf(),
            r@ == inserted(items@),
    {
        let ghost all = items@;
        let mut items = items;
        let mut map = HashMap::new();
        let ghost done: int = 0;
        while items.len() > 0
            invariant
                map.wf(),
                0 <= done <= all.len(),
                items@ == all.skip(done),
                map@ == inserted(all.take(done)),
                all.len() <= usize::MAX / 2,
            decreases items@.len(),
        {
            let (k, v) = items.remove(0);
            proof {
                lemma_len_counts_distinct_keys(all.take(done));
                assert(all[done] == (k, v));
                assert(all.take(done + 1).drop_last() =~= all.take(done));
            }
            map.insert(k, v);
            proof {
                done = done + 1;
                assert(items@ =~= all.skip(done));
            }
        }
        assert(all.take(done) =~= all);
        map
    }

    /// Grows the table when it has no buckets or holds more than three
    /// quarters as many items as buckets; the one policy shared by every
    /// operation that may add a pair.
    fn grow_if_needed(&mut self)
        requires
            old(self).wf(),
            old(self).num_items <= usize::MAX / 2,
        ensures
            final(self).wf(),
            final(self)@ == old(self)@,
            final(self).buckets@.len() > 0,
            final(self).bucket_count() == grown_bucket_count(old(self).bucket_count(), old(self)@.len()),
    {
        let n = self.buckets.len();
        if n == 0 || (self.num_items as u128) > (n as u128) * 3 / 4 {
            self.resize();
        }
    }

    /// Stores `value` under `key`. A pair already there keeps its place and
    /// takes the new value; the old value is returned. The map may hold at
    /// most `usize::MAX / 2` items before the call, so that a doubled bucket
    /// count still fits.
    pub fn insert(&mut self, key: K, value: V) -> (r: Option<V>)
        requires
            old(self).wf(),
            old(self)@.len() <= usize::MAX / 2,
        ensures
            final(self).wf(),
            final(self)@ == old(self)@.insert(key.key_bytes(), value),
            final(self).bucket_count() == grown_bucket_count(old(self).bucket_count(), old(self)@.len()),
            match r {
                Some(v) => old(self)@.contains_key(key.key_bytes()) && v == old(self)@[key.key_bytes()],
                None => !old(self)@.contains_key(key.key_bytes()),
            },
    {
        self.grow_if_needed();
        let ghost b = key.key_bytes();
        let ghost mid = *self;
        let idx = self.get_bucket_index(&key).unwrap();
        proof {
            lemma_view_at(self.buckets@, b);
        }
        let ghost s = self.buckets@[idx as int]@;
        let ghost bs0 = self.buckets@;
        match position_in(&self.buckets[idx], &key) {
            Some(j) => {
                proof {
                    assert(s[j as int].0.key_bytes() == b);
                    assert(distinct_keys(s));
                    lemma_set_value(s, j as int, value);
                }
                let mut value = value;
                std::mem::swap(&mut self.buckets[idx][j].1, &mut value);
                proof {
                    let bs = self.buckets@;
                    assert(bs =~= bs0.update(idx as int, bs[idx as int]));
                    assert(bs[idx as int]@ =~= s.update(j as int, (s[j as int].0, bs[idx as int]@[j as int].1)));
                    lemma_bucket_changed(bs0, idx as int, self.buckets@);
                    assert(self@ =~= mid@.insert(b, bs[idx as int]@[j as int].1));
                }
                Some(value)
            },
            None => {
                proof {
                    assert(distinct_keys(s));
                    lemma_bucket_map(s);
                    lemma_push(s, (key, value));
                }
                self.num_items = self.num_items + 1;
                self.buckets[idx].push((key, value));
                proof {
                    let bs = self.buckets@;
                    assert(bs =~= bs0.update(idx as int, bs[idx as int]));
                    assert(bs[idx as int]@ =~= s.push((key, value)));
                    lemma_bucket_changed(bs0, idx as int, self.buckets@);
                    assert(self@ =~= mid@.insert(b, value));
                }
                None
            },
        }
    }

    /// Rebuilds the table with `1` bucket when it is empty, else with twice as
    /// many buckets as it holds items, and moves every pair to the bucket its
    /// key hashes to among the new ones.
    fn resize(&mut self)
        requires
            old(self).wf(),
            old(self).num_items <= usize::MAX / 2,
        ensures
            final(self).wf(),
            final(self)@ == old(self)@,
            final(self).buckets@.len() == (if old(self).num_items == 0 {
                1
            } else {
                2 * old(self).num_items
            }),
    {
        let capacity: usize = if self.num_items == 0 {
            1
        } else {
            2 * self.num_items
        };
        let mut new_buckets: Vec<Vec<(K, V)>> = Vec::with_capacity(capacity);
        let mut c: usize = 0;
        while c < capacity
            invariant
                c <= capacity,
                new_buckets@.len() == c,
                forall|i: int| 0 <= i < c ==> (#[trigger] new_buckets@[i])@.len() == 0,
            decreases capacity - c,
        {
            new_buckets.push(Vec::new());
            c = c + 1;
        }
        let ghost old_bs = self.buckets@;
        let ghost old_view = self@;
        let ghost n_old = old_bs.len();
        let mut old_buckets: Vec<Vec<(K, V)>> = Vec::new();
        std::mem::swap(&mut old_buckets, &mut self.buckets);
        assert(old_buckets@ == old_bs);
        assert(buckets_view(new_buckets@) =~= Map::<Seq<u8>, V>::empty());
        while old_buckets.len() > 0
            invariant
                capacity > 0,
                new_buckets@.len() == capacity,
                buckets_wf(new_buckets@),
                buckets_wf(old_bs),
                old_view == buckets_view(old_bs),
                n_old == old_bs.len(),
                old_buckets@.len() <= n_old,
                old_buckets@ == old_bs.take(old_buckets@.len() as int),
                forall|b: Seq<u8>| #[trigger]
                    buckets_view(new_buckets@).contains_key(b) <==> (old_view.contains_key(b)
                        && slot_of(b, n_old) >= old_buckets@.len()),
                forall|b: Seq<u8>| #[trigger]
                    buckets_view(new_buckets@).contains_key(b) ==> buckets_view(new_buckets@)[b]
                        == old_view[b],
            decreases old_buckets@.len(),
        {
            let mut bucket = old_buckets.pop().unwrap();
            let ghost i = old_buckets@.len() as int;
            assert(bucket == old_bs[i]);
            assert(old_buckets@ =~= old_bs.take(i));
            assert(bucket@ =~= old_bs[i]@.take(bucket@.len() as int));
            assert forall|b: Seq<u8>| #[trigger]
                buckets_view(new_buckets@).contains_key(b) <==> (old_view.contains_key(b)
                    && (slot_of(b, n_old) > i || (slot_of(b, n_old) == i && forall|m: int|
                    0 <= m < bucket@.len() ==> #[trigger] bucket@[m].0.key_bytes() != b))) by {
                if slot_of(b, n_old) == i && old_view.contains_key(b) {
                    lemma_view_at(old_bs, b);
                }
            }
            while bucket.len() > 0
                invariant
                    capacity > 0,
                    new_buckets@.len() == capacity,
                    buckets_wf(new_buckets@),
                    buckets_wf(old_bs),
                    old_view == buckets_view(old_bs),
                    n_old == old_bs.len(),
                    0 <= i < n_old,
                    bucket@ == old_bs[i]@.take(bucket@.len() as int),
                    bucket@.len() <= old_bs[i]@.len(),
                    forall|b: Seq<u8>| #[trigger]
                        buckets_view(new_buckets@).contains_key(b) <==> (old_view.contains_key(b)
                            && (slot_of(b, n_old) > i || (slot_of(b, n_old) == i && forall|m: int|
                            0 <= m < bucket@.len() ==> #[trigger] bucket@[m].0.key_bytes() != b))),
                    forall|b: Seq<u8>| #[trigger]
                        buckets_view(new_buckets@).contains_key(b) ==> buckets_view(new_buckets@)[b]
                            == old_view[b],
                decreases bucket@.len(),
            {
                let ghost before = new_buckets@;
                let ghost last = bucket@.len() - 1;
                let ghost ob = old_bs[i]@;
                let pair = bucket.pop().unwrap();
                let ghost kb = pair.0.key_bytes();
                proof {
                    assert(pair == ob[last]);
                    assert(slot_of(kb, n_old) == i);
                    lemma_view_at(old_bs, kb);
                    assert(old_view.contains_key(kb));
                    assert(old_view[kb] == pair.1);
                    assert(!buckets_view(before).contains_key(kb));
                }
                let s = slot_for(pair.0.as_key_bytes(), capacity);
                proof {
                    assert(!bucket_map(before[s as int]@).contains_key(kb));
                    lemma_push(before[s as int]@, pair);
                }
                new_buckets[s].push(pair);
                proof {
                    let nb = new_buckets@;
                    assert(nb =~= before.update(s as int, nb[s as int]));
                    assert(nb[s as int]@ =~= before[s as int]@.push(pair));
                    assert forall|a: int, k: int|
                        0 <= a < nb.len() && 0 <= k < nb[a]@.len() implies slot_of(
                        #[trigger] nb[a]@[k].0.key_bytes(),
                        nb.len() as nat,
                    ) == a by {
                        if a != s {
                            assert(nb[a] == before[a]);
                        } else if k < before[a]@.len() {
                            assert(nb[a]@[k] == before[a]@[k]);
                        }
                    }
                    assert forall|a: int| 0 <= a < nb.len() implies distinct_keys(#[trigger] nb[a]@) by {
                        if a != s {
                            assert(nb[a] == before[a]);
                        }
                    }
                    assert forall|b: Seq<u8>| #[trigger] buckets_view(nb).contains_key(b) <==> (
                        old_view.contains_key(b) && (slot_of(b, n_old) > i || (slot_of(b, n_old)
                            == i && forall|m: int|
                            0 <= m < bucket@.len() ==> #[trigger] bucket@[m].0.key_bytes()
                                != b))) by {
                        if b != kb {
                            assert(buckets_view(nb).contains_key(b) == buckets_view(before).contains_key(b));
                            if slot_of(b, n_old) == i && old_view.contains_key(b) {
                                assert(bucket@ =~= old_bs[i]@.take(last));
                                if forall|m: int| 0 <= m < bucket@.len() ==> #[trigger] bucket@[m].0.key_bytes() != b {
                                    assert forall|m: int| 0 <= m < bucket@.len() + 1 implies #[trigger] ob[m].0.key_bytes() != b by {
                                        if m < bucket@.len() {
                                            assert(bucket@[m] == ob[m]);
                                        }
                                    }
                                    assert(forall|m: int| 0 <= m < last + 1 ==> old_bs[i]@.take(last + 1)[m] == ob[m]);
                                }
                            }
                        } else {
                            assert(bucket@ =~= ob.take(last));
                            assert(distinct_keys(ob));
                            assert forall|m: int| 0 <= m < bucket@.len() implies #[trigger] bucket@[m].0.key_bytes() != b by {
                                assert(bucket@[m] == ob[m]);
                            }
                        }
                    }
                    assert forall|b: Seq<u8>| #[trigger] buckets_view(nb).contains_key(b)
                        implies buckets_view(nb)[b] == old_view[b] by {
                        if b != kb {
                            assert(buckets_view(before).contains_key(b));
                        }
                    }
                }
            }
            proof {
                assert forall|b: Seq<u8>| #[trigger] buckets_view(new_buckets@).contains_key(b) <==> (
                    old_view.contains_key(b) && slot_of(b, n_old) >= old_buckets@.len()) by {
                    assert(bucket@.len() == 0);
                }
            }
        }
        self.buckets = new_buckets;
        proof {
            assert(self@ =~= old_view);
        }
    }
}

} // verus!
