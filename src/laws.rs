//! Laws of the map stated over its contents: what a run of insertions leaves,
//! and how insertion and removal act on a key.
use vstd::prelude::*;
use crate::key::MapKey;
use crate::buckets::key_seq;

verus! {

/// The contents after inserting the pairs of `s` one after another into an
/// empty map.
pub open spec fn inserted<K: MapKey, V>(s: Seq<(K, V)>) -> Map<Seq<u8>, V>
    decreases s.len(),
{
    if s.len() == 0 {
        Map::empty()
    } else {
        inserted(s.drop_last()).insert(s.last().0.key_bytes(), s.last().1)
    }
}

/// Inserting a sequence of pairs leaves one entry per distinct key: the
/// keys are exactly those inserted, so the length is their number.
pub proof fn lemma_len_counts_distinct_keys<K: MapKey, V>(s: Seq<(K, V)>)
    ensures
        inserted(s).dom() == key_seq(s).to_set(),
        inserted(s).dom().finite(),
        inserted(s).len() == key_seq(s).to_set().len(),
        inserted(s).len() <= s.len(),
    decreases s.len(),
{
    if s.len() > 0 {
        let t = s.drop_last();
        lemma_len_counts_distinct_keys(t);
        assert(key_seq(s) =~= key_seq(t).push(s.last().0.key_bytes()));
        let ks = key_seq(s);
        let kt = key_seq(t);
        assert forall|x: Seq<u8>| ks.to_set().contains(x) <==> kt.to_set().insert(s.last().0.key_bytes()).contains(x) by {
            if ks.contains(x) {
                let j = choose|j: int| 0 <= j < ks.len() && ks[j] == x;
                if j < kt.len() {
                    assert(kt[j] == x);
                }
            }
            if kt.contains(x) {
                let j = choose|j: int| 0 <= j < kt.len() && kt[j] == x;
                assert(ks[j] == x);
            }
            if x == s.last().0.key_bytes() {
                assert(ks[ks.len() - 1] == x);
            }
        }
        assert(ks.to_set() =~= kt.to_set().insert(s.last().0.key_bytes()));
    } else {
        assert(key_seq(s).to_set() =~= Set::<Seq<u8>>::empty());
    }
}

/// Each key keeps the value of its last insertion, however often the table
/// was resized on the way.
pub proof fn lemma_last_assignment_wins<K: MapKey, V>(s: Seq<(K, V)>, j: int)
    requires
        0 <= j < s.len(),
        forall|k: int| j < k < s.len() ==> (#[trigger] s[k]).0.key_bytes() != s[j].0.key_bytes(),
    ensures
        inserted(s).contains_key(s[j].0.key_bytes()),
        inserted(s)[s[j].0.key_bytes()] == s[j].1,
    decreases s.len(),
{
    if j < s.len() - 1 {
        let t = s.drop_last();
        assert forall|k: int| j < k < t.len() implies (#[trigger] t[k]).0.key_bytes() != t[j].0.key_bytes() by {
            assert(t[k] == s[k]);
        }
        lemma_last_assignment_wins(t, j);
        assert(s.last() == s[s.len() - 1]);
    }
}

/// A second insertion under a key returns the first value and leaves the
/// second; an insertion under a new key adds one entry, under a present key
/// none.
pub proof fn lemma_insert_twice<V>(c: Map<Seq<u8>, V>, b: Seq<u8>, v1: V, v2: V)
    requires
        c.dom().finite(),
    ensures
        c.insert(b, v1).contains_key(b),
        c.insert(b, v1)[b] == v1,
        c.insert(b, v1).insert(b, v2)[b] == v2,
        c.insert(b, v1).insert(b, v2) == c.insert(b, v2),
        !c.contains_key(b) ==> c.insert(b, v1).len() == c.len() + 1,
        c.contains_key(b) ==> c.insert(b, c[b]) == c && c.insert(b, v1).len() == c.len(),
{
    assert(c.insert(b, v1).insert(b, v2) =~= c.insert(b, v2));
    if c.contains_key(b) {
        assert(c.insert(b, c[b]) =~= c);
        assert(c.insert(b, v1).dom() =~= c.dom());
    }
}

/// After a removal the key is absent; removing an absent key changes nothing,
/// and nothing is present in an empty map.
pub proof fn lemma_remove_then_absent<V>(c: Map<Seq<u8>, V>, b: Seq<u8>)
    ensures
        !c.remove(b).contains_key(b),
        !c.contains_key(b) ==> c.remove(b) == c,
        !Map::<Seq<u8>, V>::empty().contains_key(b),
        Map::<Seq<u8>, V>::empty().remove(b) == Map::<Seq<u8>, V>::empty(),
{
    if !c.contains_key(b) {
        assert(c.remove(b) =~= c);
    }
    assert(Map::<Seq<u8>, V>::empty().remove(b) =~= Map::<Seq<u8>, V>::empty());
}

} // verus!
