//! The bucket sequence of the map as mathematics: what a sequence of buckets
//! holds, when it is well formed, in what order its pairs are listed, and
//! the lemmas that the map's operations rest on.
use vstd::prelude::*;
use crate::key::{MapKey, slot_of};

verus! {

/// No two pairs of `s` have keys with the same bytes.
pub open spec fn distinct_keys<K: MapKey, V>(s: Seq<(K, V)>) -> bool {
    forall|i: int, j: int|
        0 <= i < s.len() && 0 <= j < s.len() && i != j ==> #[trigger] s[i].0.key_bytes()
            != #[trigger] s[j].0.key_bytes()
}

/// The pairs of one bucket as a map from key bytes to values.
pub open spec fn bucket_map<K: MapKey, V>(s: Seq<(K, V)>) -> Map<Seq<u8>, V>
    decreases s.len(),
{
    if s.len() == 0 {
        Map::empty()
    } else {
        bucket_map(s.drop_last()).insert(s.last().0.key_bytes(), s.last().1)
    }
}

/// The contents of a bucket sequence: each key is looked for in the bucket
/// that its hash selects.
pub open spec fn buckets_view<K: MapKey, V>(bs: Seq<Vec<(K, V)>>) -> Map<Seq<u8>, V> {
    Map::new(
        |b: Seq<u8>| bs.len() > 0 && bucket_map(bs[slot_of(b, bs.len())]@).contains_key(b),
        |b: Seq<u8>| bucket_map(bs[slot_of(b, bs.len())]@)[b],
    )
}

/// Every pair sits in the bucket its key hashes to, and no bucket holds a
/// key twice.
pub open spec fn buckets_wf<K: MapKey, V>(bs: Seq<Vec<(K, V)>>) -> bool {
    &&& forall|i: int, j: int|
        0 <= i < bs.len() && 0 <= j < bs[i]@.len() ==> slot_of(
            #[trigger] bs[i]@[j].0.key_bytes(),
            bs.len() as nat,
        ) == i
    &&& forall|i: int| 0 <= i < bs.len() ==> distinct_keys(#[trigger] bs[i]@)
}

pub(crate) proof fn lemma_bucket_map<K: MapKey, V>(s: Seq<(K, V)>)
    requires
        distinct_keys(s),
    ensures
        forall|j: int|
            0 <= j < s.len() ==> bucket_map(s).contains_key(#[trigger] s[j].0.key_bytes())
                && bucket_map(s)[s[j].0.key_bytes()] == s[j].1,
        forall|b: Seq<u8>| #[trigger]
            bucket_map(s).contains_key(b) ==> exists|j: int|
                0 <= j < s.len() && #[trigger] s[j].0.key_bytes() == b,
    decreases s.len(),
{
    if s.len() > 0 {
        let t = s.drop_last();
        assert forall|i: int, j: int|
            0 <= i < t.len() && 0 <= j < t.len() && i != j implies #[trigger] t[i].0.key_bytes()
            != #[trigger] t[j].0.key_bytes() by {
            assert(t[i] == s[i]);
            assert(t[j] == s[j]);
        }
        lemma_bucket_map(t);
        assert forall|j: int| 0 <= j < s.len() implies bucket_map(s).contains_key(
            #[trigger] s[j].0.key_bytes(),
        ) && bucket_map(s)[s[j].0.key_bytes()] == s[j].1 by {
            if j < s.len() - 1 {
                assert(t[j] == s[j]);
                assert(s[j].0.key_bytes() != s[s.len() - 1].0.key_bytes());
            }
        }
        assert forall|b: Seq<u8>| #[trigger]
            bucket_map(s).contains_key(b) implies exists|j: int|
                0 <= j < s.len() && #[trigger] s[j].0.key_bytes() == b by {
            if b != s.last().0.key_bytes() {
                assert(bucket_map(t).contains_key(b));
                let j = choose|j: int| 0 <= j < t.len() && #[trigger] t[j].0.key_bytes() == b;
                assert(s[j] == t[j]);
            } else {
                assert(s[s.len() - 1].0.key_bytes() == b);
            }
        }
    }
}

/// What the contents say of one key: it is there exactly when some pair of its
/// bucket has its bytes, and then that pair holds its value.
pub(crate) proof fn lemma_view_at<K: MapKey, V>(bs: Seq<Vec<(K, V)>>, b: Seq<u8>)
    requires
        buckets_wf(bs),
        bs.len() > 0,
    ensures
        ({
            let s = bs[slot_of(b, bs.len())]@;
            &&& buckets_view(bs).contains_key(b) <==> exists|j: int|
                0 <= j < s.len() && #[trigger] s[j].0.key_bytes() == b
            &&& forall|j: int|
                0 <= j < s.len() && #[trigger] s[j].0.key_bytes() == b ==> buckets_view(bs)[b]
                    == s[j].1
        }),
{
    let s = bs[slot_of(b, bs.len())]@;
    assert(distinct_keys(s));
    lemma_bucket_map(s);
}

pub(crate) proof fn lemma_push<K: MapKey, V>(s: Seq<(K, V)>, p: (K, V))
    requires
        distinct_keys(s),
        !bucket_map(s).contains_key(p.0.key_bytes()),
    ensures
        distinct_keys(s.push(p)),
        bucket_map(s.push(p)) == bucket_map(s).insert(p.0.key_bytes(), p.1),
{
    lemma_bucket_map(s);
    assert(s.push(p).drop_last() =~= s);
    let t = s.push(p);
    assert forall|i: int, j: int|
        0 <= i < t.len() && 0 <= j < t.len() && i != j implies #[trigger] t[i].0.key_bytes()
        != #[trigger] t[j].0.key_bytes() by {
        if i < s.len() {
            assert(t[i] == s[i]);
        }
        if j < s.len() {
            assert(t[j] == s[j]);
        }
    }
}

pub(crate) proof fn lemma_swap_remove<K: MapKey, V>(s: Seq<(K, V)>, j: int)
    requires
        distinct_keys(s),
        0 <= j < s.len(),
    ensures
        distinct_keys(s.update(j, s.last()).drop_last()),
        bucket_map(s.update(j, s.last()).drop_last()) == bucket_map(s).remove(s[j].0.key_bytes()),
{
    let t = s.update(j, s.last()).drop_last();
    let last = s.len() - 1;
    assert forall|a: int, c: int|
        0 <= a < t.len() && 0 <= c < t.len() && a != c implies #[trigger] t[a].0.key_bytes()
        != #[trigger] t[c].0.key_bytes() by {
        let ia = if a == j { last } else { a };
        let ic = if c == j { last } else { c };
        assert(t[a] == s[ia]);
        assert(t[c] == s[ic]);
    }
    lemma_bucket_map(s);
    lemma_bucket_map(t);
    let b = s[j].0.key_bytes();
    let m = bucket_map(s).remove(b);
    assert forall|x: Seq<u8>| #[trigger] bucket_map(t).contains_key(x) implies m.contains_key(x)
        && bucket_map(t)[x] == m[x] by {
        let a = choose|a: int| 0 <= a < t.len() && #[trigger] t[a].0.key_bytes() == x;
        let ia = if a == j { last } else { a };
        assert(t[a] == s[ia]);
        assert(s[ia].0.key_bytes() == x);
    }
    assert forall|x: Seq<u8>| #[trigger] m.contains_key(x) implies bucket_map(t).contains_key(x) by {
        assert(bucket_map(s).contains_key(x));
        let a = choose|a: int| 0 <= a < s.len() && #[trigger] s[a].0.key_bytes() == x;
        assert(a != j);
        if a == last {
            assert(t[j] == s[a]);
        } else {
            assert(t[a] == s[a]);
        }
    }
    assert(bucket_map(t) =~= m);
}

pub(crate) proof fn lemma_set_value<K: MapKey, V>(s: Seq<(K, V)>, j: int, v: V)
    requires
        distinct_keys(s),
        0 <= j < s.len(),
    ensures
        distinct_keys(s.update(j, (s[j].0, v))),
        bucket_map(s.update(j, (s[j].0, v))) == bucket_map(s).insert(s[j].0.key_bytes(), v),
{
    let t = s.update(j, (s[j].0, v));
    assert forall|a: int, c: int|
        0 <= a < t.len() && 0 <= c < t.len() && a != c implies #[trigger] t[a].0.key_bytes()
        != #[trigger] t[c].0.key_bytes() by {
        assert(t[a].0 == s[a].0);
        assert(t[c].0 == s[c].0);
    }
    lemma_bucket_map(s);
    lemma_bucket_map(t);
    let m = bucket_map(s).insert(s[j].0.key_bytes(), v);
    assert forall|x: Seq<u8>| #[trigger] bucket_map(t).contains_key(x) implies m.contains_key(x)
        && bucket_map(t)[x] == m[x] by {
        let a = choose|a: int| 0 <= a < t.len() && #[trigger] t[a].0.key_bytes() == x;
        assert(t[a].0 == s[a].0);
    }
    assert forall|x: Seq<u8>| #[trigger] m.contains_key(x) implies bucket_map(t).contains_key(x) by {
        if x != s[j].0.key_bytes() {
            assert(bucket_map(s).contains_key(x));
            let a = choose|a: int| 0 <= a < s.len() && #[trigger] s[a].0.key_bytes() == x;
            assert(t[a].0 == s[a].0);
        } else {
            assert(t[j].0 == s[j].0);
        }
    }
    assert(bucket_map(t) =~= m);
}

/// Replacing one bucket by one that holds only keys of its slot, each once,
/// keeps the sequence well formed.
pub(crate) proof fn lemma_bucket_changed<K: MapKey, V>(bs0: Seq<Vec<(K, V)>>, idx: int, bs: Seq<Vec<(K, V)>>)
    requires
        buckets_wf(bs0),
        0 <= idx < bs0.len(),
        bs == bs0.update(idx, bs[idx]),
        distinct_keys(bs[idx]@),
        forall|k: int| 0 <= k < bs[idx]@.len() ==> slot_of(
            #[trigger] bs[idx]@[k].0.key_bytes(),
            bs0.len() as nat,
        ) == idx,
    ensures
        buckets_wf(bs),
{
    assert forall|i: int, k: int|
        0 <= i < bs.len() && 0 <= k < bs[i]@.len() implies slot_of(
        #[trigger] bs[i]@[k].0.key_bytes(),
        bs.len() as nat,
    ) == i by {
        if i != idx {
            assert(bs[i] == bs0[i]);
        }
    }
    assert forall|i: int| 0 <= i < bs.len() implies distinct_keys(#[trigger] bs[i]@) by {
        if i != idx {
            assert(bs[i] == bs0[i]);
        }
    }
}

/// Giving the pair at `at` of bucket `idx` a new value, its key kept, stores
/// that value under the key and keeps the sequence well formed.
pub(crate) proof fn lemma_value_replaced<K: MapKey, V>(bs0: Seq<Vec<(K, V)>>, idx: int, at: int, bs: Seq<Vec<(K, V)>>)
    requires
        buckets_wf(bs0),
        0 <= idx < bs0.len(),
        0 <= at < bs0[idx]@.len(),
        bs.len() == bs0.len(),
        forall|i: int| 0 <= i < bs.len() && i != idx ==> bs[i] == bs0[i],
        bs[idx]@ == bs0[idx]@.update(at, (bs0[idx]@[at].0, bs[idx]@[at].1)),
    ensures
        buckets_wf(bs),
        buckets_view(bs) == buckets_view(bs0).insert(bs0[idx]@[at].0.key_bytes(), bs[idx]@[at].1),
{
    let s = bs0[idx]@;
    assert(bs =~= bs0.update(idx, bs[idx]));
    assert(distinct_keys(s));
    lemma_set_value(s, at, bs[idx]@[at].1);
    assert(bs[idx]@ =~= s.update(at, (s[at].0, bs[idx]@[at].1)));
    lemma_bucket_changed(bs0, idx, bs);
    assert(buckets_view(bs) =~= buckets_view(bs0).insert(s[at].0.key_bytes(), bs[idx]@[at].1));
}

/// Appending a pair whose key is absent to the bucket of its slot stores it
/// and keeps the sequence well formed.
pub(crate) proof fn lemma_pair_pushed<K: MapKey, V>(bs0: Seq<Vec<(K, V)>>, idx: int, p: (K, V), bs: Seq<Vec<(K, V)>>)
    requires
        buckets_wf(bs0),
        0 <= idx < bs0.len(),
        idx == slot_of(p.0.key_bytes(), bs0.len() as nat),
        !buckets_view(bs0).contains_key(p.0.key_bytes()),
        bs.len() == bs0.len(),
        forall|i: int| 0 <= i < bs.len() && i != idx ==> bs[i] == bs0[i],
        bs[idx]@ == bs0[idx]@.push(p),
    ensures
        buckets_wf(bs),
        buckets_view(bs) == buckets_view(bs0).insert(p.0.key_bytes(), p.1),
{
    let s = bs0[idx]@;
    assert(bs =~= bs0.update(idx, bs[idx]));
    assert(distinct_keys(s));
    lemma_push(s, p);
    lemma_bucket_changed(bs0, idx, bs);
    assert(buckets_view(bs) =~= buckets_view(bs0).insert(p.0.key_bytes(), p.1));
}

/// The key bytes of each pair, in order.
pub open spec fn key_seq<K: MapKey, V>(s: Seq<(K, V)>) -> Seq<Seq<u8>> {
    s.map_values(|p: (K, V)| p.0.key_bytes())
}

/// `s` lists the pairs of a map with contents `c`, each key once: as many
/// pairs as keys, no key twice, each pair stored, each key listed.
pub open spec fn lists_contents<K: MapKey, V>(s: Seq<(K, V)>, c: Map<Seq<u8>, V>) -> bool {
    &&& s.len() == c.len()
    &&& distinct_keys(s)
    &&& forall|j: int|
        0 <= j < s.len() ==> c.contains_key(#[trigger] s[j].0.key_bytes()) && c[s[j].0.key_bytes()]
            == s[j].1
    &&& forall|b: Seq<u8>| #[trigger] c.contains_key(b) ==> key_seq(s).contains(b)
}

/// The pairs of the buckets from `i` on, bucket after bucket, each bucket in
/// storage order, or in reverse order where `rev` holds.
pub open spec fn pairs_from<K, V>(bs: Seq<Vec<(K, V)>>, i: int, rev: bool) -> Seq<(K, V)>
    decreases bs.len() - i,
{
    if i < 0 || i >= bs.len() {
        Seq::empty()
    } else {
        in_order(bs[i]@, rev) + pairs_from(bs, i + 1, rev)
    }
}

/// A bucket's pairs in storage order, or reversed.
pub open spec fn in_order<K, V>(s: Seq<(K, V)>, rev: bool) -> Seq<(K, V)> {
    if rev {
        Seq::new(s.len(), |k: int| s[s.len() - 1 - k])
    } else {
        s
    }
}

pub(crate) proof fn lemma_segment<K, V>(s: Seq<(K, V)>, rev: bool)
    ensures
        in_order(s, rev).len() == s.len(),
        forall|j: int|
            0 <= j < s.len() ==> #[trigger] in_order(s, rev)[j] == s[if rev {
                s.len() - 1 - j
            } else {
                j
            }],
{
}

/// `p` is a pair of some bucket from `i` on.
pub open spec fn held_from<K, V>(bs: Seq<Vec<(K, V)>>, i: int, p: (K, V)) -> bool {
    exists|k: int, m: int| #![trigger bs[k]@[m]] i <= k < bs.len() && 0 <= m < bs[k]@.len() && p == bs[k]@[m]
}

/// Each pair of `pairs_from` is a pair of some bucket from `i` on.
pub(crate) proof fn lemma_pairs_from_members<K, V>(bs: Seq<Vec<(K, V)>>, i: int, rev: bool)
    requires
        0 <= i <= bs.len(),
    ensures
        forall|j: int|
            0 <= j < pairs_from(bs, i, rev).len() ==> held_from(bs, i, #[trigger] pairs_from(bs, i, rev)[j]),
    decreases bs.len() - i,
{
    if i < bs.len() {
        lemma_pairs_from_members(bs, i + 1, rev);
        lemma_segment(bs[i]@, rev);
        let s = bs[i]@;
        let seg = in_order(s, rev);
        let rest = pairs_from(bs, i + 1, rev);
        let p = pairs_from(bs, i, rev);
        assert(p == seg + rest);
        assert forall|j: int| 0 <= j < p.len() implies held_from(bs, i, #[trigger] p[j]) by {
            if j < seg.len() {
                let m = if rev { s.len() - 1 - j } else { j };
                assert(p[j] == seg[j]);
                assert(p[j] == bs[i]@[m]);
            } else {
                assert(p[j] == rest[j - seg.len()]);
                assert(held_from(bs, i + 1, rest[j - seg.len()]));
                let (k, m) = choose|k: int, m: int| #![trigger bs[k]@[m]] i + 1 <= k < bs.len() && 0 <= m < bs[k]@.len() && rest[j - seg.len()] == bs[k]@[m];
                assert(p[j] == bs[k]@[m]);
            }
        }
    }
}

/// Each pair of a bucket from `i` on occurs in `pairs_from`.
pub(crate) proof fn lemma_pairs_from_covers<K, V>(bs: Seq<Vec<(K, V)>>, i: int, rev: bool)
    requires
        0 <= i <= bs.len(),
    ensures
        forall|k: int, m: int|
            i <= k < bs.len() && 0 <= m < bs[k]@.len() ==> pairs_from(bs, i, rev).contains(#[trigger] bs[k]@[m]),
    decreases bs.len() - i,
{
    if i < bs.len() {
        lemma_pairs_from_covers(bs, i + 1, rev);
        lemma_segment(bs[i]@, rev);
        let s = bs[i]@;
        let seg = in_order(s, rev);
        let rest = pairs_from(bs, i + 1, rev);
        let p = pairs_from(bs, i, rev);
        assert(p == seg + rest);
        assert forall|k: int, m: int| i <= k < bs.len() && 0 <= m < bs[k]@.len() implies p.contains(#[trigger] bs[k]@[m]) by {
            if k == i {
                let j = if rev { s.len() - 1 - m } else { m };
                assert(seg[j] == s[m]);
                assert(p[j] == seg[j]);
            } else {
                assert(rest.contains(bs[k]@[m]));
                let j = choose|j: int| 0 <= j < rest.len() && rest[j] == bs[k]@[m];
                assert(p[j + seg.len()] == rest[j]);
            }
        }
    }
}

/// No key occurs twice in `pairs_from` of a well-formed bucket sequence.
pub(crate) proof fn lemma_pairs_from_distinct<K: MapKey, V>(bs: Seq<Vec<(K, V)>>, i: int, rev: bool)
    requires
        buckets_wf(bs),
        0 <= i <= bs.len(),
    ensures
        distinct_keys(pairs_from(bs, i, rev)),
    decreases bs.len() - i,
{
    if i < bs.len() {
        lemma_pairs_from_distinct(bs, i + 1, rev);
        lemma_pairs_from_members(bs, i + 1, rev);
        lemma_segment(bs[i]@, rev);
        let s = bs[i]@;
        let seg = in_order(s, rev);
        let rest = pairs_from(bs, i + 1, rev);
        let p = pairs_from(bs, i, rev);
        assert(p == seg + rest);
        assert(distinct_keys(s));
        assert forall|j1: int, j2: int|
            0 <= j1 < p.len() && 0 <= j2 < p.len() && j1 != j2 implies (#[trigger] p[j1]).0.key_bytes()
            != (#[trigger] p[j2]).0.key_bytes() by {
            if j1 < seg.len() && j2 < seg.len() {
                let m1 = if rev { s.len() - 1 - j1 } else { j1 };
                let m2 = if rev { s.len() - 1 - j2 } else { j2 };
                assert(p[j1] == s[m1]);
                assert(p[j2] == s[m2]);
            } else if j1 < seg.len() || j2 < seg.len() {
                let (ja, jb) = if j1 < seg.len() { (j1, j2) } else { (j2, j1) };
                let ma = if rev { s.len() - 1 - ja } else { ja };
                assert(p[ja] == bs[i]@[ma]);
                assert(p[jb] == rest[jb - seg.len()]);
                assert(held_from(bs, i + 1, rest[jb - seg.len()]));
                let (k, m) = choose|k: int, m: int|
                    #![trigger bs[k]@[m]]
                    i + 1 <= k < bs.len() && 0 <= m < bs[k]@.len() && rest[jb - seg.len()] == bs[k]@[m];
                assert(slot_of(bs[k]@[m].0.key_bytes(), bs.len() as nat) == k);
                assert(slot_of(bs[i]@[ma].0.key_bytes(), bs.len() as nat) == i);
            } else {
                assert(p[j1] == rest[j1 - seg.len()]);
                assert(p[j2] == rest[j2 - seg.len()]);
            }
        }
    }
}

pub(crate) proof fn lemma_contents_listed<K: MapKey, V>(bs: Seq<Vec<(K, V)>>, rev: bool)
    requires
        buckets_wf(bs),
        buckets_view(bs).dom().finite(),
    ensures
        lists_contents(pairs_from(bs, 0, rev), buckets_view(bs)),
{
    let s = pairs_from(bs, 0, rev);
    let c = buckets_view(bs);
    lemma_pairs_from_members(bs, 0, rev);
    lemma_pairs_from_covers(bs, 0, rev);
    lemma_pairs_from_distinct(bs, 0, rev);
    assert forall|j: int| 0 <= j < s.len() implies c.contains_key(#[trigger] s[j].0.key_bytes())
        && c[s[j].0.key_bytes()] == s[j].1 by {
        assert(held_from(bs, 0, s[j]));
        let (k, m) = choose|k: int, m: int| #![trigger bs[k]@[m]] 0 <= k < bs.len() && 0 <= m < bs[k]@.len() && s[j] == bs[k]@[m];
        assert(slot_of(bs[k]@[m].0.key_bytes(), bs.len() as nat) == k);
        lemma_view_at(bs, s[j].0.key_bytes());
    }
    assert forall|b: Seq<u8>| #[trigger] c.contains_key(b) implies key_seq(s).contains(b) by {
        lemma_view_at(bs, b);
        let k = slot_of(b, bs.len() as nat);
        let m = choose|m: int| 0 <= m < bs[k]@.len() && #[trigger] bs[k]@[m].0.key_bytes() == b;
        assert(s.contains(bs[k]@[m]));
        let j = choose|j: int| 0 <= j < s.len() && s[j] == bs[k]@[m];
        assert(key_seq(s)[j] == b);
    }
    let ks = key_seq(s);
    assert(ks.no_duplicates()) by {
        assert forall|a: int, b: int| 0 <= a < ks.len() && 0 <= b < ks.len() && a != b implies ks[a] != ks[b] by {
            assert(ks[a] == s[a].0.key_bytes());
            assert(ks[b] == s[b].0.key_bytes());
        }
    }
    ks.unique_seq_to_set();
    assert(ks.to_set() =~= c.dom()) by {
        assert forall|b: Seq<u8>| ks.to_set().contains(b) implies c.dom().contains(b) by {
            let j = choose|j: int| 0 <= j < ks.len() && ks[j] == b;
            assert(ks[j] == s[j].0.key_bytes());
        }
    }
}

/// `pairs_from` reads only the buckets from `i` on.
pub(crate) proof fn lemma_pairs_from_frame<K, V>(bs: Seq<Vec<(K, V)>>, cs: Seq<Vec<(K, V)>>, i: int, rev: bool)
    requires
        0 <= i,
        bs.len() == cs.len(),
        forall|k: int| i <= k < bs.len() ==> #[trigger] cs[k] == bs[k],
    ensures
        pairs_from(cs, i, rev) == pairs_from(bs, i, rev),
    decreases bs.len() - i,
{
    if i < bs.len() {
        lemma_pairs_from_frame(bs, cs, i + 1, rev);
    }
}

} // verus!
