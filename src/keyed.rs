//! Sequences of (key, value) pairs with distinct keys, and the mappings
//! they stand for.

use vstd::prelude::*;

verus! {

/// The mapping that a list of (key, value) pairs stands for; a later pair
/// overrides an earlier one with the same key.
pub open spec fn map_of<V>(p: Seq<(Seq<char>, V)>) -> Map<Seq<char>, V>
    decreases p.len(),
{
    if p.len() == 0 {
        Map::empty()
    } else {
        map_of(p.drop_last()).insert(p.last().0, p.last().1)
    }
}

/// No key occurs twice.
pub open spec fn keys_distinct<V>(p: Seq<(Seq<char>, V)>) -> bool {
    forall|i: int, j: int| 0 <= i < j < p.len() ==> p[i].0 != p[j].0
}

/// The pairs after setting `k` to `v`: in place where `k` is present, else
/// appended.
pub open spec fn upsert<V>(p: Seq<(Seq<char>, V)>, k: Seq<char>, v: V) -> Seq<
    (Seq<char>, V),
> {
    if exists|i: int| 0 <= i < p.len() && p[i].0 == k {
        let i = choose|i: int| 0 <= i < p.len() && p[i].0 == k;
        p.update(i, (k, v))
    } else {
        p.push((k, v))
    }
}

pub proof fn lemma_map_of_dom<V>(p: Seq<(Seq<char>, V)>)
    ensures
        forall|k: Seq<char>|
            #[trigger] map_of(p).contains_key(k) <==> exists|i: int| 0 <= i < p.len() && p[i].0 == k,
    decreases p.len(),
{
    if p.len() > 0 {
        lemma_map_of_dom(p.drop_last());
        assert forall|k: Seq<char>|
            #[trigger] map_of(p).contains_key(k) implies exists|i: int|
                0 <= i < p.len() && p[i].0 == k by {
            if k == p.last().0 {
                assert(p[p.len() - 1].0 == k);
            } else {
                assert(map_of(p.drop_last()).contains_key(k));
                let i = choose|i: int| 0 <= i < p.len() - 1 && p.drop_last()[i].0 == k;
                assert(p[i].0 == k);
            }
        }
        assert forall|k: Seq<char>|
            (exists|i: int| 0 <= i < p.len() && p[i].0 == k) implies #[trigger] map_of(
            p,
        ).contains_key(k) by {
            let i = choose|i: int| 0 <= i < p.len() && p[i].0 == k;
            if i < p.len() - 1 {
                assert(p.drop_last()[i].0 == k);
                assert(map_of(p.drop_last()).contains_key(k));
            }
        }
    }
}

pub proof fn lemma_map_of_index<V>(p: Seq<(Seq<char>, V)>, i: int)
    requires
        keys_distinct(p),
        0 <= i < p.len(),
    ensures
        map_of(p).contains_key(p[i].0),
        map_of(p)[p[i].0] == p[i].1,
    decreases p.len(),
{
    if i < p.len() - 1 {
        lemma_map_of_index(p.drop_last(), i);
    }
}

pub proof fn lemma_map_of_update<V>(p: Seq<(Seq<char>, V)>, i: int, v: V)
    requires
        keys_distinct(p),
        0 <= i < p.len(),
    ensures
        map_of(p.update(i, (p[i].0, v))) == map_of(p).insert(p[i].0, v),
    decreases p.len(),
{
    let q = p.update(i, (p[i].0, v));
    if i == p.len() - 1 {
        assert(q.drop_last() == p.drop_last());
    } else {
        lemma_map_of_update(p.drop_last(), i, v);
        assert(q.drop_last() == p.drop_last().update(i, (p[i].0, v)));
        assert(map_of(q) == map_of(p).insert(p[i].0, v));
    }
}

pub proof fn lemma_upsert<V>(p: Seq<(Seq<char>, V)>, k: Seq<char>, v: V)
    requires
        keys_distinct(p),
    ensures
        keys_distinct(upsert(p, k, v)),
        upsert(p, k, v).contains((k, v)),
        forall|j: int|
            0 <= j < p.len() && p[j].0 != k ==> #[trigger] upsert(p, k, v)[j] == p[j],
        forall|j: int|
            0 <= j < upsert(p, k, v).len() && upsert(p, k, v)[j].0 != k ==> p.contains(
                #[trigger] upsert(p, k, v)[j],
            ),
        forall|j: int|
            0 <= j < upsert(p, k, v).len() && upsert(p, k, v)[j].0 == k ==> #[trigger] upsert(
                p,
                k,
                v,
            )[j] == (k, v),
        p.len() <= upsert(p, k, v).len(),
{
    let q = upsert(p, k, v);
    if exists|i: int| 0 <= i < p.len() && p[i].0 == k {
        let i = choose|i: int| 0 <= i < p.len() && p[i].0 == k;
        assert(q[i] == (k, v));
        assert forall|j: int| 0 <= j < q.len() && q[j].0 != k implies p.contains(#[trigger] q[j]) by {
            assert(p[j] == q[j]);
        }
    } else {
        assert(q[p.len() as int] == (k, v));
        assert forall|j: int| 0 <= j < q.len() && q[j].0 != k implies p.contains(#[trigger] q[j]) by {
            assert(p[j] == q[j]);
        }
    }
}

/// With distinct keys, there is one pair per key of the mapping: the pairs
/// and the mapping's entries are in one-to-one correspondence.
pub proof fn lemma_map_of_len<V>(p: Seq<(Seq<char>, V)>)
    requires
        keys_distinct(p),
    ensures
        map_of(p).dom().finite(),
        map_of(p).dom().len() == p.len(),
    decreases p.len(),
{
    if p.len() > 0 {
        let q = p.drop_last();
        lemma_map_of_len(q);
        lemma_map_of_dom(q);
        assert(!map_of(q).contains_key(p.last().0)) by {
            if map_of(q).contains_key(p.last().0) {
                let i = choose|i: int| 0 <= i < q.len() && q[i].0 == p.last().0;
                assert(p[i].0 != p[p.len() - 1].0);
            }
        }
        assert(map_of(p).dom() == map_of(q).dom().insert(p.last().0));
    }
}

/// Each pair of a sequence with distinct keys is an entry of its mapping,
/// and each entry of the mapping is one of the pairs.
pub proof fn lemma_map_of_pairs<V>(p: Seq<(Seq<char>, V)>)
    requires
        keys_distinct(p),
    ensures
        forall|i: int| 0 <= i < p.len() ==> #[trigger] map_of(p).contains_key(p[i].0) && map_of(p)[p[i].0] == p[i].1,
        forall|k: Seq<char>| #[trigger] map_of(p).contains_key(k) ==> p.contains((k, map_of(p)[k])),
{
    lemma_map_of_dom(p);
    assert forall|i: int| 0 <= i < p.len() implies #[trigger] map_of(p).contains_key(p[i].0) && map_of(p)[p[i].0] == p[i].1 by {
        lemma_map_of_index(p, i);
    }
    assert forall|k: Seq<char>| #[trigger] map_of(p).contains_key(k) implies p.contains((k, map_of(p)[k])) by {
        let i = choose|i: int| 0 <= i < p.len() && p[i].0 == k;
        lemma_map_of_index(p, i);
        assert(p[i] == (k, map_of(p)[k]));
    }
}

} // verus!
