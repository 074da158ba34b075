//! Grouping values by key in first-occurrence order.
//!
//! The encoder groups pixels by color and coordinates by column or row, and
//! the pattern search counts windows by their text. These groups are held in
//! vectors searched from the front, not in hash maps: a hash map's walk
//! order is seeded anew in every process, so the order of the chunks and of
//! the dictionary entries would be left unspecified and no contract could fix
//! the encoded text; several keys (color texts, window texts) would also be
//! strings, on which vstd proves nothing of a map's lookups. The price is a
//! search that is linear in the number of groups.
use vstd::prelude::*;

verus! {

/// The index of the first group with key `k`, or `-1`.
pub open spec fn find_key<K, V>(g: Seq<(K, Seq<V>)>, k: K) -> int
    decreases g.len(),
{
    if g.len() == 0 {
        -1
    } else {
        let r = find_key(g.drop_last(), k);
        if r >= 0 {
            r
        } else if g.last().0 == k {
            g.len() - 1
        } else {
            -1
        }
    }
}

/// The values grouped by key: one group per key, in the order the keys
/// first occur, each with its values in order.
pub open spec fn group_by<K, V>(items: Seq<(K, V)>) -> Seq<(K, Seq<V>)>
    decreases items.len(),
{
    if items.len() == 0 {
        Seq::<(K, Seq<V>)>::empty()
    } else {
        let g = group_by(items.drop_last());
        let (k, v) = items.last();
        let i = find_key(g, k);
        if i >= 0 {
            g.update(i, (k, g[i].1.push(v)))
        } else {
            g.push((k, seq![v]))
        }
    }
}

pub proof fn lemma_find_key<K, V>(g: Seq<(K, Seq<V>)>, k: K)
    ensures
        -1 <= find_key(g, k) < g.len(),
        find_key(g, k) >= 0 ==> g[find_key(g, k)].0 == k,
        forall|j: int| 0 <= j < g.len() && (j < find_key(g, k) || find_key(g, k) == -1) ==> g[j].0 != k,
    decreases g.len(),
{
    if g.len() > 0 {
        lemma_find_key(g.drop_last(), k);
        assert forall|j: int| 0 <= j < g.len() && (j < find_key(g, k) || find_key(g, k) == -1)
            implies g[j].0 != k by {
            if j < g.len() - 1 {
                assert(g[j] == g.drop_last()[j]);
            }
        }
    }
}

/// The first index whose key is `k` is the one `find_key` gives.
pub proof fn lemma_find_key_is<K, V>(g: Seq<(K, Seq<V>)>, k: K, i: int)
    requires
        -1 <= i < g.len(),
        i >= 0 ==> g[i].0 == k,
        forall|j: int| 0 <= j < g.len() && (j < i || i == -1) ==> g[j].0 != k,
    ensures
        find_key(g, k) == i,
{
    lemma_find_key(g, k);
    let f = find_key(g, k);
    if f >= 0 && i >= 0 {
        if f < i {
            assert(g[f].0 != k);
        } else if i < f {
            assert(g[i].0 != k);
        }
    } else if f >= 0 {
        assert(g[f].0 != k);
    } else if i >= 0 {
        assert(g[i].0 != k);
    }
}

/// Keys of a grouping are distinct.
pub proof fn lemma_group_keys_distinct<K, V>(items: Seq<(K, V)>)
    ensures
        forall|a: int, b: int|
            0 <= a < b < group_by(items).len() ==> group_by(items)[a].0 != group_by(items)[b].0,
        forall|a: int| 0 <= a < group_by(items).len() ==> group_by(items)[a].1.len() >= 1,
    decreases items.len(),
{
    if items.len() > 0 {
        let g = group_by(items.drop_last());
        lemma_group_keys_distinct(items.drop_last());
        lemma_find_key(g, items.last().0);
        let r = group_by(items);
        assert forall|a: int, b: int| 0 <= a < b < r.len() implies r[a].0 != r[b].0 by {
            if b == g.len() {
                assert(r[a] == g[a]);
            }
        }
    }
}


/// Every grouped value comes from an item with the group's key.
pub proof fn lemma_group_members<K, V>(items: Seq<(K, V)>)
    ensures
        forall|i: int, t: int|
            #![trigger group_by(items)[i].1[t]]
            0 <= i < group_by(items).len() && 0 <= t < group_by(items)[i].1.len() ==> exists|j: int|
                0 <= j < items.len() && #[trigger] items[j] == (group_by(items)[i].0, group_by(
                    items,
                )[i].1[t]),
    decreases items.len(),
{
    if items.len() > 0 {
        let p = items.drop_last();
        let g = group_by(p);
        lemma_group_members(p);
        lemma_find_key(g, items.last().0);
        let r = group_by(items);
        assert forall|i: int, t: int|
            #![trigger r[i].1[t]]
            0 <= i < r.len() && 0 <= t < r[i].1.len() implies exists|j: int|
            0 <= j < items.len() && #[trigger] items[j] == (r[i].0, r[i].1[t]) by {
            if i < g.len() && t < g[i].1.len() {
                assert(r[i].0 == g[i].0 && r[i].1[t] == g[i].1[t]);
                let j = choose|j: int| 0 <= j < p.len() && #[trigger] p[j] == (g[i].0, g[i].1[t]);
                assert(items[j] == p[j]);
            } else {
                assert(items[items.len() - 1] == (r[i].0, r[i].1[t]));
            }
        }
    }
}

/// Where any two items of a key, in order, are related by `le`, so are any
/// two values of its group, in order.
pub proof fn lemma_group_ordered<K, V>(items: Seq<(K, V)>, le: spec_fn(V, V) -> bool)
    requires
        forall|j1: int, j2: int|
            0 <= j1 < j2 < items.len() && items[j1].0 == items[j2].0 ==> le(
                #[trigger] items[j1].1,
                #[trigger] items[j2].1,
            ),
    ensures
        forall|i: int, t1: int, t2: int|
            0 <= i < group_by(items).len() && 0 <= t1 < t2 < group_by(items)[i].1.len() ==> le(
                #[trigger] group_by(items)[i].1[t1],
                #[trigger] group_by(items)[i].1[t2],
            ),
    decreases items.len(),
{
    if items.len() > 0 {
        let p = items.drop_last();
        let g = group_by(p);
        assert forall|j1: int, j2: int| 0 <= j1 < j2 < p.len() && p[j1].0 == p[j2].0 implies le(
            #[trigger] p[j1].1,
            #[trigger] p[j2].1,
        ) by {
            assert(p[j1] == items[j1] && p[j2] == items[j2]);
        }
        lemma_group_ordered(p, le);
        lemma_group_members(p);
        lemma_find_key(g, items.last().0);
        let r = group_by(items);
        let n = items.len() - 1;
        assert forall|i: int, t1: int, t2: int|
            0 <= i < r.len() && 0 <= t1 < t2 < r[i].1.len() implies le(
            #[trigger] r[i].1[t1],
            #[trigger] r[i].1[t2],
        ) by {
            if i < g.len() && t2 < g[i].1.len() {
                assert(r[i].1[t1] == g[i].1[t1] && r[i].1[t2] == g[i].1[t2]);
            } else {
                // the new value is the last of its group
                assert(r[i].1[t2] == items[n].1);
                assert(r[i].0 == items[n].0);
                if i < g.len() {
                    assert(r[i].1[t1] == g[i].1[t1]);
                    assert(g[i].0 == items[n].0);
                    let j = choose|j: int| 0 <= j < p.len() && #[trigger] p[j] == (g[i].0, g[i].1[t1]);
                    assert(items[j] == p[j]);
                    assert(le(items[j].1, items[n].1));
                }
            }
        }
    }
}

/// Every item lies in the group of its key.
pub proof fn lemma_group_covers<K, V>(items: Seq<(K, V)>)
    ensures
        forall|j: int|
            0 <= j < items.len() ==> exists|i: int, t: int|
                0 <= i < group_by(items).len() && 0 <= t < group_by(items)[i].1.len()
                    && group_by(items)[i].0 == (#[trigger] items[j]).0 && group_by(items)[i].1[t]
                    == items[j].1,
    decreases items.len(),
{
    if items.len() > 0 {
        let p = items.drop_last();
        let g = group_by(p);
        lemma_group_covers(p);
        lemma_find_key(g, items.last().0);
        let r = group_by(items);
        let f = find_key(g, items.last().0);
        assert forall|j: int| 0 <= j < items.len() implies exists|i: int, t: int|
            0 <= i < r.len() && 0 <= t < r[i].1.len() && r[i].0 == (#[trigger] items[j]).0
                && r[i].1[t] == items[j].1 by {
            if j < p.len() {
                assert(p[j] == items[j]);
                let (i, t) = choose|i: int, t: int|
                    0 <= i < g.len() && 0 <= t < g[i].1.len() && g[i].0 == p[j].0 && g[i].1[t]
                        == p[j].1;
                assert(r[i].0 == g[i].0 && r[i].1[t] == g[i].1[t]);
            } else if f >= 0 {
                assert(r[f].1[g[f].1.len() as int] == items[j].1);
            } else {
                assert(r[g.len() as int].1[0] == items[j].1);
            }
        }
    }
}

/// No group has more values than there are items.
pub proof fn lemma_group_sizes<K, V>(items: Seq<(K, V)>)
    ensures
        forall|i: int| 0 <= i < group_by(items).len() ==> (#[trigger] group_by(items)[i]).1.len() <= items.len(),
    decreases items.len(),
{
    if items.len() > 0 {
        let p = items.drop_last();
        lemma_group_sizes(p);
        lemma_find_key(group_by(p), items.last().0);
        let g = group_by(p);
        let r = group_by(items);
        assert forall|i: int| 0 <= i < r.len() implies (#[trigger] r[i]).1.len() <= items.len() by {
            if i < g.len() {
                assert(r[i].1.len() <= g[i].1.len() + 1);
            }
        }
    }
}

/// How many items have the key `k`.
pub open spec fn key_count<K, V>(items: Seq<(K, V)>, k: K) -> nat
    decreases items.len(),
{
    if items.len() == 0 {
        0
    } else {
        key_count(items.drop_last(), k) + if items.last().0 == k {
            1nat
        } else {
            0nat
        }
    }
}

/// A group holds as many values as there are items with its key; a key
/// without a group has no item.
pub proof fn lemma_group_count<K, V>(items: Seq<(K, V)>)
    ensures
        forall|i: int|
            0 <= i < group_by(items).len() ==> (#[trigger] group_by(items)[i]).1.len() == key_count(
                items,
                group_by(items)[i].0,
            ),
        forall|k: K| find_key(group_by(items), k) == -1 ==> #[trigger] key_count(items, k) == 0,
    decreases items.len(),
{
    if items.len() > 0 {
        let p = items.drop_last();
        let g = group_by(p);
        lemma_group_count(p);
        lemma_group_keys_distinct(p);
        lemma_find_key(g, items.last().0);
        let r = group_by(items);
        let f = find_key(g, items.last().0);
        assert forall|i: int| 0 <= i < r.len() implies (#[trigger] r[i]).1.len() == key_count(items, r[i].0) by {
            if i < g.len() {
                if i != f {
                    assert(r[i] == g[i]);
                    assert(g[i].0 != items.last().0);
                }
            } else {
                assert(key_count(p, items.last().0) == 0);
            }
        }
        assert(r.len() >= g.len());
        assert forall|j: int| 0 <= j < g.len() implies #[trigger] r[j].0 == g[j].0 by {}
        assert forall|k: K| find_key(r, k) == -1 implies #[trigger] key_count(items, k) == 0 by {
            lemma_find_key(r, k);
            lemma_find_key(g, k);
            if find_key(g, k) >= 0 {
                let j = find_key(g, k);
                assert(g[j].0 == k);
                assert(r[j].0 == k);
                assert(false);
            }
            if items.last().0 == k {
                if f >= 0 {
                    assert(r[f].0 == k);
                } else {
                    assert(r[g.len() as int].0 == k);
                }
                assert(false);
            }
            assert(key_count(p, k) == 0);
        }
    }
}

} // verus!
