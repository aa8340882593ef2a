use vstd::prelude::*;

use crate::BoxNode;

verus! {

/// The map reached from `m` by applying `writes` in order: a write of
/// `Some(v)` stores `v` under its key, a write of `None` removes the key.
/// These are the changes that `Tree::insert` and `Tree::remove` make to the
/// tree's view.
pub open spec fn replay<V>(m: Map<Seq<u8>, V>, writes: Seq<(Seq<u8>, Option<V>)>) -> Map<
    Seq<u8>,
    V,
>
    decreases writes.len(),
{
    if writes.len() == 0 {
        m
    } else {
        let m1 = replay(m, writes.drop_last());
        let (k, w) = writes.last();
        match w {
            Some(v) => m1.insert(k, v),
            None => m1.remove(k),
        }
    }
}

/// What the last write to `k` in `writes` was, if any write touches `k`.
pub open spec fn last_write<V>(writes: Seq<(Seq<u8>, Option<V>)>, k: Seq<u8>) -> Option<Option<V>>
    decreases writes.len(),
{
    if writes.len() == 0 {
        None
    } else if writes.last().0 == k {
        Some(writes.last().1)
    } else {
        last_write(writes.drop_last(), k)
    }
}

/// The map reached from the empty one by storing each pair in order.
pub open spec fn insert_all<V>(pairs: Seq<(Seq<u8>, V)>) -> Map<Seq<u8>, V>
    decreases pairs.len(),
{
    if pairs.len() == 0 {
        Map::empty()
    } else {
        insert_all(pairs.drop_last()).insert(pairs.last().0, pairs.last().1)
    }
}

/// No key appears in `pairs` with two different values.
pub open spec fn consistent<V>(pairs: Seq<(Seq<u8>, V)>) -> bool {
    forall|i: int, j: int|
        0 <= i < pairs.len() && 0 <= j < pairs.len() && #[trigger] pairs[i].0 == #[trigger] pairs[j].0
            ==> pairs[i].1 == pairs[j].1
}

/// After any sequence of inserts and removes on an empty tree, a key maps to
/// `v` exactly when the last write to it stored `v`; it is absent when it was
/// never written or its last write removed it.
pub proof fn law_last_write_wins<V>(writes: Seq<(Seq<u8>, Option<V>)>, k: Seq<u8>)
    ensures
        replay(Map::empty(), writes).contains_key(k) <==> last_write(writes, k) matches Some(
            Some(_),
        ),
        replay(Map::empty(), writes).contains_key(k) ==> last_write(writes, k) == Some(
            Some(replay(Map::empty(), writes)[k]),
        ),
    decreases writes.len(),
{
    if writes.len() > 0 {
        law_last_write_wins(writes.drop_last(), k);
    }
}

/// Storing `v2` under a key that holds `v1` finds `v1` there, and afterwards
/// the key holds `v2`.
pub proof fn law_overwrite<V>(m: Map<Seq<u8>, V>, k: Seq<u8>, v1: V, v2: V)
    ensures
        m.insert(k, v1).contains_key(k),
        m.insert(k, v1)[k] == v1,
        m.insert(k, v1).insert(k, v2).contains_key(k),
        m.insert(k, v1).insert(k, v2)[k] == v2,
{
}

/// The number of keys grows by one on an insert of a new key and stays on an
/// overwrite; it drops by one on a remove of a present key and stays on a
/// remove of an absent one.
pub proof fn law_count<V>(m: Map<Seq<u8>, V>, k: Seq<u8>, v: V)
    requires
        m.dom().finite(),
    ensures
        m.insert(k, v).len() == if m.contains_key(k) {
            m.len()
        } else {
            m.len() + 1
        },
        m.remove(k).len() == if m.contains_key(k) {
            m.len() - 1
        } else {
            m.len() as int
        },
{
    assert(m.insert(k, v).dom() =~= m.dom().insert(k));
    assert(m.remove(k).dom() =~= m.dom().remove(k));
    if !m.contains_key(k) {
        assert(m.dom().insert(k).len() == m.dom().len() + 1);
        assert(m.dom().remove(k) =~= m.dom());
    } else {
        assert(m.dom().insert(k) =~= m.dom());
    }
}

proof fn lemma_insert_all<V>(pairs: Seq<(Seq<u8>, V)>, k: Seq<u8>)
    requires
        consistent(pairs),
    ensures
        insert_all(pairs).contains_key(k) <==> exists|i: int|
            0 <= i < pairs.len() && #[trigger] pairs[i].0 == k,
        forall|i: int|
            0 <= i < pairs.len() && #[trigger] pairs[i].0 == k ==> insert_all(pairs)[k]
                == pairs[i].1,
        insert_all(pairs).dom().finite(),
    decreases pairs.len(),
{
    if pairs.len() > 0 {
        let init = pairs.drop_last();
        assert(consistent(init)) by {
            assert forall|i: int, j: int|
                0 <= i < init.len() && 0 <= j < init.len() && #[trigger] init[i].0
                    == #[trigger] init[j].0 implies init[i].1 == init[j].1 by {
                assert(pairs[i] == init[i] && pairs[j] == init[j]);
            }
        }
        lemma_insert_all(init, k);
        let n = pairs.len() - 1;
        if insert_all(init).contains_key(k) {
            let i = choose|i: int| 0 <= i < init.len() && #[trigger] init[i].0 == k;
            assert(pairs[i].0 == k);
        }
        assert forall|i: int| 0 <= i < pairs.len() && #[trigger] pairs[i].0 == k implies insert_all(
            pairs,
        )[k] == pairs[i].1 by {
            if i < n {
                assert(init[i].0 == k);
                if pairs[n].0 == k {
                    assert(pairs[i].1 == pairs[n].1);
                }
            }
        }
        if exists|i: int| 0 <= i < pairs.len() && #[trigger] pairs[i].0 == k {
            let i = choose|i: int| 0 <= i < pairs.len() && #[trigger] pairs[i].0 == k;
            if i < n {
                assert(init[i].0 == k);
            }
        }
    }
}

/// Inserting distinct keys, in any order, stores each of them with its own
/// value, and nothing else.
pub proof fn law_round_trip<V>(pairs: Seq<(Seq<u8>, V)>)
    requires
        forall|i: int, j: int|
            0 <= i < j < pairs.len() ==> #[trigger] pairs[i].0 != #[trigger] pairs[j].0,
    ensures
        forall|i: int|
            0 <= i < pairs.len() ==> insert_all(pairs).contains_key(#[trigger] pairs[i].0)
                && insert_all(pairs)[pairs[i].0] == pairs[i].1,
        forall|k: Seq<u8>|
            #[trigger] insert_all(pairs).contains_key(k) ==> exists|i: int|
                0 <= i < pairs.len() && pairs[i].0 == k,
{
    assert(consistent(pairs)) by {
        assert forall|i: int, j: int|
            0 <= i < pairs.len() && 0 <= j < pairs.len() && #[trigger] pairs[i].0
                == #[trigger] pairs[j].0 implies pairs[i].1 == pairs[j].1 by {
            if i < j {
                assert(pairs[i].0 != pairs[j].0);
            } else if j < i {
                assert(pairs[j].0 != pairs[i].0);
            }
        }
    }
    assert forall|i: int| 0 <= i < pairs.len() implies insert_all(pairs).contains_key(
        #[trigger] pairs[i].0,
    ) && insert_all(pairs)[pairs[i].0] == pairs[i].1 by {
        lemma_insert_all(pairs, pairs[i].0);
    }
    assert forall|k: Seq<u8>| #[trigger] insert_all(pairs).contains_key(k) implies exists|i: int|
        0 <= i < pairs.len() && pairs[i].0 == k by {
        lemma_insert_all(pairs, k);
    }
}

/// Two trees built from the same multiset of pairs, inserted in different
/// orders, hold the same map, provided no key comes with two different
/// values.
pub proof fn law_order_independent<V>(first: Seq<(Seq<u8>, V)>, second: Seq<(Seq<u8>, V)>)
    requires
        first.to_multiset() == second.to_multiset(),
        consistent(first),
    ensures
        insert_all(first) == insert_all(second),
{
    first.to_multiset_ensures();
    second.to_multiset_ensures();
    assert(consistent(second)) by {
        assert forall|i: int, j: int|
            0 <= i < second.len() && 0 <= j < second.len() && #[trigger] second[i].0 == #[trigger] second[j].0 implies second[i].1
            == second[j].1 by {
            assert(second.contains(second[i]));
            assert(second.contains(second[j]));
            assert(first.to_multiset().count(second[i]) > 0);
            assert(first.to_multiset().count(second[j]) > 0);
            assert(first.contains(second[i]));
            assert(first.contains(second[j]));
            let a = choose|a: int| 0 <= a < first.len() && first[a] == second[i];
            let b = choose|b: int| 0 <= b < first.len() && first[b] == second[j];
            assert(first[a].0 == first[b].0);
        }
    }
    assert forall|k: Seq<u8>|
        #[trigger] insert_all(first).contains_key(k) == insert_all(second).contains_key(k) && (
        insert_all(first).contains_key(k) ==> insert_all(first)[k] == insert_all(second)[k]) by {
        lemma_insert_all(first, k);
        lemma_insert_all(second, k);
        if exists|i: int| 0 <= i < first.len() && #[trigger] first[i].0 == k {
            let i = choose|i: int| 0 <= i < first.len() && #[trigger] first[i].0 == k;
            assert(first.contains(first[i]));
            assert(second.to_multiset().count(first[i]) > 0);
            assert(second.contains(first[i]));
            let j = choose|j: int| 0 <= j < second.len() && second[j] == first[i];
            assert(second[j].0 == k);
        }
        if exists|j: int| 0 <= j < second.len() && #[trigger] second[j].0 == k {
            let j = choose|j: int| 0 <= j < second.len() && #[trigger] second[j].0 == k;
            assert(second.contains(second[j]));
            assert(first.to_multiset().count(second[j]) > 0);
            assert(first.contains(second[j]));
            let i = choose|i: int| 0 <= i < first.len() && first[i] == second[j];
            assert(first[i].0 == k);
        }
    }
    lemma_insert_all(first, Seq::empty());
    lemma_insert_all(second, Seq::empty());
    assert(insert_all(first) =~= insert_all(second));
}

/// In a tree built by inserts, an inner node's kind follows from its number
/// of children: up to 4 in a Node4, 5 to 16 in a Node16, 17 to 48 in a
/// Node48 and more in a Node256.
pub proof fn law_kind_by_fanout<V>(n: BoxNode<V>)
    requires
        n.wf(),
        n.snug(),
    ensures
        n is Node4 <==> n.count() <= 4,
        n is Node16 <==> 4 < n.count() <= 16,
        n is Node48 <==> 16 < n.count() <= 48,
        n is Node256 <==> 48 < n.count(),
{
    if let BoxNode::Node256(x) = n {
        crate::node256::lemma_occupied_le(x.children@);
    }
}

} // verus!
