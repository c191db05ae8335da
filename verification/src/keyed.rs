//! The model of a small string-keyed table kept as a list of entries with
//! distinct keys: the map it stands for, and how the list operations act
//! on that map.

use vstd::prelude::*;

verus! {

/// The map a list of entries stands for: each entry's key maps to its
/// value, a later entry for a key replacing an earlier one.
pub open spec fn pairs_map<V>(ps: Seq<(Seq<char>, V)>) -> Map<Seq<char>, V>
    decreases ps.len(),
{
    if ps.len() == 0 {
        Map::empty()
    } else {
        pairs_map(ps.drop_last()).insert(ps.last().0, ps.last().1)
    }
}

/// No key occurs in two entries.
pub open spec fn distinct_keys<V>(ps: Seq<(Seq<char>, V)>) -> bool {
    forall|i: int, j: int| 0 <= i < ps.len() && 0 <= j < ps.len() && i != j ==> #[trigger] ps[i].0 != #[trigger] ps[j].0
}

pub proof fn lemma_pairs_map_push<V>(ps: Seq<(Seq<char>, V)>, e: (Seq<char>, V))
    ensures
        pairs_map(ps.push(e)) == pairs_map(ps).insert(e.0, e.1),
{
    assert(ps.push(e).drop_last() =~= ps);
}

pub proof fn lemma_pairs_map_lookup<V>(ps: Seq<(Seq<char>, V)>, k: Seq<char>)
    requires
        distinct_keys(ps),
    ensures
        pairs_map(ps).contains_key(k) <==> exists|i: int| 0 <= i < ps.len() && #[trigger] ps[i].0 == k,
        forall|i: int| 0 <= i < ps.len() && #[trigger] ps[i].0 == k ==> pairs_map(ps)[k] == ps[i].1,
    decreases ps.len(),
{
    if ps.len() > 0 {
        let init = ps.drop_last();
        assert(distinct_keys(init)) by {
            assert forall|i: int, j: int|
                0 <= i < init.len() && 0 <= j < init.len() && i != j implies #[trigger] init[i].0
                != #[trigger] init[j].0 by {
                assert(init[i] == ps[i]);
                assert(init[j] == ps[j]);
            }
        }
        lemma_pairs_map_lookup(init, k);
        if pairs_map(ps).contains_key(k) {
            if k == ps.last().0 {
                assert(ps[ps.len() - 1].0 == k);
            } else {
                let i = choose|i: int| 0 <= i < init.len() && #[trigger] init[i].0 == k;
                assert(ps[i] == init[i]);
            }
        }
        assert forall|i: int| 0 <= i < ps.len() && #[trigger] ps[i].0 == k implies pairs_map(
            ps,
        )[k] == ps[i].1 by {
            if i < ps.len() - 1 {
                assert(init[i] == ps[i]);
                assert(ps[ps.len() - 1].0 != ps[i].0);
            }
        }
        if exists|i: int| 0 <= i < ps.len() && #[trigger] ps[i].0 == k {
            let i = choose|i: int| 0 <= i < ps.len() && #[trigger] ps[i].0 == k;
            if i < ps.len() - 1 {
                assert(init[i] == ps[i]);
            }
        }
    }
}

pub proof fn lemma_pairs_map_update<V>(ps: Seq<(Seq<char>, V)>, i: int, v: V)
    requires
        distinct_keys(ps),
        0 <= i < ps.len(),
    ensures
        distinct_keys(ps.update(i, (ps[i].0, v))),
        pairs_map(ps.update(i, (ps[i].0, v))) == pairs_map(ps).insert(ps[i].0, v),
    decreases ps.len(),
{
    let k = ps[i].0;
    let qs = ps.update(i, (k, v));
    assert forall|a: int, b: int|
        0 <= a < qs.len() && 0 <= b < qs.len() && a != b implies #[trigger] qs[a].0
        != #[trigger] qs[b].0 by {
        assert(qs[a].0 == ps[a].0);
        assert(qs[b].0 == ps[b].0);
    }
    let init = ps.drop_last();
    if i == ps.len() - 1 {
        assert(qs.drop_last() =~= init);
        assert(pairs_map(qs) =~= pairs_map(ps).insert(k, v));
    } else {
        assert(distinct_keys(init)) by {
            assert forall|a: int, b: int|
                0 <= a < init.len() && 0 <= b < init.len() && a != b implies #[trigger] init[a].0
                != #[trigger] init[b].0 by {
                assert(init[a] == ps[a]);
                assert(init[b] == ps[b]);
            }
        }
        lemma_pairs_map_update(init, i, v);
        assert(qs.drop_last() =~= init.update(i, (k, v)));
        assert(ps.last().0 != k) by {
            assert(ps[ps.len() - 1].0 != ps[i].0);
        }
        assert(pairs_map(qs) =~= pairs_map(ps).insert(k, v));
    }
}

pub proof fn lemma_pairs_map_len<V>(ps: Seq<(Seq<char>, V)>)
    requires
        distinct_keys(ps),
    ensures
        pairs_map(ps).dom().finite(),
        pairs_map(ps).dom().len() == ps.len(),
    decreases ps.len(),
{
    if ps.len() > 0 {
        let init = ps.drop_last();
        assert(distinct_keys(init)) by {
            assert forall|a: int, b: int|
                0 <= a < init.len() && 0 <= b < init.len() && a != b implies #[trigger] init[a].0
                != #[trigger] init[b].0 by {
                assert(init[a] == ps[a]);
                assert(init[b] == ps[b]);
            }
        }
        lemma_pairs_map_len(init);
        lemma_pairs_map_lookup(init, ps.last().0);
        if pairs_map(init).contains_key(ps.last().0) {
            let i = choose|i: int| 0 <= i < init.len() && #[trigger] init[i].0 == ps.last().0;
            assert(init[i] == ps[i]);
            assert(ps[ps.len() - 1].0 != ps[i].0);
        }
        assert(pairs_map(ps).dom() =~= pairs_map(init).dom().insert(ps.last().0));
    } else {
        assert(pairs_map(ps).dom() =~= Set::<Seq<char>>::empty());
    }
}

pub proof fn lemma_distinct_push<V>(ps: Seq<(Seq<char>, V)>, e: (Seq<char>, V))
    requires
        distinct_keys(ps),
        forall|i: int| 0 <= i < ps.len() ==> #[trigger] ps[i].0 != e.0,
    ensures
        distinct_keys(ps.push(e)),
{
    let qs = ps.push(e);
    assert forall|a: int, b: int|
        0 <= a < qs.len() && 0 <= b < qs.len() && a != b implies #[trigger] qs[a].0
        != #[trigger] qs[b].0 by {
        if a < ps.len() {
            assert(qs[a] == ps[a]);
        }
        if b < ps.len() {
            assert(qs[b] == ps[b]);
        }
    }
}

} // verus!
