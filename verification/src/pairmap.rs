//! Ghost reasoning about association sequences: both the peer registry
//! and the negotiation controller store their entries as a vector of
//! `(PeerId, value)` pairs with pairwise-distinct keys, and present a
//! `Map` view built by [`map_of`]. The lemmas here relate the sequence
//! operations the executable code performs to `Map` operations on the
//! view.

use vstd::prelude::*;

use crate::wire::PeerId;

verus! {

/// True when no key occurs twice in the association sequence.
pub open spec fn distinct_keys<V>(s: Seq<(PeerId, V)>) -> bool {
    forall|i: int, j: int|
        0 <= i < j < s.len() ==> (#[trigger] s[i]).0 != (#[trigger] s[j]).0
}

/// The finite map described by an association sequence. A later entry
/// shadows an earlier one with the same key; sequences with distinct
/// keys have no shadowing.
pub open spec fn map_of<V>(s: Seq<(PeerId, V)>) -> Map<PeerId, V>
    decreases s.len(),
{
    if s.len() == 0 {
        Map::empty()
    } else {
        map_of(s.drop_last()).insert(s.last().0, s.last().1)
    }
}

/// A key is in the map exactly when some entry carries it.
pub proof fn lemma_map_of_contains<V>(s: Seq<(PeerId, V)>)
    ensures
        forall|p: PeerId|
            #[trigger] map_of(s).contains_key(p) <==> (exists|i: int|
                0 <= i < s.len() && (#[trigger] s[i]).0 == p),
    decreases s.len(),
{
    if s.len() > 0 {
        lemma_map_of_contains(s.drop_last());
        assert forall|p: PeerId| #[trigger] map_of(s).contains_key(p) implies (exists|i: int|
            0 <= i < s.len() && (#[trigger] s[i]).0 == p) by {
            if p == s.last().0 {
                assert((s[s.len() - 1]).0 == p);
            } else {
                assert(map_of(s.drop_last()).contains_key(p));
                let i = choose|i: int|
                    0 <= i < s.drop_last().len() && (#[trigger] s.drop_last()[i]).0 == p;
                assert(s.drop_last()[i] == s[i]);
                assert((s[i]).0 == p);
            }
        }
        assert forall|p: PeerId| (exists|i: int| 0 <= i < s.len() && (#[trigger] s[i]).0 == p)
            implies #[trigger] map_of(s).contains_key(p) by {
            let i = choose|i: int| 0 <= i < s.len() && (#[trigger] s[i]).0 == p;
            if i < s.len() - 1 {
                assert(s.drop_last()[i] == s[i]);
                assert((s.drop_last()[i]).0 == p);
                assert(map_of(s.drop_last()).contains_key(p));
            }
        }
    }
}

/// With distinct keys, each entry's value is the map's value at its key.
pub proof fn lemma_map_of_index<V>(s: Seq<(PeerId, V)>)
    requires
        distinct_keys(s),
    ensures
        forall|i: int|
            0 <= i < s.len() ==> map_of(s).contains_key((#[trigger] s[i]).0)
                && map_of(s)[s[i].0] == s[i].1,
    decreases s.len(),
{
    if s.len() > 0 {
        assert forall|i: int, j: int|
            0 <= i < j < s.drop_last().len() implies (#[trigger] s.drop_last()[i]).0
                != (#[trigger] s.drop_last()[j]).0 by {
            assert(s.drop_last()[i] == s[i]);
            assert(s.drop_last()[j] == s[j]);
        }
        lemma_map_of_index(s.drop_last());
        assert forall|i: int|
            0 <= i < s.len() implies map_of(s).contains_key((#[trigger] s[i]).0)
                && map_of(s)[s[i].0] == s[i].1 by {
            if i < s.len() - 1 {
                assert(s.drop_last()[i] == s[i]);
                assert((s[i]).0 != (s[s.len() - 1]).0);
            }
        }
    }
}

/// Appending a fresh entry inserts its binding into the view.
pub proof fn lemma_map_of_push<V>(s: Seq<(PeerId, V)>, k: PeerId, v: V)
    ensures
        map_of(s.push((k, v))) == map_of(s).insert(k, v),
{
    assert(s.push((k, v)).drop_last() =~= s);
    assert(s.push((k, v)).last() == (k, v));
}

/// Overwriting the value of an entry updates its binding in the view.
pub proof fn lemma_map_of_update<V>(s: Seq<(PeerId, V)>, i: int, v: V)
    requires
        distinct_keys(s),
        0 <= i < s.len(),
    ensures
        map_of(s.update(i, ((s[i]).0, v))) == map_of(s).insert((s[i]).0, v),
    decreases s.len(),
{
    let k = (s[i]).0;
    let t = s.update(i, (k, v));
    if i == s.len() - 1 {
        assert(t.drop_last() =~= s.drop_last());
        assert(t.last() == (k, v));
        assert(map_of(t) =~= map_of(s).insert(k, v));
    } else {
        assert forall|x: int, y: int|
            0 <= x < y < s.drop_last().len() implies (#[trigger] s.drop_last()[x]).0
                != (#[trigger] s.drop_last()[y]).0 by {
            assert(s.drop_last()[x] == s[x]);
            assert(s.drop_last()[y] == s[y]);
        }
        assert(s.drop_last()[i] == s[i]);
        lemma_map_of_update(s.drop_last(), i, v);
        assert(t.drop_last() =~= s.drop_last().update(i, (k, v)));
        assert(t.last() == s.last());
        assert(k != (s[s.len() - 1]).0);
        assert(map_of(t) =~= map_of(s).insert(k, v));
    }
}

/// Removing an entry removes its binding from the view.
pub proof fn lemma_map_of_remove<V>(s: Seq<(PeerId, V)>, i: int)
    requires
        distinct_keys(s),
        0 <= i < s.len(),
    ensures
        map_of(s.remove(i)) == map_of(s).remove((s[i]).0),
    decreases s.len(),
{
    let k = (s[i]).0;
    if i == s.len() - 1 {
        assert(s.remove(i) =~= s.drop_last());
        lemma_map_of_contains(s.drop_last());
        assert(!map_of(s.drop_last()).contains_key(k)) by {
            if map_of(s.drop_last()).contains_key(k) {
                let j = choose|j: int|
                    0 <= j < s.drop_last().len() && (#[trigger] s.drop_last()[j]).0 == k;
                assert(s.drop_last()[j] == s[j]);
                assert((s[j]).0 == (s[i]).0);
                assert(false);
            }
        }
        assert(map_of(s.remove(i)) =~= map_of(s).remove(k));
    } else {
        let t = s.remove(i);
        assert forall|x: int, y: int|
            0 <= x < y < s.drop_last().len() implies (#[trigger] s.drop_last()[x]).0
                != (#[trigger] s.drop_last()[y]).0 by {
            assert(s.drop_last()[x] == s[x]);
            assert(s.drop_last()[y] == s[y]);
        }
        assert(s.drop_last()[i] == s[i]);
        lemma_map_of_remove(s.drop_last(), i);
        assert(t.drop_last() =~= s.drop_last().remove(i)) by {
            assert forall|j: int| 0 <= j < t.drop_last().len() implies t.drop_last()[j]
                == s.drop_last().remove(i)[j] by {
                if j < i {
                    assert(t[j] == s[j]);
                } else {
                    assert(t[j] == s[j + 1]);
                }
            }
        }
        assert(t.last() == s.last());
        assert(k != (s[s.len() - 1]).0);
        assert(map_of(t) =~= map_of(s).remove(k));
    }
}

/// Taking an entry out and reinserting a replacement at the same spot is
/// an update of the sequence.
pub proof fn lemma_remove_insert_is_update<T>(s: Seq<T>, i: int, e: T)
    requires
        0 <= i < s.len(),
    ensures
        s.remove(i).insert(i, e) == s.update(i, e),
{
    assert(s.remove(i).insert(i, e) =~= s.update(i, e));
}

} // verus!
