//! Association lists with distinct keys, and the mathematical maps they
//! stand for. The registry stores its string-keyed and identity-keyed
//! mappings this way, so every operation can be verified against a
//! `Map` view.

use vstd::prelude::*;

use crate::identity::Identity;

verus! {

// ---------------------------------------------------------------------------
// String-keyed pair lists
// ---------------------------------------------------------------------------

/// All keys of the pair list are distinct, compared by contents.
pub open spec fn kv_distinct(s: Seq<(String, String)>) -> bool {
    forall|i: int, j: int|
        0 <= i < j < s.len() ==> (#[trigger] s[i]).0@ != (#[trigger] s[j]).0@
}

/// The map a pair list stands for; later entries win, though well-formed
/// lists never repeat a key.
pub open spec fn kv_map(s: Seq<(String, String)>) -> Map<Seq<char>, Seq<char>>
    decreases s.len(),
{
    if s.len() == 0 {
        Map::empty()
    } else {
        kv_map(s.drop_last()).insert(s.last().0@, s.last().1@)
    }
}

/// The key contents of a pair list, in list order.
pub open spec fn kv_keys(s: Seq<(String, String)>) -> Seq<Seq<char>> {
    s.map_values(|p: (String, String)| p.0@)
}

pub proof fn lemma_kv_distinct_drop_last(s: Seq<(String, String)>)
    requires
        s.len() > 0,
        kv_distinct(s),
    ensures
        kv_distinct(s.drop_last()),
{
    assert forall|i: int, j: int|
        0 <= i < j < s.drop_last().len() implies (#[trigger] s.drop_last()[i]).0@
        != (#[trigger] s.drop_last()[j]).0@ by {
        assert(s.drop_last()[i] == s[i]);
        assert(s.drop_last()[j] == s[j]);
    }
}

/// A key is in the map exactly when some list entry carries it.
pub proof fn lemma_kv_map_contains(s: Seq<(String, String)>, k: Seq<char>)
    ensures
        kv_map(s).contains_key(k) <==> exists|i: int|
            0 <= i < s.len() && (#[trigger] s[i]).0@ == k,
    decreases s.len(),
{
    if s.len() > 0 {
        lemma_kv_map_contains(s.drop_last(), k);
        if s.last().0@ == k {
            assert((s[s.len() - 1]).0@ == k);
        } else if kv_map(s).contains_key(k) {
            let i = choose|i: int|
                0 <= i < s.drop_last().len() && (#[trigger] s.drop_last()[i]).0@ == k;
            assert((s[i]).0@ == k);
        } else {
            assert forall|i: int| 0 <= i < s.len() implies (#[trigger] s[i]).0@ != k by {
                if i < s.len() - 1 {
                    assert(s.drop_last()[i] == s[i]);
                }
            }
        }
    }
}

/// In a well-formed list, each entry gives the map's value at its key.
pub proof fn lemma_kv_map_index(s: Seq<(String, String)>, i: int)
    requires
        kv_distinct(s),
        0 <= i < s.len(),
    ensures
        kv_map(s).contains_key(s[i].0@),
        kv_map(s)[s[i].0@] == s[i].1@,
    decreases s.len(),
{
    if i < s.len() - 1 {
        lemma_kv_distinct_drop_last(s);
        lemma_kv_map_index(s.drop_last(), i);
        assert(s.drop_last()[i] == s[i]);
        assert(s.last().0@ != s[i].0@);
    }
}

/// Appending a pair inserts its contents into the map.
pub proof fn lemma_kv_map_push(s: Seq<(String, String)>, p: (String, String))
    ensures
        kv_map(s.push(p)) == kv_map(s).insert(p.0@, p.1@),
{
    assert(s.push(p).drop_last() =~= s);
    assert(s.push(p).last() == p);
}

/// Appending a fresh key keeps the keys distinct.
pub proof fn lemma_kv_distinct_push(s: Seq<(String, String)>, p: (String, String))
    requires
        kv_distinct(s),
        forall|i: int| 0 <= i < s.len() ==> (#[trigger] s[i]).0@ != p.0@,
    ensures
        kv_distinct(s.push(p)),
{
    assert forall|i: int, j: int|
        0 <= i < j < s.push(p).len() implies (#[trigger] s.push(p)[i]).0@
        != (#[trigger] s.push(p)[j]).0@ by {
        if j < s.len() {
            assert(s.push(p)[i] == s[i]);
            assert(s.push(p)[j] == s[j]);
        } else {
            assert(s.push(p)[i] == s[i]);
            assert(s.push(p)[j] == p);
        }
    }
}

/// Removing an entry removes its key from the map.
pub proof fn lemma_kv_map_remove(s: Seq<(String, String)>, i: int)
    requires
        kv_distinct(s),
        0 <= i < s.len(),
    ensures
        kv_map(s.remove(i)) == kv_map(s).remove(s[i].0@),
        kv_distinct(s.remove(i)),
    decreases s.len(),
{
    s.remove_ensures(i);
    assert forall|a: int, b: int|
        0 <= a < b < s.remove(i).len() implies (#[trigger] s.remove(i)[a]).0@
        != (#[trigger] s.remove(i)[b]).0@ by {
        let a2: int = if a < i { a } else { a + 1 };
        let b2: int = if b < i { b } else { b + 1 };
        assert(s.remove(i)[a] == s[a2]);
        assert(s.remove(i)[b] == s[b2]);
    }
    if i == s.len() - 1 {
        assert(s.remove(i) =~= s.drop_last());
        lemma_kv_map_contains(s.drop_last(), s[i].0@);
        assert forall|x: int|
            0 <= x < s.drop_last().len() implies (#[trigger] s.drop_last()[x]).0@ != s[i].0@ by {
            assert(s.drop_last()[x] == s[x]);
        }
        assert(!kv_map(s.drop_last()).contains_key(s[i].0@));
        assert(kv_map(s.drop_last()).insert(s[i].0@, s[i].1@).remove(s[i].0@) =~= kv_map(
            s.drop_last(),
        ));
    } else {
        lemma_kv_distinct_drop_last(s);
        lemma_kv_map_remove(s.drop_last(), i);
        assert(s.remove(i).drop_last() =~= s.drop_last().remove(i));
        assert(s.remove(i).last() == s.last());
        assert(s.drop_last()[i] == s[i]);
        // last key differs from the removed key, so remove and insert commute
        assert(s.last().0@ != s[i].0@);
        assert(kv_map(s.drop_last()).remove(s[i].0@).insert(s.last().0@, s.last().1@) =~= kv_map(
            s.drop_last(),
        ).insert(s.last().0@, s.last().1@).remove(s[i].0@));
    }
}

/// Replacing an entry's value under its unchanged key updates the map.
pub proof fn lemma_kv_map_update(s: Seq<(String, String)>, i: int, p: (String, String))
    requires
        kv_distinct(s),
        0 <= i < s.len(),
        p.0@ == s[i].0@,
    ensures
        kv_map(s.update(i, p)) == kv_map(s).insert(p.0@, p.1@),
        kv_distinct(s.update(i, p)),
    decreases s.len(),
{
    assert forall|a: int, b: int|
        0 <= a < b < s.update(i, p).len() implies (#[trigger] s.update(i, p)[a]).0@
        != (#[trigger] s.update(i, p)[b]).0@ by {
        assert((s.update(i, p)[a]).0@ == s[a].0@);
        assert((s.update(i, p)[b]).0@ == s[b].0@);
    }
    if i == s.len() - 1 {
        assert(s.update(i, p).drop_last() =~= s.drop_last());
        assert(s.update(i, p).last() == p);
        assert(kv_map(s.drop_last()).insert(s[i].0@, s[i].1@).insert(p.0@, p.1@) =~= kv_map(
            s.drop_last(),
        ).insert(p.0@, p.1@));
    } else {
        lemma_kv_distinct_drop_last(s);
        assert(s.drop_last()[i] == s[i]);
        lemma_kv_map_update(s.drop_last(), i, p);
        assert(s.update(i, p).drop_last() =~= s.drop_last().update(i, p));
        assert(s.update(i, p).last() == s.last());
        assert(s.last().0@ != s[i].0@);
        assert(kv_map(s.drop_last()).insert(p.0@, p.1@).insert(s.last().0@, s.last().1@) =~= kv_map(
            s.drop_last(),
        ).insert(s.last().0@, s.last().1@).insert(p.0@, p.1@));
    }
}

/// A well-formed list has as many entries as its map has keys.
pub proof fn lemma_kv_map_len(s: Seq<(String, String)>)
    requires
        kv_distinct(s),
    ensures
        kv_map(s).dom().finite(),
        kv_map(s).dom().len() == s.len(),
    decreases s.len(),
{
    if s.len() > 0 {
        lemma_kv_distinct_drop_last(s);
        lemma_kv_map_len(s.drop_last());
        lemma_kv_map_contains(s.drop_last(), s.last().0@);
        assert forall|x: int|
            0 <= x < s.drop_last().len() implies (#[trigger] s.drop_last()[x]).0@
            != s.last().0@ by {
            assert(s.drop_last()[x] == s[x]);
            assert((s[s.len() - 1]).0@ == s.last().0@);
        }
        assert(!kv_map(s.drop_last()).contains_key(s.last().0@));
    }
}

/// The key contents of a well-formed list repeat nothing and cover the
/// map's domain.
pub proof fn lemma_kv_keys(s: Seq<(String, String)>)
    requires
        kv_distinct(s),
    ensures
        kv_keys(s).no_duplicates(),
        kv_keys(s).to_set() == kv_map(s).dom(),
{
    assert forall|i: int, j: int|
        0 <= i < kv_keys(s).len() && 0 <= j < kv_keys(s).len() && i != j implies kv_keys(s)[i]
        != kv_keys(s)[j] by {
        assert(kv_keys(s)[i] == s[i].0@);
        assert(kv_keys(s)[j] == s[j].0@);
    }
    assert forall|k: Seq<char>| kv_keys(s).to_set().contains(k) implies kv_map(
        s,
    ).dom().contains(k) by {
        let i = choose|i: int| 0 <= i < kv_keys(s).len() && kv_keys(s)[i] == k;
        lemma_kv_map_index(s, i);
    }
    assert forall|k: Seq<char>| kv_map(s).dom().contains(k) implies kv_keys(s).to_set().contains(
        k,
    ) by {
        lemma_kv_map_contains(s, k);
        let i = choose|i: int| 0 <= i < s.len() && (#[trigger] s[i]).0@ == k;
        assert(kv_keys(s)[i] == k);
    }
    assert(kv_keys(s).to_set() =~= kv_map(s).dom());
}

// ---------------------------------------------------------------------------
// Identity-keyed pair lists
// ---------------------------------------------------------------------------

/// All identities of the pair list are distinct.
pub open spec fn id_distinct<V>(s: Seq<(Identity, V)>) -> bool {
    forall|i: int, j: int|
        0 <= i < j < s.len() ==> (#[trigger] s[i]).0.id != (#[trigger] s[j]).0.id
}

/// The map from identity tokens to value views that the list stands for.
pub open spec fn amap<V: View>(s: Seq<(Identity, V)>) -> Map<u128, V::V>
    decreases s.len(),
{
    if s.len() == 0 {
        Map::empty()
    } else {
        amap(s.drop_last()).insert(s.last().0.id, s.last().1@)
    }
}

pub proof fn lemma_id_distinct_drop_last<V>(s: Seq<(Identity, V)>)
    requires
        s.len() > 0,
        id_distinct(s),
    ensures
        id_distinct(s.drop_last()),
{
    assert forall|i: int, j: int|
        0 <= i < j < s.drop_last().len() implies (#[trigger] s.drop_last()[i]).0.id
        != (#[trigger] s.drop_last()[j]).0.id by {
        assert(s.drop_last()[i] == s[i]);
        assert(s.drop_last()[j] == s[j]);
    }
}

/// An identity is in the map exactly when some list entry carries it.
pub proof fn lemma_amap_contains<V: View>(s: Seq<(Identity, V)>, id: u128)
    ensures
        amap(s).contains_key(id) <==> exists|i: int|
            0 <= i < s.len() && (#[trigger] s[i]).0.id == id,
    decreases s.len(),
{
    if s.len() > 0 {
        lemma_amap_contains(s.drop_last(), id);
        if s.last().0.id == id {
            assert((s[s.len() - 1]).0.id == id);
        } else if amap(s).contains_key(id) {
            let i = choose|i: int|
                0 <= i < s.drop_last().len() && (#[trigger] s.drop_last()[i]).0.id == id;
            assert((s[i]).0.id == id);
        } else {
            assert forall|i: int| 0 <= i < s.len() implies (#[trigger] s[i]).0.id != id by {
                if i < s.len() - 1 {
                    assert(s.drop_last()[i] == s[i]);
                }
            }
        }
    }
}

/// In a well-formed list, each entry gives the map's value at its identity.
pub proof fn lemma_amap_index<V: View>(s: Seq<(Identity, V)>, i: int)
    requires
        id_distinct(s),
        0 <= i < s.len(),
    ensures
        amap(s).contains_key(s[i].0.id),
        amap(s)[s[i].0.id] == s[i].1@,
    decreases s.len(),
{
    if i < s.len() - 1 {
        lemma_id_distinct_drop_last(s);
        lemma_amap_index(s.drop_last(), i);
        assert(s.drop_last()[i] == s[i]);
        assert(s.last().0.id != s[i].0.id);
    }
}

/// Appending an entry inserts its view into the map.
pub proof fn lemma_amap_push<V: View>(s: Seq<(Identity, V)>, p: (Identity, V))
    ensures
        amap(s.push(p)) == amap(s).insert(p.0.id, p.1@),
{
    assert(s.push(p).drop_last() =~= s);
    assert(s.push(p).last() == p);
}

/// Appending a fresh identity keeps the identities distinct.
pub proof fn lemma_id_distinct_push<V>(s: Seq<(Identity, V)>, p: (Identity, V))
    requires
        id_distinct(s),
        forall|i: int| 0 <= i < s.len() ==> (#[trigger] s[i]).0.id != p.0.id,
    ensures
        id_distinct(s.push(p)),
{
    assert forall|i: int, j: int|
        0 <= i < j < s.push(p).len() implies (#[trigger] s.push(p)[i]).0.id
        != (#[trigger] s.push(p)[j]).0.id by {
        if j < s.len() {
            assert(s.push(p)[i] == s[i]);
            assert(s.push(p)[j] == s[j]);
        } else {
            assert(s.push(p)[i] == s[i]);
            assert(s.push(p)[j] == p);
        }
    }
}

/// Removing an entry removes its identity from the map.
pub proof fn lemma_amap_remove<V: View>(s: Seq<(Identity, V)>, i: int)
    requires
        id_distinct(s),
        0 <= i < s.len(),
    ensures
        amap(s.remove(i)) == amap(s).remove(s[i].0.id),
        id_distinct(s.remove(i)),
    decreases s.len(),
{
    s.remove_ensures(i);
    assert forall|a: int, b: int|
        0 <= a < b < s.remove(i).len() implies (#[trigger] s.remove(i)[a]).0.id
        != (#[trigger] s.remove(i)[b]).0.id by {
        let a2: int = if a < i { a } else { a + 1 };
        let b2: int = if b < i { b } else { b + 1 };
        assert(s.remove(i)[a] == s[a2]);
        assert(s.remove(i)[b] == s[b2]);
    }
    if i == s.len() - 1 {
        assert(s.remove(i) =~= s.drop_last());
        lemma_amap_contains(s.drop_last(), s[i].0.id);
        assert forall|x: int|
            0 <= x < s.drop_last().len() implies (#[trigger] s.drop_last()[x]).0.id
            != s[i].0.id by {
            assert(s.drop_last()[x] == s[x]);
        }
        assert(!amap(s.drop_last()).contains_key(s[i].0.id));
        assert(amap(s.drop_last()).insert(s[i].0.id, s[i].1@).remove(s[i].0.id) =~= amap(
            s.drop_last(),
        ));
    } else {
        lemma_id_distinct_drop_last(s);
        lemma_amap_remove(s.drop_last(), i);
        assert(s.remove(i).drop_last() =~= s.drop_last().remove(i));
        assert(s.remove(i).last() == s.last());
        assert(s.drop_last()[i] == s[i]);
        assert(s.last().0.id != s[i].0.id);
        assert(amap(s.drop_last()).remove(s[i].0.id).insert(s.last().0.id, s.last().1@) =~= amap(
            s.drop_last(),
        ).insert(s.last().0.id, s.last().1@).remove(s[i].0.id));
    }
}

} // verus!
