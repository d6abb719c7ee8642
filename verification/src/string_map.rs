//! Association lists keyed by strings, read as maps.
//!
//! The persisted records keep their entries in vectors of (key, value)
//! pairs with pairwise distinct keys. Contracts speak of the map such a
//! list denotes: keys by their characters, values by their deep views.

use vstd::prelude::*;

verus! {

/// The map an association list denotes. A later entry would shadow an
/// earlier one with the same key; the lists kept by this crate have unique
/// keys, so no shadowing occurs.
pub open spec fn assoc_view<V: DeepView>(s: Seq<(String, V)>) -> Map<Seq<char>, V::V>
    decreases s.len(),
{
    if s.len() == 0 {
        Map::empty()
    } else {
        assoc_view(s.drop_last()).insert(s.last().0@, s.last().1.deep_view())
    }
}

/// No two entries share a key.
pub open spec fn unique_keys<V>(s: Seq<(String, V)>) -> bool {
    forall|i: int, j: int| 0 <= i < j < s.len() ==> s[i].0@ != s[j].0@
}

/// A key is in the map exactly when some entry carries it.
pub proof fn lemma_assoc_contains<V: DeepView>(s: Seq<(String, V)>, k: Seq<char>)
    ensures
        assoc_view(s).contains_key(k) <==> exists|i: int| 0 <= i < s.len() && s[i].0@ == k,
    decreases s.len(),
{
    if s.len() == 0 {
    } else {
        let prefix = s.drop_last();
        lemma_assoc_contains(prefix, k);
        if s.last().0@ == k {
            assert(s[s.len() - 1].0@ == k);
        } else {
            if assoc_view(prefix).contains_key(k) {
                let i = choose|i: int| 0 <= i < prefix.len() && prefix[i].0@ == k;
                assert(s[i].0@ == k);
            }
            if exists|i: int| 0 <= i < s.len() && s[i].0@ == k {
                let i = choose|i: int| 0 <= i < s.len() && s[i].0@ == k;
                assert(i < s.len() - 1);
                assert(prefix[i].0@ == k);
            }
        }
    }
}

/// Dropping the last entry keeps the keys unique.
proof fn lemma_unique_prefix<V>(s: Seq<(String, V)>)
    requires
        unique_keys(s),
        s.len() > 0,
    ensures
        unique_keys(s.drop_last()),
{
    let prefix = s.drop_last();
    assert forall|i: int, j: int| 0 <= i < j < prefix.len() implies prefix[i].0@ != prefix[j].0@ by {
        assert(prefix[i] == s[i]);
        assert(prefix[j] == s[j]);
    }
}

/// With unique keys, each entry is found in the map under its own key.
pub proof fn lemma_assoc_index<V: DeepView>(s: Seq<(String, V)>, i: int)
    requires
        unique_keys(s),
        0 <= i < s.len(),
    ensures
        assoc_view(s).contains_key(s[i].0@),
        assoc_view(s)[s[i].0@] == s[i].1.deep_view(),
    decreases s.len(),
{
    let prefix = s.drop_last();
    if i == s.len() - 1 {
    } else {
        lemma_unique_prefix(s);
        assert(prefix[i] == s[i]);
        lemma_assoc_index(prefix, i);
        assert(s.last().0@ != s[i].0@);
    }
}

/// Appending an entry with a fresh key inserts it into the map.
pub proof fn lemma_assoc_push<V: DeepView>(s: Seq<(String, V)>, p: String, v: V)
    requires
        forall|i: int| 0 <= i < s.len() ==> s[i].0@ != p@,
        unique_keys(s),
    ensures
        assoc_view(s.push((p, v))) == assoc_view(s).insert(p@, v.deep_view()),
        unique_keys(s.push((p, v))),
{
    let t = s.push((p, v));
    assert(t.drop_last() =~= s);
    assert(t.last() == (p, v));
    assert forall|i: int, j: int| 0 <= i < j < t.len() implies t[i].0@ != t[j].0@ by {
        if j < s.len() {
            assert(t[i] == s[i] && t[j] == s[j]);
        } else {
            assert(t[i] == s[i] && t[j] == (p, v));
        }
    }
}

/// Replacing the entry at `i`, under a key spelled the same, updates the map
/// at that key.
pub proof fn lemma_assoc_update<V: DeepView>(s: Seq<(String, V)>, i: int, p: String, v: V)
    requires
        unique_keys(s),
        0 <= i < s.len(),
        p@ == s[i].0@,
    ensures
        assoc_view(s.update(i, (p, v))) == assoc_view(s).insert(p@, v.deep_view()),
        unique_keys(s.update(i, (p, v))),
    decreases s.len(),
{
    let t = s.update(i, (p, v));
    let prefix = s.drop_last();
    assert forall|a: int, b: int| 0 <= a < b < t.len() implies t[a].0@ != t[b].0@ by {
        assert(t[a].0@ == s[a].0@ && t[b].0@ == s[b].0@);
    }
    if i == s.len() - 1 {
        assert(t.drop_last() =~= prefix);
        assert(t.last() == (p, v));
        assert(assoc_view(prefix).insert(p@, v.deep_view()) =~= assoc_view(prefix).insert(
            s.last().0@,
            s.last().1.deep_view(),
        ).insert(p@, v.deep_view()));
    } else {
        lemma_unique_prefix(s);
        assert(t.drop_last() =~= prefix.update(i, (p, v)));
        assert(t.last() == s.last());
        assert(prefix[i] == s[i]);
        lemma_assoc_update(prefix, i, p, v);
        assert(s.last().0@ != p@);
        assert(assoc_view(prefix).insert(p@, v.deep_view()).insert(
            s.last().0@,
            s.last().1.deep_view(),
        ) =~= assoc_view(prefix).insert(s.last().0@, s.last().1.deep_view()).insert(
            p@,
            v.deep_view(),
        ));
    }
}

/// Lists whose entries agree key by key and value view by value view denote
/// the same map, and one has unique keys exactly when the other does.
pub proof fn lemma_assoc_congruent<V: DeepView>(s: Seq<(String, V)>, t: Seq<(String, V)>)
    requires
        s.len() == t.len(),
        forall|i: int|
            0 <= i < s.len() ==> (#[trigger] s[i]).0@ == t[i].0@ && s[i].1.deep_view()
                == t[i].1.deep_view(),
    ensures
        assoc_view(s) == assoc_view(t),
        unique_keys(s) == unique_keys(t),
    decreases s.len(),
{
    if s.len() == 0 {
        assert(assoc_view(s) =~= assoc_view(t));
    } else {
        let sp = s.drop_last();
        let tp = t.drop_last();
        assert forall|i: int|
            0 <= i < sp.len() implies (#[trigger] sp[i]).0@ == tp[i].0@ && sp[i].1.deep_view()
                == tp[i].1.deep_view() by {
            assert(sp[i] == s[i]);
            assert(tp[i] == t[i]);
        }
        lemma_assoc_congruent(sp, tp);
        assert(s.last().0@ == t.last().0@);
        assert(s.last().1.deep_view() == t.last().1.deep_view());
        assert(assoc_view(s) =~= assoc_view(t));
        assert forall|i: int, j: int|
            0 <= i < j < s.len() implies (s[i].0@ != s[j].0@) == (t[i].0@ != t[j].0@) by {}
        assert(unique_keys(s) == unique_keys(t)) by {
            if unique_keys(s) {
                assert forall|i: int, j: int| 0 <= i < j < t.len() implies t[i].0@ != t[j].0@ by {
                    assert(s[i].0@ != s[j].0@);
                }
            }
            if unique_keys(t) {
                assert forall|i: int, j: int| 0 <= i < j < s.len() implies s[i].0@ != s[j].0@ by {
                    assert(t[i].0@ != t[j].0@);
                }
            }
        }
    }
}

} // verus!
