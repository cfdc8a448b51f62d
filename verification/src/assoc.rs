//! Association lists with string keys, viewed as maps: the spec-level
//! reading of a key-value sequence in which a later entry wins, and the
//! facts the exec containers built on such lists rely on.
use vstd::prelude::*;

verus! {

/// The map an association list denotes: entries folded left to right, a
/// later binding of a key shadowing an earlier one.
pub open spec fn spec_assoc_map<V: View>(s: Seq<(String, V)>) -> Map<Seq<char>, V::V>
    decreases s.len(),
{
    if s.len() == 0 {
        Map::empty()
    } else {
        spec_assoc_map(s.drop_last()).insert(s.last().0@, s.last().1@)
    }
}

/// No two entries bind the same key.
pub open spec fn spec_keys_distinct<V>(s: Seq<(String, V)>) -> bool {
    forall|i: int, j: int| 0 <= i < j < s.len() ==> s[i].0@ != s[j].0@
}

/// A key is in the map exactly when some entry binds it.
pub proof fn lemma_assoc_contains<V: View>(s: Seq<(String, V)>, k: Seq<char>)
    ensures
        spec_assoc_map(s).contains_key(k) <==> exists|i: int|
            0 <= i < s.len() && (#[trigger] s[i]).0@ == k,
    decreases s.len(),
{
    if s.len() > 0 {
        lemma_assoc_contains(s.drop_last(), k);
        if spec_assoc_map(s).contains_key(k) {
            if s.last().0@ != k {
                let i = choose|i: int| 0 <= i < s.drop_last().len() && (#[trigger] s.drop_last()[i]).0@ == k;
                assert(s[i].0@ == k);
            }
        } else {
            assert forall|i: int| 0 <= i < s.len() implies (#[trigger] s[i]).0@ != k by {
                if i < s.len() - 1 {
                    assert(s.drop_last()[i] == s[i]);
                }
            }
        }
    }
}

/// With distinct keys, the entry that binds a key gives its mapping.
pub proof fn lemma_assoc_lookup<V: View>(s: Seq<(String, V)>, i: int)
    requires
        spec_keys_distinct(s),
        0 <= i < s.len(),
    ensures
        spec_assoc_map(s).contains_key(s[i].0@),
        spec_assoc_map(s)[s[i].0@] == s[i].1@,
    decreases s.len(),
{
    if i == s.len() - 1 {
    } else {
        assert(s.drop_last()[i] == s[i]);
        lemma_assoc_lookup(s.drop_last(), i);
        assert(s.last().0@ != s[i].0@);
    }
}

/// With distinct keys, dropping the entry that binds a key removes exactly
/// that key from the map.
pub proof fn lemma_assoc_remove<V: View>(s: Seq<(String, V)>, j: int)
    requires
        spec_keys_distinct(s),
        0 <= j < s.len(),
    ensures
        spec_assoc_map(s.remove(j)) == spec_assoc_map(s).remove(s[j].0@),
        spec_keys_distinct(s.remove(j)),
    decreases s.len(),
{
    let k = s[j].0@;
    assert forall|a: int, b: int| 0 <= a < b < s.remove(j).len() implies (#[trigger] s.remove(
        j,
    )[a]).0@ != (#[trigger] s.remove(j)[b]).0@ by {
        let a0 = if a < j {
            a
        } else {
            a + 1
        };
        let b0 = if b < j {
            b
        } else {
            b + 1
        };
        assert(s.remove(j)[a] == s[a0] && s.remove(j)[b] == s[b0]);
    }
    if j == s.len() - 1 {
        assert(s.remove(j) =~= s.drop_last());
        lemma_assoc_contains(s.drop_last(), k);
        assert forall|i: int| 0 <= i < s.drop_last().len() implies (#[trigger] s.drop_last()[
            i]).0@ != k by {
            assert(s.drop_last()[i] == s[i]);
        }
        assert(!spec_assoc_map(s.drop_last()).contains_key(k));
        assert(spec_assoc_map(s.drop_last()).remove(k) =~= spec_assoc_map(s.drop_last()));
        assert(spec_assoc_map(s).remove(k) =~= spec_assoc_map(s.drop_last()).insert(
            k,
            s.last().1@,
        ).remove(k));
        assert(spec_assoc_map(s.drop_last()).insert(k, s.last().1@).remove(k) =~= spec_assoc_map(
            s.drop_last(),
        ).remove(k));
    } else {
        assert(s.remove(j).drop_last() =~= s.drop_last().remove(j));
        assert(s.remove(j).last() == s.last());
        lemma_assoc_remove(s.drop_last(), j);
        assert(s.drop_last()[j] == s[j]);
        assert(s.last().0@ != k);
        assert(spec_assoc_map(s.remove(j)) == spec_assoc_map(s.drop_last().remove(j)).insert(
            s.last().0@,
            s.last().1@,
        ));
        assert(spec_assoc_map(s.drop_last()).remove(k).insert(s.last().0@, s.last().1@)
            =~= spec_assoc_map(s.drop_last()).insert(s.last().0@, s.last().1@).remove(k));
    }
}

/// With distinct keys, the map has exactly one mapping per entry.
pub proof fn lemma_assoc_len<V: View>(s: Seq<(String, V)>)
    requires
        spec_keys_distinct(s),
    ensures
        spec_assoc_map(s).dom().finite(),
        spec_assoc_map(s).dom().len() == s.len(),
    decreases s.len(),
{
    broadcast use vstd::set_lib::group_set_lib_default, vstd::set::group_set_axioms;

    if s.len() > 0 {
        lemma_assoc_len(s.drop_last());
        lemma_assoc_contains(s.drop_last(), s.last().0@);
        assert forall|i: int| 0 <= i < s.drop_last().len() implies (#[trigger] s.drop_last()[
            i]).0@ != s.last().0@ by {
            assert(s.drop_last()[i] == s[i]);
        }
        assert(!spec_assoc_map(s.drop_last()).contains_key(s.last().0@));
        assert(spec_assoc_map(s).dom() =~= spec_assoc_map(s.drop_last()).dom().insert(
            s.last().0@,
        ));
    }
}

} // verus!
