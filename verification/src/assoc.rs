//! Association lists from byte-string keys to records, with the map they
//! denote and the lemmas the keyed containers of this crate share.
use vstd::prelude::*;

verus! {

/// The record bound to `k`, looked up from the most recently written end.
pub open spec fn lookup<T: View>(s: Seq<(Vec<u8>, T)>, k: Seq<u8>) -> Option<T::V>
    decreases s.len(),
{
    if s.len() == 0 {
        None
    } else if s.last().0@ == k {
        Some(s.last().1@)
    } else {
        lookup(s.drop_last(), k)
    }
}

/// No two pairs bind the same key.
pub open spec fn keys_distinct<T: View>(s: Seq<(Vec<u8>, T)>) -> bool {
    forall|i: int, j: int| 0 <= i < j < s.len() ==> (#[trigger] s[i]).0@ != (#[trigger] s[j]).0@
}

/// The map an association list denotes.
pub open spec fn assoc_map<T: View>(s: Seq<(Vec<u8>, T)>) -> Map<Seq<u8>, T::V> {
    Map::new(|k: Seq<u8>| lookup(s, k) is Some, |k: Seq<u8>| lookup(s, k).unwrap())
}

/// A pair with key `k` at any position decides the lookup.
pub proof fn lemma_lookup_at<T: View>(s: Seq<(Vec<u8>, T)>, k: Seq<u8>, i: int)
    requires
        keys_distinct(s),
        0 <= i < s.len(),
        s[i].0@ == k,
    ensures
        lookup(s, k) == Some(s[i].1@),
    decreases s.len(),
{
    if i == s.len() - 1 {
    } else {
        assert(s.last().0@ != k);
        assert(s.drop_last()[i] == s[i]);
        lemma_lookup_at(s.drop_last(), k, i);
    }
}

/// Absence of the key at every position decides the lookup.
pub proof fn lemma_lookup_none<T: View>(s: Seq<(Vec<u8>, T)>, k: Seq<u8>)
    requires
        forall|i: int| 0 <= i < s.len() ==> (#[trigger] s[i]).0@ != k,
    ensures
        lookup(s, k) is None,
    decreases s.len(),
{
    if s.len() > 0 {
        assert(forall|i: int|
            0 <= i < s.drop_last().len() ==> (#[trigger] s.drop_last()[i]).0@ != k);
        lemma_lookup_none(s.drop_last(), k);
    }
}

/// A positive lookup names a position.
pub proof fn lemma_lookup_some<T: View>(s: Seq<(Vec<u8>, T)>, k: Seq<u8>)
    ensures
        lookup(s, k) is Some ==> exists|i: int|
            0 <= i < s.len() && (#[trigger] s[i]).0@ == k && s[i].1@ == lookup(s, k).unwrap(),
    decreases s.len(),
{
    if s.len() > 0 {
        if s.last().0@ == k {
            assert(s[s.len() - 1].0@ == k && s[s.len() - 1].1@ == lookup(s, k).unwrap());
        } else {
            lemma_lookup_some(s.drop_last(), k);
            if lookup(s, k) is Some {
                let i = choose|i: int|
                    0 <= i < s.drop_last().len() && (#[trigger] s.drop_last()[i]).0@ == k
                        && s.drop_last()[i].1@ == lookup(s.drop_last(), k).unwrap();
                assert(s[i].0@ == k && s[i].1@ == lookup(s, k).unwrap());
            }
        }
    }
}

/// Removing the pair at `i` removes exactly its key from the denoted map.
pub proof fn lemma_map_after_remove<T: View>(s: Seq<(Vec<u8>, T)>, i: int)
    requires
        keys_distinct(s),
        0 <= i < s.len(),
    ensures
        keys_distinct(s.remove(i)),
        assoc_map(s.remove(i)) == assoc_map(s).remove(s[i].0@),
{
    let s2 = s.remove(i);
    let k0 = s[i].0@;
    assert(forall|j: int| 0 <= j < i ==> s2[j] == s[j]);
    assert(forall|j: int| i <= j < s2.len() ==> s2[j] == s[j + 1]);
    assert forall|k: Seq<u8>| true implies lookup(s2, k) == (if k == k0 {
        None
    } else {
        lookup(s, k)
    }) by {
        if k == k0 {
            assert forall|j: int| 0 <= j < s2.len() implies (#[trigger] s2[j]).0@ != k by {
                if j < i {
                    assert(s2[j] == s[j]);
                } else {
                    assert(s2[j] == s[j + 1]);
                }
            }
            lemma_lookup_none(s2, k);
        } else {
            match lookup(s, k) {
                Some(_) => {
                    lemma_lookup_some(s, k);
                    let j = choose|j: int|
                        0 <= j < s.len() && (#[trigger] s[j]).0@ == k && s[j].1@ == lookup(
                            s,
                            k,
                        ).unwrap();
                    if j < i {
                        lemma_lookup_at(s2, k, j);
                    } else {
                        assert(s2[j - 1] == s[j]);
                        lemma_lookup_at(s2, k, j - 1);
                    }
                },
                None => {
                    assert forall|j: int| 0 <= j < s2.len() implies (#[trigger] s2[j]).0@
                        != k by {
                        let j0: int = if j < i {
                            j
                        } else {
                            j + 1
                        };
                        assert(s2[j] == s[j0]);
                        if s[j0].0@ == k {
                            lemma_lookup_at(s, k, j0);
                        }
                    }
                    lemma_lookup_none(s2, k);
                },
            }
        }
    }
    assert(assoc_map(s2) =~= assoc_map(s).remove(k0));
}

/// Appending a fresh key adds exactly its binding to the denoted map.
pub proof fn lemma_map_after_push<T: View>(s: Seq<(Vec<u8>, T)>, p: (Vec<u8>, T))
    requires
        keys_distinct(s),
        lookup(s, p.0@) is None,
    ensures
        keys_distinct(s.push(p)),
        assoc_map(s.push(p)) == assoc_map(s).insert(p.0@, p.1@),
{
    let s2 = s.push(p);
    assert(s2.drop_last() =~= s);
    assert(s2.last() == p);
    assert forall|j: int| 0 <= j < s.len() implies (#[trigger] s[j]).0@ != p.0@ by {
        if s[j].0@ == p.0@ {
            lemma_lookup_at(s, p.0@, j);
        }
    }
    assert(forall|j: int| 0 <= j < s.len() ==> (#[trigger] s2[j]) == s[j]);
    assert forall|k: Seq<u8>| true implies lookup(s2, k) == (if k == p.0@ {
        Some(p.1@)
    } else {
        lookup(s, k)
    }) by {}
    assert(assoc_map(s2) =~= assoc_map(s).insert(p.0@, p.1@));
}

} // verus!
