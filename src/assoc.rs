//! Association lists: vectors of `(String, V)` pairs read as maps keyed by the string.
use vstd::prelude::*;

verus! {

/// The map that a list of pairs denotes; a later pair overrides an earlier one with the same key.
pub open spec fn assoc_map<V>(s: Seq<(String, V)>) -> Map<Seq<char>, V>
    decreases s.len(),
{
    if s.len() == 0 {
        Map::empty()
    } else {
        assoc_map(s.drop_last()).insert(s.last().0@, s.last().1)
    }
}

/// No two pairs share a key.
pub open spec fn unique_keys<V>(s: Seq<(String, V)>) -> bool {
    forall|i: int, j: int|
        0 <= i < s.len() && 0 <= j < s.len() && i != j ==> s[i].0@ != s[j].0@
}

pub proof fn lemma_assoc_push<V>(s: Seq<(String, V)>, x: (String, V))
    ensures
        assoc_map(s.push(x)) == assoc_map(s).insert(x.0@, x.1),
{
    assert(s.push(x).drop_last() =~= s);
}

pub proof fn lemma_assoc_dom<V>(s: Seq<(String, V)>, k: Seq<char>)
    ensures
        assoc_map(s).contains_key(k) <==> exists|i: int| 0 <= i < s.len() && s[i].0@ == k,
    decreases s.len(),
{
    if s.len() > 0 {
        lemma_assoc_dom(s.drop_last(), k);
        if assoc_map(s.drop_last()).contains_key(k) {
            let i = choose|i: int| 0 <= i < s.len() - 1 && s.drop_last()[i].0@ == k;
            assert(s[i].0@ == k);
        }
        if exists|i: int| 0 <= i < s.len() && s[i].0@ == k {
            let i = choose|i: int| 0 <= i < s.len() && s[i].0@ == k;
            if i < s.len() - 1 {
                assert(s.drop_last()[i].0@ == k);
            }
        }
    }
}

pub proof fn lemma_assoc_index<V>(s: Seq<(String, V)>, i: int)
    requires
        unique_keys(s),
        0 <= i < s.len(),
    ensures
        assoc_map(s).contains_key(s[i].0@),
        assoc_map(s)[s[i].0@] == s[i].1,
    decreases s.len(),
{
    if i < s.len() - 1 {
        let t = s.drop_last();
        assert(unique_keys(t));
        lemma_assoc_index(t, i);
        assert(s.last().0@ != s[i].0@);
    }
}

pub proof fn lemma_assoc_update<V>(s: Seq<(String, V)>, j: int, x: (String, V))
    requires
        unique_keys(s),
        0 <= j < s.len(),
        x.0@ == s[j].0@,
    ensures
        unique_keys(s.update(j, x)),
        assoc_map(s.update(j, x)) == assoc_map(s).insert(x.0@, x.1),
    decreases s.len(),
{
    let u = s.update(j, x);
    assert(unique_keys(u)) by {
        assert forall|a: int, b: int| 0 <= a < u.len() && 0 <= b < u.len() && a != b implies u[a].0@
            != u[b].0@ by {
            assert(u[a].0@ == s[a].0@);
            assert(u[b].0@ == s[b].0@);
        }
    }
    if j == s.len() - 1 {
        assert(u.drop_last() =~= s.drop_last());
        assert(assoc_map(u) =~= assoc_map(s).insert(x.0@, x.1));
    } else {
        let t = s.drop_last();
        assert(unique_keys(t));
        lemma_assoc_update(t, j, x);
        assert(u.drop_last() =~= t.update(j, x));
        assert(s.last().0@ != x.0@);
        assert(assoc_map(u) =~= assoc_map(s).insert(x.0@, x.1));
    }
}

pub proof fn lemma_assoc_remove<V>(s: Seq<(String, V)>, j: int)
    requires
        unique_keys(s),
        0 <= j < s.len(),
    ensures
        unique_keys(s.remove(j)),
        assoc_map(s.remove(j)) == assoc_map(s).remove(s[j].0@),
    decreases s.len(),
{
    let u = s.remove(j);
    let k = s[j].0@;
    assert(unique_keys(u)) by {
        assert forall|a: int, b: int| 0 <= a < u.len() && 0 <= b < u.len() && a != b implies u[a].0@
            != u[b].0@ by {
            let sa = if a < j { a } else { a + 1 };
            let sb = if b < j { b } else { b + 1 };
            assert(u[a] == s[sa]);
            assert(u[b] == s[sb]);
        }
    }
    let t = s.drop_last();
    assert(unique_keys(t));
    if j == s.len() - 1 {
        assert(u =~= t);
        lemma_assoc_dom(t, k);
        assert(assoc_map(u) =~= assoc_map(s).remove(k));
    } else {
        lemma_assoc_remove(t, j);
        assert(u.drop_last() =~= t.remove(j));
        assert(u.last() == s.last());
        assert(s.last().0@ != k);
        assert(assoc_map(u) =~= assoc_map(s).remove(k));
    }
}

pub proof fn lemma_assoc_len<V>(s: Seq<(String, V)>)
    requires
        unique_keys(s),
    ensures
        assoc_map(s).dom().finite(),
        assoc_map(s).dom().len() == s.len(),
    decreases s.len(),
{
    if s.len() > 0 {
        let t = s.drop_last();
        assert(unique_keys(t));
        lemma_assoc_len(t);
        lemma_assoc_dom(t, s.last().0@);
        if assoc_map(t).contains_key(s.last().0@) {
            let i = choose|i: int| 0 <= i < t.len() && t[i].0@ == s.last().0@;
            assert(s[i].0@ != s[s.len() - 1].0@);
        }
    }
}

/// Position of the pair with key `k`, if any.
pub fn find_key<V>(s: &Vec<(String, V)>, k: &String) -> (r: Option<usize>)
    ensures
        match r {
            Some(i) => i < s@.len() && s@[i as int].0@ == k@,
            None => forall|i: int| 0 <= i < s@.len() ==> s@[i].0@ != k@,
        },
{
    let mut i: usize = 0;
    while i < s.len()
        invariant
            i <= s@.len(),
            forall|j: int| 0 <= j < i ==> s@[j].0@ != k@,
        decreases s@.len() - i,
    {
        if s[i].0 == *k {
            return Some(i);
        }
        i += 1;
    }
    None
}

} // verus!
