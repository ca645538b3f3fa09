//! Association lists keyed by text: a `Vec` of pairs with unique keys,
//! viewed as a map from key text to value.
use vstd::prelude::*;

verus! {

/// The map that a list of pairs stands for: a later pair wins over an
/// earlier one with the same key.
pub open spec fn pairs_map<V>(s: Seq<(String, V)>) -> Map<Seq<char>, V>
    decreases s.len(),
{
    if s.len() == 0 {
        Map::empty()
    } else {
        pairs_map(s.drop_last()).insert(s.last().0@, s.last().1)
    }
}

/// The keys of a list of pairs, in order.
pub open spec fn pair_keys<V>(s: Seq<(String, V)>) -> Seq<Seq<char>> {
    s.map_values(|p: (String, V)| p.0@)
}

/// No key occurs twice.
pub open spec fn keys_unique<V>(s: Seq<(String, V)>) -> bool {
    forall|i: int, j: int| 0 <= i < j < s.len() ==> s[i].0@ != s[j].0@
}

pub proof fn lemma_pairs_map_domain<V>(s: Seq<(String, V)>, k: Seq<char>)
    ensures
        pairs_map(s).contains_key(k) <==> exists|i: int| 0 <= i < s.len() && s[i].0@ == k,
    decreases s.len(),
{
    if s.len() > 0 {
        lemma_pairs_map_domain(s.drop_last(), k);
        if pairs_map(s).contains_key(k) && s.last().0@ != k {
            let i = choose|i: int| 0 <= i < s.len() - 1 && s.drop_last()[i].0@ == k;
            assert(s[i].0@ == k);
        }
        if exists|i: int| 0 <= i < s.len() && s[i].0@ == k {
            let i = choose|i: int| 0 <= i < s.len() && s[i].0@ == k;
            if i < s.len() - 1 {
                assert(s.drop_last()[i].0@ == k);
            }
        }
    }
}

pub proof fn lemma_pairs_map_value<V>(s: Seq<(String, V)>, i: int)
    requires
        keys_unique(s),
        0 <= i < s.len(),
    ensures
        pairs_map(s).contains_key(s[i].0@),
        pairs_map(s)[s[i].0@] == s[i].1,
    decreases s.len(),
{
    if i < s.len() - 1 {
        assert(s.drop_last()[i] == s[i]);
        lemma_pairs_map_value(s.drop_last(), i);
    }
}

pub proof fn lemma_pairs_map_update<V>(s: Seq<(String, V)>, i: int, v: V)
    requires
        keys_unique(s),
        0 <= i < s.len(),
    ensures
        pairs_map(s.update(i, (s[i].0, v))) == pairs_map(s).insert(s[i].0@, v),
        keys_unique(s.update(i, (s[i].0, v))),
    decreases s.len(),
{
    let t = s.update(i, (s[i].0, v));
    if i == s.len() - 1 {
        assert(t.drop_last() =~= s.drop_last());
        assert(pairs_map(t) =~= pairs_map(s).insert(s[i].0@, v));
    } else {
        assert(t.drop_last() =~= s.drop_last().update(i, (s[i].0, v)));
        assert(s.drop_last()[i] == s[i]);
        lemma_pairs_map_update(s.drop_last(), i, v);
        assert(pairs_map(t) =~= pairs_map(s).insert(s[i].0@, v));
    }
}

pub proof fn lemma_pairs_map_push<V>(s: Seq<(String, V)>, p: (String, V))
    ensures
        pairs_map(s.push(p)) == pairs_map(s).insert(p.0@, p.1),
{
    assert(s.push(p).drop_last() =~= s);
}

/// Position of the pair with key `k`, if there is one.
pub fn assoc_find<V>(s: &Vec<(String, V)>, k: &String) -> (r: Option<usize>)
    ensures
        r.is_none() <==> !pairs_map(s@).contains_key(k@),
        r.is_some() ==> r->Some_0 < s@.len() && s@[r->Some_0 as int].0@ == k@,
        r.is_some() && keys_unique(s@) ==> pairs_map(s@)[k@] == s@[r->Some_0 as int].1,
{
    proof {
        lemma_pairs_map_domain(s@, k@);
    }
    let mut i: usize = 0;
    while i < s.len()
        invariant
            i <= s@.len(),
            forall|j: int| 0 <= j < i ==> s@[j].0@ != k@,
        decreases s@.len() - i,
    {
        if s[i].0.eq(k) {
            proof {
                lemma_pairs_map_domain(s@, k@);
                assert(s@[i as int].0@ == k@);
                if keys_unique(s@) {
                    lemma_pairs_map_value(s@, i as int);
                }
            }
            return Some(i);
        }
        i = i + 1;
    }
    None
}

/// Sets the value of key `k`: replaces the pair with that key, or appends a
/// new pair when there is none.
pub fn assoc_insert<V>(s: &mut Vec<(String, V)>, k: String, v: V)
    requires
        keys_unique(old(s)@),
    ensures
        keys_unique(final(s)@),
        pairs_map(final(s)@) == pairs_map(old(s)@).insert(k@, v),
        forall|j: int| 0 <= j < old(s)@.len() ==> final(s)@[j].0@ == old(s)@[j].0@,
        old(s)@.len() <= final(s)@.len() <= old(s)@.len() + 1,
{
    match assoc_find(s, &k) {
        Some(i) => {
            proof {
                lemma_pairs_map_update(s@, i as int, v);
            }
            let key = s[i].0.clone();
            s.set(i, (key, v));
        },
        None => {
            proof {
                lemma_pairs_map_domain(s@, k@);
                lemma_pairs_map_push(s@, (k, v));
            }
            s.push((k, v));
        },
    }
}

/// Tells whether no key occurs twice.
pub fn has_unique_keys<V>(s: &Vec<(String, V)>) -> (r: bool)
    ensures
        r == keys_unique(s@),
{
    let mut j: usize = 0;
    while j < s.len()
        invariant
            j <= s@.len(),
            forall|a: int, b: int| 0 <= a < b < j ==> s@[a].0@ != s@[b].0@,
        decreases s@.len() - j,
    {
        let mut i: usize = 0;
        while i < j
            invariant
                i <= j < s@.len(),
                forall|a: int| 0 <= a < i ==> s@[a].0@ != s@[j as int].0@,
            decreases j - i,
        {
            if s[i].0.eq(&s[j].0) {
                return false;
            }
            i = i + 1;
        }
        j = j + 1;
    }
    true
}

} // verus!
