use vstd::prelude::*;

verus! {

/// The value that the last pair with key `k` holds.
pub open spec fn lookup<K, V>(s: Seq<(K, V)>, k: K) -> Option<V>
    decreases s.len(),
{
    if s.len() == 0 {
        None
    } else if s.last().0 == k {
        Some(s.last().1)
    } else {
        lookup::<K, V>(s.drop_last(), k)
    }
}

/// No two pairs share a key.
pub open spec fn keys_unique<K, V>(s: Seq<(K, V)>) -> bool {
    forall|i: int, j: int| 0 <= i < j < s.len() ==> (#[trigger] s[i]).0 != (#[trigger] s[j]).0
}

pub proof fn lemma_lookup_push<K, V>(s: Seq<(K, V)>, k2: K, v: V, k: K)
    ensures
        lookup(s.push((k2, v)), k) == if k == k2 { Some(v) } else { lookup(s, k) },
{
    assert(s.push((k2, v)).drop_last() =~= s);
}

pub proof fn lemma_lookup_absent<K, V>(s: Seq<(K, V)>, k: K)
    requires
        forall|i: int| 0 <= i < s.len() ==> (#[trigger] s[i]).0 != k,
    ensures
        lookup(s, k) is None,
    decreases s.len(),
{
    if s.len() > 0 {
        lemma_lookup_absent(s.drop_last(), k);
    }
}

pub proof fn lemma_lookup_found<K, V>(s: Seq<(K, V)>, p: int)
    requires
        keys_unique(s),
        0 <= p < s.len(),
    ensures
        lookup(s, s[p].0) == Some(s[p].1),
    decreases s.len(),
{
    if p < s.len() - 1 {
        assert(s[p].0 != s[s.len() - 1].0);
        assert(s.drop_last()[p] == s[p]);
        lemma_lookup_found(s.drop_last(), p);
    }
}

pub proof fn lemma_lookup_update<K, V>(s: Seq<(K, V)>, p: int, v: V, k: K)
    requires
        keys_unique(s),
        0 <= p < s.len(),
    ensures
        lookup(s.update(p, (s[p].0, v)), k) == if k == s[p].0 { Some(v) } else { lookup(s, k) },
    decreases s.len(),
{
    let t = s.update(p, (s[p].0, v));
    if p == s.len() - 1 {
        assert(t.drop_last() =~= s.drop_last());
    } else {
        assert(t.drop_last() =~= s.drop_last().update(p, (s[p].0, v)));
        assert(t.last() == s.last());
        if s.last().0 == k {
            assert(s[p].0 != s[s.len() - 1].0);
        } else {
            lemma_lookup_update(s.drop_last(), p, v, k);
        }
    }
}

pub proof fn lemma_update_keeps_keys_unique<K, V>(s: Seq<(K, V)>, p: int, v: V)
    requires
        keys_unique(s),
        0 <= p < s.len(),
    ensures
        keys_unique(s.update(p, (s[p].0, v))),
{
    let t = s.update(p, (s[p].0, v));
    assert forall|i: int, j: int| 0 <= i < j < t.len() implies (#[trigger] t[i]).0 != (#[trigger] t[j]).0 by {
        assert(s[i].0 != s[j].0);
    }
}

pub proof fn lemma_push_keeps_keys_unique<K, V>(s: Seq<(K, V)>, k: K, v: V)
    requires
        keys_unique(s),
        forall|i: int| 0 <= i < s.len() ==> (#[trigger] s[i]).0 != k,
    ensures
        keys_unique(s.push((k, v))),
{
    let t = s.push((k, v));
    assert forall|i: int, j: int| 0 <= i < j < t.len() implies (#[trigger] t[i]).0 != (#[trigger] t[j]).0 by {
        if j < s.len() {
            assert(s[i].0 != s[j].0);
        } else {
            assert(t[i] == s[i]);
        }
    }
}

/// The first slot of `v` whose key is `k`.
pub fn position_of<X>(v: &Vec<(String, X)>, k: &String) -> (r: Option<usize>)
    ensures
        match r {
            Some(p) => p < v@.len() && v@[p as int].0@ == k@,
            None => forall|i: int| 0 <= i < v@.len() ==> (#[trigger] v@[i]).0@ != k@,
        },
{
    let mut i: usize = 0;
    while i < v.len()
        invariant
            i <= v@.len(),
            forall|j: int| 0 <= j < i ==> (#[trigger] v@[j]).0@ != k@,
        decreases v@.len() - i,
    {
        if v[i].0 == *k {
            return Some(i);
        }
        i = i + 1;
    }
    None
}

} // verus!
