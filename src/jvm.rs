use vstd::prelude::*;

use crate::assoc::{keys_unique, lemma_lookup_absent, lemma_lookup_found, lemma_lookup_push, lemma_lookup_update, lemma_push_keeps_keys_unique, lemma_update_keeps_keys_unique, lookup, position_of};

verus! {

/// How much code one type holds.
pub struct ClassCounting {
    pub total: usize,
    pub fields: usize,
    pub methods: usize,
    /// Each method with code, by name and descriptor, and its instruction count.
    pub code: Vec<(String, usize)>,
}

/// A type's counts as plain values.
pub type CountingView = (usize, usize, usize, Seq<(Seq<char>, usize)>);

impl ClassCounting {
    pub open spec fn view_counts(&self) -> CountingView {
        (self.total, self.fields, self.methods, self.code@.map_values(|e: (String, usize)| (e.0@, e.1)))
    }

    /// A copy with the same counts.
    pub fn duplicate(&self) -> (r: ClassCounting)
        ensures
            r.view_counts() == self.view_counts(),
    {
        let mut code: Vec<(String, usize)> = Vec::new();
        let mut i: usize = 0;
        while i < self.code.len()
            invariant
                i <= self.code@.len(),
                code@.map_values(|e: (String, usize)| (e.0@, e.1)) == self.code@.subrange(0, i as int).map_values(|e: (String, usize)| (e.0@, e.1)),
            decreases self.code@.len() - i,
        {
            let ghost prev = code@;
            code.push((self.code[i].0.clone(), self.code[i].1));
            proof {
                assert(code@.map_values(|e: (String, usize)| (e.0@, e.1)) =~= prev.map_values(|e: (String, usize)| (e.0@, e.1)).push((self.code@[i as int].0@, self.code@[i as int].1)));
                assert(self.code@.subrange(0, i as int + 1).map_values(|e: (String, usize)| (e.0@, e.1)) =~= self.code@.subrange(0, i as int).map_values(|e: (String, usize)| (e.0@, e.1)).push((self.code@[i as int].0@, self.code@[i as int].1)));
            }
            i = i + 1;
        }
        assert(self.code@.subrange(0, self.code@.len() as int) =~= self.code@);
        ClassCounting { total: self.total, fields: self.fields, methods: self.methods, code }
    }
}

/// Code counts by type name.
pub struct Complexity(Vec<(String, ClassCounting)>);

impl Complexity {
    /// Each type with its counts.
    pub closed spec fn pairs(&self) -> Seq<(Seq<char>, CountingView)> {
        self.0@.map_values(|e: (String, ClassCounting)| (e.0@, e.1.view_counts()))
    }

    /// Each type is listed once.
    pub open spec fn wf(&self) -> bool {
        keys_unique(self.pairs())
    }

    /// What is listed under `k`.
    pub fn get(&self, k: &String) -> (r: Option<&ClassCounting>)
        requires
            self.wf(),
        ensures
            match lookup(self.pairs(), k@) {
                Some(v) => r matches Some(x) && x.view_counts() == v,
                None => r is None,
            },
    {
        match position_of(&self.0, k) {
            Some(p) => {
                proof {
                    lemma_lookup_found(self.pairs(), p as int);
                }
                Some(&self.0[p].1)
            },
            None => {
                proof {
                    assert(forall|i: int| 0 <= i < self.pairs().len() ==> (#[trigger] self.pairs()[i]).0 == self.0@[i].0@);
                    lemma_lookup_absent(self.pairs(), k@);
                }
                None
            },
        }
    }

    /// An empty count.
    pub fn new() -> (r: Self)
        ensures
            r.wf(),
            r.pairs().len() == 0,
    {
        let r = Complexity(Vec::new());
        assert(r.pairs() =~= Seq::<(Seq<char>, CountingView)>::empty());
        r
    }

    /// Sets the counts of the type `name`.
    pub fn insert(&mut self, name: &String, c: ClassCounting)
        requires
            old(self).wf(),
        ensures
            final(self).wf(),
            forall|k: Seq<char>| #[trigger] lookup(final(self).pairs(), k) == if k == name@ {
                Some(c.view_counts())
            } else {
                lookup(old(self).pairs(), k)
            },
    {
        let ghost before = self.pairs();
        let ghost cv = c.view_counts();
        match position_of(&self.0, name) {
            Some(p) => {
                self.0.set(p, (name.clone(), c));
                proof {
                    assert(before[p as int].0 == name@);
                    assert(self.pairs() =~= before.update(p as int, (before[p as int].0, cv)));
                    lemma_update_keeps_keys_unique(before, p as int, cv);
                    assert forall|k: Seq<char>| #[trigger] lookup(self.pairs(), k) == if k == name@ {
                        Some(cv)
                    } else {
                        lookup(before, k)
                    } by {
                        lemma_lookup_update(before, p as int, cv, k);
                    }
                }
            },
            None => {
                self.0.push((name.clone(), c));
                proof {
                    assert(forall|i: int| 0 <= i < before.len() ==> (#[trigger] before[i]).0 == self.0@[i].0@);
                    assert(self.pairs() =~= before.push((name@, cv)));
                    lemma_push_keeps_keys_unique(before, name@, cv);
                    assert forall|k: Seq<char>| #[trigger] lookup(self.pairs(), k) == if k == name@ {
                        Some(cv)
                    } else {
                        lookup(before, k)
                    } by {
                        lemma_lookup_push(before, name@, cv, k);
                    }
                }
            },
        }
    }

    /// Takes over every count of `other`; a type counted in both keeps the
    /// counts of `other`.
    pub fn extend(&mut self, other: &Self)
        requires
            old(self).wf(),
            other.wf(),
        ensures
            final(self).wf(),
            forall|k: Seq<char>| #[trigger] lookup(final(self).pairs(), k) == match lookup(other.pairs(), k) {
                Some(v) => Some(v),
                None => lookup(old(self).pairs(), k),
            },
    {
        let ghost start = self.pairs();
        let ghost op = other.pairs();
        let mut i: usize = 0;
        while i < other.0.len()
            invariant
                i <= other.0@.len(),
                op == other.pairs(),
                keys_unique(op),
                self.wf(),
                forall|k: Seq<char>| #[trigger] lookup(self.pairs(), k) == match lookup(op.subrange(0, i as int), k) {
                    Some(v) => Some(v),
                    None => lookup(start, k),
                },
            decreases other.0@.len() - i,
        {
            let ghost pre = op.subrange(0, i as int);
            let ghost ki = op[i as int].0;
            let ghost vi = op[i as int].1;
            proof {
                assert(op.subrange(0, i as int + 1) =~= pre.push((ki, vi)));
            }
            let c = other.0[i].1.duplicate();
            self.insert(&other.0[i].0, c);
            proof {
                assert forall|k: Seq<char>| #[trigger] lookup(self.pairs(), k) == match lookup(op.subrange(0, i as int + 1), k) {
                    Some(v) => Some(v),
                    None => lookup(start, k),
                } by {
                    lemma_lookup_push(pre, ki, vi, k);
                }
            }
            i = i + 1;
        }
        assert(op.subrange(0, op.len() as int) =~= op);
    }
}

} // verus!
