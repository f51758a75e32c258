use vstd::prelude::*;
use core::marker::PhantomData;
use vstd::string::StringSliceAdditionalSpecFns;

verus! {

/// A string with the position it was given in an index; `T` says whether it
/// stands for its text or for its number.
pub struct IndexStr<T>(pub String, pub usize, pub PhantomData<T>);

impl IndexStr<String> {
    /// An indexed string.
    pub fn new(s: String, i: usize) -> (r: IndexStr<String>)
        ensures
            r.0@ == s@,
            r.1 == i,
    {
        IndexStr(s, i, PhantomData)
    }

    /// The same string, standing for its number.
    pub fn num(self) -> (r: IndexStr<usize>)
        ensures
            r.0@ == self.0@,
            r.1 == self.1,
    {
        IndexStr(self.0, self.1, PhantomData)
    }
}

} // verus!

verus! {

/// Byte-wise lexicographic order, the order of `str`.
pub open spec fn lex_lt(a: Seq<u8>, b: Seq<u8>) -> bool
    decreases a.len(),
{
    if a.len() == 0 {
        b.len() > 0
    } else if b.len() == 0 {
        false
    } else if a[0] != b[0] {
        a[0] < b[0]
    } else {
        lex_lt(a.drop_first(), b.drop_first())
    }
}

pub proof fn lemma_lex_irreflexive(a: Seq<u8>)
    ensures
        !lex_lt(a, a),
    decreases a.len(),
{
    if a.len() > 0 {
        lemma_lex_irreflexive(a.drop_first());
    }
}

pub proof fn lemma_lex_transitive(a: Seq<u8>, b: Seq<u8>, c: Seq<u8>)
    requires
        lex_lt(a, b),
        lex_lt(b, c),
    ensures
        lex_lt(a, c),
    decreases a.len(),
{
    if a.len() > 0 && b.len() > 0 && c.len() > 0 && a[0] == b[0] && b[0] == c[0] {
        lemma_lex_transitive(a.drop_first(), b.drop_first(), c.drop_first());
    }
}

/// Any two byte strings are equal or one sorts before the other.
pub proof fn lemma_lex_trichotomy(a: Seq<u8>, b: Seq<u8>)
    ensures
        a == b || lex_lt(a, b) || lex_lt(b, a),
    decreases a.len(),
{
    if a.len() > 0 && b.len() > 0 && a[0] == b[0] {
        lemma_lex_trichotomy(a.drop_first(), b.drop_first());
        if a.drop_first() == b.drop_first() {
            assert(a =~= seq![a[0]] + a.drop_first());
            assert(b =~= seq![b[0]] + b.drop_first());
        }
    } else if a.len() == 0 && b.len() == 0 {
        assert(a =~= b);
    }
}

/// Compares two byte strings: negative, zero or positive as `a` sorts
/// before, equal to, or after `b`.
pub fn compare_bytes(a: &[u8], b: &[u8]) -> (r: i8)
    ensures
        r == 0 <==> a@ == b@,
        r < 0 <==> lex_lt(a@, b@),
        r > 0 <==> lex_lt(b@, a@),
{
    let mut i: usize = 0;
    assert(a@.subrange(0, a@.len() as int) =~= a@);
    assert(b@.subrange(0, b@.len() as int) =~= b@);
    while i < a.len() && i < b.len()
        invariant
            i <= a@.len(),
            i <= b@.len(),
            a@.subrange(0, i as int) == b@.subrange(0, i as int),
            lex_lt(a@, b@) == lex_lt(a@.subrange(i as int, a@.len() as int), b@.subrange(i as int, b@.len() as int)),
            lex_lt(b@, a@) == lex_lt(b@.subrange(i as int, b@.len() as int), a@.subrange(i as int, a@.len() as int)),
        decreases a@.len() - i,
    {
        if a[i] < b[i] {
            proof {
                assert(a@[i as int] != b@[i as int]);
            }
            return -1;
        }
        if a[i] > b[i] {
            proof {
                assert(a@[i as int] != b@[i as int]);
            }
            return 1;
        }
        proof {
            let sa = a@.subrange(i as int, a@.len() as int);
            let sb = b@.subrange(i as int, b@.len() as int);
            assert(sa.drop_first() =~= a@.subrange(i as int + 1, a@.len() as int));
            assert(sb.drop_first() =~= b@.subrange(i as int + 1, b@.len() as int));
            assert(a@.subrange(0, i as int + 1) =~= a@.subrange(0, i as int).push(a@[i as int]));
            assert(b@.subrange(0, i as int + 1) =~= b@.subrange(0, i as int).push(b@[i as int]));
        }
        i = i + 1;
    }
    if a.len() == b.len() {
        proof {
            assert(a@ =~= a@.subrange(0, i as int));
            assert(b@ =~= b@.subrange(0, i as int));
            lemma_lex_irreflexive(a@);
        }
        0
    } else if a.len() < b.len() {
        proof {
            assert(a@.len() != b@.len());
        }
        -1
    } else {
        proof {
            assert(a@.len() != b@.len());
        }
        1
    }
}

/// The bytes that a string is stored as.
pub open spec fn key_of(s: Seq<char>) -> Seq<u8> {
    vstd::utf8::encode_utf8(s)
}

/// The slot of the first name recorded for the type numbered `index`.
pub open spec fn first_named(names: Seq<(Seq<char>, usize)>, index: usize) -> Option<int>
    decreases names.len(),
{
    if names.len() == 0 {
        None
    } else {
        match first_named(names.drop_last(), index) {
            Some(k) => Some(k),
            None => if names.last().1 == index {
                Some(names.len() - 1)
            } else {
                None
            },
        }
    }
}

/// The names of the types in `targets` that have one, in order.
pub open spec fn names_of(names: Seq<(Seq<char>, usize)>, targets: Seq<usize>) -> Seq<Seq<char>>
    decreases targets.len(),
{
    if targets.len() == 0 {
        Seq::empty()
    } else {
        let rest = names_of(names, targets.drop_last());
        match first_named(names, targets.last()) {
            Some(k) => rest.push(names[k].0),
            None => rest,
        }
    }
}

/// Which type inherits from which: each type name has a number, kept in
/// order of the names, and each number lists the numbers it inherits from.
pub struct Inheritance {
    indices: Vec<(String, usize)>,
    inherits: Vec<Vec<usize>>,
}

impl Inheritance {
    /// Names are kept in strictly increasing order, and every number they
    /// carry has a list of its own.
    pub closed spec fn wf(&self) -> bool {
        &&& forall|i: int, j: int| 0 <= i < j < self.indices@.len()
            ==> lex_lt(key_of(#[trigger] self.indices@[i].0@), key_of(#[trigger] self.indices@[j].0@))
        &&& forall|i: int| 0 <= i < self.indices@.len() ==> #[trigger] self.indices@[i].1 < self.inherits@.len()
    }

    /// The names with their numbers, in name order.
    pub closed spec fn names(&self) -> Seq<(Seq<char>, usize)> {
        self.indices@.map_values(|p: (String, usize)| (p.0@, p.1))
    }

    /// For each number, the numbers it inherits from.
    pub closed spec fn edges(&self) -> Seq<Seq<usize>> {
        self.inherits@.map_values(|v: Vec<usize>| v@)
    }

    /// No names and no types.
    pub fn new() -> (r: Self)
        ensures
            r.wf(),
            r.names().len() == 0,
            r.edges().len() == 0,
    {
        Inheritance { indices: Vec::new(), inherits: Vec::new() }
    }

    /// Whether `name` is recorded.
    pub open spec fn has_name(&self, name: Seq<char>) -> bool {
        exists|k: int| 0 <= k < self.names().len() && key_of(#[trigger] self.names()[k].0) == key_of(name)
    }

    /// The number of `name`; a name seen for the first time gets the next
    /// free number and an empty list.
    pub fn find(&mut self, name: &str) -> (r: usize)
        requires
            old(self).wf(),
            old(self).edges().len() < usize::MAX,
        ensures
            final(self).wf(),
            old(self).has_name(name@) ==> {
                &&& final(self).names() == old(self).names()
                &&& final(self).edges() == old(self).edges()
                &&& forall|k: int| 0 <= k < old(self).names().len() && key_of(#[trigger] old(self).names()[k].0) == key_of(name@)
                    ==> r == old(self).names()[k].1
            },
            !old(self).has_name(name@) ==> {
                &&& r == old(self).edges().len()
                &&& final(self).edges() == old(self).edges().push(Seq::<usize>::empty())
                &&& exists|p: int| 0 <= p <= old(self).names().len() && final(self).names() == old(self).names().insert(p, (name@, r))
            },
            r < final(self).edges().len(),
    {
        let nb = name.as_bytes();
        let mut lo: usize = 0;
        let mut hi: usize = self.indices.len();
        while lo < hi
            invariant
                self.wf(),
                lo <= hi <= self.indices@.len(),
                nb@ == key_of(name@),
                forall|k: int| 0 <= k < lo ==> lex_lt(key_of(#[trigger] self.indices@[k].0@), nb@),
                forall|k: int| hi <= k < self.indices@.len() ==> lex_lt(nb@, key_of(#[trigger] self.indices@[k].0@)),
            decreases hi - lo,
        {
            let mid = lo + (hi - lo) / 2;
            let c = compare_bytes(self.indices[mid].0.as_str().as_bytes(), nb);
            if c == 0 {
                let r = self.indices[mid].1;
                proof {
                    assert forall|k: int| 0 <= k < self.names().len() && key_of(#[trigger] self.names()[k].0) == key_of(name@)
                        implies r == self.names()[k].1 by {
                        if k < mid {
                            assert(lex_lt(key_of(self.indices@[k].0@), key_of(self.indices@[mid as int].0@)));
                            lemma_lex_irreflexive(nb@);
                        } else if k > mid {
                            assert(lex_lt(key_of(self.indices@[mid as int].0@), key_of(self.indices@[k].0@)));
                            lemma_lex_irreflexive(nb@);
                        }
                    }
                    assert(self.names()[mid as int].0 == self.indices@[mid as int].0@);
                }
                return r;
            } else if c < 0 {
                proof {
                    assert forall|k: int| 0 <= k < mid + 1 implies lex_lt(key_of(#[trigger] self.indices@[k].0@), nb@) by {
                        if k < mid {
                            lemma_lex_transitive(key_of(self.indices@[k].0@), key_of(self.indices@[mid as int].0@), nb@);
                        }
                    }
                }
                lo = mid + 1;
            } else {
                proof {
                    assert forall|k: int| mid <= k < self.indices@.len() implies lex_lt(nb@, key_of(#[trigger] self.indices@[k].0@)) by {
                        if k > mid {
                            lemma_lex_transitive(nb@, key_of(self.indices@[mid as int].0@), key_of(self.indices@[k].0@));
                        }
                    }
                }
                hi = mid;
            }
        }
        proof {
            assert forall|k: int| 0 <= k < self.names().len() implies key_of(#[trigger] self.names()[k].0) != key_of(name@) by {
                assert(self.names()[k].0 == self.indices@[k].0@);
                lemma_lex_irreflexive(nb@);
            }
        }
        let ni = self.inherits.len();
        let ghost old_names = self.names();
        let ghost old_edges = self.edges();
        let ghost old_indices = self.indices@;
        self.indices.insert(lo, (name.to_owned(), ni));
        self.inherits.push(Vec::new());
        proof {
            assert(self.names() =~= old_names.insert(lo as int, (name@, ni)));
            assert(self.edges() =~= old_edges.push(Seq::<usize>::empty()));
            assert forall|i: int, j: int| 0 <= i < j < self.indices@.len()
                implies lex_lt(key_of(#[trigger] self.indices@[i].0@), key_of(#[trigger] self.indices@[j].0@)) by {
                if j < lo {
                    assert(self.indices@[i] == old_indices[i] && self.indices@[j] == old_indices[j]);
                } else if j == lo {
                    assert(self.indices@[i] == old_indices[i]);
                } else if i < lo {
                    assert(self.indices@[i] == old_indices[i] && self.indices@[j] == old_indices[j - 1]);
                    lemma_lex_transitive(key_of(old_indices[i].0@), nb@, key_of(old_indices[j - 1].0@));
                } else if i == lo {
                    assert(self.indices@[j] == old_indices[j - 1]);
                } else {
                    assert(self.indices@[i] == old_indices[i - 1] && self.indices@[j] == old_indices[j - 1]);
                }
            }
            assert forall|i: int| 0 <= i < self.indices@.len() implies #[trigger] self.indices@[i].1 < self.inherits@.len() by {
                if i < lo {
                    assert(self.indices@[i] == old_indices[i]);
                } else if i > lo {
                    assert(self.indices@[i] == old_indices[i - 1]);
                }
            }
        }
        ni
    }

    /// Records that the type numbered `index` inherits from `name`, and
    /// returns the number of `name`.
    pub fn add_inherit(&mut self, index: usize, name: &str) -> (r: usize)
        requires
            old(self).wf(),
            index < old(self).edges().len(),
            old(self).edges().len() < usize::MAX,
        ensures
            final(self).wf(),
            old(self).has_name(name@) ==> {
                &&& final(self).names() == old(self).names()
                &&& final(self).edges() == old(self).edges().update(index as int, old(self).edges()[index as int].push(r))
                &&& forall|k: int| 0 <= k < old(self).names().len() && key_of(#[trigger] old(self).names()[k].0) == key_of(name@)
                    ==> r == old(self).names()[k].1
            },
            !old(self).has_name(name@) ==> {
                &&& r == old(self).edges().len()
                &&& final(self).edges() == old(self).edges().push(Seq::<usize>::empty()).update(index as int, old(self).edges()[index as int].push(r))
                &&& exists|p: int| 0 <= p <= old(self).names().len() && final(self).names() == old(self).names().insert(p, (name@, r))
            },
    {
        let ni = self.find(name);
        let ghost mid_edges = self.edges();
        let mut list = self.inherits[index].clone();
        list.push(ni);
        self.inherits.set(index, list);
        proof {
            assert(self.edges() =~= mid_edges.update(index as int, mid_edges[index as int].push(ni)));
        }
        ni
    }

    /// The first name recorded for the type numbered `index`.
    pub fn name_by_index(&self, index: usize) -> (r: Option<&str>)
        ensures
            match first_named(self.names(), index) {
                Some(k) => r matches Some(s) && s@ == self.names()[k].0,
                None => r is None,
            },
    {
        let mut k: usize = 0;
        while k < self.indices.len()
            invariant
                k <= self.indices@.len(),
                first_named(self.names().subrange(0, k as int), index) is None,
            decreases self.indices@.len() - k,
        {
            proof {
                assert(self.names().subrange(0, k as int + 1).drop_last() =~= self.names().subrange(0, k as int));
            }
            if self.indices[k].1 == index {
                proof {
                    let pre = self.names().subrange(0, k as int + 1);
                    assert(pre.drop_last() =~= self.names().subrange(0, k as int));
                    assert(first_named(pre, index) == Some(k as int));
                    lemma_first_named_prefix(self.names(), index, k as int + 1, k as int);
                }
                return Some(self.indices[k].0.as_str());
            }
            k = k + 1;
        }
        proof {
            assert(self.names().subrange(0, k as int) =~= self.names());
        }
        None
    }

    /// The names of the types that the type numbered `index` inherits from.
    pub fn iter_inherits(&self, index: usize) -> (r: Vec<&str>)
        requires
            index < self.edges().len(),
        ensures
            r@.map_values(|s: &str| s@) == names_of(self.names(), self.edges()[index as int]),
    {
        let targets = &self.inherits[index];
        let mut out: Vec<&str> = Vec::new();
        let mut k: usize = 0;
        while k < targets.len()
            invariant
                k <= targets@.len(),
                targets@ == self.edges()[index as int],
                out@.map_values(|s: &str| s@) == names_of(self.names(), targets@.subrange(0, k as int)),
            decreases targets@.len() - k,
        {
            let ghost before = out@;
            proof {
                assert(targets@.subrange(0, k as int + 1).drop_last() =~= targets@.subrange(0, k as int));
            }
            match self.name_by_index(targets[k]) {
                Some(s) => {
                    out.push(s);
                    assert(out@.map_values(|s: &str| s@) =~= before.map_values(|s: &str| s@).push(s@));
                },
                None => {},
            }
            k = k + 1;
        }
        proof {
            assert(targets@.subrange(0, targets@.len() as int) =~= targets@);
        }
        out
    }
}

proof fn lemma_first_named_prefix(names: Seq<(Seq<char>, usize)>, index: usize, n: int, k: int)
    requires
        0 <= n <= names.len(),
        first_named(names.subrange(0, n), index) == Some(k),
    ensures
        first_named(names, index) == Some(k),
    decreases names.len(),
{
    if n == names.len() {
        assert(names.subrange(0, n) =~= names);
    } else {
        assert(names.drop_last().subrange(0, n) =~= names.subrange(0, n));
        lemma_first_named_prefix(names.drop_last(), index, n, k);
    }
}

/// Whether `p` is a walk along inheritance edges: each step goes from a type
/// to one it inherits from, and every type on it is numbered.
pub open spec fn is_path(edges: Seq<Seq<usize>>, p: Seq<usize>) -> bool {
    &&& forall|i: int| 0 <= i < p.len() ==> (#[trigger] p[i]) < edges.len()
    &&& forall|i: int| 0 <= i < p.len() - 1 ==> edges[(#[trigger] p[i]) as int].contains(p[i + 1])
}

/// Whether type `b` is reached from type `a` by inheritance, `a` itself
/// included.
pub open spec fn reaches(edges: Seq<Seq<usize>>, a: usize, b: usize) -> bool {
    exists|p: Seq<usize>| is_path(edges, p) && p.len() >= 1 && p[0] == a && #[trigger] p.last() == b
}

/// The number of types not yet visited.
pub open spec fn unvisited(v: Seq<bool>) -> nat
    decreases v.len(),
{
    if v.len() == 0 {
        0
    } else {
        unvisited(v.drop_last()) + if v.last() { 0nat } else { 1nat }
    }
}

proof fn lemma_unvisited_mark(v: Seq<bool>, i: int)
    requires
        0 <= i < v.len(),
        !v[i],
    ensures
        unvisited(v.update(i, true)) + 1 == unvisited(v),
    decreases v.len(),
{
    let w = v.update(i, true);
    if i == v.len() - 1 {
        assert(w.drop_last() =~= v.drop_last());
    } else {
        assert(w.drop_last() =~= v.drop_last().update(i, true));
        lemma_unvisited_mark(v.drop_last(), i);
    }
}

/// Whether every visited type's parents within range are visited too.
pub open spec fn closed(edges: Seq<Seq<usize>>, vis: Seq<bool>) -> bool {
    forall|j: int, m: int| 0 <= j < vis.len() && vis[j] && 0 <= m < edges[j].len() && edges[j][m] < vis.len()
        ==> vis[#[trigger] edges[j][m] as int]
}

proof fn lemma_closed_reach(edges: Seq<Seq<usize>>, vis: Seq<bool>, p: Seq<usize>, i: int)
    requires
        is_path(edges, p),
        p.len() >= 1,
        vis.len() == edges.len(),
        vis[p[0] as int],
        closed(edges, vis),
        0 <= i < p.len(),
    ensures
        vis[p[i] as int],
    decreases i,
{
    if i > 0 {
        lemma_closed_reach(edges, vis, p, i - 1);
        let a = p[i - 1] as int;
        assert(p[i - 1] < edges.len());
        assert(edges[a].contains(p[i]));
        let m = choose|m: int| 0 <= m < edges[a].len() && edges[a][m] == p[i];
        assert(p[i] < vis.len());
        assert(vis[edges[a][m] as int]);
    }
}

impl Inheritance {
    /// The number of types.
    pub fn len(&self) -> (r: usize)
        ensures
            r == self.edges().len(),
    {
        self.inherits.len()
    }

    /// The number of `name`, if it is recorded.
    pub fn number_of(&self, name: &str) -> (r: Option<usize>)
        requires
            self.wf(),
        ensures
            match r {
                Some(t) => forall|k: int| 0 <= k < self.names().len() && key_of(#[trigger] self.names()[k].0) == key_of(name@) ==> self.names()[k].1 == t,
                None => true,
            },
            r is Some <==> self.has_name(name@),
    {
        let nb = name.as_bytes();
        let mut k: usize = 0;
        while k < self.indices.len()
            invariant
                self.wf(),
                k <= self.indices@.len(),
                nb@ == key_of(name@),
                forall|j: int| 0 <= j < k ==> key_of(#[trigger] self.names()[j].0) != key_of(name@),
            decreases self.indices@.len() - k,
        {
            assert(self.names()[k as int].0 == self.indices@[k as int].0@);
            if compare_bytes(self.indices[k].0.as_str().as_bytes(), nb) == 0 {
                let t = self.indices[k].1;
                proof {
                    assert forall|j: int| 0 <= j < self.names().len() && key_of(#[trigger] self.names()[j].0) == key_of(name@)
                        implies self.names()[j].1 == t by {
                        assert(self.names()[j].0 == self.indices@[j].0@);
                        if j > k {
                            assert(lex_lt(key_of(self.indices@[k as int].0@), key_of(self.indices@[j].0@)));
                            lemma_lex_irreflexive(nb@);
                        } else if j < k {
                        }
                    }
                }
                return Some(t);
            }
            k = k + 1;
        }
        None
    }

    /// Whether the type numbered `index` is, or inherits (directly or not)
    /// from, the type named `name`. Each type is visited once, so cycles end.
    pub fn inherits(&self, index: usize, name: &str) -> (r: bool)
        requires
            self.wf(),
            index < self.edges().len(),
        ensures
            r == exists|k: int| 0 <= k < self.names().len() && key_of(#[trigger] self.names()[k].0) == key_of(name@)
                && reaches(self.edges(), index, self.names()[k].1),
    {
        let t = match self.number_of(name) {
            None => {
                return false;
            },
            Some(t) => t,
        };
        let ghost edges = self.edges();
        let n = self.inherits.len();
        let mut visited: Vec<bool> = Vec::new();
        while visited.len() < n
            invariant
                visited@.len() <= n,
                forall|j: int| 0 <= j < visited@.len() ==> !visited@[j],
            decreases n - visited@.len(),
        {
            visited.push(false);
        }
        proof {
            lemma_unvisited_mark(visited@, index as int);
            let p = seq![index];
            assert(is_path(edges, p));
            assert(p.last() == index);
        }
        visited.set(index, true);
        let mut stack: Vec<usize> = Vec::new();
        stack.push(index);
        while stack.len() > 0
            invariant
                n == edges.len(),
                edges == self.edges(),
                visited@.len() == n,
                index < n,
                visited@[index as int],
                forall|j: int| 0 <= j < n && visited@[j] ==> reaches(edges, index, j as usize),
                forall|i: int| 0 <= i < stack@.len() ==> (#[trigger] stack@[i]) < n && visited@[stack@[i] as int],
                stack@.no_duplicates(),
                forall|j: int, m: int| 0 <= j < n && visited@[j] && !stack@.contains(j as usize) && 0 <= m < edges[j].len() && edges[j][m] < n
                    ==> visited@[#[trigger] edges[j][m] as int],
            decreases unvisited(visited@), stack@.len(),
        {
            let ghost st_old = stack@;
            let j = stack.pop().unwrap();
            proof {
                assert(st_old == stack@.push(j));
                assert(!stack@.contains(j)) by {
                    if stack@.contains(j) {
                        let x = choose|x: int| 0 <= x < stack@.len() && stack@[x] == j;
                        assert(st_old[x] == st_old[st_old.len() - 1]);
                    }
                }
                assert forall|q: int| 0 <= q < n && q != j && !stack@.contains(q as usize) implies !(#[trigger] st_old.contains(q as usize)) by {
                    if st_old.contains(q as usize) {
                        let x = choose|x: int| 0 <= x < st_old.len() && st_old[x] == q as usize;
                        assert(x < stack@.len());
                        assert(stack@[x] == q as usize);
                    }
                }
            }
            let ghost u0 = unvisited(visited@);
            let ghost s0 = stack@.len();
            let parents = &self.inherits[j];
            proof {
                assert(parents@ == edges[j as int]);
            }
            let mut m: usize = 0;
            let ghost pushed: nat = 0;
            while m < parents.len()
                invariant
                    n == edges.len(),
                    edges == self.edges(),
                    parents@ == edges[j as int],
                    j < n,
                    visited@.len() == n,
                    m <= parents@.len(),
                    visited@[index as int],
                    visited@[j as int],
                    !stack@.contains(j),
                    forall|q: int| 0 <= q < n && visited@[q] ==> reaches(edges, index, q as usize),
                    forall|i: int| 0 <= i < stack@.len() ==> (#[trigger] stack@[i]) < n && visited@[stack@[i] as int],
                    stack@.no_duplicates(),
                    forall|q: int, w: int| 0 <= q < n && visited@[q] && q != j && !stack@.contains(q as usize) && 0 <= w < edges[q].len() && edges[q][w] < n
                        ==> visited@[#[trigger] edges[q][w] as int],
                    forall|w: int| 0 <= w < m && edges[j as int][w] < n ==> visited@[#[trigger] edges[j as int][w] as int],
                    unvisited(visited@) + pushed == u0,
                    stack@.len() == s0 + pushed,
                decreases parents@.len() - m,
            {
                let e = parents[m];
                let ghost vis_before = visited@;
                let ghost st_before = stack@;
                if e < n && !visited[e] {
                    proof {
                        lemma_unvisited_mark(visited@, e as int);
                        let p0 = choose|p: Seq<usize>| is_path(edges, p) && p.len() >= 1 && p[0] == index && #[trigger] p.last() == j;
                        let p1 = p0.push(e);
                        assert(edges[j as int].contains(e)) by {
                            assert(edges[j as int][m as int] == e);
                        }
                        assert(is_path(edges, p1)) by {
                            assert forall|i: int| 0 <= i < p1.len() - 1 implies edges[(#[trigger] p1[i]) as int].contains(p1[i + 1]) by {
                                if i < p0.len() - 1 {
                                    assert(p1[i] == p0[i] && p1[i + 1] == p0[i + 1]);
                                } else {
                                    assert(p1[i] == j && p1[i + 1] == e);
                                }
                            }
                        }
                        assert(p1.last() == e);
                    }
                    visited.set(e, true);
                    stack.push(e);
                    proof {
                        pushed = pushed + 1;
                        assert(stack@.no_duplicates());
                        assert(stack@ == st_before.push(e));
                        assert forall|q: int, w: int| 0 <= q < n && visited@[q] && q != j && !stack@.contains(q as usize) && 0 <= w < edges[q].len() && edges[q][w] < n
                            implies visited@[#[trigger] edges[q][w] as int] by {
                            assert(q != e as int) by {
                                assert(stack@[stack@.len() - 1] == e);
                            }
                            assert(vis_before[q]);
                            assert(!st_before.contains(q as usize)) by {
                                if st_before.contains(q as usize) {
                                    let x = choose|x: int| 0 <= x < st_before.len() && st_before[x] == q as usize;
                                    assert(stack@[x] == q as usize);
                                }
                            }
                        }
                    }
                }
                m = m + 1;
            }
        }
        proof {
            assert(closed(edges, visited@));
            assert forall|k: int| 0 <= k < self.names().len() && key_of(#[trigger] self.names()[k].0) == key_of(name@)
                && reaches(edges, index, self.names()[k].1) implies visited@[t as int] by {
                assert(self.names()[k].1 == t);
                let p = choose|p: Seq<usize>| is_path(edges, p) && p.len() >= 1 && p[0] == index && #[trigger] p.last() == t;
                lemma_closed_reach(edges, visited@, p, p.len() - 1);
            }
        }
        let found = visited[t];
        proof {
            if found {
                assert(self.has_name(name@));
                let k = choose|k: int| 0 <= k < self.names().len() && key_of(#[trigger] self.names()[k].0) == key_of(name@);
                assert(self.names()[k].1 == t);
                assert(reaches(edges, index, t));
            }
        }
        found
    }
}

/// Strings with the numbers they were first seen under, kept in order of
/// the strings.
pub struct Indexer(Vec<IndexStr<String>>);

impl Indexer {
    /// Strings are kept in strictly increasing order.
    pub closed spec fn wf(&self) -> bool {
        forall|i: int, j: int| 0 <= i < j < self.0@.len()
            ==> lex_lt(key_of(#[trigger] self.0@[i].0@), key_of(#[trigger] self.0@[j].0@))
    }

    /// The strings with their numbers, in string order.
    pub closed spec fn entries(&self) -> Seq<(Seq<char>, usize)> {
        self.0@.map_values(|e: IndexStr<String>| (e.0@, e.1))
    }

    /// Whether `s` is recorded.
    pub open spec fn has(&self, s: Seq<char>) -> bool {
        exists|k: int| 0 <= k < self.entries().len() && key_of(#[trigger] self.entries()[k].0) == key_of(s)
    }

    /// No strings.
    pub fn new() -> (r: Self)
        ensures
            r.wf(),
            r.entries().len() == 0,
    {
        Indexer(Vec::new())
    }

    /// The entry of `s`; a string seen for the first time is numbered by
    /// how many strings were recorded before it.
    pub fn find_or_insert(&mut self, s: &str) -> (r: IndexStr<String>)
        requires
            old(self).wf(),
        ensures
            final(self).wf(),
            r.0@ == s@,
            old(self).has(s@) ==> {
                &&& final(self).entries() == old(self).entries()
                &&& forall|k: int| 0 <= k < old(self).entries().len() && key_of(#[trigger] old(self).entries()[k].0) == key_of(s@)
                    ==> r.1 == old(self).entries()[k].1
            },
            !old(self).has(s@) ==> {
                &&& r.1 == old(self).entries().len()
                &&& exists|p: int| 0 <= p <= old(self).entries().len() && final(self).entries() == old(self).entries().insert(p, (s@, r.1))
            },
    {
        let nb = s.as_bytes();
        let mut lo: usize = 0;
        let mut hi: usize = self.0.len();
        while lo < hi
            invariant
                self.wf(),
                lo <= hi <= self.0@.len(),
                nb@ == key_of(s@),
                forall|k: int| 0 <= k < lo ==> lex_lt(key_of(#[trigger] self.0@[k].0@), nb@),
                forall|k: int| hi <= k < self.0@.len() ==> lex_lt(nb@, key_of(#[trigger] self.0@[k].0@)),
            decreases hi - lo,
        {
            let mid = lo + (hi - lo) / 2;
            let c = compare_bytes(self.0[mid].0.as_str().as_bytes(), nb);
            if c == 0 {
                let n = self.0[mid].1;
                proof {
                    assert forall|k: int| 0 <= k < self.entries().len() && key_of(#[trigger] self.entries()[k].0) == key_of(s@)
                        implies n == self.entries()[k].1 by {
                        if k < mid {
                            assert(lex_lt(key_of(self.0@[k].0@), key_of(self.0@[mid as int].0@)));
                            lemma_lex_irreflexive(nb@);
                        } else if k > mid {
                            assert(lex_lt(key_of(self.0@[mid as int].0@), key_of(self.0@[k].0@)));
                            lemma_lex_irreflexive(nb@);
                        }
                    }
                    assert(self.entries()[mid as int].0 == self.0@[mid as int].0@);
                }
                return IndexStr::new(s.to_owned(), n);
            } else if c < 0 {
                proof {
                    assert forall|k: int| 0 <= k < mid + 1 implies lex_lt(key_of(#[trigger] self.0@[k].0@), nb@) by {
                        if k < mid {
                            lemma_lex_transitive(key_of(self.0@[k].0@), key_of(self.0@[mid as int].0@), nb@);
                        }
                    }
                }
                lo = mid + 1;
            } else {
                proof {
                    assert forall|k: int| mid <= k < self.0@.len() implies lex_lt(nb@, key_of(#[trigger] self.0@[k].0@)) by {
                        if k > mid {
                            lemma_lex_transitive(nb@, key_of(self.0@[mid as int].0@), key_of(self.0@[k].0@));
                        }
                    }
                }
                hi = mid;
            }
        }
        proof {
            assert forall|k: int| 0 <= k < self.entries().len() implies key_of(#[trigger] self.entries()[k].0) != key_of(s@) by {
                assert(self.entries()[k].0 == self.0@[k].0@);
                lemma_lex_irreflexive(nb@);
            }
        }
        let n = self.0.len();
        let ghost old_entries = self.entries();
        let ghost old_items = self.0@;
        self.0.insert(lo, IndexStr::new(s.to_owned(), n));
        proof {
            assert(self.entries() =~= old_entries.insert(lo as int, (s@, n)));
            assert forall|i: int, j: int| 0 <= i < j < self.0@.len()
                implies lex_lt(key_of(#[trigger] self.0@[i].0@), key_of(#[trigger] self.0@[j].0@)) by {
                if j < lo {
                    assert(self.0@[i] == old_items[i] && self.0@[j] == old_items[j]);
                } else if j == lo {
                    assert(self.0@[i] == old_items[i]);
                } else if i < lo {
                    assert(self.0@[i] == old_items[i] && self.0@[j] == old_items[j - 1]);
                    lemma_lex_transitive(key_of(old_items[i].0@), nb@, key_of(old_items[j - 1].0@));
                } else if i == lo {
                    assert(self.0@[j] == old_items[j - 1]);
                } else {
                    assert(self.0@[i] == old_items[i - 1] && self.0@[j] == old_items[j - 1]);
                }
            }
        }
        IndexStr::new(s.to_owned(), n)
    }
}

/// What `std::path::Path::extension` gives for the path `p`.
pub uninterp spec fn extension_of(p: Seq<char>) -> Option<Seq<char>>;

/// Relies on `std::path::Path::extension`: the part of the path's file name
/// after its last dot, if any. The path is text, so the extension is too.
#[verifier::external_body]
fn path_extension(p: &str) -> (r: Option<&str>)
    ensures
        match r {
            Some(x) => extension_of(p@) == Some(x@),
            None => extension_of(p@) is None,
        },
{
    match std::path::Path::new(p).extension() {
        Some(x) => x.to_str(),
        None => None,
    }
}

/// A character with ASCII upper case letters mapped to lower case.
pub open spec fn ascii_lower(c: char) -> char {
    if 'A' <= c <= 'Z' {
        ((c as u32) + 32) as char
    } else {
        c
    }
}

/// A byte with ASCII upper case letters mapped to lower case.
pub open spec fn ascii_lower_byte(b: u8) -> u8 {
    if 65 <= b <= 90 {
        (b + 32) as u8
    } else {
        b
    }
}

/// Whether two byte strings are equal up to ASCII case.
pub open spec fn eq_ignore_ascii_case(a: Seq<u8>, b: Seq<u8>) -> bool {
    a.len() == b.len() && forall|i: int| 0 <= i < a.len() ==> ascii_lower_byte(#[trigger] a[i]) == ascii_lower_byte(b[i])
}

/// Relies on `str::to_ascii_lowercase`: each ASCII upper case letter is
/// mapped to lower case, every other character is kept.
#[verifier::external_body]
fn to_ascii_lowercase(s: &str) -> (r: String)
    ensures
        r@ == s@.map_values(|c: char| ascii_lower(c)),
{
    s.to_ascii_lowercase()
}

fn bytes_eq_ignore_case(a: &[u8], b: &[u8]) -> (r: bool)
    ensures
        r == eq_ignore_ascii_case(a@, b@),
{
    if a.len() != b.len() {
        return false;
    }
    let mut i: usize = 0;
    while i < a.len()
        invariant
            a@.len() == b@.len(),
            i <= a@.len(),
            forall|j: int| 0 <= j < i ==> ascii_lower_byte(#[trigger] a@[j]) == ascii_lower_byte(b@[j]),
        decreases a@.len() - i,
    {
        let x = if 65 <= a[i] && a[i] <= 90 { a[i] + 32 } else { a[i] };
        let y = if 65 <= b[i] && b[i] <= 90 { b[i] + 32 } else { b[i] };
        if x != y {
            return false;
        }
        i = i + 1;
    }
    true
}

/// The kinds of file that a mod archive holds, by extension.
pub enum Extension {
    Empty,
    Class,
    Json,
    Png,
    Ogg,
    Toml,
    Properties,
    Mf,
    Jar,
    /// Any other extension, in ASCII lower case.
    Other(String),
}

/// The known extension that `x` is, up to ASCII case, if any.
pub open spec fn spec_known(x: Seq<u8>) -> Option<Extension> {
    if eq_ignore_ascii_case(x, "class".spec_bytes()) {
        Some(Extension::Class)
    } else if eq_ignore_ascii_case(x, "json".spec_bytes()) {
        Some(Extension::Json)
    } else if eq_ignore_ascii_case(x, "png".spec_bytes()) {
        Some(Extension::Png)
    } else if eq_ignore_ascii_case(x, "ogg".spec_bytes()) {
        Some(Extension::Ogg)
    } else if eq_ignore_ascii_case(x, "toml".spec_bytes()) {
        Some(Extension::Toml)
    } else if eq_ignore_ascii_case(x, "properties".spec_bytes()) {
        Some(Extension::Properties)
    } else if eq_ignore_ascii_case(x, "mf".spec_bytes()) {
        Some(Extension::Mf)
    } else if eq_ignore_ascii_case(x, "jar".spec_bytes()) {
        Some(Extension::Jar)
    } else {
        None
    }
}

impl Extension {
    /// The kind of file at path `p`, by its extension.
    pub fn from_path(p: &str) -> (r: Extension)
        ensures
            match extension_of(p@) {
                None => r is Empty,
                Some(x) => match spec_known(key_of(x)) {
                    Some(k) => r == k,
                    None => r matches Extension::Other(o) && o@ == x.map_values(|c: char| ascii_lower(c)),
                },
            },
    {
        let x = match path_extension(p) {
            None => return Extension::Empty,
            Some(x) => x,
        };
        let b = x.as_bytes();
        if bytes_eq_ignore_case(b, "class".as_bytes()) {
            Extension::Class
        } else if bytes_eq_ignore_case(b, "json".as_bytes()) {
            Extension::Json
        } else if bytes_eq_ignore_case(b, "png".as_bytes()) {
            Extension::Png
        } else if bytes_eq_ignore_case(b, "ogg".as_bytes()) {
            Extension::Ogg
        } else if bytes_eq_ignore_case(b, "toml".as_bytes()) {
            Extension::Toml
        } else if bytes_eq_ignore_case(b, "properties".as_bytes()) {
            Extension::Properties
        } else if bytes_eq_ignore_case(b, "mf".as_bytes()) {
            Extension::Mf
        } else if bytes_eq_ignore_case(b, "jar".as_bytes()) {
            Extension::Jar
        } else {
            Extension::Other(to_ascii_lowercase(x))
        }
    }

    /// The extension's text: empty for `Empty`, lower case otherwise.
    pub open spec fn spec_str(&self) -> Seq<char> {
        match self {
            Extension::Empty => "".view(),
            Extension::Class => "class".view(),
            Extension::Json => "json".view(),
            Extension::Png => "png".view(),
            Extension::Ogg => "ogg".view(),
            Extension::Toml => "toml".view(),
            Extension::Properties => "properties".view(),
            Extension::Mf => "mf".view(),
            Extension::Jar => "jar".view(),
            Extension::Other(x) => x@,
        }
    }

    /// The extension's text: empty for `Empty`, lower case otherwise.
    pub fn str(&self) -> (r: &str)
        ensures
            r@ == self.spec_str(),
    {
        match self {
            Extension::Empty => "",
            Extension::Class => "class",
            Extension::Json => "json",
            Extension::Png => "png",
            Extension::Ogg => "ogg",
            Extension::Toml => "toml",
            Extension::Properties => "properties",
            Extension::Mf => "mf",
            Extension::Jar => "jar",
            Extension::Other(x) => x.as_str(),
        }
    }

    /// Whether the path `s` has this extension, up to ASCII case.
    pub fn matches(&self, s: &str) -> (r: bool)
        ensures
            match extension_of(s@) {
                None => !r,
                Some(x) => r == eq_ignore_ascii_case(key_of(x), key_of(self.spec_str())),
            },
    {
        match path_extension(s) {
            None => false,
            Some(x) => bytes_eq_ignore_case(x.as_bytes(), self.str().as_bytes()),
        }
    }
}

} // verus!
