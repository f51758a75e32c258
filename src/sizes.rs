use vstd::prelude::*;
use vstd::string::StringSliceAdditionalSpecFns;

use crate::assoc::{keys_unique, lemma_lookup_absent, lemma_lookup_found, lemma_lookup_push, lemma_lookup_update, lemma_push_keeps_keys_unique, lemma_update_keeps_keys_unique, lookup, position_of};
use crate::buf::bytes_eq;
use crate::ext::{extension_of, key_of, spec_known, Extension};
use crate::zipext::FileEntry;

verus! {

/// Manifests and metadata.
pub const META: usize = 0;
/// Compiled class containers.
pub const CLASSES: usize = 1;
/// Files under `assets/`.
pub const ASSETS: usize = 2;
/// Files under `data/`.
pub const DATA: usize = 3;
/// Everything else.
pub const OTHER: usize = 4;

/// The bytes before the first `/`, if there is one.
pub open spec fn first_component(k: Seq<u8>) -> Option<Seq<u8>> {
    if exists|i: int| 0 <= i < k.len() && k[i] == 47u8 {
        let i = choose|i: int| 0 <= i < k.len() && k[i] == 47u8 && forall|j: int| 0 <= j < i ==> k[j] != 47u8;
        Some(k.subrange(0, i))
    } else {
        None
    }
}

/// The known kind of a path's extension, if any.
pub open spec fn ext_of(name: Seq<char>) -> Option<Extension> {
    match extension_of(name) {
        Some(x) => spec_known(key_of(x)),
        None => None,
    }
}

/// The bucket that an archive member falls in, by its top directory and
/// its extension.
pub open spec fn bucket_of(name: Seq<char>) -> usize {
    let top = first_component(key_of(name));
    if top == Some("assets".spec_bytes()) {
        ASSETS
    } else if top == Some("data".spec_bytes()) {
        DATA
    } else if top == Some("META-INF".spec_bytes()) {
        match ext_of(name) {
            Some(Extension::Toml) | Some(Extension::Json) | Some(Extension::Properties) | Some(Extension::Mf) => META,
            _ => OTHER,
        }
    } else {
        match ext_of(name) {
            Some(Extension::Class) => CLASSES,
            Some(Extension::Json) => META,
            _ => OTHER,
        }
    }
}

fn top_dir(k: &[u8]) -> (r: Option<&[u8]>)
    ensures
        match first_component(k@) {
            Some(c) => r matches Some(x) && x@ == c,
            None => r is None,
        },
{
    let mut i: usize = 0;
    while i < k.len()
        invariant
            i <= k@.len(),
            forall|j: int| 0 <= j < i ==> k@[j] != 47u8,
        decreases k@.len() - i,
    {
        if k[i] == 47u8 {
            proof {
                let w = choose|w: int| 0 <= w < k@.len() && k@[w] == 47u8 && forall|j: int| 0 <= j < w ==> k@[j] != 47u8;
                assert(w == i as int) by {
                    if w < i {
                    } else if w > i {
                        assert(k@[i as int] != 47u8);
                    }
                }
            }
            return Some(vstd::slice::slice_subrange(k, 0, i));
        }
        i = i + 1;
    }
    None
}

/// The bucket of one archive member.
pub fn bucket(name: &str) -> (r: usize)
    ensures
        r == bucket_of(name@),
{
    let top = top_dir(name.as_bytes());
    let ext = Extension::from_path(name);
    let (assets, data, meta_inf) = match top {
        Some(t) => (bytes_eq(t, "assets".as_bytes()), bytes_eq(t, "data".as_bytes()), bytes_eq(t, "META-INF".as_bytes())),
        None => (false, false, false),
    };
    if assets {
        ASSETS
    } else if data {
        DATA
    } else if meta_inf {
        match ext {
            Extension::Toml | Extension::Json | Extension::Properties | Extension::Mf => META,
            _ => OTHER,
        }
    } else {
        match ext {
            Extension::Class => CLASSES,
            Extension::Json => META,
            _ => OTHER,
        }
    }
}

/// Count, size and compressed size of the members in bucket `b` among
/// `entries` (name, size, compressed size).
pub open spec fn totals(entries: Seq<(Seq<char>, u64, u64)>, b: usize) -> (int, int, int)
    decreases entries.len(),
{
    if entries.len() == 0 {
        (0, 0, 0)
    } else {
        let t = totals(entries.drop_last(), b);
        let e = entries.last();
        if bucket_of(e.0) == b {
            (t.0 + 1, t.1 + e.1, t.2 + e.2)
        } else {
            t
        }
    }
}

/// Whether a triple of totals fits in `usize`.
pub open spec fn fits(t: (int, int, int)) -> bool {
    t.0 <= usize::MAX && t.1 <= usize::MAX && t.2 <= usize::MAX
}

pub proof fn lemma_totals_grow(entries: Seq<(Seq<char>, u64, u64)>, n: int, b: usize)
    requires
        0 <= n <= entries.len(),
    ensures
        totals(entries.subrange(0, n), b).0 <= totals(entries, b).0,
        totals(entries.subrange(0, n), b).1 <= totals(entries, b).1,
        totals(entries.subrange(0, n), b).2 <= totals(entries, b).2,
    decreases entries.len(),
{
    if n == entries.len() {
        assert(entries.subrange(0, n) =~= entries);
    } else {
        assert(entries.drop_last().subrange(0, n) =~= entries.subrange(0, n));
        lemma_totals_grow(entries.drop_last(), n, b);
    }
}

/// A total that does not fit in `usize`.
#[derive(PartialEq, Eq, Structural, Clone, Copy, Debug)]
pub struct SizeOverflow;

/// Two triples of totals, added.
pub open spec fn add3(a: (int, int, int), b: (int, int, int)) -> (int, int, int) {
    (a.0 + b.0, a.1 + b.1, a.2 + b.2)
}

/// Member counts and sizes by content bucket: count, uncompressed size and
/// compressed size for each.
pub struct ModContentSizes {
    meta: [usize; 3],
    classes: [usize; 3],
    assets: [usize; 3],
    data: [usize; 3],
    other: [usize; 3],
}

/// The archive members as plain values: name, size, compressed size.
pub open spec fn entries_view(entries: Seq<(String, FileEntry)>) -> Seq<(Seq<char>, u64, u64)> {
    entries.map_values(|e: (String, FileEntry)| (e.0@, e.1.len_view(), e.1.comp_len_view()))
}

impl ModContentSizes {
    /// The triple of bucket `b`.
    pub closed spec fn at(&self, b: usize) -> (int, int, int) {
        let a = if b == META {
            self.meta
        } else if b == CLASSES {
            self.classes
        } else if b == ASSETS {
            self.assets
        } else if b == DATA {
            self.data
        } else {
            self.other
        };
        (a[0] as int, a[1] as int, a[2] as int)
    }

    /// All buckets empty.
    pub fn new() -> (r: Self)
        ensures
            forall|b: usize| b < 5 ==> #[trigger] r.at(b) == (0int, 0int, 0int),
    {
        ModContentSizes { meta: [0; 3], classes: [0; 3], assets: [0; 3], data: [0; 3], other: [0; 3] }
    }

    /// The triple of bucket `b`: count, size, compressed size.
    pub fn get(&self, b: usize) -> (r: [usize; 3])
        requires
            b < 5,
        ensures
            (r[0] as int, r[1] as int, r[2] as int) == self.at(b),
    {
        if b == META {
            self.meta
        } else if b == CLASSES {
            self.classes
        } else if b == ASSETS {
            self.assets
        } else if b == DATA {
            self.data
        } else {
            self.other
        }
    }

    /// Adds the counts of `other`, bucket by bucket.
    pub fn extend(&mut self, other: &Self)
        requires
            forall|b: usize| b < 5 ==> fits(#[trigger] add3(old(self).at(b), other.at(b))),
        ensures
            forall|b: usize| b < 5 ==> #[trigger] final(self).at(b) == add3(old(self).at(b), other.at(b)),
    {
        let ghost start = *self;
        let mut b: usize = 0;
        while b < 5
            invariant
                b <= 5,
                forall|c: usize| c < 5 ==> fits(#[trigger] add3(start.at(c), other.at(c))),
                forall|c: usize| c < b ==> #[trigger] self.at(c) == add3(start.at(c), other.at(c)),
                forall|c: usize| b <= c < 5 ==> #[trigger] self.at(c) == start.at(c),
            decreases 5 - b,
        {
            let o = other.get(b);
            let slot = self.slot(b);
            assert(fits(add3(start.at(b), other.at(b))));
            slot[0] = slot[0] + o[0];
            slot[1] = slot[1] + o[1];
            slot[2] = slot[2] + o[2];
            b = b + 1;
        }
    }

    fn slot(&mut self, b: usize) -> (r: &mut [usize; 3])
        requires
            b < 5,
        ensures
            (r[0] as int, r[1] as int, r[2] as int) == old(self).at(b),
            forall|c: usize| c < 5 && c != b ==> #[trigger] final(self).at(c) == old(self).at(c),
            final(self).at(b) == (final(r)[0] as int, final(r)[1] as int, final(r)[2] as int),
    {
        if b == META {
            &mut self.meta
        } else if b == CLASSES {
            &mut self.classes
        } else if b == ASSETS {
            &mut self.assets
        } else if b == DATA {
            &mut self.data
        } else {
            &mut self.other
        }
    }
}

/// Counts the members of an archive, and their sizes, by content bucket; an
/// error where a total does not fit in `usize`.
#[verifier::rlimit(50)]
pub fn compute_mod_content_sizes(entries: &Vec<(String, FileEntry)>) -> (r: Result<ModContentSizes, SizeOverflow>)
    ensures
        r is Ok <==> forall|b: usize| b < 5 ==> fits(#[trigger] totals(entries_view(entries@), b)),
        r matches Ok(m) ==> forall|b: usize| b < 5 ==> #[trigger] m.at(b) == totals(entries_view(entries@), b),
{
    let ghost all = entries_view(entries@);
    let mut m = ModContentSizes::new();
    let mut i: usize = 0;
    assert(all.subrange(0, 0) =~= Seq::<(Seq<char>, u64, u64)>::empty());
    while i < entries.len()
        invariant
            i <= entries@.len(),
            all == entries_view(entries@),
            forall|b: usize| b < 5 ==> #[trigger] m.at(b) == totals(all.subrange(0, i as int), b),
        decreases entries@.len() - i,
    {
        let ghost pre = all.subrange(0, i as int);
        proof {
            assert(all.subrange(0, i as int + 1).drop_last() =~= pre);
            assert(all.subrange(0, i as int + 1).last() == all[i as int]);
        }
        let b = bucket(entries[i].0.as_str());
        let size = entries[i].1.size();
        let comp = entries[i].1.compressed();
        let ghost before = m;
        let slot = m.slot(b);
        let count = slot[0].checked_add(1);
        let total = if (size as u128) <= (usize::MAX as u128) { slot[1].checked_add(size as usize) } else { None };
        let packed = if (comp as u128) <= (usize::MAX as u128) { slot[2].checked_add(comp as usize) } else { None };
        match (count, total, packed) {
            (Some(c), Some(t), Some(p)) => {
                slot[0] = c;
                slot[1] = t;
                slot[2] = p;
            },
            _ => {
                proof {
                    assert(!fits(totals(all.subrange(0, i as int + 1), b)));
                    lemma_totals_grow(all, i as int + 1, b);
                    assert(!fits(totals(all, b)));
                }
                return Err(SizeOverflow);
            },
        }
        i = i + 1;
    }
    proof {
        assert(all.subrange(0, entries@.len() as int) =~= all);
        assert forall|b: usize| b < 5 implies fits(#[trigger] totals(all, b)) by {
            assert(m.at(b) == totals(all, b));
        }
    }
    Ok(m)
}

} // verus!

verus! {

/// What `str::to_lowercase` gives for `s`.
pub uninterp spec fn lower_of(s: Seq<char>) -> Seq<char>;

/// Relies on `str::to_lowercase`: the result depends on the characters alone.
#[verifier::external_body]
fn to_lowercase(s: &str) -> (r: String)
    ensures
        r@ == lower_of(s@),
{
    s.to_lowercase()
}

/// Relies on `str::rsplit_once` with a `'.'` pattern: the text before and
/// after the last dot, absent when there is none.
#[verifier::external_body]
fn split_last_dot(s: &str) -> (r: Option<(&str, &str)>)
    ensures
        match r {
            Some((a, b)) => s@ == a@ + seq!['.'] + b@ && !b@.contains('.'),
            None => !s@.contains('.'),
        },
{
    s.rsplit_once('.')
}

/// The extension that file-type counts go by: the text after the last dot,
/// in lower case; empty when there is no dot or nothing on either side of it.
pub open spec fn type_key(name: Seq<char>) -> Seq<char> {
    if name.contains('.') {
        let i = choose|i: int| 0 <= i < name.len() && name[i] == '.' && !name.subrange(i + 1, name.len() as int).contains('.');
        if i == 0 || i + 1 == name.len() {
            Seq::empty()
        } else {
            lower_of(name.subrange(i + 1, name.len() as int))
        }
    } else {
        Seq::empty()
    }
}

proof fn lemma_last_dot(s: Seq<char>, a: Seq<char>, b: Seq<char>)
    requires
        s == a + seq!['.'] + b,
        !b.contains('.'),
    ensures
        s.contains('.'),
        ({
            let i = choose|i: int| 0 <= i < s.len() && s[i] == '.' && !s.subrange(i + 1, s.len() as int).contains('.');
            i == a.len() && s.subrange(i + 1, s.len() as int) == b
        }),
{
    let k = a.len() as int;
    assert(s[k] == '.');
    assert(s.subrange(k + 1, s.len() as int) =~= b);
    let i = choose|i: int| 0 <= i < s.len() && s[i] == '.' && !s.subrange(i + 1, s.len() as int).contains('.');
    if i < k {
        assert(s.subrange(i + 1, s.len() as int)[k - i - 1] == '.');
    } else if i > k {
        assert(b[i - k - 1] == s[i]);
    }
}

/// The key that a member's sizes are counted under.
pub fn file_type(name: &str) -> (r: String)
    ensures
        r@ == type_key(name@),
{
    match split_last_dot(name) {
        None => String::new(),
        Some((a, b)) => {
            proof {
                lemma_last_dot(name@, a@, b@);
            }
            if a.is_empty() || b.is_empty() {
                String::new()
            } else {
                to_lowercase(b)
            }
        },
    }
}

} // verus!

verus! {

/// Count, size and compressed size of the members whose type key is `key`.
pub open spec fn type_totals(entries: Seq<(Seq<char>, u64, u64)>, key: Seq<char>) -> (int, int, int)
    decreases entries.len(),
{
    if entries.len() == 0 {
        (0, 0, 0)
    } else {
        let t = type_totals(entries.drop_last(), key);
        let e = entries.last();
        if type_key(e.0) == key {
            (t.0 + 1, t.1 + e.1, t.2 + e.2)
        } else {
            t
        }
    }
}

/// The counts of `key` when any member has it.
pub open spec fn present(t: (int, int, int)) -> Option<(int, int, int)> {
    if t.0 > 0 {
        Some(t)
    } else {
        None
    }
}

pub proof fn lemma_type_totals_grow(entries: Seq<(Seq<char>, u64, u64)>, n: int, key: Seq<char>)
    requires
        0 <= n <= entries.len(),
    ensures
        type_totals(entries.subrange(0, n), key).0 <= type_totals(entries, key).0,
        type_totals(entries.subrange(0, n), key).1 <= type_totals(entries, key).1,
        type_totals(entries.subrange(0, n), key).2 <= type_totals(entries, key).2,
        type_totals(entries, key).0 >= 0 && type_totals(entries, key).1 >= 0 && type_totals(entries, key).2 >= 0,
        type_totals(entries, key).0 == 0 ==> type_totals(entries, key) == (0int, 0int, 0int),
    decreases entries.len(),
{
    if entries.len() > 0 {
        if n == entries.len() {
            assert(entries.subrange(0, n) =~= entries);
            lemma_type_totals_grow(entries.drop_last(), n - 1, key);
        } else {
            assert(entries.drop_last().subrange(0, n) =~= entries.subrange(0, n));
            lemma_type_totals_grow(entries.drop_last(), n, key);
        }
    }
}

/// Member counts and sizes by file type.
pub struct ModFileTypeSizes(Vec<(String, [usize; 3])>);

/// Two optional triples, added.
pub open spec fn sum_opt(a: Option<(int, int, int)>, b: Option<(int, int, int)>) -> Option<(int, int, int)> {
    match (a, b) {
        (None, None) => None,
        (Some(x), None) => Some(x),
        (None, Some(y)) => Some(y),
        (Some(x), Some(y)) => Some(add3(x, y)),
    }
}

impl ModFileTypeSizes {
    /// Each type with its count, size and compressed size.
    pub closed spec fn pairs(&self) -> Seq<(Seq<char>, (int, int, int))> {
        self.0@.map_values(|e: (String, [usize; 3])| (e.0@, (e.1[0] as int, e.1[1] as int, e.1[2] as int)))
    }

    /// Each type is listed once.
    pub open spec fn wf(&self) -> bool {
        keys_unique(self.pairs())
    }

    /// The triple listed under `k`.
    pub fn get(&self, k: &String) -> (r: Option<[usize; 3]>)
        requires
            self.wf(),
        ensures
            match lookup(self.pairs(), k@) {
                Some(v) => r matches Some(x) && (x[0] as int, x[1] as int, x[2] as int) == v,
                None => r is None,
            },
    {
        match position_of(&self.0, k) {
            Some(p) => {
                proof {
                    lemma_lookup_found(self.pairs(), p as int);
                }
                Some(self.0[p].1)
            },
            None => {
                proof {
                    assert(forall|i: int| 0 <= i < self.pairs().len() ==> (#[trigger] self.pairs()[i]).0 == self.0@[i].0@);
                    lemma_lookup_absent(self.pairs(), k@);
                }
                None
            },
        }
    }

    /// Adds `t` under `k`.
    fn add(&mut self, k: String, t: [usize; 3]) -> (r: Result<(), SizeOverflow>)
        requires
            old(self).wf(),
        ensures
            final(self).wf(),
            r is Ok <==> (lookup(old(self).pairs(), k@) matches Some(v) ==> fits(add3(v, (t[0] as int, t[1] as int, t[2] as int)))),
            r is Ok ==> forall|q: Seq<char>| #[trigger] lookup(final(self).pairs(), q) == if q == k@ {
                sum_opt(lookup(old(self).pairs(), q), Some((t[0] as int, t[1] as int, t[2] as int)))
            } else {
                lookup(old(self).pairs(), q)
            },
    {
        let ghost before = self.pairs();
        let ghost tv = (t[0] as int, t[1] as int, t[2] as int);
        match position_of(&self.0, &k) {
            Some(p) => {
                let cur = self.0[p].1;
                proof {
                    lemma_lookup_found(before, p as int);
                }
                let (a, b, c) = match (cur[0].checked_add(t[0]), cur[1].checked_add(t[1]), cur[2].checked_add(t[2])) {
                    (Some(a), Some(b), Some(c)) => (a, b, c),
                    _ => return Err(SizeOverflow),
                };
                let ghost nv = (a as int, b as int, c as int);
                self.0.set(p, (k, [a, b, c]));
                proof {
                    assert(self.pairs() =~= before.update(p as int, (before[p as int].0, nv)));
                    lemma_update_keeps_keys_unique(before, p as int, nv);
                    assert forall|q: Seq<char>| #[trigger] lookup(self.pairs(), q) == if q == k@ {
                        sum_opt(lookup(before, q), Some(tv))
                    } else {
                        lookup(before, q)
                    } by {
                        lemma_lookup_update(before, p as int, nv, q);
                    }
                }
                Ok(())
            },
            None => {
                let ghost kv = k@;
                self.0.push((k, t));
                proof {
                    assert(forall|i: int| 0 <= i < before.len() ==> (#[trigger] before[i]).0 == self.0@[i].0@);
                    assert(self.pairs() =~= before.push((kv, tv)));
                    lemma_push_keeps_keys_unique(before, kv, tv);
                    lemma_lookup_absent(before, kv);
                    assert forall|q: Seq<char>| #[trigger] lookup(self.pairs(), q) == if q == kv {
                        sum_opt(lookup(before, q), Some(tv))
                    } else {
                        lookup(before, q)
                    } by {
                        lemma_lookup_push(before, kv, tv, q);
                    }
                }
                Ok(())
            },
        }
    }

    /// Adds the counts of `other`, type by type.
    #[verifier::rlimit(50)]
    pub fn extend(&mut self, other: &Self)
        requires
            old(self).wf(),
            other.wf(),
            forall|q: Seq<char>| #[trigger] sum_opt(lookup(old(self).pairs(), q), lookup(other.pairs(), q)) matches Some(v) ==> fits(v),
        ensures
            final(self).wf(),
            forall|q: Seq<char>| #[trigger] lookup(final(self).pairs(), q) == sum_opt(lookup(old(self).pairs(), q), lookup(other.pairs(), q)),
    {
        let ghost start = self.pairs();
        let ghost op = other.pairs();
        let mut i: usize = 0;
        while i < other.0.len()
            invariant
                i <= other.0@.len(),
                op == other.pairs(),
                keys_unique(op),
                self.wf(),
                forall|q: Seq<char>| #[trigger] sum_opt(lookup(start, q), lookup(op, q)) matches Some(v) ==> fits(v),
                forall|q: Seq<char>| #[trigger] lookup(self.pairs(), q) == sum_opt(lookup(start, q), lookup(op.subrange(0, i as int), q)),
            decreases other.0@.len() - i,
        {
            let ghost pre = op.subrange(0, i as int);
            let ghost ki = op[i as int].0;
            let ghost vi = op[i as int].1;
            proof {
                assert(op.subrange(0, i as int + 1) =~= pre.push((ki, vi)));
                assert forall|j: int| 0 <= j < pre.len() implies (#[trigger] pre[j]).0 != ki by {
                    assert(op[j].0 != op[i as int].0);
                }
                lemma_lookup_absent(pre, ki);
                lemma_lookup_found(op, i as int);
                assert(sum_opt(lookup(start, ki), lookup(op, ki)) matches Some(v) ==> fits(v));
            }
            let r = self.add(other.0[i].0.clone(), other.0[i].1);
            match r {
                Ok(()) => {},
                Err(_) => {
                    assert(false);
                },
            }
            proof {
                assert forall|q: Seq<char>| #[trigger] lookup(self.pairs(), q) == sum_opt(lookup(start, q), lookup(op.subrange(0, i as int + 1), q)) by {
                    lemma_lookup_push(pre, ki, vi, q);
                }
            }
            i = i + 1;
        }
        assert(op.subrange(0, op.len() as int) =~= op);
    }
}

/// Counts the members of an archive, and their sizes, by file type; an
/// error where a total does not fit in `usize`.
#[verifier::rlimit(50)]
pub fn compute_file_type_sizes(entries: &Vec<(String, FileEntry)>) -> (r: Result<ModFileTypeSizes, SizeOverflow>)
    ensures
        r is Ok <==> forall|q: Seq<char>| fits(#[trigger] type_totals(entries_view(entries@), q)),
        r matches Ok(m) ==> m.wf() && forall|q: Seq<char>| #[trigger] lookup(m.pairs(), q) == present(type_totals(entries_view(entries@), q)),
{
    let ghost all = entries_view(entries@);
    let mut m = ModFileTypeSizes(Vec::new());
    assert(m.pairs() =~= Seq::<(Seq<char>, (int, int, int))>::empty());
    let mut i: usize = 0;
    assert(all.subrange(0, 0) =~= Seq::<(Seq<char>, u64, u64)>::empty());
    while i < entries.len()
        invariant
            i <= entries@.len(),
            all == entries_view(entries@),
            m.wf(),
            forall|q: Seq<char>| #[trigger] lookup(m.pairs(), q) == present(type_totals(all.subrange(0, i as int), q)),
            forall|q: Seq<char>| fits(#[trigger] type_totals(all.subrange(0, i as int), q)),
        decreases entries@.len() - i,
    {
        let ghost pre = all.subrange(0, i as int);
        proof {
            assert(all.subrange(0, i as int + 1).drop_last() =~= pre);
            assert(all.subrange(0, i as int + 1).last() == all[i as int]);
        }
        let key = file_type(entries[i].0.as_str());
        let size = entries[i].1.size();
        let comp = entries[i].1.compressed();
        proof {
            assert(all[i as int] == (entries@[i as int].0@, size, comp));
        }
        if (size as u128) > (usize::MAX as u128) || (comp as u128) > (usize::MAX as u128) {
            proof {
                lemma_type_totals_grow(all, i as int + 1, key@);
                lemma_type_totals_grow(pre, i as int, key@);
                assert(pre.subrange(0, i as int) =~= pre);
                assert(!fits(type_totals(all.subrange(0, i as int + 1), key@)));
                assert(!fits(type_totals(all, key@)));
            }
            return Err(SizeOverflow);
        }
        let ghost kv = key@;
        proof {
            lemma_type_totals_grow(pre, i as int, kv);
            assert(pre.subrange(0, i as int) =~= pre);
        }
        let ghost t_pre = type_totals(pre, kv);
        match m.add(key, [1, size as usize, comp as usize]) {
            Ok(()) => {},
            Err(e) => {
                proof {
                    lemma_type_totals_grow(all, i as int + 1, kv);
                    assert(!fits(type_totals(all.subrange(0, i as int + 1), kv)));
                    assert(!fits(type_totals(all, kv)));
                }
                return Err(e);
            },
        }
        proof {
            assert forall|q: Seq<char>| fits(#[trigger] type_totals(all.subrange(0, i as int + 1), q)) by {
                lemma_type_totals_grow(pre, i as int, q);
            }
            assert forall|q: Seq<char>| #[trigger] lookup(m.pairs(), q) == present(type_totals(all.subrange(0, i as int + 1), q)) by {
                lemma_type_totals_grow(pre, i as int, q);
            }
        }
        i = i + 1;
    }
    proof {
        assert(all.subrange(0, entries@.len() as int) =~= all);
    }
    Ok(m)
}

} // verus!
