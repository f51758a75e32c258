use vstd::prelude::*;

use crate::assoc::{keys_unique, lemma_lookup_absent, lemma_lookup_found, lemma_lookup_push, lemma_lookup_update, lemma_push_keeps_keys_unique, lemma_update_keeps_keys_unique, lookup, position_of};
use crate::ext::{compare_bytes, eq_ignore_ascii_case, extension_of, key_of, lemma_lex_irreflexive, lemma_lex_transitive, lemma_lex_trichotomy, lex_lt, Extension};
use crate::loader::views_of;
use vstd::seq_lib::{to_multiset_build, to_multiset_insert};

verus! {

/// A member of a tag: another tag (written with a leading `#`) or an item.
pub enum TagItem {
    Tag(String),
    Item(String),
}

/// One value of a tag file, written either as a bare id or as an object
/// with an `id` field.
pub enum TagEntry {
    Simple(String),
    Struct { id: String },
}

impl TagEntry {
    pub open spec fn id_view(&self) -> Seq<char> {
        match self {
            TagEntry::Simple(x) => x@,
            TagEntry::Struct { id } => id@,
        }
    }

    /// The entry's id, however it was written.
    pub fn id(&self) -> (r: &str)
        ensures
            r@ == self.id_view(),
    {
        match self {
            TagEntry::Simple(x) => x.as_str(),
            TagEntry::Struct { id } => id.as_str(),
        }
    }
}

/// A member as plain values: whether it is a tag, and its id.
pub type ItemView = (bool, Seq<char>);

/// Counts by member.
pub type CountsView = Seq<(ItemView, int)>;

/// Counts by tag name, then by member.
pub type TagsView = Seq<(Seq<char>, CountsView)>;

impl TagItem {
    pub open spec fn item_view(&self) -> ItemView {
        match self {
            TagItem::Tag(x) => (true, x@),
            TagItem::Item(x) => (false, x@),
        }
    }

    /// A copy of the member.
    pub fn duplicate(&self) -> (r: TagItem)
        ensures
            r.item_view() == self.item_view(),
    {
        match self {
            TagItem::Tag(x) => TagItem::Tag(x.clone()),
            TagItem::Item(x) => TagItem::Item(x.clone()),
        }
    }

    /// Whether two members are the same.
    pub fn same(&self, o: &TagItem) -> (r: bool)
        ensures
            r == (self.item_view() == o.item_view()),
    {
        match (self, o) {
            (TagItem::Tag(a), TagItem::Tag(b)) => *a == *b,
            (TagItem::Item(a), TagItem::Item(b)) => *a == *b,
            _ => false,
        }
    }
}

pub open spec fn counts_view(v: Seq<(TagItem, usize)>) -> CountsView {
    v.map_values(|e: (TagItem, usize)| (e.0.item_view(), e.1 as int))
}

pub open spec fn tags_view(v: Seq<(String, Vec<(TagItem, usize)>)>) -> TagsView {
    v.map_values(|e: (String, Vec<(TagItem, usize)>)| (e.0@, counts_view(e.1@)))
}

/// Each tag name is listed once, and so is each member under it.
pub open spec fn tags_wf(t: TagsView) -> bool {
    keys_unique(t) && forall|i: int| 0 <= i < t.len() ==> keys_unique(#[trigger] t[i].1)
}

/// Two optional counts, added.
pub open spec fn add_opt(a: Option<int>, b: Option<int>) -> Option<int> {
    match (a, b) {
        (None, None) => None,
        (Some(x), None) => Some(x),
        (None, Some(y)) => Some(y),
        (Some(x), Some(y)) => Some(x + y),
    }
}

/// Whether two optional counts, where both are present, add up to a
/// `usize`.
pub open spec fn both_fit(a: Option<int>, b: Option<int>) -> bool {
    match (a, b) {
        (Some(x), Some(y)) => x + y <= usize::MAX,
        _ => true,
    }
}

/// The count of member `k3` under tag `k2`.
pub open spec fn count2(t: TagsView, k2: Seq<char>, k3: ItemView) -> Option<int> {
    match lookup(t, k2) {
        Some(c) => lookup(c, k3),
        None => None,
    }
}

/// Whether `t` holds the tags of `d` and `s` together, with counts added.
pub open spec fn merged2(d: TagsView, s: TagsView, t: TagsView) -> bool {
    &&& forall|k2: Seq<char>| (#[trigger] lookup(t, k2) is Some) <==> (lookup(d, k2) is Some || lookup(s, k2) is Some)
    &&& forall|k2: Seq<char>, k3: ItemView| #[trigger] count2(t, k2, k3) == add_opt(count2(d, k2, k3), count2(s, k2, k3))
}

/// Whether every sum of counts of `d` and `s` fits in `usize`.
pub open spec fn sums_fit2(d: TagsView, s: TagsView) -> bool {
    forall|k2: Seq<char>, k3: ItemView| #[trigger] both_fit(count2(d, k2, k3), count2(s, k2, k3))
}

fn position_of_item(v: &Vec<(TagItem, usize)>, k: &TagItem) -> (r: Option<usize>)
    ensures
        match r {
            Some(p) => p < v@.len() && v@[p as int].0.item_view() == k.item_view(),
            None => forall|i: int| 0 <= i < v@.len() ==> (#[trigger] v@[i]).0.item_view() != k.item_view(),
        },
{
    let mut i: usize = 0;
    while i < v.len()
        invariant
            i <= v@.len(),
            forall|j: int| 0 <= j < i ==> (#[trigger] v@[j]).0.item_view() != k.item_view(),
        decreases v@.len() - i,
    {
        if v[i].0.same(k) {
            return Some(i);
        }
        i = i + 1;
    }
    None
}

fn clone_counts(v: &Vec<(TagItem, usize)>) -> (r: Vec<(TagItem, usize)>)
    ensures
        counts_view(r@) == counts_view(v@),
{
    let mut out: Vec<(TagItem, usize)> = Vec::new();
    let mut i: usize = 0;
    while i < v.len()
        invariant
            i <= v@.len(),
            counts_view(out@) == counts_view(v@.subrange(0, i as int)),
        decreases v@.len() - i,
    {
        let ghost prev = out@;
        out.push((v[i].0.duplicate(), v[i].1));
        proof {
            assert(counts_view(out@) =~= counts_view(prev).push((v@[i as int].0.item_view(), v@[i as int].1 as int)));
            assert(counts_view(v@.subrange(0, i as int + 1)) =~= counts_view(v@.subrange(0, i as int)).push((v@[i as int].0.item_view(), v@[i as int].1 as int)));
        }
        i = i + 1;
    }
    assert(v@.subrange(0, v@.len() as int) =~= v@);
    out
}

fn clone_tags(v: &Vec<(String, Vec<(TagItem, usize)>)>) -> (r: Vec<(String, Vec<(TagItem, usize)>)>)
    ensures
        tags_view(r@) == tags_view(v@),
{
    let mut out: Vec<(String, Vec<(TagItem, usize)>)> = Vec::new();
    let mut i: usize = 0;
    while i < v.len()
        invariant
            i <= v@.len(),
            tags_view(out@) == tags_view(v@.subrange(0, i as int)),
        decreases v@.len() - i,
    {
        let ghost prev = out@;
        out.push((v[i].0.clone(), clone_counts(&v[i].1)));
        proof {
            assert(tags_view(out@) =~= tags_view(prev).push((v@[i as int].0@, counts_view(v@[i as int].1@))));
            assert(tags_view(v@.subrange(0, i as int + 1)) =~= tags_view(v@.subrange(0, i as int)).push((v@[i as int].0@, counts_view(v@[i as int].1@))));
        }
        i = i + 1;
    }
    assert(v@.subrange(0, v@.len() as int) =~= v@);
    out
}

/// Adds the counts of `src` to those of `dst`, member by member.
#[verifier::rlimit(50)]
fn merge_counts(dst: &mut Vec<(TagItem, usize)>, src: &Vec<(TagItem, usize)>)
    requires
        keys_unique(counts_view(old(dst)@)),
        keys_unique(counts_view(src@)),
        forall|k3: ItemView| #[trigger] both_fit(lookup(counts_view(old(dst)@), k3), lookup(counts_view(src@), k3)),
    ensures
        keys_unique(counts_view(final(dst)@)),
        forall|k3: ItemView| #[trigger] lookup(counts_view(final(dst)@), k3) == add_opt(lookup(counts_view(old(dst)@), k3), lookup(counts_view(src@), k3)),
{
    let ghost start = counts_view(dst@);
    let ghost sv = counts_view(src@);
    let mut i: usize = 0;
    while i < src.len()
        invariant
            i <= src@.len(),
            sv == counts_view(src@),
            keys_unique(sv),
            keys_unique(counts_view(dst@)),
            forall|k3: ItemView| #[trigger] both_fit(lookup(start, k3), lookup(sv, k3)),
            forall|k3: ItemView| #[trigger] lookup(counts_view(dst@), k3) == add_opt(lookup(start, k3), lookup(sv.subrange(0, i as int), k3)),
        decreases src@.len() - i,
    {
        let ghost cur = counts_view(dst@);
        let ghost pre = sv.subrange(0, i as int);
        let ghost ki = sv[i as int].0;
        let ghost vi = sv[i as int].1;
        proof {
            assert(sv.subrange(0, i as int + 1) =~= pre.push((ki, vi)));
            assert forall|j: int| 0 <= j < pre.len() implies (#[trigger] pre[j]).0 != ki by {
                assert(sv[j].0 != sv[i as int].0);
            }
            lemma_lookup_absent(pre, ki);
            lemma_lookup_found(sv, i as int);
            assert(both_fit(lookup(start, ki), lookup(sv, ki)));
        }
        match position_of_item(dst, &src[i].0) {
            Some(p) => {
                proof {
                    assert(cur[p as int].0 == ki);
                    lemma_lookup_found(cur, p as int);
                }
                let n = dst[p].1 + src[i].1;
                dst.set(p, (src[i].0.duplicate(), n));
                proof {
                    assert(counts_view(dst@) =~= cur.update(p as int, (ki, n as int)));
                    lemma_update_keeps_keys_unique(cur, p as int, n as int);
                    assert forall|k3: ItemView| #[trigger] lookup(counts_view(dst@), k3) == add_opt(lookup(start, k3), lookup(sv.subrange(0, i as int + 1), k3)) by {
                        lemma_lookup_update(cur, p as int, n as int, k3);
                        lemma_lookup_push(pre, ki, vi, k3);
                    }
                }
            },
            None => {
                dst.push((src[i].0.duplicate(), src[i].1));
                proof {
                    assert(forall|j: int| 0 <= j < cur.len() ==> (#[trigger] cur[j]).0 == dst@[j].0.item_view());
                    assert(counts_view(dst@) =~= cur.push((ki, vi)));
                    lemma_push_keeps_keys_unique(cur, ki, vi);
                    lemma_lookup_absent(cur, ki);
                    assert forall|k3: ItemView| #[trigger] lookup(counts_view(dst@), k3) == add_opt(lookup(start, k3), lookup(sv.subrange(0, i as int + 1), k3)) by {
                        lemma_lookup_push(cur, ki, vi, k3);
                        lemma_lookup_push(pre, ki, vi, k3);
                    }
                }
            },
        }
        i = i + 1;
    }
    assert(sv.subrange(0, sv.len() as int) =~= sv);
}

/// Adds the tags of `src` to those of `dst`, counts added member by member.
#[verifier::rlimit(50)]
fn merge_tags(dst: &mut Vec<(String, Vec<(TagItem, usize)>)>, src: &Vec<(String, Vec<(TagItem, usize)>)>)
    requires
        tags_wf(tags_view(old(dst)@)),
        tags_wf(tags_view(src@)),
        sums_fit2(tags_view(old(dst)@), tags_view(src@)),
    ensures
        tags_wf(tags_view(final(dst)@)),
        merged2(tags_view(old(dst)@), tags_view(src@), tags_view(final(dst)@)),
{
    let ghost start = tags_view(dst@);
    let ghost sv = tags_view(src@);
    let mut i: usize = 0;
    proof {
        assert(sv.subrange(0, 0) =~= Seq::<(Seq<char>, CountsView)>::empty());
    }
    while i < src.len()
        invariant
            i <= src@.len(),
            sv == tags_view(src@),
            tags_wf(sv),
            sums_fit2(start, sv),
            tags_wf(tags_view(dst@)),
            merged2(start, sv.subrange(0, i as int), tags_view(dst@)),
        decreases src@.len() - i,
    {
        let ghost cur = tags_view(dst@);
        let ghost pre = sv.subrange(0, i as int);
        let ghost ki = sv[i as int].0;
        let ghost ci = sv[i as int].1;
        proof {
            assert(sv.subrange(0, i as int + 1) =~= pre.push((ki, ci)));
            assert forall|j: int| 0 <= j < pre.len() implies (#[trigger] pre[j]).0 != ki by {
                assert(sv[j].0 != sv[i as int].0);
            }
            lemma_lookup_absent(pre, ki);
            lemma_lookup_found(sv, i as int);
            assert(keys_unique(ci));
        }
        match position_of(dst, &src[i].0) {
            Some(p) => {
                let ghost c_old = cur[p as int].1;
                proof {
                    assert(cur[p as int].0 == ki);
                    lemma_lookup_found(cur, p as int);
                    assert(keys_unique(c_old));
                    assert forall|k3: ItemView| #[trigger] both_fit(lookup(c_old, k3), lookup(ci, k3)) by {
                        assert(count2(cur, ki, k3) == lookup(c_old, k3));
                        assert(count2(sv, ki, k3) == lookup(ci, k3));
                        assert(count2(pre, ki, k3) is None);
                        assert(both_fit(count2(start, ki, k3), count2(sv, ki, k3)));
                    }
                }
                let mut c = clone_counts(&dst[p].1);
                merge_counts(&mut c, &src[i].1);
                let ghost c_new = counts_view(c@);
                dst.set(p, (src[i].0.clone(), c));
                proof {
                    let now = tags_view(dst@);
                    assert(now =~= cur.update(p as int, (ki, c_new)));
                    lemma_update_keeps_keys_unique(cur, p as int, c_new);
                    assert forall|j: int| 0 <= j < now.len() implies keys_unique(#[trigger] now[j].1) by {
                        if j != p {
                            assert(now[j] == cur[j]);
                        }
                    }
                    assert forall|k2: Seq<char>| (#[trigger] lookup(now, k2) is Some) <==> (lookup(start, k2) is Some || lookup(sv.subrange(0, i as int + 1), k2) is Some) by {
                        lemma_lookup_update(cur, p as int, c_new, k2);
                        lemma_lookup_push(pre, ki, ci, k2);
                    }
                    assert forall|k2: Seq<char>, k3: ItemView| #[trigger] count2(now, k2, k3) == add_opt(count2(start, k2, k3), count2(sv.subrange(0, i as int + 1), k2, k3)) by {
                        lemma_lookup_update(cur, p as int, c_new, k2);
                        lemma_lookup_push(pre, ki, ci, k2);
                        assert(count2(cur, k2, k3) == add_opt(count2(start, k2, k3), count2(pre, k2, k3)));
                        if k2 == ki {
                            assert(count2(cur, ki, k3) == lookup(c_old, k3));
                            assert(count2(pre, ki, k3) is None);
                            assert(count2(now, ki, k3) == lookup(c_new, k3));
                            assert(lookup(c_new, k3) == add_opt(lookup(c_old, k3), lookup(ci, k3)));
                            assert(count2(sv.subrange(0, i as int + 1), ki, k3) == lookup(ci, k3));
                        } else {
                            assert(count2(now, k2, k3) == count2(cur, k2, k3));
                            assert(count2(sv.subrange(0, i as int + 1), k2, k3) == count2(pre, k2, k3));
                        }
                    }
                }
            },
            None => {
                let c = clone_counts(&src[i].1);
                dst.push((src[i].0.clone(), c));
                proof {
                    let now = tags_view(dst@);
                    assert(forall|j: int| 0 <= j < cur.len() ==> (#[trigger] cur[j]).0 == dst@[j].0@);
                    assert(now =~= cur.push((ki, ci)));
                    lemma_push_keeps_keys_unique(cur, ki, ci);
                    lemma_lookup_absent(cur, ki);
                    assert forall|j: int| 0 <= j < now.len() implies keys_unique(#[trigger] now[j].1) by {
                        if j < cur.len() {
                            assert(now[j] == cur[j]);
                        }
                    }
                    assert forall|k2: Seq<char>| (#[trigger] lookup(now, k2) is Some) <==> (lookup(start, k2) is Some || lookup(sv.subrange(0, i as int + 1), k2) is Some) by {
                        lemma_lookup_push(cur, ki, ci, k2);
                        lemma_lookup_push(pre, ki, ci, k2);
                    }
                    assert forall|k2: Seq<char>, k3: ItemView| #[trigger] count2(now, k2, k3) == add_opt(count2(start, k2, k3), count2(sv.subrange(0, i as int + 1), k2, k3)) by {
                        lemma_lookup_push(cur, ki, ci, k2);
                        lemma_lookup_push(pre, ki, ci, k2);
                        assert(count2(cur, k2, k3) == add_opt(count2(start, k2, k3), count2(pre, k2, k3)));
                        if k2 == ki {
                            assert(lookup(start, ki) is None);
                            assert(count2(pre, ki, k3) is None);
                            assert(count2(now, ki, k3) == lookup(ci, k3));
                            assert(count2(sv.subrange(0, i as int + 1), ki, k3) == lookup(ci, k3));
                        } else {
                            assert(count2(now, k2, k3) == count2(cur, k2, k3));
                            assert(count2(sv.subrange(0, i as int + 1), k2, k3) == count2(pre, k2, k3));
                        }
                    }
                }
            },
        }
        i = i + 1;
    }
    assert(sv.subrange(0, sv.len() as int) =~= sv);
}

/// Tag counts by registry, then by tag name, then by member.
pub struct TagsList(Vec<(String, Vec<(String, Vec<(TagItem, usize)>)>)>);

/// Counts by registry, then by tag name, then by member.
pub type ListView = Seq<(Seq<char>, TagsView)>;

pub open spec fn list_view(v: Seq<(String, Vec<(String, Vec<(TagItem, usize)>)>)>) -> ListView {
    v.map_values(|e: (String, Vec<(String, Vec<(TagItem, usize)>)>)| (e.0@, tags_view(e.1@)))
}

/// Each registry is listed once, and each of its tags is well formed.
pub open spec fn list_wf(l: ListView) -> bool {
    keys_unique(l) && forall|i: int| 0 <= i < l.len() ==> tags_wf(#[trigger] l[i].1)
}

/// Whether registry `k` lists tag `k2`.
pub open spec fn has_tag(l: ListView, k: Seq<char>, k2: Seq<char>) -> bool {
    match lookup(l, k) {
        Some(t) => lookup(t, k2) is Some,
        None => false,
    }
}

/// The count of member `k3` under tag `k2` of registry `k`.
pub open spec fn count1(l: ListView, k: Seq<char>, k2: Seq<char>, k3: ItemView) -> Option<int> {
    match lookup(l, k) {
        Some(t) => count2(t, k2, k3),
        None => None,
    }
}

/// Whether `t` holds the registries of `d` and `s` together, with their tags
/// together and counts added.
pub open spec fn merged1(d: ListView, s: ListView, t: ListView) -> bool {
    &&& forall|k: Seq<char>| (#[trigger] lookup(t, k) is Some) <==> (lookup(d, k) is Some || lookup(s, k) is Some)
    &&& forall|k: Seq<char>, k2: Seq<char>| #[trigger] has_tag(t, k, k2) <==> (has_tag(d, k, k2) || has_tag(s, k, k2))
    &&& forall|k: Seq<char>, k2: Seq<char>, k3: ItemView| #[trigger] count1(t, k, k2, k3) == add_opt(count1(d, k, k2, k3), count1(s, k, k2, k3))
}

/// Whether every sum of counts of `d` and `s` fits in `usize`.
pub open spec fn sums_fit1(d: ListView, s: ListView) -> bool {
    forall|k: Seq<char>, k2: Seq<char>, k3: ItemView| #[trigger] both_fit(count1(d, k, k2, k3), count1(s, k, k2, k3))
}

/// One count of member `k3` under tag `k2` of registry `k`.
pub open spec fn single_count(k: Seq<char>, k2: Seq<char>, k3: ItemView) -> ListView {
    seq![(k, seq![(k2, seq![(k3, 1int)])])]
}

impl TagsList {
    /// Registries, tags and counts as plain values.
    pub closed spec fn lists(&self) -> ListView {
        list_view(self.0@)
    }

    /// Each registry, each tag within it and each member within that is
    /// listed once.
    pub open spec fn wf(&self) -> bool {
        list_wf(self.lists())
    }

    /// An empty list.
    pub fn new() -> (r: Self)
        ensures
            r.wf(),
            r.lists().len() == 0,
    {
        let r = TagsList(Vec::new());
        assert(r.lists() =~= Seq::<(Seq<char>, TagsView)>::empty());
        r
    }

    /// The number of registries listed.
    pub fn len(&self) -> (r: usize)
        ensures
            r == self.lists().len(),
    {
        self.0.len()
    }

    /// The count of `item` under `tag` of `registry`.
    pub fn count(&self, registry: &String, tag: &String, item: &TagItem) -> (r: Option<usize>)
        requires
            self.wf(),
        ensures
            match count1(self.lists(), registry@, tag@, item.item_view()) {
                Some(n) => r matches Some(x) && x as int == n,
                None => r is None,
            },
    {
        let ghost l = self.lists();
        let p = match position_of(&self.0, registry) {
            Some(p) => p,
            None => {
                proof {
                    assert(forall|i: int| 0 <= i < l.len() ==> (#[trigger] l[i]).0 == self.0@[i].0@);
                    lemma_lookup_absent(l, registry@);
                }
                return None;
            },
        };
        proof {
            lemma_lookup_found(l, p as int);
        }
        let tags = &self.0[p].1;
        let ghost t = tags_view(tags@);
        let q = match position_of(tags, tag) {
            Some(q) => q,
            None => {
                proof {
                    assert(forall|i: int| 0 <= i < t.len() ==> (#[trigger] t[i]).0 == tags@[i].0@);
                    lemma_lookup_absent(t, tag@);
                }
                return None;
            },
        };
        proof {
            lemma_lookup_found(t, q as int);
        }
        let counts = &tags[q].1;
        let ghost c = counts_view(counts@);
        match position_of_item(counts, item) {
            Some(x) => {
                proof {
                    lemma_lookup_found(c, x as int);
                }
                Some(counts[x].1)
            },
            None => {
                proof {
                    lemma_lookup_absent(c, item.item_view());
                }
                None
            },
        }
    }

    /// Counts one more `item` under `tag` of `registry`.
    pub fn add(&mut self, registry: &String, tag: &String, item: TagItem)
        requires
            old(self).wf(),
            count1(old(self).lists(), registry@, tag@, item.item_view()) matches Some(n) ==> n < usize::MAX,
        ensures
            final(self).wf(),
            merged1(old(self).lists(), single_count(registry@, tag@, item.item_view()), final(self).lists()),
    {
        let ghost iv = item.item_view();
        let mut counts: Vec<(TagItem, usize)> = Vec::new();
        counts.push((item, 1));
        let ghost cv = counts_view(counts@);
        assert(cv =~= seq![(iv, 1int)]);
        let mut tags: Vec<(String, Vec<(TagItem, usize)>)> = Vec::new();
        tags.push((tag.clone(), counts));
        let ghost tv = tags_view(tags@);
        assert(tv =~= seq![(tag@, cv)]);
        let mut regs: Vec<(String, Vec<(String, Vec<(TagItem, usize)>)>)> = Vec::new();
        regs.push((registry.clone(), tags));
        let one = TagsList(regs);
        let ghost sv = single_count(registry@, tag@, iv);
        proof {
            assert(one.lists() =~= seq![(registry@, tv)]);
            assert(one.lists() == sv);
            assert(keys_unique(sv));
            assert(keys_unique(sv[0].1));
            assert(keys_unique(sv[0].1[0].1));
            assert(tags_wf(sv[0].1));
            assert(list_wf(sv));
            let start = self.lists();
            let e1 = Seq::<(Seq<char>, TagsView)>::empty();
            let e2 = Seq::<(Seq<char>, CountsView)>::empty();
            let e3 = Seq::<(ItemView, int)>::empty();
            assert(sv.drop_last() =~= e1);
            assert(sv[0].1.drop_last() =~= e2);
            assert(sv[0].1[0].1.drop_last() =~= e3);
            assert forall|k: Seq<char>, k2: Seq<char>, k3: ItemView| #[trigger] both_fit(count1(start, k, k2, k3), count1(sv, k, k2, k3)) by {
                assert(lookup(e1, k) is None);
                assert(lookup(e2, k2) is None);
                assert(lookup(e3, k3) is None);
                if k == registry@ && k2 == tag@ && k3 == iv {
                    assert(count1(sv, k, k2, k3) == Some(1int));
                    assert(start == old(self).lists());
                    assert(count1(start, k, k2, k3) matches Some(n) ==> n < usize::MAX);
                } else {
                    assert(count1(sv, k, k2, k3) is None);
                }
            }
        }
        self.extend(&one);
    }

    /// Adds the registries, tags and counts of `other`; counts of a member
    /// listed in both are added.
    #[verifier::rlimit(50)]
    pub fn extend(&mut self, other: &Self)
        requires
            old(self).wf(),
            other.wf(),
            sums_fit1(old(self).lists(), other.lists()),
        ensures
            final(self).wf(),
            merged1(old(self).lists(), other.lists(), final(self).lists()),
    {
        let ghost start = self.lists();
        let ghost sv = other.lists();
        let mut i: usize = 0;
        proof {
            assert(sv.subrange(0, 0) =~= Seq::<(Seq<char>, TagsView)>::empty());
        }
        while i < other.0.len()
            invariant
                i <= other.0@.len(),
                sv == other.lists(),
                list_wf(sv),
                sums_fit1(start, sv),
                list_wf(self.lists()),
                merged1(start, sv.subrange(0, i as int), self.lists()),
            decreases other.0@.len() - i,
        {
            let ghost cur = self.lists();
            let ghost pre = sv.subrange(0, i as int);
            let ghost ki = sv[i as int].0;
            let ghost ti = sv[i as int].1;
            proof {
                assert(sv.subrange(0, i as int + 1) =~= pre.push((ki, ti)));
                assert forall|j: int| 0 <= j < pre.len() implies (#[trigger] pre[j]).0 != ki by {
                    assert(sv[j].0 != sv[i as int].0);
                }
                lemma_lookup_absent(pre, ki);
                lemma_lookup_found(sv, i as int);
                assert(tags_wf(ti));
            }
            match position_of(&self.0, &other.0[i].0) {
                Some(p) => {
                    let ghost t_old = cur[p as int].1;
                    proof {
                        assert(cur[p as int].0 == ki);
                        lemma_lookup_found(cur, p as int);
                        assert(tags_wf(t_old));
                        assert forall|k2: Seq<char>, k3: ItemView| #[trigger] both_fit(count2(t_old, k2, k3), count2(ti, k2, k3)) by {
                            assert(count1(cur, ki, k2, k3) == count2(t_old, k2, k3));
                            assert(count1(sv, ki, k2, k3) == count2(ti, k2, k3));
                            assert(count1(pre, ki, k2, k3) is None);
                            assert(count1(cur, ki, k2, k3) == add_opt(count1(start, ki, k2, k3), count1(pre, ki, k2, k3)));
                            assert(both_fit(count1(start, ki, k2, k3), count1(sv, ki, k2, k3)));
                        }
                    }
                    let mut t = clone_tags(&self.0[p].1);
                    merge_tags(&mut t, &other.0[i].1);
                    let ghost t_new = tags_view(t@);
                    self.0.set(p, (other.0[i].0.clone(), t));
                    proof {
                        let now = self.lists();
                        assert(now =~= cur.update(p as int, (ki, t_new)));
                        lemma_update_keeps_keys_unique(cur, p as int, t_new);
                        assert forall|j: int| 0 <= j < now.len() implies tags_wf(#[trigger] now[j].1) by {
                            if j != p {
                                assert(now[j] == cur[j]);
                            }
                        }
                        let pre1 = sv.subrange(0, i as int + 1);
                        assert forall|k: Seq<char>| (#[trigger] lookup(now, k) is Some) <==> (lookup(start, k) is Some || lookup(pre1, k) is Some) by {
                            lemma_lookup_update(cur, p as int, t_new, k);
                            lemma_lookup_push(pre, ki, ti, k);
                        }
                        assert forall|k: Seq<char>, k2: Seq<char>| #[trigger] has_tag(now, k, k2) <==> (has_tag(start, k, k2) || has_tag(pre1, k, k2)) by {
                            lemma_lookup_update(cur, p as int, t_new, k);
                            lemma_lookup_push(pre, ki, ti, k);
                            assert(has_tag(cur, k, k2) <==> (has_tag(start, k, k2) || has_tag(pre, k, k2)));
                            if k == ki {
                                assert(has_tag(now, ki, k2) == (lookup(t_new, k2) is Some));
                                assert(has_tag(cur, ki, k2) == (lookup(t_old, k2) is Some));
                                assert(!has_tag(pre, ki, k2));
                                assert(has_tag(pre1, ki, k2) == (lookup(ti, k2) is Some));
                            } else {
                                assert(has_tag(now, k, k2) == has_tag(cur, k, k2));
                                assert(has_tag(pre1, k, k2) == has_tag(pre, k, k2));
                            }
                        }
                        assert forall|k: Seq<char>, k2: Seq<char>, k3: ItemView| #[trigger] count1(now, k, k2, k3) == add_opt(count1(start, k, k2, k3), count1(pre1, k, k2, k3)) by {
                            lemma_lookup_update(cur, p as int, t_new, k);
                            lemma_lookup_push(pre, ki, ti, k);
                            assert(count1(cur, k, k2, k3) == add_opt(count1(start, k, k2, k3), count1(pre, k, k2, k3)));
                            if k == ki {
                                assert(count1(now, ki, k2, k3) == count2(t_new, k2, k3));
                                assert(count2(t_new, k2, k3) == add_opt(count2(t_old, k2, k3), count2(ti, k2, k3)));
                                assert(count1(cur, ki, k2, k3) == count2(t_old, k2, k3));
                                assert(count1(pre, ki, k2, k3) is None);
                                assert(count1(pre1, ki, k2, k3) == count2(ti, k2, k3));
                            } else {
                                assert(count1(now, k, k2, k3) == count1(cur, k, k2, k3));
                                assert(count1(pre1, k, k2, k3) == count1(pre, k, k2, k3));
                            }
                        }
                    }
                },
                None => {
                    let t = clone_tags(&other.0[i].1);
                    self.0.push((other.0[i].0.clone(), t));
                    proof {
                        let now = self.lists();
                        assert(forall|j: int| 0 <= j < cur.len() ==> (#[trigger] cur[j]).0 == self.0@[j].0@);
                        assert(now =~= cur.push((ki, ti)));
                        lemma_push_keeps_keys_unique(cur, ki, ti);
                        lemma_lookup_absent(cur, ki);
                        assert forall|j: int| 0 <= j < now.len() implies tags_wf(#[trigger] now[j].1) by {
                            if j < cur.len() {
                                assert(now[j] == cur[j]);
                            }
                        }
                        let pre1 = sv.subrange(0, i as int + 1);
                        assert forall|k: Seq<char>| (#[trigger] lookup(now, k) is Some) <==> (lookup(start, k) is Some || lookup(pre1, k) is Some) by {
                            lemma_lookup_push(cur, ki, ti, k);
                            lemma_lookup_push(pre, ki, ti, k);
                        }
                        assert forall|k: Seq<char>, k2: Seq<char>| #[trigger] has_tag(now, k, k2) <==> (has_tag(start, k, k2) || has_tag(pre1, k, k2)) by {
                            lemma_lookup_push(cur, ki, ti, k);
                            lemma_lookup_push(pre, ki, ti, k);
                            assert(has_tag(cur, k, k2) <==> (has_tag(start, k, k2) || has_tag(pre, k, k2)));
                            if k == ki {
                                assert(lookup(start, ki) is None);
                                assert(!has_tag(start, ki, k2));
                                assert(!has_tag(pre, ki, k2));
                            } else {
                                assert(has_tag(now, k, k2) == has_tag(cur, k, k2));
                                assert(has_tag(pre1, k, k2) == has_tag(pre, k, k2));
                            }
                        }
                        assert forall|k: Seq<char>, k2: Seq<char>, k3: ItemView| #[trigger] count1(now, k, k2, k3) == add_opt(count1(start, k, k2, k3), count1(pre1, k, k2, k3)) by {
                            lemma_lookup_push(cur, ki, ti, k);
                            lemma_lookup_push(pre, ki, ti, k);
                            assert(count1(cur, k, k2, k3) == add_opt(count1(start, k, k2, k3), count1(pre, k, k2, k3)));
                            if k == ki {
                                assert(lookup(start, ki) is None);
                                assert(count1(start, ki, k2, k3) is None);
                                assert(count1(pre, ki, k2, k3) is None);
                                assert(count1(now, ki, k2, k3) == count2(ti, k2, k3));
                                assert(count1(pre1, ki, k2, k3) == count2(ti, k2, k3));
                            } else {
                                assert(count1(now, k, k2, k3) == count1(cur, k, k2, k3));
                                assert(count1(pre1, k, k2, k3) == count1(pre, k, k2, k3));
                            }
                        }
                    }
                },
            }
            i = i + 1;
        }
        assert(sv.subrange(0, sv.len() as int) =~= sv);
    }
}

/// Two optional lists of recipes, the second after the first.
pub open spec fn merged(a: Option<Seq<Seq<char>>>, b: Option<Seq<Seq<char>>>) -> Option<Seq<Seq<char>>> {
    match (a, b) {
        (None, None) => None,
        (Some(x), None) => Some(x),
        (None, Some(y)) => Some(y),
        (Some(x), Some(y)) => Some(x + y),
    }
}

fn clone_strings(v: &Vec<String>) -> (r: Vec<String>)
    ensures
        views_of(r@) == views_of(v@),
{
    let mut out: Vec<String> = Vec::new();
    append_strings(&mut out, v);
    assert(views_of(Seq::<String>::empty()) =~= Seq::<Seq<char>>::empty());
    assert(Seq::<Seq<char>>::empty() + views_of(v@) =~= views_of(v@));
    out
}

fn append_strings(dst: &mut Vec<String>, src: &Vec<String>)
    ensures
        views_of(final(dst)@) == views_of(old(dst)@) + views_of(src@),
{
    let ghost start = views_of(dst@);
    let mut i: usize = 0;
    while i < src.len()
        invariant
            i <= src@.len(),
            views_of(dst@) == start + views_of(src@.subrange(0, i as int)),
        decreases src@.len() - i,
    {
        let ghost prev = dst@;
        dst.push(src[i].clone());
        proof {
            assert(views_of(dst@) =~= views_of(prev).push(src@[i as int]@));
            assert(views_of(src@.subrange(0, i as int + 1)) =~= views_of(src@.subrange(0, i as int)).push(src@[i as int]@));
        }
        i = i + 1;
        assert(views_of(dst@) =~= start + views_of(src@.subrange(0, i as int)));
    }
    assert(src@.subrange(0, src@.len() as int) =~= src@);
}

/// Recipe names by recipe type.
pub struct RecipeTypeMap(Vec<(String, Vec<String>)>);

impl RecipeTypeMap {
    /// Each type with its recipes, in the order the types were first seen.
    pub closed spec fn pairs(&self) -> Seq<(Seq<char>, Seq<Seq<char>>)> {
        self.0@.map_values(|e: (String, Vec<String>)| (e.0@, views_of(e.1@)))
    }

    /// Each type is listed once.
    pub open spec fn wf(&self) -> bool {
        keys_unique(self.pairs())
    }

    /// What is listed under `k`.
    pub fn get(&self, k: &String) -> (r: Option<&Vec<String>>)
        requires
            self.wf(),
        ensures
            match lookup(self.pairs(), k@) {
                Some(v) => r matches Some(x) && views_of(x@) == v,
                None => r is None,
            },
    {
        match position_of(&self.0, k) {
            Some(p) => {
                proof {
                    lemma_lookup_found(self.pairs(), p as int);
                }
                Some(&self.0[p].1)
            },
            None => {
                proof {
                    assert(forall|i: int| 0 <= i < self.pairs().len() ==> (#[trigger] self.pairs()[i]).0 == self.0@[i].0@);
                    lemma_lookup_absent(self.pairs(), k@);
                }
                None
            },
        }
    }

    /// No recipes.
    pub fn new() -> (r: Self)
        ensures
            r.wf(),
            r.pairs().len() == 0,
    {
        let r = RecipeTypeMap(Vec::new());
        assert(r.pairs() =~= Seq::<(Seq<char>, Seq<Seq<char>>)>::empty());
        r
    }

    /// Adds one recipe name under its type.
    pub fn add(&mut self, typ: &String, name: String)
        requires
            old(self).wf(),
        ensures
            final(self).wf(),
            forall|k: Seq<char>| #[trigger] lookup(final(self).pairs(), k) == if k == typ@ {
                merged(lookup(old(self).pairs(), k), Some(seq![name@]))
            } else {
                lookup(old(self).pairs(), k)
            },
    {
        let mut one: Vec<String> = Vec::new();
        one.push(name);
        assert(views_of(one@) =~= seq![one@[0]@]);
        self.add_all(typ, &one);
    }

    fn add_all(&mut self, typ: &String, vals: &Vec<String>)
        requires
            old(self).wf(),
        ensures
            final(self).wf(),
            forall|k: Seq<char>| #[trigger] lookup(final(self).pairs(), k) == if k == typ@ {
                merged(lookup(old(self).pairs(), k), Some(views_of(vals@)))
            } else {
                lookup(old(self).pairs(), k)
            },
    {
        let ghost before = self.pairs();
        match position_of(&self.0, typ) {
            Some(p) => {
                let mut vs = clone_strings(&self.0[p].1);
                append_strings(&mut vs, vals);
                proof {
                    assert(before[p as int] == (self.0@[p as int].0@, views_of(self.0@[p as int].1@)));
                    lemma_lookup_found(before, p as int);
                }
                self.0.set(p, (typ.clone(), vs));
                proof {
                    assert(self.pairs() =~= before.update(p as int, (before[p as int].0, before[p as int].1 + views_of(vals@))));
                    lemma_update_keeps_keys_unique(before, p as int, before[p as int].1 + views_of(vals@));
                    assert forall|k: Seq<char>| #[trigger] lookup(self.pairs(), k) == if k == typ@ {
                        merged(lookup(before, k), Some(views_of(vals@)))
                    } else {
                        lookup(before, k)
                    } by {
                        lemma_lookup_update(before, p as int, before[p as int].1 + views_of(vals@), k);
                    }
                }
            },
            None => {
                let vs = clone_strings(vals);
                self.0.push((typ.clone(), vs));
                proof {
                    assert(forall|i: int| 0 <= i < before.len() ==> (#[trigger] before[i]).0 == self.0@[i].0@);
                    assert(self.pairs() =~= before.push((typ@, views_of(vals@))));
                    lemma_push_keeps_keys_unique(before, typ@, views_of(vals@));
                    lemma_lookup_absent(before, typ@);
                    assert forall|k: Seq<char>| #[trigger] lookup(self.pairs(), k) == if k == typ@ {
                        merged(lookup(before, k), Some(views_of(vals@)))
                    } else {
                        lookup(before, k)
                    } by {
                        lemma_lookup_push(before, typ@, views_of(vals@), k);
                    }
                }
            },
        }
    }

    /// Adds every recipe of `other` under its type, after those already
    /// listed.
    pub fn extend(&mut self, other: &Self)
        requires
            old(self).wf(),
            other.wf(),
        ensures
            final(self).wf(),
            forall|k: Seq<char>| #[trigger] lookup(final(self).pairs(), k) == merged(lookup(old(self).pairs(), k), lookup(other.pairs(), k)),
    {
        let ghost start = self.pairs();
        let ghost op = other.pairs();
        let mut i: usize = 0;
        while i < other.0.len()
            invariant
                i <= other.0@.len(),
                op == other.pairs(),
                keys_unique(op),
                self.wf(),
                forall|k: Seq<char>| #[trigger] lookup(self.pairs(), k) == merged(lookup(start, k), lookup(op.subrange(0, i as int), k)),
            decreases other.0@.len() - i,
        {
            let ghost cur = self.pairs();
            let ghost pre = op.subrange(0, i as int);
            let ghost ki = op[i as int].0;
            let ghost vi = op[i as int].1;
            proof {
                assert(op.subrange(0, i as int + 1) =~= pre.push((ki, vi)));
                assert forall|j: int| 0 <= j < pre.len() implies (#[trigger] pre[j]).0 != ki by {
                    assert(op[j].0 != op[i as int].0);
                }
                lemma_lookup_absent(pre, ki);
            }
            self.add_all(&other.0[i].0, &other.0[i].1);
            proof {
                assert forall|k: Seq<char>| #[trigger] lookup(self.pairs(), k) == merged(lookup(start, k), lookup(op.subrange(0, i as int + 1), k)) by {
                    lemma_lookup_push(pre, ki, vi, k);
                    if k == ki {
                        assert(lookup(cur, k) == merged(lookup(start, k), None));
                    }
                }
            }
            i = i + 1;
        }
        assert(op.subrange(0, op.len() as int) =~= op);
    }
}

/// Whether a path names a sound file: its extension is `ogg`, up to ASCII
/// case.
pub open spec fn is_ogg(n: Seq<char>) -> bool {
    match extension_of(n) {
        Some(x) => eq_ignore_ascii_case(key_of(x), key_of("ogg".view())),
        None => false,
    }
}

/// The sound files among `names`, in their order.
pub open spec fn ogg_names(names: Seq<Seq<char>>) -> Seq<Seq<char>> {
    names.filter(|n: Seq<char>| is_ogg(n))
}

/// Whether names are in byte order.
pub open spec fn sorted_names(s: Seq<Seq<char>>) -> bool {
    forall|i: int, j: int| 0 <= i < j < s.len() ==> !lex_lt(key_of(#[trigger] s[j]), key_of(#[trigger] s[i]))
}

/// The sound files of an archive, in byte order.
pub struct PlayableFiles(Vec<String>);

impl PlayableFiles {
    pub closed spec fn files(&self) -> Seq<Seq<char>> {
        views_of(self.0@)
    }

    /// The file names.
    pub fn names(&self) -> (r: &Vec<String>)
        ensures
            views_of(r@) == self.files(),
    {
        &self.0
    }
}

/// The names among `names` that end in `.ogg`, sorted.
#[verifier::rlimit(50)]
pub fn gather_playable_files(names: &Vec<String>) -> (r: PlayableFiles)
    ensures
        sorted_names(r.files()),
        r.files().to_multiset() == ogg_names(views_of(names@)).to_multiset(),
{
    let ghost all = views_of(names@);
    let mut out: Vec<String> = Vec::new();
    let mut i: usize = 0;
    proof {
        assert(views_of(out@) =~= Seq::<Seq<char>>::empty());
        assert(all.subrange(0, 0) =~= Seq::<Seq<char>>::empty());
        reveal_with_fuel(Seq::filter, 1);
    }
    while i < names.len()
        invariant
            i <= names@.len(),
            all == views_of(names@),
            sorted_names(views_of(out@)),
            views_of(out@).to_multiset() == ogg_names(all.subrange(0, i as int)).to_multiset(),
        decreases names@.len() - i,
    {
        let ghost before = views_of(out@);
        let ghost pre = ogg_names(all.subrange(0, i as int));
        proof {
            let s1 = all.subrange(0, i as int + 1);
            reveal_with_fuel(Seq::filter, 1);
            assert(s1.drop_last() =~= all.subrange(0, i as int));
            assert(s1.last() == names@[i as int]@);
            assert(ogg_names(s1) == if is_ogg(names@[i as int]@) {
                pre.push(names@[i as int]@)
            } else {
                pre
            });
        }
        if Extension::Ogg.matches(names[i].as_str()) {
            let nb = names[i].as_str().as_bytes();
            let mut p: usize = 0;
            let mut stop = false;
            while p < out.len() && !stop
                invariant
                    p <= out@.len(),
                    i < names@.len(),
                    nb@ == key_of(names@[i as int]@),
                    forall|k: int| 0 <= k < p ==> !lex_lt(nb@, key_of(#[trigger] out@[k]@)),
                    stop ==> p < out@.len() && lex_lt(nb@, key_of(out@[p as int]@)),
                decreases out@.len() - p + if stop { 0int } else { 1int },
            {
                if compare_bytes(nb, out[p].as_str().as_bytes()) < 0 {
                    stop = true;
                } else {
                    p = p + 1;
                }
            }
            let ghost x = names@[i as int]@;
            out.insert(p, names[i].clone());
            proof {
                assert(views_of(out@) =~= before.insert(p as int, x));
                to_multiset_insert(before, p as int, x);
                to_multiset_build(pre, x);
                assert(is_ogg(x));
                let now = views_of(out@);
                assert forall|a: int, b: int| 0 <= a < b < now.len() implies !lex_lt(key_of(#[trigger] now[b]), key_of(#[trigger] now[a])) by {
                    if b < p {
                        assert(now[a] == before[a] && now[b] == before[b]);
                    } else if b == p {
                        assert(now[a] == before[a]);
                    } else if a < p {
                        assert(now[a] == before[a] && now[b] == before[b - 1]);
                        if b - 1 > p {
                            assert(!lex_lt(key_of(before[b - 1]), key_of(before[p as int])));
                        }
                        lemma_sorted_step(key_of(before[a]), nb@, key_of(before[p as int]), key_of(before[b - 1]));
                    } else if a == p {
                        assert(now[b] == before[b - 1]);
                        assert(lex_lt(nb@, key_of(before[p as int])));
                        if b - 1 > p {
                            assert(!lex_lt(key_of(before[b - 1]), key_of(before[p as int])));
                        }
                        lemma_not_below(nb@, key_of(before[p as int]), key_of(before[b - 1]));
                    } else {
                        assert(now[a] == before[a - 1] && now[b] == before[b - 1]);
                    }
                }
            }
        } else {
            proof {
                assert(!is_ogg(names@[i as int]@));
            }
        }
        i = i + 1;
    }
    proof {
        assert(all.subrange(0, names@.len() as int) =~= all);
    }
    PlayableFiles(out)
}

/// If `a < b` and `c` is not below `b`, then `c` is not below `a`.
proof fn lemma_not_below(a: Seq<u8>, b: Seq<u8>, c: Seq<u8>)
    requires
        lex_lt(a, b),
        c == b || !lex_lt(c, b),
    ensures
        !lex_lt(c, a),
{
    if lex_lt(c, a) {
        lemma_lex_transitive(c, a, b);
        if c == b {
            lemma_lex_irreflexive(b);
        }
    }
}

/// If `below` is not above `n`, `n < first`, and `later` is not below
/// `first`, then `later` is not below `below`.
proof fn lemma_sorted_step(below: Seq<u8>, n: Seq<u8>, first: Seq<u8>, later: Seq<u8>)
    requires
        !lex_lt(n, below),
        lex_lt(n, first),
        later == first || !lex_lt(later, first),
    ensures
        !lex_lt(later, below),
{
    if lex_lt(later, below) {
        lemma_lex_trichotomy(n, below);
        if below == n {
            lemma_lex_transitive(later, n, first);
        } else {
            lemma_lex_transitive(later, below, n);
            lemma_lex_transitive(later, n, first);
        }
        if later == first {
            lemma_lex_irreflexive(first);
        }
    }
}

} // verus!
