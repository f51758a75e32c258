use vstd::prelude::*;
use core::marker::PhantomData;

use crate::be::{read_be16, read_be32, spec_be16, spec_be32};
use crate::buf::{bytes_as_slice, bytes_slice, bytes_view, JStr};
use crate::error::ClassError;
use crate::idx::{Index, Utf8};
use crate::jtype::MemberType;
use crate::layout::{attrs_end, lemma_attrs_end_grows, lemma_attrs_end_window, lemma_members_end_grows, lemma_members_end_window, members_end, spec_attrs_end, spec_members_end};
use crate::pool::{spec_lookup_error, spec_type_name, ClassPool, Entry};

verus! {

/// Where the attribute record at the start of `rest` ends.
pub open spec fn spec_attr_record_end(rest: Seq<u8>) -> int {
    6 + spec_be32(rest, 2)
}

/// Where the member record at the start of `rest` ends.
pub open spec fn spec_member_record_end(rest: Seq<u8>) -> int {
    spec_attrs_end(rest, 8, spec_be16(rest, 6) as nat).unwrap()
}

/// What a member record holds: flags, name index, descriptor index,
/// attribute count and the bytes of its attributes.
pub open spec fn member_record(rest: Seq<u8>) -> (int, int, int, int, Seq<u8>) {
    (
        spec_be16(rest, 0),
        spec_be16(rest, 2),
        spec_be16(rest, 4),
        spec_be16(rest, 6),
        rest.subrange(8, spec_member_record_end(rest)),
    )
}

/// The `n` member records at the start of `rest`, in order.
pub open spec fn spec_members(rest: Seq<u8>, n: nat) -> Seq<(int, int, int, int, Seq<u8>)>
    decreases n,
{
    if n == 0 {
        Seq::empty()
    } else {
        seq![member_record(rest)] + spec_members(rest.subrange(spec_member_record_end(rest), rest.len() as int), (n - 1) as nat)
    }
}

/// Whether each of the `n` member records at the start of `rest` has a
/// non-zero name index and a non-zero descriptor index.
pub open spec fn members_named(rest: Seq<u8>, n: nat) -> bool
    decreases n,
{
    n == 0 || (spec_be16(rest, 2) != 0 && spec_be16(rest, 4) != 0 && members_named(
        rest.subrange(spec_member_record_end(rest), rest.len() as int),
        (n - 1) as nat,
    ))
}

/// The outcome of resolving a UTF-8 index: the string, or why it fails.
pub open spec fn spec_utf8(entries: Seq<Entry>, raw: u16) -> Result<Seq<u8>, ClassError> {
    match spec_lookup_error::<Utf8>(entries, raw) {
        Some(e) => Err(e),
        None => match entries[raw as int] {
            Entry::Utf8(s) => Ok(s),
            _ => Err(ClassError::ZeroIndex),
        },
    }
}

fn lookup_utf8(pool: &ClassPool, idx: Index<Utf8>) -> (r: Result<JStr, ClassError>)
    ensures
        match r {
            Ok(s) => spec_utf8(pool@, idx@) == Ok::<Seq<u8>, ClassError>(s@),
            Err(e) => spec_utf8(pool@, idx@) == Err::<Seq<u8>, ClassError>(e),
        },
{
    pool.get(idx)
}

/// One attribute record: its name index and a view of its payload.
pub struct AttrInfo<T> {
    b: bytes::Bytes,
    pool: ClassPool,
    name_idx: Index<Utf8>,
    _t: PhantomData<T>,
}

impl<T> AttrInfo<T> {
    pub closed spec fn payload_view(&self) -> Seq<u8> {
        bytes_view(self.b)
    }

    pub closed spec fn name_view(&self) -> u16 {
        self.name_idx@
    }

    pub closed spec fn pool_view(&self) -> Seq<Entry> {
        self.pool@
    }

    /// The attribute's name, resolved through the pool.
    pub fn name(&self) -> (r: Result<JStr, ClassError>)
        ensures
            match r {
                Ok(s) => spec_utf8(self.pool_view(), self.name_view()) == Ok::<Seq<u8>, ClassError>(s@),
                Err(e) => spec_utf8(self.pool_view(), self.name_view()) == Err::<Seq<u8>, ClassError>(e),
            },
    {
        lookup_utf8(&self.pool, self.name_idx)
    }

    /// The name index.
    pub fn name_index(&self) -> (r: Index<Utf8>)
        ensures
            r@ == self.name_view(),
    {
        self.name_idx
    }

    /// The raw payload; nothing is copied.
    pub fn payload(&self) -> (r: JStr)
        ensures
            r@ == self.payload_view(),
    {
        JStr::from_bytes(crate::buf::bytes_share(&self.b))
    }

    pub(crate) fn payload_bytes(&self) -> (r: bytes::Bytes)
        ensures
            bytes_view(r) == self.payload_view(),
    {
        crate::buf::bytes_share(&self.b)
    }

    /// The pool that the attribute's indices resolve against.
    pub fn pool(&self) -> (r: &ClassPool)
        ensures
            r@ == self.pool_view(),
    {
        &self.pool
    }
}

/// A lazy walk over a counted list of attribute records. It yields exactly
/// the declared number of records, or stops after the first error.
pub struct Attrs<T> {
    b: bytes::Bytes,
    pool: ClassPool,
    cur: u16,
    len: u16,
    _t: PhantomData<T>,
}

impl<T> Attrs<T> {
    #[verifier::type_invariant]
    spec fn inv(self) -> bool {
        &&& self.cur <= self.len
        &&& spec_attrs_end(bytes_view(self.b), 0, (self.len - self.cur) as nat) == Some(bytes_view(self.b).len() as int)
    }

    /// The bytes of the records not yet yielded.
    pub closed spec fn rest(&self) -> Seq<u8> {
        bytes_view(self.b)
    }

    /// The number of records not yet yielded.
    pub closed spec fn remaining(&self) -> nat {
        (self.len - self.cur) as nat
    }

    pub closed spec fn pool_view(&self) -> Seq<Entry> {
        self.pool@
    }

    pub(crate) fn from_parts(b: bytes::Bytes, pool: ClassPool, len: u16) -> (r: Self)
        requires
            spec_attrs_end(bytes_view(b), 0, len as nat) == Some(bytes_view(b).len() as int),
        ensures
            r.rest() == bytes_view(b),
            r.remaining() == len,
            r.pool_view() == pool@,
    {
        Attrs { b, pool, cur: 0, len, _t: PhantomData }
    }

    /// A walk over `len` records held in `b`; fails when the records do not
    /// fill `b` exactly.
    pub fn new(b: bytes::Bytes, pool: ClassPool, len: u16) -> (r: Result<Self, ClassError>)
        ensures
            spec_attrs_end(bytes_view(b), 0, len as nat) == Some(bytes_view(b).len() as int) ==> (r matches Ok(a)
                && a.rest() == bytes_view(b) && a.remaining() == len && a.pool_view() == pool@),
            spec_attrs_end(bytes_view(b), 0, len as nat) != Some(bytes_view(b).len() as int)
                ==> r == Err::<Self, ClassError>(ClassError::Truncated { offset: 0 }),
    {
        let data = bytes_as_slice(&b);
        match attrs_end(data, 0, len) {
            Some(e) => {
                if e == data.len() {
                    Ok(Attrs::from_parts(b, pool, len))
                } else {
                    Err(ClassError::Truncated { offset: 0 })
                }
            },
            None => Err(ClassError::Truncated { offset: 0 }),
        }
    }

    /// The next record, or `None` once the declared count is reached. An
    /// error ends the walk.
    pub fn next(&mut self) -> (r: Option<Result<AttrInfo<T>, ClassError>>)
        ensures
            (r is None) <==> old(self).remaining() == 0,
            final(self).pool_view() == old(self).pool_view(),
            r is None ==> final(self).remaining() == 0,
            r matches Some(Ok(a)) ==> {
                &&& spec_be16(old(self).rest(), 0) != 0
                &&& a.name_view() == spec_be16(old(self).rest(), 0)
                &&& a.payload_view() == old(self).rest().subrange(6, spec_attr_record_end(old(self).rest()))
                &&& a.pool_view() == old(self).pool_view()
                &&& final(self).rest() == old(self).rest().subrange(spec_attr_record_end(old(self).rest()), old(self).rest().len() as int)
                &&& final(self).remaining() == old(self).remaining() - 1
            },
            r matches Some(Err(e)) ==> {
                &&& e == ClassError::ZeroIndex
                &&& spec_be16(old(self).rest(), 0) == 0
                &&& final(self).remaining() == 0
            },
    {
        proof {
            use_type_invariant(&*self);
        }
        if self.cur == self.len {
            return None;
        }
        let data = bytes_as_slice(&self.b);
        let ghost d = data@;
        let raw = read_be16(data, 0);
        let l = read_be32(data, 2) as usize;
        let end = 6 + l;
        proof {
            lemma_attrs_end_grows(d, end as int, (self.len - self.cur - 1) as nat);
        }
        let payload = bytes_slice(&self.b, 6, end);
        let rest = bytes_slice(&self.b, end, data.len());
        proof {
            lemma_attrs_end_window(d, end as int, d.len() as int, end as int, (self.len - self.cur - 1) as nat);
            assert(d.subrange(end as int, d.len() as int).len() == d.len() - end);
        }
        let pool = self.pool.share();
        if raw == 0 {
            let empty = bytes_slice(&self.b, data.len(), data.len());
            *self = Attrs { b: empty, pool, cur: self.len, len: self.len, _t: PhantomData };
            return Some(Err(ClassError::ZeroIndex));
        }
        let item_pool = self.pool.share();
        *self = Attrs { b: rest, pool, cur: self.cur + 1, len: self.len, _t: PhantomData };
        Some(Ok(AttrInfo { b: payload, pool: item_pool, name_idx: Index::from_nonzero(raw), _t: PhantomData }))
    }
}

/// One field or method record. Its attributes stay undecoded until
/// `attrs` walks them.
pub struct MemberInfo<T: MemberType> {
    b: bytes::Bytes,
    pool: ClassPool,
    flags: u16,
    name_idx: Index<Utf8>,
    descriptor_idx: Index<Utf8>,
    attr_count: u16,
    _t: PhantomData<T>,
}

impl<T: MemberType> MemberInfo<T> {
    #[verifier::type_invariant]
    spec fn inv(self) -> bool {
        spec_attrs_end(bytes_view(self.b), 0, self.attr_count as nat) == Some(bytes_view(self.b).len() as int)
    }

    /// The bytes of the member's attribute records.
    pub closed spec fn attr_bytes(&self) -> Seq<u8> {
        bytes_view(self.b)
    }

    pub closed spec fn flags_view(&self) -> u16 {
        self.flags
    }

    pub closed spec fn name_view(&self) -> u16 {
        self.name_idx@
    }

    pub closed spec fn descriptor_view(&self) -> u16 {
        self.descriptor_idx@
    }

    pub closed spec fn attr_count_view(&self) -> u16 {
        self.attr_count
    }

    /// The record as plain values, in the shape of `member_record`.
    pub open spec fn record_view(&self) -> (int, int, int, int, Seq<u8>) {
        (self.flags_view() as int, self.name_view() as int, self.descriptor_view() as int, self.attr_count_view() as int, self.attr_bytes())
    }

    pub closed spec fn pool_view(&self) -> Seq<Entry> {
        self.pool@
    }

    /// The member's name, resolved through the pool.
    pub fn name(&self) -> (r: Result<JStr, ClassError>)
        ensures
            match r {
                Ok(s) => spec_utf8(self.pool_view(), self.name_view()) == Ok::<Seq<u8>, ClassError>(s@),
                Err(e) => spec_utf8(self.pool_view(), self.name_view()) == Err::<Seq<u8>, ClassError>(e),
            },
    {
        lookup_utf8(&self.pool, self.name_idx)
    }

    /// The member's descriptor, resolved through the pool.
    pub fn descriptor(&self) -> (r: Result<JStr, ClassError>)
        ensures
            match r {
                Ok(s) => spec_utf8(self.pool_view(), self.descriptor_view()) == Ok::<Seq<u8>, ClassError>(s@),
                Err(e) => spec_utf8(self.pool_view(), self.descriptor_view()) == Err::<Seq<u8>, ClassError>(e),
            },
    {
        lookup_utf8(&self.pool, self.descriptor_idx)
    }

    /// The access flags.
    pub fn flags(&self) -> (r: u16)
        ensures
            r == self.flags_view(),
    {
        self.flags
    }

    /// The declared number of attributes.
    pub fn attr_count(&self) -> (r: u16)
        ensures
            r == self.attr_count_view(),
    {
        self.attr_count
    }

    /// A fresh walk over the member's attributes.
    pub fn attrs(&mut self) -> (r: Attrs<T>)
        ensures
            *final(self) == *old(self),
            r.rest() == old(self).attr_bytes(),
            r.remaining() == old(self).attr_count_view(),
            r.pool_view() == old(self).pool_view(),
    {
        proof {
            use_type_invariant(&*self);
        }
        Attrs::from_parts(crate::buf::bytes_share(&self.b), self.pool.share(), self.attr_count)
    }
}

/// A lazy walk over a counted list of member records. It yields exactly the
/// declared number of members, or stops after the first error.
pub struct MemberIter<T: MemberType> {
    b: bytes::Bytes,
    pool: ClassPool,
    cur: u16,
    len: u16,
    _t: PhantomData<T>,
}

impl<T: MemberType> MemberIter<T> {
    #[verifier::type_invariant]
    spec fn inv(self) -> bool {
        &&& self.cur <= self.len
        &&& spec_members_end(bytes_view(self.b), 0, (self.len - self.cur) as nat) == Some(bytes_view(self.b).len() as int)
    }

    /// The bytes of the members not yet yielded.
    pub closed spec fn rest(&self) -> Seq<u8> {
        bytes_view(self.b)
    }

    /// The number of members not yet yielded.
    pub closed spec fn remaining(&self) -> nat {
        (self.len - self.cur) as nat
    }

    pub closed spec fn pool_view(&self) -> Seq<Entry> {
        self.pool@
    }

    pub(crate) fn from_parts(b: bytes::Bytes, pool: ClassPool, len: u16) -> (r: Self)
        requires
            spec_members_end(bytes_view(b), 0, len as nat) == Some(bytes_view(b).len() as int),
        ensures
            r.rest() == bytes_view(b),
            r.remaining() == len,
            r.pool_view() == pool@,
    {
        MemberIter { b, pool, cur: 0, len, _t: PhantomData }
    }

    /// A walk over `len` members held in `b`; fails when the members do not
    /// fill `b` exactly.
    pub fn new(b: bytes::Bytes, pool: ClassPool, len: u16) -> (r: Result<Self, ClassError>)
        ensures
            spec_members_end(bytes_view(b), 0, len as nat) == Some(bytes_view(b).len() as int) ==> (r matches Ok(m)
                && m.rest() == bytes_view(b) && m.remaining() == len && m.pool_view() == pool@),
            spec_members_end(bytes_view(b), 0, len as nat) != Some(bytes_view(b).len() as int)
                ==> r == Err::<Self, ClassError>(ClassError::Truncated { offset: 0 }),
    {
        let data = bytes_as_slice(&b);
        match members_end(data, 0, len) {
            Some(e) => {
                if e == data.len() {
                    Ok(MemberIter::from_parts(b, pool, len))
                } else {
                    Err(ClassError::Truncated { offset: 0 })
                }
            },
            None => Err(ClassError::Truncated { offset: 0 }),
        }
    }

    /// The next member, or `None` once the declared count is reached. The
    /// member's length is measured again from its own attribute list. An
    /// error ends the walk.
    pub fn next(&mut self) -> (r: Option<Result<MemberInfo<T>, ClassError>>)
        ensures
            (r is None) <==> old(self).remaining() == 0,
            final(self).pool_view() == old(self).pool_view(),
            r is None ==> final(self).remaining() == 0,
            r matches Some(Ok(m)) ==> {
                &&& spec_be16(old(self).rest(), 2) != 0 && spec_be16(old(self).rest(), 4) != 0
                &&& m.flags_view() as int == spec_be16(old(self).rest(), 0)
                &&& m.name_view() as int == spec_be16(old(self).rest(), 2)
                &&& m.descriptor_view() as int == spec_be16(old(self).rest(), 4)
                &&& m.attr_count_view() as int == spec_be16(old(self).rest(), 6)
                &&& m.attr_bytes() == old(self).rest().subrange(8, spec_member_record_end(old(self).rest()))
                &&& m.pool_view() == old(self).pool_view()
                &&& final(self).rest() == old(self).rest().subrange(spec_member_record_end(old(self).rest()), old(self).rest().len() as int)
                &&& final(self).remaining() == old(self).remaining() - 1
            },
            r matches Some(Err(e)) ==> {
                &&& e == ClassError::ZeroIndex
                &&& (spec_be16(old(self).rest(), 2) == 0 || spec_be16(old(self).rest(), 4) == 0)
                &&& final(self).remaining() == 0
            },
    {
        proof {
            use_type_invariant(&*self);
        }
        if self.cur == self.len {
            return None;
        }
        let data = bytes_as_slice(&self.b);
        let ghost d = data@;
        let flags = read_be16(data, 0);
        let iname = read_be16(data, 2);
        let idesc = read_be16(data, 4);
        let attr_count = read_be16(data, 6);
        proof {
            lemma_attrs_end_grows(d, 8, attr_count as nat);
        }
        let end = match attrs_end(data, 8, attr_count) {
            Some(e) => e,
            None => {
                assert(false);
                return None;
            },
        };
        proof {
            lemma_members_end_grows(d, end as int, (self.len - self.cur - 1) as nat);
            lemma_attrs_end_window(d, 8, end as int, 8, attr_count as nat);
            lemma_members_end_window(d, end as int, d.len() as int, end as int, (self.len - self.cur - 1) as nat);
        }
        let attrs = bytes_slice(&self.b, 8, end);
        let rest = bytes_slice(&self.b, end, data.len());
        let pool = self.pool.share();
        if iname == 0 || idesc == 0 {
            let empty = bytes_slice(&self.b, data.len(), data.len());
            *self = MemberIter { b: empty, pool, cur: self.len, len: self.len, _t: PhantomData };
            return Some(Err(ClassError::ZeroIndex));
        }
        let item_pool = self.pool.share();
        *self = MemberIter { b: rest, pool, cur: self.cur + 1, len: self.len, _t: PhantomData };
        Some(Ok(MemberInfo {
            b: attrs,
            pool: item_pool,
            flags,
            name_idx: Index::from_nonzero(iname),
            descriptor_idx: Index::from_nonzero(idesc),
            attr_count,
            _t: PhantomData,
        }))
    }

    /// All remaining members, in order: every declared record, or the error
    /// that the first record without a name or a descriptor gives.
    pub fn collect_all(self) -> (r: Result<Vec<MemberInfo<T>>, ClassError>)
        ensures
            r is Ok <==> members_named(self.rest(), self.remaining()),
            r matches Err(e) ==> e == ClassError::ZeroIndex,
            r matches Ok(v) ==> v@.map_values(|m: MemberInfo<T>| m.record_view()) == spec_members(self.rest(), self.remaining()),
    {
        let mut it = self;
        let mut out: Vec<MemberInfo<T>> = Vec::new();
        let ghost whole = spec_members(self.rest(), self.remaining());
        loop
            invariant
                members_named(self.rest(), self.remaining()) == members_named(it.rest(), it.remaining()),
                out@.map_values(|m: MemberInfo<T>| m.record_view()) + spec_members(it.rest(), it.remaining()) == whole,
                whole == spec_members(self.rest(), self.remaining()),
            decreases it.remaining(),
        {
            let ghost before = out@.map_values(|m: MemberInfo<T>| m.record_view());
            let ghost rest0 = it.rest();
            let ghost n0 = it.remaining();
            match it.next() {
                None => {
                    assert(out@.map_values(|m: MemberInfo<T>| m.record_view()) =~= whole);
                    return Ok(out);
                },
                Some(Ok(m)) => {
                    let ghost rv = m.record_view();
                    out.push(m);
                    proof {
                        assert(rv == member_record(rest0));
                        assert(out@.map_values(|m: MemberInfo<T>| m.record_view()) =~= before.push(rv));
                        assert(spec_members(rest0, n0) =~= seq![rv] + spec_members(it.rest(), it.remaining()));
                        assert(before.push(rv) + spec_members(it.rest(), it.remaining()) =~= before + (seq![rv] + spec_members(it.rest(), it.remaining())));
                    }
                },
                Some(Err(e)) => {
                    return Err(e);
                },
            }
        }
    }
}

/// The implemented interfaces of a container, resolved to their names one
/// at a time.
pub struct Interfaces {
    inner: Vec<u16>,
    next_at: usize,
    pool: ClassPool,
}

impl Interfaces {
    #[verifier::type_invariant]
    spec fn inv(self) -> bool {
        self.next_at <= self.inner@.len()
    }

    pub closed spec fn indices(&self) -> Seq<u16> {
        self.inner@
    }

    pub closed spec fn position(&self) -> int {
        self.next_at as int
    }

    pub closed spec fn pool_view(&self) -> Seq<Entry> {
        self.pool@
    }

    pub(crate) fn from_parts(inner: Vec<u16>, pool: ClassPool) -> (r: Self)
        ensures
            r.indices() == inner@,
            r.position() == 0,
            r.pool_view() == pool@,
    {
        Interfaces { inner, next_at: 0, pool }
    }

    /// The number of interfaces not yet yielded.
    pub fn remaining(&self) -> (r: usize)
        ensures
            r == self.indices().len() - self.position(),
    {
        proof {
            use_type_invariant(self);
        }
        self.inner.len() - self.next_at
    }

    /// The next interface's name.
    pub fn next(&mut self) -> (r: Option<Result<JStr, ClassError>>)
        ensures
            final(self).indices() == old(self).indices(),
            final(self).pool_view() == old(self).pool_view(),
            old(self).position() == old(self).indices().len() ==> r is None && final(self).position() == old(self).position(),
            old(self).position() < old(self).indices().len() ==> final(self).position() == old(self).position() + 1 && match r {
                Some(Ok(s)) => spec_type_name(old(self).pool_view(), old(self).indices()[old(self).position()]) == Ok::<Seq<u8>, ClassError>(s@),
                Some(Err(e)) => spec_type_name(old(self).pool_view(), old(self).indices()[old(self).position()]) == Err::<Seq<u8>, ClassError>(e),
                None => false,
            },
    {
        proof {
            use_type_invariant(&*self);
        }
        if self.next_at >= self.inner.len() {
            return None;
        }
        let raw = self.inner[self.next_at];
        self.next_at = self.next_at + 1;
        Some(self.pool.class_name_at(raw))
    }

    /// The names of all interfaces not yet yielded, in order.
    pub fn collect_all(&mut self) -> (r: Vec<Result<JStr, ClassError>>)
        ensures
            r@.len() == old(self).indices().len() - old(self).position(),
            forall|k: int| 0 <= k < r@.len() ==> match #[trigger] r@[k] {
                Ok(s) => spec_type_name(old(self).pool_view(), old(self).indices()[old(self).position() + k]) == Ok::<Seq<u8>, ClassError>(s@),
                Err(e) => spec_type_name(old(self).pool_view(), old(self).indices()[old(self).position() + k]) == Err::<Seq<u8>, ClassError>(e),
            },
    {
        proof {
            use_type_invariant(&*self);
        }
        let mut out: Vec<Result<JStr, ClassError>> = Vec::new();
        let ghost start = self.position();
        let ghost idx = self.indices();
        let ghost pv = self.pool_view();
        while self.next_at < self.inner.len()
            invariant
                self.indices() == idx,
                self.pool_view() == pv,
                start <= self.position() <= idx.len(),
                out@.len() == self.position() - start,
                forall|k: int| 0 <= k < out@.len() ==> match #[trigger] out@[k] {
                    Ok(s) => spec_type_name(pv, idx[start + k]) == Ok::<Seq<u8>, ClassError>(s@),
                    Err(e) => spec_type_name(pv, idx[start + k]) == Err::<Seq<u8>, ClassError>(e),
                },
            decreases idx.len() - self.position(),
        {
            let raw = self.inner[self.next_at];
            self.next_at = self.next_at + 1;
            let x = self.pool.class_name_at(raw);
            out.push(x);
        }
        out
    }
}

} // verus!
