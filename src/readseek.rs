use vstd::prelude::*;

use crate::be::{read_be16, spec_be16, spec_be32};
use crate::buf::{bytes_as_slice, bytes_from_vec, bytes_view, JStr};
use crate::error::ClassError;
use crate::header::{decode_header, lemma_header_in_bounds, spec_header, ClassData, Header, MAGIC};
use crate::iter::{Attrs, Interfaces, MemberIter};
use crate::jtype::{OfClass, OfField, OfMethod};
use crate::layout::{attr_list_end, interface_list_end, lemma_members_end_grows, member_list_end, spec_attr_list_end, spec_interface_list_end, spec_member_list_end};
use crate::pool::{spec_entry, spec_pool, spec_pool_from, spec_type_name, ClassPool, Entry};
use crate::read::{attr_section, parent_name, read_indices, spec_parent_name, spec_u16s};

verus! {

/// Where the fields, methods and class attributes sections begin and where
/// the container ends, given where the interfaces section begins.
pub open spec fn spec_sections(data: Seq<u8>, pos_interfaces: int) -> Option<(int, int, int, int)> {
    match spec_interface_list_end(data, pos_interfaces) {
        None => None,
        Some(f) => match spec_member_list_end(data, f) {
            None => None,
            Some(m) => match spec_member_list_end(data, m) {
                None => None,
                Some(a) => match spec_attr_list_end(data, a) {
                    None => None,
                    Some(e) => Some((f, m, a, e)),
                },
            },
        },
    }
}

/// A reader that measures every section once when it opens, then gives
/// each section again on request, in any order.
pub struct JClassSeekReader {
    src: bytes::Bytes,
    pool: ClassPool,
    minor: u16,
    major: u16,
    data: ClassData,
    pos_interfaces: usize,
    pos_fields: usize,
    pos_methods: usize,
    pos_attributes: usize,
    end: usize,
}

impl JClassSeekReader {
    #[verifier::type_invariant]
    spec fn inv(self) -> bool {
        &&& spec_sections(bytes_view(self.src), self.pos_interfaces as int) == Some(
            (self.pos_fields as int, self.pos_methods as int, self.pos_attributes as int, self.end as int),
        )
        &&& self.end == bytes_view(self.src).len()
    }

    /// The container's bytes.
    pub closed spec fn source(&self) -> Seq<u8> {
        bytes_view(self.src)
    }

    pub closed spec fn pool_view(&self) -> Seq<Entry> {
        self.pool@
    }

    pub closed spec fn this_view(&self) -> u16 {
        self.data.this_view()
    }

    pub closed spec fn super_view(&self) -> u16 {
        self.data.super_view()
    }

    /// Where the interfaces, fields, methods and attributes sections begin.
    pub closed spec fn offsets(&self) -> (int, int, int, int) {
        (self.pos_interfaces as int, self.pos_fields as int, self.pos_methods as int, self.pos_attributes as int)
    }

    /// Opens the container in `src` and measures its sections. The last
    /// section must end exactly where the bytes do.
    pub fn new(src: Vec<u8>) -> (r: Result<Self, ClassError>)
        ensures
            match spec_header(src@) {
                Err(e) => r == Err::<Self, ClassError>(e),
                Ok(h) => match spec_sections(src@, h.end) {
                    Some((f, m, a, e)) => if e == src@.len() {
                        r matches Ok(rd) && rd.source() == src@ && rd.pool_view() == h.pool
                            && rd.this_view() == h.this_class && rd.super_view() == h.super_class
                            && rd.offsets() == (h.end, f, m, a)
                    } else {
                        r == Err::<Self, ClassError>(ClassError::MalformedContainer)
                    },
                    None => r == Err::<Self, ClassError>(ClassError::MalformedContainer),
                },
            },
    {
        let src = bytes_from_vec(src);
        let h = match decode_header(&src) {
            Ok(h) => h,
            Err(e) => return Err(e),
        };
        proof {
            lemma_header_in_bounds(bytes_view(src));
        }
        let Header { pool, minor, major, data, end } = h;
        let bytes = bytes_as_slice(&src);
        let pos_interfaces = end;
        let pos_fields = match interface_list_end(bytes, pos_interfaces) {
            Some(e) => e,
            None => return Err(ClassError::MalformedContainer),
        };
        let pos_methods = match member_list_end(bytes, pos_fields) {
            Some(e) => e,
            None => return Err(ClassError::MalformedContainer),
        };
        proof {
            lemma_members_end_grows(bytes@, pos_fields as int + 2, spec_be16(bytes@, pos_fields as int) as nat);
        }
        let pos_attributes = match member_list_end(bytes, pos_methods) {
            Some(e) => e,
            None => return Err(ClassError::MalformedContainer),
        };
        proof {
            lemma_members_end_grows(bytes@, pos_methods as int + 2, spec_be16(bytes@, pos_methods as int) as nat);
        }
        let last = match attr_list_end(bytes, pos_attributes) {
            Some(e) => e,
            None => return Err(ClassError::MalformedContainer),
        };
        if last != bytes.len() {
            return Err(ClassError::MalformedContainer);
        }
        Ok(JClassSeekReader { src, pool, minor, major, data, pos_interfaces, pos_fields, pos_methods, pos_attributes, end: last })
    }

    /// The declared type's name.
    pub fn class_name(&self) -> (r: Result<JStr, ClassError>)
        ensures
            match r {
                Ok(s) => spec_type_name(self.pool_view(), self.this_view()) == Ok::<Seq<u8>, ClassError>(s@),
                Err(e) => spec_type_name(self.pool_view(), self.this_view()) == Err::<Seq<u8>, ClassError>(e),
            },
    {
        self.pool.class_name_at(self.data.class_ref().get())
    }

    /// The parent type's name; absent for the root type.
    pub fn super_class(&self) -> (r: Result<Option<JStr>, ClassError>)
        ensures
            match r {
                Ok(Some(s)) => spec_parent_name(self.pool_view(), self.super_view()) == Ok::<Option<Seq<u8>>, ClassError>(Some(s@)),
                Ok(None) => spec_parent_name(self.pool_view(), self.super_view()) == Ok::<Option<Seq<u8>>, ClassError>(None),
                Err(e) => spec_parent_name(self.pool_view(), self.super_view()) == Err::<Option<Seq<u8>>, ClassError>(e),
            },
    {
        parent_name(&self.pool, &self.data)
    }

    /// The decoded pool.
    pub fn pool(&self) -> (r: &ClassPool)
        ensures
            r@ == self.pool_view(),
    {
        &self.pool
    }

    /// The interfaces, decoded again on each call.
    pub fn interfaces(&self) -> (r: Result<Interfaces, ClassError>)
        ensures
            r matches Ok(it) && it.position() == 0 && it.pool_view() == self.pool_view()
                && it.indices() == spec_u16s(self.source(), self.offsets().0 + 2, spec_be16(self.source(), self.offsets().0)),
    {
        proof {
            use_type_invariant(self);
        }
        let bytes = bytes_as_slice(&self.src);
        let n = read_be16(bytes, self.pos_interfaces) as usize;
        let v = read_indices(bytes, self.pos_interfaces + 2, n);
        Ok(Interfaces::from_parts(v, self.pool.share()))
    }

    fn member_section<T: crate::jtype::MemberType>(&self, from: usize) -> (r: MemberIter<T>)
        requires
            spec_member_list_end(self.source(), from as int) is Some,
            from <= self.source().len(),
        ensures
            r.pool_view() == self.pool_view(),
            r.rest() == self.source().subrange(from + 2, spec_member_list_end(self.source(), from as int).unwrap()),
            r.remaining() == spec_be16(self.source(), from as int),
    {
        let bytes = bytes_as_slice(&self.src);
        let e = match member_list_end(bytes, from) {
            Some(e) => e,
            None => {
                assert(false);
                0
            },
        };
        let n = read_be16(bytes, from);
        proof {
            lemma_members_end_grows(bytes@, from as int + 2, n as nat);
            crate::layout::lemma_members_end_window(bytes@, from as int + 2, e as int, from as int + 2, n as nat);
        }
        MemberIter::from_parts(crate::buf::bytes_slice(&self.src, from + 2, e), self.pool.share(), n)
    }

    /// A fresh walk over the fields; callable any number of times.
    pub fn fields(&self) -> (r: Result<MemberIter<OfField>, ClassError>)
        ensures
            r matches Ok(it) && it.pool_view() == self.pool_view()
                && it.rest() == self.source().subrange(self.offsets().1 + 2, self.offsets().2)
                && it.remaining() == spec_be16(self.source(), self.offsets().1),
    {
        proof {
            use_type_invariant(self);
            lemma_members_end_grows(self.source(), self.pos_fields as int + 2, spec_be16(self.source(), self.pos_fields as int) as nat);
        }
        Ok(self.member_section(self.pos_fields))
    }

    /// A fresh walk over the methods; callable any number of times.
    pub fn methods(&self) -> (r: Result<MemberIter<OfMethod>, ClassError>)
        ensures
            r matches Ok(it) && it.pool_view() == self.pool_view()
                && it.rest() == self.source().subrange(self.offsets().2 + 2, self.offsets().3)
                && it.remaining() == spec_be16(self.source(), self.offsets().2),
    {
        proof {
            use_type_invariant(self);
            lemma_members_end_grows(self.source(), self.pos_fields as int + 2, spec_be16(self.source(), self.pos_fields as int) as nat);
            lemma_members_end_grows(self.source(), self.pos_methods as int + 2, spec_be16(self.source(), self.pos_methods as int) as nat);
        }
        Ok(self.member_section(self.pos_methods))
    }

    /// A fresh walk over the class attributes; callable any number of times.
    pub fn class_attrs(&self) -> (r: Result<Attrs<OfClass>, ClassError>)
        ensures
            r matches Ok(it) && it.pool_view() == self.pool_view()
                && it.rest() == self.source().subrange(self.offsets().3 + 2, self.source().len() as int)
                && it.remaining() == spec_be16(self.source(), self.offsets().3),
    {
        proof {
            use_type_invariant(self);
            lemma_members_end_grows(self.source(), self.pos_fields as int + 2, spec_be16(self.source(), self.pos_fields as int) as nat);
            lemma_members_end_grows(self.source(), self.pos_methods as int + 2, spec_be16(self.source(), self.pos_methods as int) as nat);
        }
        match attr_section(&self.src, self.pos_attributes, &self.pool) {
            Some((it, _)) => Ok(it),
            None => {
                assert(false);
                Err(ClassError::MalformedContainer)
            },
        }
    }
}

} // verus!

verus! {

/// The two big-endian bytes of `x`.
pub open spec fn be16_bytes(x: u16) -> Seq<u8> {
    seq![(x / 256) as u8, (x % 256) as u8]
}

/// A minimal container: a root type named `name` (no parent), with no
/// interfaces, fields, methods or attributes. Its pool holds the name at
/// index 1 and the type reference at index 2.
pub open spec fn minimal_container(major: u16, access: u16, name: Seq<u8>) -> Seq<u8> {
    seq![0xCAu8, 0xFE, 0xBA, 0xBE, 0, 0] + be16_bytes(major) + seq![0u8, 3, 1] + be16_bytes(name.len() as u16) + name
        + seq![7u8, 0, 1] + be16_bytes(access) + seq![0u8, 2, 0, 0, 0, 0, 0, 0, 0, 0, 0, 0]
}

proof fn lemma_be16_bytes(d: Seq<u8>, p: int, x: u16)
    requires
        0 <= p,
        p + 2 <= d.len(),
        d[p] == (x / 256) as u8,
        d[p + 1] == (x % 256) as u8,
    ensures
        spec_be16(d, p) == x as int,
{
    assert((x / 256) as u8 as int * 256 + (x % 256) as u8 as int == x as int) by (nonlinear_arith);
}

/// Every minimal container opens, both sequentially and for random access:
/// its sections end exactly where its bytes do, its declared type resolves
/// to `name`, and it has no parent type.
#[verifier::rlimit(60)]
pub proof fn lemma_minimal_container_opens(major: u16, access: u16, name: Seq<u8>)
    requires
        name.len() < 65536,
    ensures
        ({
            let d = minimal_container(major, access, name);
            &&& spec_header(d) matches Ok(h)
            &&& spec_type_name(h.pool, h.this_class) == Ok::<Seq<u8>, ClassError>(name)
            &&& spec_parent_name(h.pool, h.super_class) == Ok::<Option<Seq<u8>>, ClassError>(None)
            &&& spec_sections(d, h.end) matches Some((_, _, _, e)) && e == d.len()
        }),
{
    let n = name.len() as int;
    let d = minimal_container(major, access, name);
    assert(d.len() == 30 + n);
    assert(d[0] == 0xCAu8 && d[1] == 0xFEu8 && d[2] == 0xBAu8 && d[3] == 0xBEu8);
    assert(d[4] == 0u8 && d[5] == 0u8);
    assert(d[8] == 0u8 && d[9] == 3u8 && d[10] == 1u8);
    assert(d.subrange(13, 13 + n) =~= name);
    assert(d[13 + n] == 7u8 && d[14 + n] == 0u8 && d[15 + n] == 1u8);
    assert(d[18 + n] == 0u8 && d[19 + n] == 2u8 && d[20 + n] == 0u8 && d[21 + n] == 0u8);
    assert(forall|k: int| 22 + n <= k < 30 + n ==> d[k] == 0u8);
    assert(spec_be32(d, 0) == MAGIC as int);
    lemma_be16_bytes(d, 6, major);
    lemma_be16_bytes(d, 11, name.len() as u16);
    lemma_be16_bytes(d, 16 + n, access);
    let major_read = spec_be16(d, 6) as u16;
    assert(major_read == major);
    let first = spec_entry(d, 10, major);
    assert(first == Ok::<(Entry, int), ClassError>((Entry::Utf8(name), 13 + n)));
    let second = spec_entry(d, 13 + n, major);
    assert(spec_be16(d, 14 + n) == 1);
    assert(second == Ok::<(Entry, int), ClassError>((Entry::Class(1), 16 + n)));
    let acc1 = seq![Entry::Empty].push(Entry::Utf8(name));
    let acc2 = acc1.push(Entry::Class(1));
    assert(spec_pool_from(d, 16 + n, major, 3, acc2) == Ok::<(Seq<Entry>, int), ClassError>((acc2, 16 + n)));
    assert(spec_pool_from(d, 13 + n, major, 3, acc1) == Ok::<(Seq<Entry>, int), ClassError>((acc2, 16 + n)));
    assert(spec_pool(d, 10, major, 3) == Ok::<(Seq<Entry>, int), ClassError>((acc2, 16 + n)));
    assert(spec_be16(d, 8) == 3);
    assert(spec_be16(d, 18 + n) == 2);
    assert(spec_be16(d, 20 + n) == 0);
    let h = spec_header(d).unwrap();
    assert(h.pool == acc2);
    assert(h.end == 22 + n);
    assert(acc2[2] == Entry::Class(1));
    assert(acc2[1] == Entry::Utf8(name));
    assert(spec_be16(d, 22 + n) == 0);
    assert(spec_be16(d, 24 + n) == 0);
    assert(spec_be16(d, 26 + n) == 0);
    assert(spec_be16(d, 28 + n) == 0);
}

} // verus!
