use vstd::prelude::*;
use core::marker::PhantomData;

use crate::be::{read_be16, spec_be16};
use crate::buf::{bytes_as_slice, bytes_from_vec, bytes_slice, bytes_view, JStr};
use crate::error::ClassError;
use crate::header::{decode_header, spec_header, ClassData, Header};
use crate::iter::{Attrs, Interfaces, MemberIter};
use crate::jtype::{OfClass, OfField, OfMethod};
use crate::layout::{attr_list_end, interface_list_end, lemma_attrs_end_window, lemma_members_end_window, lemma_attrs_end_grows, lemma_members_end_grows, member_list_end, spec_attr_list_end, spec_interface_list_end, spec_member_list_end};
use crate::pool::{spec_type_name, ClassPool, Entry};

verus! {

/// A reading phase: the section that the reader stands before, and the one
/// that follows it.
pub trait Step {
    type Next;
}

/// Before the interfaces section.
pub enum AtInterfaces {
    Marker,
}

/// Before the fields section.
pub enum AtFields {
    Marker,
}

/// Before the methods section.
pub enum AtMethods {
    Marker,
}

/// Before the class attributes section.
pub enum AtAttributes {
    Marker,
}

impl Step for AtInterfaces {
    type Next = AtFields;
}

impl Step for AtFields {
    type Next = AtMethods;
}

impl Step for AtMethods {
    type Next = AtAttributes;
}

impl Step for AtAttributes {
    type Next = ();
}

impl Step for () {
    type Next = ();
}

/// The parent type's name: absent when the index is zero.
pub open spec fn spec_parent_name(entries: Seq<Entry>, raw: u16) -> Result<Option<Seq<u8>>, ClassError> {
    if raw == 0 {
        Ok(None)
    } else {
        match spec_type_name(entries, raw) {
            Ok(s) => Ok(Some(s)),
            Err(e) => Err(e),
        }
    }
}

/// The `n` big-endian indices that start at `pos`.
pub open spec fn spec_u16s(data: Seq<u8>, pos: int, n: int) -> Seq<u16> {
    Seq::new(n as nat, |k: int| spec_be16(data, pos + 2 * k) as u16)
}

pub(crate) fn parent_name(pool: &ClassPool, data: &ClassData) -> (r: Result<Option<JStr>, ClassError>)
    ensures
        match r {
            Ok(Some(s)) => spec_parent_name(pool@, data.super_view()) == Ok::<Option<Seq<u8>>, ClassError>(Some(s@)),
            Ok(None) => spec_parent_name(pool@, data.super_view()) == Ok::<Option<Seq<u8>>, ClassError>(None),
            Err(e) => spec_parent_name(pool@, data.super_view()) == Err::<Option<Seq<u8>>, ClassError>(e),
        },
{
    match data.super_ref() {
        None => Ok(None),
        Some(i) => match pool.class_name_at(i.get()) {
            Ok(s) => Ok(Some(s)),
            Err(e) => Err(e),
        },
    }
}

pub(crate) fn read_indices(data: &[u8], pos: usize, n: usize) -> (r: Vec<u16>)
    requires
        pos + 2 * n <= data.len(),
    ensures
        r@ == spec_u16s(data@, pos as int, n as int),
{
    let mut v: Vec<u16> = Vec::new();
    let mut k: usize = 0;
    while k < n
        invariant
            k <= n,
            pos + 2 * n <= data.len(),
            v@ =~= spec_u16s(data@, pos as int, k as int),
        decreases n - k,
    {
        let x = read_be16(data, pos + 2 * k);
        v.push(x);
        k = k + 1;
        assert(v@ =~= spec_u16s(data@, pos as int, k as int));
    }
    v
}

/// A forward-only reader over a container. Its phase `At` names the next
/// section; each section is decoded or skipped once, in order, and either
/// way the reader ends up at the same position.
pub struct JClassReader<At: Step> {
    src: bytes::Bytes,
    pos: usize,
    pool: ClassPool,
    minor: u16,
    major: u16,
    data: ClassData,
    _t: PhantomData<At>,
}

impl<At: Step> JClassReader<At> {
    #[verifier::type_invariant]
    spec fn inv(self) -> bool {
        self.pos <= bytes_view(self.src).len()
    }

    /// The container's bytes.
    pub closed spec fn source(&self) -> Seq<u8> {
        bytes_view(self.src)
    }

    /// Where the next section begins.
    pub closed spec fn position(&self) -> int {
        self.pos as int
    }

    pub closed spec fn pool_view(&self) -> Seq<Entry> {
        self.pool@
    }

    pub closed spec fn major_view(&self) -> u16 {
        self.major
    }

    pub closed spec fn minor_view(&self) -> u16 {
        self.minor
    }

    pub closed spec fn this_view(&self) -> u16 {
        self.data.this_view()
    }

    pub closed spec fn super_view(&self) -> u16 {
        self.data.super_view()
    }

    pub closed spec fn access_view(&self) -> u16 {
        self.data.access_view()
    }

    /// Whether `next` is this reader moved on to `pos`, with all else kept.
    pub open spec fn moved_to<N: Step>(&self, next: JClassReader<N>, pos: int) -> bool {
        &&& next.source() == self.source()
        &&& next.position() == pos
        &&& next.pool_view() == self.pool_view()
        &&& next.major_view() == self.major_view()
        &&& next.minor_view() == self.minor_view()
        &&& next.this_view() == self.this_view()
        &&& next.super_view() == self.super_view()
        &&& next.access_view() == self.access_view()
    }

    fn step<N: Step>(self, pos: usize) -> (r: JClassReader<N>)
        requires
            pos <= self.source().len(),
        ensures
            self.moved_to(r, pos as int),
    {
        JClassReader { src: self.src, pos, pool: self.pool, minor: self.minor, major: self.major, data: self.data, _t: PhantomData }
    }

    /// The declared type's name.
    pub fn class_name(&self) -> (r: Result<JStr, ClassError>)
        ensures
            match r {
                Ok(s) => spec_type_name(self.pool_view(), self.this_view()) == Ok::<Seq<u8>, ClassError>(s@),
                Err(e) => spec_type_name(self.pool_view(), self.this_view()) == Err::<Seq<u8>, ClassError>(e),
            },
    {
        self.pool.class_name_at(self.data.class_ref().get())
    }

    /// The parent type's name; absent for the root type.
    pub fn super_class(&self) -> (r: Result<Option<JStr>, ClassError>)
        ensures
            match r {
                Ok(Some(s)) => spec_parent_name(self.pool_view(), self.super_view()) == Ok::<Option<Seq<u8>>, ClassError>(Some(s@)),
                Ok(None) => spec_parent_name(self.pool_view(), self.super_view()) == Ok::<Option<Seq<u8>>, ClassError>(None),
                Err(e) => spec_parent_name(self.pool_view(), self.super_view()) == Err::<Option<Seq<u8>>, ClassError>(e),
            },
    {
        parent_name(&self.pool, &self.data)
    }

    /// The decoded pool.
    pub fn pool(&self) -> (r: &ClassPool)
        ensures
            r@ == self.pool_view(),
    {
        &self.pool
    }

    /// How many bytes of the container have been consumed.
    pub fn offset(&self) -> (r: usize)
        ensures
            r == self.position(),
    {
        self.pos
    }

    /// The minor and major versions.
    pub fn version(&self) -> (r: (u16, u16))
        ensures
            r == (self.minor_view(), self.major_view()),
    {
        (self.minor, self.major)
    }

    /// The access flags and type references.
    pub fn class_data(&self) -> (r: &ClassData)
        ensures
            r.this_view() == self.this_view(),
            r.super_view() == self.super_view(),
            r.access_view() == self.access_view(),
    {
        &self.data
    }
}

impl JClassReader<AtInterfaces> {
    /// Opens the container in `src`: checks the magic value and decodes the
    /// versions, the pool and the header.
    pub fn new(src: Vec<u8>) -> (r: Result<Self, ClassError>)
        ensures
            match spec_header(src@) {
                Ok(h) => r matches Ok(rd) && {
                    &&& rd.source() == src@
                    &&& rd.position() == h.end
                    &&& rd.pool_view() == h.pool
                    &&& rd.minor_view() == h.minor
                    &&& rd.major_view() == h.major
                    &&& rd.access_view() == h.access_flags
                    &&& rd.this_view() == h.this_class
                    &&& rd.super_view() == h.super_class
                },
                Err(e) => r == Err::<Self, ClassError>(e),
            },
    {
        let src = bytes_from_vec(src);
        match decode_header(&src) {
            Ok(h) => {
                let Header { pool, minor, major, data, end } = h;
                proof {
                    crate::header::lemma_header_in_bounds(bytes_view(src));
                }
                Ok(JClassReader { src, pos: end, pool, minor, major, data, _t: PhantomData })
            },
            Err(e) => Err(e),
        }
    }

    /// Reads the interfaces section; the names resolve one at a time.
    pub fn interfaces(self) -> (r: Result<(JClassReader<AtFields>, Interfaces), ClassError>)
        ensures
            match spec_interface_list_end(self.source(), self.position()) {
                Some(e) => r matches Ok((next, it)) && self.moved_to(next, e) && it.position() == 0
                    && it.pool_view() == self.pool_view()
                    && it.indices() == spec_u16s(self.source(), self.position() + 2, spec_be16(self.source(), self.position())),
                None => r == Err::<(JClassReader<AtFields>, Interfaces), ClassError>(ClassError::Truncated { offset: self.position() as usize }),
            },
    {
        proof {
            use_type_invariant(&self);
        }
        let data = bytes_as_slice(&self.src);
        let e = match interface_list_end(data, self.pos) {
            Some(e) => e,
            None => return Err(ClassError::Truncated { offset: self.pos }),
        };
        let n = read_be16(data, self.pos) as usize;
        let v = read_indices(data, self.pos + 2, n);
        let it = Interfaces::from_parts(v, self.pool.share());
        Ok((self.step(e), it))
    }

    /// Passes over the interfaces section, ending where `interfaces` ends.
    pub fn skip_interfaces(self) -> (r: Result<JClassReader<AtFields>, ClassError>)
        ensures
            match spec_interface_list_end(self.source(), self.position()) {
                Some(e) => r matches Ok(next) && self.moved_to(next, e),
                None => r == Err::<JClassReader<AtFields>, ClassError>(ClassError::Truncated { offset: self.position() as usize }),
            },
    {
        proof {
            use_type_invariant(&self);
        }
        let data = bytes_as_slice(&self.src);
        match interface_list_end(data, self.pos) {
            Some(e) => Ok(self.step(e)),
            None => Err(ClassError::Truncated { offset: self.pos }),
        }
    }
}

/// Measures the member section at `pos` and hands its records to a lazy walk.
fn member_section<T: crate::jtype::MemberType>(src: &bytes::Bytes, pos: usize, pool: &ClassPool) -> (r: Option<(MemberIter<T>, usize)>)
    requires
        pos <= bytes_view(*src).len(),
    ensures
        r matches Some((_, end)) ==> pos + 2 <= end <= bytes_view(*src).len(),
        match spec_member_list_end(bytes_view(*src), pos as int) {
            Some(e) => r matches Some((it, end)) && end == e && it.pool_view() == pool@
                && it.rest() == bytes_view(*src).subrange(pos + 2, e)
                && it.remaining() == spec_be16(bytes_view(*src), pos as int),
            None => r is None,
        },
{
    let data = bytes_as_slice(src);
    let e = match member_list_end(data, pos) {
        Some(e) => e,
        None => return None,
    };
    let n = read_be16(data, pos);
    proof {
        lemma_members_end_grows(data@, pos as int + 2, n as nat);
        lemma_members_end_window(data@, pos as int + 2, e as int, pos as int + 2, n as nat);
    }
    let b = bytes_slice(src, pos + 2, e);
    Some((MemberIter::from_parts(b, pool.share(), n), e))
}

impl JClassReader<AtFields> {
    /// Reads the fields section: measures it, then hands it to a lazy walk.
    pub fn fields(self) -> (r: Result<(JClassReader<AtMethods>, MemberIter<OfField>), ClassError>)
        ensures
            match spec_member_list_end(self.source(), self.position()) {
                Some(e) => r matches Ok((next, it)) && self.moved_to(next, e) && it.pool_view() == self.pool_view()
                    && it.rest() == self.source().subrange(self.position() + 2, e)
                    && it.remaining() == spec_be16(self.source(), self.position()),
                None => r == Err::<(JClassReader<AtMethods>, MemberIter<OfField>), ClassError>(ClassError::Truncated { offset: self.position() as usize }),
            },
    {
        proof {
            use_type_invariant(&self);
        }
        match member_section(&self.src, self.pos, &self.pool) {
            Some((it, e)) => Ok((self.step(e), it)),
            None => Err(ClassError::Truncated { offset: self.pos }),
        }
    }

    /// Passes over the fields section, ending where `fields` ends.
    pub fn skip_fields(self) -> (r: Result<JClassReader<AtMethods>, ClassError>)
        ensures
            match spec_member_list_end(self.source(), self.position()) {
                Some(e) => r matches Ok(next) && self.moved_to(next, e),
                None => r == Err::<JClassReader<AtMethods>, ClassError>(ClassError::Truncated { offset: self.position() as usize }),
            },
    {
        proof {
            use_type_invariant(&self);
        }
        let data = bytes_as_slice(&self.src);
        match member_list_end(data, self.pos) {
            Some(e) => {
                proof {
                    lemma_members_end_grows(data@, self.pos as int + 2, spec_be16(data@, self.pos as int) as nat);
                }
                Ok(self.step(e))
            },
            None => Err(ClassError::Truncated { offset: self.pos }),
        }
    }
}

impl JClassReader<AtMethods> {
    /// Reads the methods section: measures it, then hands it to a lazy walk.
    pub fn methods(self) -> (r: Result<(JClassReader<AtAttributes>, MemberIter<OfMethod>), ClassError>)
        ensures
            match spec_member_list_end(self.source(), self.position()) {
                Some(e) => r matches Ok((next, it)) && self.moved_to(next, e) && it.pool_view() == self.pool_view()
                    && it.rest() == self.source().subrange(self.position() + 2, e)
                    && it.remaining() == spec_be16(self.source(), self.position()),
                None => r == Err::<(JClassReader<AtAttributes>, MemberIter<OfMethod>), ClassError>(ClassError::Truncated { offset: self.position() as usize }),
            },
    {
        proof {
            use_type_invariant(&self);
        }
        match member_section(&self.src, self.pos, &self.pool) {
            Some((it, e)) => Ok((self.step(e), it)),
            None => Err(ClassError::Truncated { offset: self.pos }),
        }
    }

    /// Passes over the methods section, ending where `methods` ends.
    pub fn skip_methods(self) -> (r: Result<JClassReader<AtAttributes>, ClassError>)
        ensures
            match spec_member_list_end(self.source(), self.position()) {
                Some(e) => r matches Ok(next) && self.moved_to(next, e),
                None => r == Err::<JClassReader<AtAttributes>, ClassError>(ClassError::Truncated { offset: self.position() as usize }),
            },
    {
        proof {
            use_type_invariant(&self);
        }
        let data = bytes_as_slice(&self.src);
        match member_list_end(data, self.pos) {
            Some(e) => {
                proof {
                    lemma_members_end_grows(data@, self.pos as int + 2, spec_be16(data@, self.pos as int) as nat);
                }
                Ok(self.step(e))
            },
            None => Err(ClassError::Truncated { offset: self.pos }),
        }
    }
}

/// Measures the attribute list at `pos` and hands its records to a lazy walk.
pub(crate) fn attr_section<T>(src: &bytes::Bytes, pos: usize, pool: &ClassPool) -> (r: Option<(Attrs<T>, usize)>)
    requires
        pos <= bytes_view(*src).len(),
    ensures
        r matches Some((_, end)) ==> pos + 2 <= end <= bytes_view(*src).len(),
        match spec_attr_list_end(bytes_view(*src), pos as int) {
            Some(e) => r matches Some((it, end)) && end == e && it.pool_view() == pool@
                && it.rest() == bytes_view(*src).subrange(pos + 2, e)
                && it.remaining() == spec_be16(bytes_view(*src), pos as int),
            None => r is None,
        },
{
    let data = bytes_as_slice(src);
    let e = match attr_list_end(data, pos) {
        Some(e) => e,
        None => return None,
    };
    let n = read_be16(data, pos);
    proof {
        lemma_attrs_end_grows(data@, pos as int + 2, n as nat);
        lemma_attrs_end_window(data@, pos as int + 2, e as int, pos as int + 2, n as nat);
    }
    let b = bytes_slice(src, pos + 2, e);
    Some((Attrs::from_parts(b, pool.share(), n), e))
}

impl JClassReader<AtAttributes> {
    /// Reads the class attributes section into a lazy walk.
    pub fn attributes(self) -> (r: Result<(JClassReader<()>, Attrs<OfClass>), ClassError>)
        ensures
            match spec_attr_list_end(self.source(), self.position()) {
                Some(e) => r matches Ok((next, it)) && self.moved_to(next, e) && it.pool_view() == self.pool_view()
                    && it.rest() == self.source().subrange(self.position() + 2, e)
                    && it.remaining() == spec_be16(self.source(), self.position()),
                None => r == Err::<(JClassReader<()>, Attrs<OfClass>), ClassError>(ClassError::Truncated { offset: self.position() as usize }),
            },
    {
        proof {
            use_type_invariant(&self);
        }
        match attr_section(&self.src, self.pos, &self.pool) {
            Some((it, e)) => Ok((self.step(e), it)),
            None => Err(ClassError::Truncated { offset: self.pos }),
        }
    }

    /// Passes over the class attributes section, ending where `attributes`
    /// ends.
    pub fn skip_attributes(self) -> (r: Result<JClassReader<()>, ClassError>)
        ensures
            match spec_attr_list_end(self.source(), self.position()) {
                Some(e) => r matches Ok(next) && self.moved_to(next, e),
                None => r == Err::<JClassReader<()>, ClassError>(ClassError::Truncated { offset: self.position() as usize }),
            },
    {
        proof {
            use_type_invariant(&self);
        }
        let data = bytes_as_slice(&self.src);
        match attr_list_end(data, self.pos) {
            Some(e) => {
                proof {
                    lemma_attrs_end_grows(data@, self.pos as int + 2, spec_be16(data@, self.pos as int) as nat);
                }
                Ok(self.step(e))
            },
            None => Err(ClassError::Truncated { offset: self.pos }),
        }
    }
}

} // verus!
