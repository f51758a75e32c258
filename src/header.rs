use vstd::prelude::*;

use crate::be::{read_be16, read_be32, spec_be16, spec_be32};
use crate::buf::{bytes_as_slice, bytes_view};
use crate::error::ClassError;
use crate::idx::{ClassInfo, Index};
use crate::pool::{decode_pool, spec_pool, ClassPool, Entry};

verus! {

/// The value that every container starts with.
pub const MAGIC: u32 = 0xCAFEBABE;

/// What the fixed part of a container holds, as plain values.
pub struct HeaderView {
    pub minor: u16,
    pub major: u16,
    pub pool: Seq<Entry>,
    pub access_flags: u16,
    pub this_class: u16,
    /// Zero where the container declares no parent type.
    pub super_class: u16,
    /// Where the interfaces section begins.
    pub end: int,
}

/// The fixed part of the container in `data`: magic, versions, pool, access
/// flags, this type and parent type.
pub open spec fn spec_header(data: Seq<u8>) -> Result<HeaderView, ClassError> {
    if data.len() < 4 {
        Err(ClassError::Truncated { offset: 0 })
    } else if spec_be32(data, 0) != MAGIC as int {
        Err(ClassError::MagicMismatch)
    } else if data.len() < 10 {
        Err(ClassError::Truncated { offset: 0 })
    } else {
        let major = spec_be16(data, 6) as u16;
        match spec_pool(data, 10, major, spec_be16(data, 8) as u16) {
            Err(e) => Err(e),
            Ok((entries, p)) => if p + 6 > data.len() {
                Err(ClassError::Truncated { offset: p as usize })
            } else if spec_be16(data, p + 2) == 0 {
                Err(ClassError::ZeroIndex)
            } else {
                Ok(
                    HeaderView {
                        minor: spec_be16(data, 4) as u16,
                        major,
                        pool: entries,
                        access_flags: spec_be16(data, p) as u16,
                        this_class: spec_be16(data, p + 2) as u16,
                        super_class: spec_be16(data, p + 4) as u16,
                        end: p + 6,
                    },
                )
            },
        }
    }
}

/// The access flags and the type references of a container.
pub struct ClassData {
    access_flags: u16,
    class_ref: Index<ClassInfo>,
    super_ref: Option<Index<ClassInfo>>,
}

impl ClassData {
    pub closed spec fn access_view(&self) -> u16 {
        self.access_flags
    }

    pub closed spec fn this_view(&self) -> u16 {
        self.class_ref@
    }

    /// The parent type's index, zero when absent.
    pub closed spec fn super_view(&self) -> u16 {
        match self.super_ref {
            Some(i) => i@,
            None => 0,
        }
    }

    /// The access flags.
    pub fn access_flags(&self) -> (r: u16)
        ensures
            r == self.access_view(),
    {
        self.access_flags
    }

    /// The index of this type's type reference.
    pub fn class_ref(&self) -> (r: Index<ClassInfo>)
        ensures
            r@ == self.this_view(),
    {
        self.class_ref
    }

    /// The index of the parent type's reference, absent for the root type.
    pub fn super_ref(&self) -> (r: Option<Index<ClassInfo>>)
        ensures
            self.super_view() == 0 ==> r is None,
            self.super_view() != 0 ==> (r matches Some(i) && i@ == self.super_view()),
    {
        match self.super_ref {
            Some(i) => {
                let _ = i.get();
                Some(i)
            },
            None => None,
        }
    }

    pub(crate) fn copy(&self) -> (r: ClassData)
        ensures
            r.access_view() == self.access_view(),
            r.this_view() == self.this_view(),
            r.super_view() == self.super_view(),
    {
        ClassData { access_flags: self.access_flags, class_ref: self.class_ref, super_ref: self.super_ref }
    }
}

/// The decoded fixed part of a container.
pub struct Header {
    pub pool: ClassPool,
    pub minor: u16,
    pub major: u16,
    pub data: ClassData,
    /// Where the interfaces section begins.
    pub end: usize,
}

/// Whether a decoded header is the one that `spec_header` describes.
pub open spec fn header_matches(h: Header, v: HeaderView) -> bool {
    &&& h.pool@ == v.pool
    &&& h.minor == v.minor
    &&& h.major == v.major
    &&& h.data.access_view() == v.access_flags
    &&& h.data.this_view() == v.this_class
    &&& h.data.super_view() == v.super_class
    &&& h.end as int == v.end
}

/// Decodes the fixed part of the container in `buf`.
pub fn decode_header(buf: &bytes::Bytes) -> (r: Result<Header, ClassError>)
    ensures
        match spec_header(bytes_view(*buf)) {
            Ok(v) => r matches Ok(h) && header_matches(h, v),
            Err(e) => r == Err::<Header, ClassError>(e),
        },
{
    let data = bytes_as_slice(buf);
    if data.len() < 4 {
        return Err(ClassError::Truncated { offset: 0 });
    }
    if read_be32(data, 0) != MAGIC {
        return Err(ClassError::MagicMismatch);
    }
    if data.len() < 10 {
        return Err(ClassError::Truncated { offset: 0 });
    }
    let minor = read_be16(data, 4);
    let major = read_be16(data, 6);
    let count = read_be16(data, 8);
    let (pool, p) = match decode_pool(buf, 10, major, count) {
        Ok(x) => x,
        Err(e) => return Err(e),
    };
    if p > data.len() || data.len() - p < 6 {
        return Err(ClassError::Truncated { offset: p });
    }
    let access_flags = read_be16(data, p);
    let this_raw = read_be16(data, p + 2);
    let super_raw = read_be16(data, p + 4);
    let class_ref = match Index::maybe(this_raw) {
        Some(i) => i,
        None => return Err(ClassError::ZeroIndex),
    };
    let super_ref = Index::maybe(super_raw);
    Ok(Header { pool, minor, major, data: ClassData { access_flags, class_ref, super_ref }, end: p + 6 })
}

/// The header ends inside the container.
pub proof fn lemma_header_in_bounds(data: Seq<u8>)
    ensures
        spec_header(data) matches Ok(h) ==> 0 <= h.end <= data.len(),
{
    if data.len() >= 10 {
        crate::pool::lemma_pool_in_bounds(data, 10, spec_be16(data, 6) as u16, spec_be16(data, 8) as u16);
    }
}

} // verus!
