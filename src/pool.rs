use vstd::prelude::*;
use vstd::string::StringSliceAdditionalSpecFns;
use std::sync::Arc;

use crate::be::{read_be16, read_be32, read_be64, read_u8, spec_be16, spec_be32, spec_be64, lemma_be16_bound};
use crate::buf::{bytes_as_slice, bytes_slice, bytes_view, JStr};
use crate::error::ClassError;
use crate::idx::{AnyMethodRef, ClassInfo, FieldRef, Index, InterfaceMethodRef, MethodRef, NameAndType, UseIndex, Utf8};

verus! {

/// What a pool entry holds, as plain values: each index by its raw value,
/// each 32- or 64-bit float by its bit pattern.
pub enum Entry {
    /// Slot zero, which no index can address.
    Empty,
    Utf8(Seq<u8>),
    Int(i32),
    Float(u32),
    Long(i64),
    Double(u64),
    Class(u16),
    String(u16),
    RefField(u16, u16),
    RefMethod(u16, u16),
    RefInterfaceMethod(u16, u16),
    NameAndType(u16, u16),
    /// Kind code and reference index.
    MethodHandle(u8, u16),
    MethodType(u16),
    Dynamic(u16, u16),
    InvokeDynamic(u16, u16),
    Module(u16),
    Package(u16),
    /// The slot after a long or a double, which no index can address.
    Reserved,
}

impl Entry {
    /// The tag that the entry was written with; zero for the two placeholders.
    pub open spec fn tag(self) -> u8 {
        match self {
            Entry::Empty => 0,
            Entry::Utf8(_) => 1,
            Entry::Int(_) => 3,
            Entry::Float(_) => 4,
            Entry::Long(_) => 5,
            Entry::Double(_) => 6,
            Entry::Class(_) => 7,
            Entry::String(_) => 8,
            Entry::RefField(_, _) => 9,
            Entry::RefMethod(_, _) => 10,
            Entry::RefInterfaceMethod(_, _) => 11,
            Entry::NameAndType(_, _) => 12,
            Entry::MethodHandle(_, _) => 15,
            Entry::MethodType(_) => 16,
            Entry::Dynamic(_, _) => 17,
            Entry::InvokeDynamic(_, _) => 18,
            Entry::Module(_) => 19,
            Entry::Package(_) => 20,
            Entry::Reserved => 0,
        }
    }

    /// Whether the entry takes two slots.
    pub open spec fn is_wide(self) -> bool {
        self is Long || self is Double
    }
}

/// How a method handle refers to its target, with the index typed by the
/// category that the kind requires.
pub enum RefKind {
    GetField(Index<FieldRef>),
    GetStatic(Index<FieldRef>),
    PutField(Index<FieldRef>),
    PutStatic(Index<FieldRef>),
    InvokeVirtual(Index<MethodRef>),
    InvokeStatic(Index<AnyMethodRef>),
    InvokeSpecial(Index<AnyMethodRef>),
    NewInvokeSpecial(Index<MethodRef>),
    InvokeInterface(Index<InterfaceMethodRef>),
}

impl View for RefKind {
    type V = (u8, u16);

    open spec fn view(&self) -> (u8, u16) {
        match self {
            RefKind::GetField(i) => (1, i@),
            RefKind::GetStatic(i) => (2, i@),
            RefKind::PutField(i) => (3, i@),
            RefKind::PutStatic(i) => (4, i@),
            RefKind::InvokeVirtual(i) => (5, i@),
            RefKind::InvokeStatic(i) => (6, i@),
            RefKind::InvokeSpecial(i) => (7, i@),
            RefKind::NewInvokeSpecial(i) => (8, i@),
            RefKind::InvokeInterface(i) => (9, i@),
        }
    }
}

impl RefKind {
    /// The reference for a kind code and an index.
    pub fn from_parts(kind: u8, index: u16) -> (r: Result<RefKind, ClassError>)
        ensures
            !(1 <= kind <= 9) ==> r == Err::<RefKind, ClassError>(ClassError::InvalidRefKind { kind }),
            1 <= kind <= 9 && index == 0 ==> r == Err::<RefKind, ClassError>(ClassError::ZeroIndex),
            1 <= kind <= 9 && index != 0 ==> (r matches Ok(k) && k@ == (kind, index)),
    {
        if kind < 1 || kind > 9 {
            return Err(ClassError::InvalidRefKind { kind });
        }
        if index == 0 {
            return Err(ClassError::ZeroIndex);
        }
        let r = if kind == 1 {
            RefKind::GetField(Index::from_nonzero(index))
        } else if kind == 2 {
            RefKind::GetStatic(Index::from_nonzero(index))
        } else if kind == 3 {
            RefKind::PutField(Index::from_nonzero(index))
        } else if kind == 4 {
            RefKind::PutStatic(Index::from_nonzero(index))
        } else if kind == 5 {
            RefKind::InvokeVirtual(Index::from_nonzero(index))
        } else if kind == 6 {
            RefKind::InvokeStatic(Index::from_nonzero(index))
        } else if kind == 7 {
            RefKind::InvokeSpecial(Index::from_nonzero(index))
        } else if kind == 8 {
            RefKind::NewInvokeSpecial(Index::from_nonzero(index))
        } else {
            RefKind::InvokeInterface(Index::from_nonzero(index))
        };
        Ok(r)
    }
}

/// A constant that a constant-value attribute may refer to.
#[derive(Clone, Copy)]
pub enum JVal {
    Int(i32),
    /// The bit pattern of a 32-bit float.
    Float(u32),
    Long(i64),
    /// The bit pattern of a 64-bit float.
    Double(u64),
    Str(Index<Utf8>),
}

/// One decoded pool entry.
pub enum PoolItem {
    Empty,
    Utf8(JStr),
    Int(i32),
    Float(u32),
    Long(i64),
    Double(u64),
    Class(Index<Utf8>),
    String(Index<Utf8>),
    RefField(Index<ClassInfo>, Index<NameAndType>),
    RefMethod(Index<ClassInfo>, Index<NameAndType>),
    RefInterfaceMethod(Index<ClassInfo>, Index<NameAndType>),
    NameAndType(Index<Utf8>, Index<Utf8>),
    MethodHandle(RefKind),
    MethodType(Index<Utf8>),
    Dynamic(u16, Index<NameAndType>),
    InvokeDynamic(u16, Index<NameAndType>),
    Module(Index<Utf8>),
    Package(Index<Utf8>),
    Reserved,
}

impl View for PoolItem {
    type V = Entry;

    open spec fn view(&self) -> Entry {
        match self {
            PoolItem::Empty => Entry::Empty,
            PoolItem::Utf8(s) => Entry::Utf8(s@),
            PoolItem::Int(x) => Entry::Int(*x),
            PoolItem::Float(x) => Entry::Float(*x),
            PoolItem::Long(x) => Entry::Long(*x),
            PoolItem::Double(x) => Entry::Double(*x),
            PoolItem::Class(a) => Entry::Class(a@),
            PoolItem::String(a) => Entry::String(a@),
            PoolItem::RefField(a, b) => Entry::RefField(a@, b@),
            PoolItem::RefMethod(a, b) => Entry::RefMethod(a@, b@),
            PoolItem::RefInterfaceMethod(a, b) => Entry::RefInterfaceMethod(a@, b@),
            PoolItem::NameAndType(a, b) => Entry::NameAndType(a@, b@),
            PoolItem::MethodHandle(k) => Entry::MethodHandle(k@.0, k@.1),
            PoolItem::MethodType(a) => Entry::MethodType(a@),
            PoolItem::Dynamic(a, b) => Entry::Dynamic(*a, b@),
            PoolItem::InvokeDynamic(a, b) => Entry::InvokeDynamic(*a, b@),
            PoolItem::Module(a) => Entry::Module(a@),
            PoolItem::Package(a) => Entry::Package(a@),
            PoolItem::Reserved => Entry::Reserved,
        }
    }
}

/// Whether a tag is one that some format revision defines.
pub open spec fn known_tag(tag: u8) -> bool {
    tag == 1 || (3 <= tag <= 12) || (15 <= tag <= 20)
}

/// The first major version that allows a tag.
pub open spec fn tag_min_major(tag: u8) -> u16 {
    if tag == 17 {
        55
    } else if tag == 19 || tag == 20 {
        53
    } else if tag == 15 || tag == 16 || tag == 18 {
        51
    } else {
        0
    }
}

/// The number of bytes that follow the tag, for tags of fixed size.
pub open spec fn fixed_payload(tag: u8) -> int {
    if tag == 3 || tag == 4 || (9 <= tag <= 12) || tag == 17 || tag == 18 {
        4
    } else if tag == 5 || tag == 6 {
        8
    } else if tag == 15 {
        3
    } else {
        2
    }
}

/// The entry encoded at `p` (just after its tag) when all its bytes are there.
pub open spec fn spec_entry_body(data: Seq<u8>, p: int, tag: u8) -> Result<Entry, ClassError> {
    let a = spec_be16(data, p) as u16;
    let b = spec_be16(data, p + 2) as u16;
    if tag == 1 {
        Ok(Entry::Utf8(data.subrange(p + 2, p + 2 + spec_be16(data, p))))
    } else if tag == 3 {
        Ok(Entry::Int(spec_be32(data, p) as u32 as i32))
    } else if tag == 4 {
        Ok(Entry::Float(spec_be32(data, p) as u32))
    } else if tag == 5 {
        Ok(Entry::Long(spec_be64(data, p) as u64 as i64))
    } else if tag == 6 {
        Ok(Entry::Double(spec_be64(data, p) as u64))
    } else if tag == 15 {
        let kind = data[p];
        let idx = spec_be16(data, p + 1) as u16;
        if !(1 <= kind <= 9) {
            Err(ClassError::InvalidRefKind { kind })
        } else if idx == 0 {
            Err(ClassError::ZeroIndex)
        } else {
            Ok(Entry::MethodHandle(kind, idx))
        }
    } else if tag == 17 || tag == 18 {
        if b == 0 {
            Err(ClassError::ZeroIndex)
        } else if tag == 17 {
            Ok(Entry::Dynamic(a, b))
        } else {
            Ok(Entry::InvokeDynamic(a, b))
        }
    } else if 9 <= tag <= 12 {
        if a == 0 || b == 0 {
            Err(ClassError::ZeroIndex)
        } else if tag == 9 {
            Ok(Entry::RefField(a, b))
        } else if tag == 10 {
            Ok(Entry::RefMethod(a, b))
        } else if tag == 11 {
            Ok(Entry::RefInterfaceMethod(a, b))
        } else {
            Ok(Entry::NameAndType(a, b))
        }
    } else {
        if a == 0 {
            Err(ClassError::ZeroIndex)
        } else if tag == 7 {
            Ok(Entry::Class(a))
        } else if tag == 8 {
            Ok(Entry::String(a))
        } else if tag == 16 {
            Ok(Entry::MethodType(a))
        } else if tag == 19 {
            Ok(Entry::Module(a))
        } else {
            Ok(Entry::Package(a))
        }
    }
}

/// The number of bytes of the entry whose tag is at `p - 1`, when they can be
/// counted.
pub open spec fn spec_entry_size(data: Seq<u8>, p: int, tag: u8) -> Option<int> {
    if tag == 1 {
        if p + 2 <= data.len() {
            Some(2 + spec_be16(data, p))
        } else {
            None
        }
    } else {
        Some(fixed_payload(tag))
    }
}

/// The entry whose tag byte is at `pos`, in a container of major version
/// `major`, and the position just after it.
pub open spec fn spec_entry(data: Seq<u8>, pos: int, major: u16) -> Result<(Entry, int), ClassError> {
    if !(0 <= pos < data.len()) {
        Err(ClassError::Truncated { offset: pos as usize })
    } else {
        let tag = data[pos];
        let p = pos + 1;
        if !known_tag(tag) {
            Err(ClassError::InvalidTag { tag, major })
        } else if major < tag_min_major(tag) {
            Err(ClassError::TagIllegalForVersion { tag, major })
        } else {
            match spec_entry_size(data, p, tag) {
                Some(n) => if p + n <= data.len() {
                    match spec_entry_body(data, p, tag) {
                        Ok(e) => Ok((e, p + n)),
                        Err(x) => Err(x),
                    }
                } else {
                    Err(ClassError::Truncated { offset: pos as usize })
                },
                None => Err(ClassError::Truncated { offset: pos as usize }),
            }
        }
    }
}

/// The entries decoded from `pos` on, after those already in `acc`, until
/// the pool holds `count` slots. A long or a double takes two slots, so one
/// in the last declared slot would overrun the count: the pool is malformed.
pub open spec fn spec_pool_from(
    data: Seq<u8>,
    pos: int,
    major: u16,
    count: int,
    acc: Seq<Entry>,
) -> Result<(Seq<Entry>, int), ClassError>
    decreases count + 1 - acc.len(),
{
    if acc.len() >= count {
        Ok((acc, pos))
    } else {
        match spec_entry(data, pos, major) {
            Ok((e, next)) => if e.is_wide() && acc.len() + 2 > count {
                Err(ClassError::MalformedContainer)
            } else {
                let acc2 = if e.is_wide() {
                    acc.push(e).push(Entry::Reserved)
                } else {
                    acc.push(e)
                };
                spec_pool_from(data, next, major, count, acc2)
            },
            Err(x) => Err(x),
        }
    }
}

/// The pool whose first entry is at `pos`, declared with `count` (one more
/// than the number of slots that entries fill), and the position after it.
pub open spec fn spec_pool(data: Seq<u8>, pos: int, major: u16, count: u16) -> Result<(Seq<Entry>, int), ClassError> {
    spec_pool_from(data, pos, major, count as int, seq![Entry::Empty])
}

/// Decoding entries only moves forward, and never past the end.
pub proof fn lemma_pool_from_in_bounds(data: Seq<u8>, pos: int, major: u16, count: int, acc: Seq<Entry>)
    requires
        0 <= pos <= data.len(),
    ensures
        spec_pool_from(data, pos, major, count, acc) matches Ok((_, e)) ==> pos <= e <= data.len(),
    decreases count + 1 - acc.len(),
{
    if acc.len() < count {
        match spec_entry(data, pos, major) {
            Ok((e, next)) => if !(e.is_wide() && acc.len() + 2 > count) {
                let acc2 = if e.is_wide() {
                    acc.push(e).push(Entry::Reserved)
                } else {
                    acc.push(e)
                };
                lemma_entry_in_bounds(data, pos, major);
                lemma_pool_from_in_bounds(data, next, major, count, acc2);
            },
            Err(_) => {},
        }
    }
}

pub proof fn lemma_entry_in_bounds(data: Seq<u8>, pos: int, major: u16)
    ensures
        spec_entry(data, pos, major) matches Ok((_, next)) ==> pos < next <= data.len(),
{
    if 0 <= pos < data.len() {
        let p = pos + 1;
        if data[pos] == 1 && p + 2 <= data.len() {
            lemma_be16_bound(data, p);
        }
    }
}

/// A decoded pool ends inside the container.
pub proof fn lemma_pool_in_bounds(data: Seq<u8>, pos: int, major: u16, count: u16)
    requires
        0 <= pos <= data.len(),
    ensures
        spec_pool(data, pos, major, count) matches Ok((_, e)) ==> pos <= e <= data.len(),
{
    lemma_pool_from_in_bounds(data, pos, major, count as int, seq![Entry::Empty]);
}

/// Every wide entry is followed by a reserved slot.
pub open spec fn wide_entries_shadowed(entries: Seq<Entry>) -> bool {
    forall|j: int| 0 <= j < entries.len() && (#[trigger] entries[j]).is_wide() ==> j + 1 < entries.len() && entries[j + 1] == Entry::Reserved
}

proof fn lemma_pool_from_shadowed(data: Seq<u8>, pos: int, major: u16, count: int, acc: Seq<Entry>)
    requires
        wide_entries_shadowed(acc),
    ensures
        spec_pool_from(data, pos, major, count, acc) matches Ok((entries, _)) ==> wide_entries_shadowed(entries),
    decreases count + 1 - acc.len(),
{
    if acc.len() < count {
        match spec_entry(data, pos, major) {
            Ok((e, next)) => {
                let acc2 = if e.is_wide() {
                    acc.push(e).push(Entry::Reserved)
                } else {
                    acc.push(e)
                };
                assert(wide_entries_shadowed(acc2)) by {
                    assert forall|j: int| 0 <= j < acc2.len() && (#[trigger] acc2[j]).is_wide() implies j + 1 < acc2.len() && acc2[j + 1] == Entry::Reserved by {
                        if j < acc.len() {
                            assert(acc[j] == acc2[j]);
                        }
                    }
                }
                lemma_pool_from_shadowed(data, next, major, count, acc2);
            },
            Err(_) => {},
        }
    }
}

/// In every decoded pool, the slot after a long or a double is the reserved
/// placeholder, and resolving that slot fails in every category.
pub proof fn lemma_wide_entry_shadows_next<R: UseIndex>(data: Seq<u8>, pos: int, major: u16, count: u16, i: int)
    requires
        spec_pool(data, pos, major, count) matches Ok((entries, _)) && 0 <= i < entries.len() && entries[i].is_wide(),
        i + 1 <= 65535,
    ensures
        ({
            let entries = spec_pool(data, pos, major, count).unwrap().0;
            &&& i + 1 < entries.len()
            &&& entries[i + 1] == Entry::Reserved
            &&& spec_lookup_error::<R>(entries, (i + 1) as u16) is Some
        }),
{
    let empty = seq![Entry::Empty];
    assert(wide_entries_shadowed(empty)) by {
        assert forall|j: int| 0 <= j < empty.len() && (#[trigger] empty[j]).is_wide() implies j + 1 < empty.len() && empty[j + 1] == Entry::Reserved by {
            assert(empty[j] == Entry::Empty);
        }
    }
    lemma_pool_from_shadowed(data, pos, major, count as int, empty);
    R::lemma_rejects_placeholders();
}

proof fn lemma_pool_from_size(data: Seq<u8>, pos: int, major: u16, count: int, acc: Seq<Entry>)
    requires
        acc.len() >= 1,
    ensures
        spec_pool_from(data, pos, major, count, acc) matches Ok((entries, _)) ==> entries.len() == (if acc.len() >= count {
            acc.len() as int
        } else {
            count
        }) && entries[0] == acc[0],
    decreases count + 1 - acc.len(),
{
    if acc.len() < count {
        match spec_entry(data, pos, major) {
            Ok((e, next)) => if !(e.is_wide() && acc.len() + 2 > count) {
                let acc2 = if e.is_wide() {
                    acc.push(e).push(Entry::Reserved)
                } else {
                    acc.push(e)
                };
                assert(acc2[0] == acc[0]);
                lemma_pool_from_size(data, next, major, count, acc2);
            },
            Err(_) => {},
        }
    }
}

/// A decoded pool holds exactly its declared number of slots (at least
/// the placeholder), and its first slot is the placeholder.
pub proof fn lemma_pool_size(data: Seq<u8>, pos: int, major: u16, count: u16)
    ensures
        spec_pool(data, pos, major, count) matches Ok((entries, _)) ==> entries.len() == (if count == 0 {
            1
        } else {
            count as int
        }) && entries[0] == Entry::Empty,
{
    lemma_pool_from_size(data, pos, major, count as int, seq![Entry::Empty]);
}

pub open spec fn entries_of(items: Seq<PoolItem>) -> Seq<Entry> {
    items.map_values(|p: PoolItem| p@)
}

fn read_index<R>(data: &[u8], p: usize) -> (r: Option<Index<R>>)
    requires
        p + 2 <= data.len(),
    ensures
        spec_be16(data@, p as int) == 0 ==> r is None,
        spec_be16(data@, p as int) != 0 ==> (r matches Some(i) && i@ as int == spec_be16(data@, p as int)),
{
    Index::maybe(read_be16(data, p))
}

/// Decodes the entry whose tag byte is at `pos`; a UTF-8 entry keeps a view
/// into `buf` rather than a copy.
pub fn decode_entry(buf: &bytes::Bytes, pos: usize, major: u16) -> (r: Result<(PoolItem, usize), ClassError>)
    ensures
        match r {
            Ok((it, next)) => spec_entry(bytes_view(*buf), pos as int, major) == Ok::<(Entry, int), ClassError>((it@, next as int)),
            Err(x) => spec_entry(bytes_view(*buf), pos as int, major) == Err::<(Entry, int), ClassError>(x),
        },
{
    let data = bytes_as_slice(buf);
    if pos >= data.len() {
        return Err(ClassError::Truncated { offset: pos });
    }
    let tag = read_u8(data, pos);
    let p = pos + 1;
    if !(tag == 1 || (3 <= tag && tag <= 12) || (15 <= tag && tag <= 20)) {
        return Err(ClassError::InvalidTag { tag, major });
    }
    let min_major: u16 = if tag == 17 {
        55
    } else if tag == 19 || tag == 20 {
        53
    } else if tag == 15 || tag == 16 || tag == 18 {
        51
    } else {
        0
    };
    if major < min_major {
        return Err(ClassError::TagIllegalForVersion { tag, major });
    }
    let avail = data.len() - p;
    if tag == 1 {
        if avail < 2 {
            return Err(ClassError::Truncated { offset: pos });
        }
        let n = read_be16(data, p) as usize;
        if avail - 2 < n {
            return Err(ClassError::Truncated { offset: pos });
        }
        let s = JStr::from_bytes(bytes_slice(buf, p + 2, p + 2 + n));
        return Ok((PoolItem::Utf8(s), p + 2 + n));
    }
    let size: usize = if tag == 3 || tag == 4 || (9 <= tag && tag <= 12) || tag == 17 || tag == 18 {
        4
    } else if tag == 5 || tag == 6 {
        8
    } else if tag == 15 {
        3
    } else {
        2
    };
    if avail < size {
        return Err(ClassError::Truncated { offset: pos });
    }
    let next = p + size;
    proof {
        lemma_be16_bound(data@, p as int);
        if size >= 4 {
            lemma_be16_bound(data@, p as int + 2);
        }
    }
    let item = if tag == 3 {
        PoolItem::Int(read_be32(data, p) as i32)
    } else if tag == 4 {
        PoolItem::Float(read_be32(data, p))
    } else if tag == 5 {
        PoolItem::Long(read_be64(data, p) as i64)
    } else if tag == 6 {
        PoolItem::Double(read_be64(data, p))
    } else if tag == 15 {
        let kind = read_u8(data, p);
        proof {
            lemma_be16_bound(data@, p as int + 1);
        }
        let idx = read_be16(data, p + 1);
        match RefKind::from_parts(kind, idx) {
            Ok(k) => PoolItem::MethodHandle(k),
            Err(e) => return Err(e),
        }
    } else if tag == 17 || tag == 18 {
        let a = read_be16(data, p);
        let b = match read_index::<NameAndType>(data, p + 2) {
            Some(b) => b,
            None => return Err(ClassError::ZeroIndex),
        };
        if tag == 17 {
            PoolItem::Dynamic(a, b)
        } else {
            PoolItem::InvokeDynamic(a, b)
        }
    } else if 9 <= tag && tag <= 12 {
        let a = read_be16(data, p);
        let b = read_be16(data, p + 2);
        if a == 0 || b == 0 {
            return Err(ClassError::ZeroIndex);
        }
        if tag == 9 {
            PoolItem::RefField(Index::from_nonzero(a), Index::from_nonzero(b))
        } else if tag == 10 {
            PoolItem::RefMethod(Index::from_nonzero(a), Index::from_nonzero(b))
        } else if tag == 11 {
            PoolItem::RefInterfaceMethod(Index::from_nonzero(a), Index::from_nonzero(b))
        } else {
            PoolItem::NameAndType(Index::from_nonzero(a), Index::from_nonzero(b))
        }
    } else {
        let a = match read_index::<Utf8>(data, p) {
            Some(a) => a,
            None => return Err(ClassError::ZeroIndex),
        };
        if tag == 7 {
            PoolItem::Class(a)
        } else if tag == 8 {
            PoolItem::String(a)
        } else if tag == 16 {
            PoolItem::MethodType(a)
        } else if tag == 19 {
            PoolItem::Module(a)
        } else {
            PoolItem::Package(a)
        }
    };
    Ok((item, next))
}

/// Decodes a pool of `count` declared slots whose first entry is at `pos`.
/// A long or a double is followed by a reserved slot.
pub fn decode_pool(buf: &bytes::Bytes, pos: usize, major: u16, count: u16) -> (r: Result<(ClassPool, usize), ClassError>)
    ensures
        match r {
            Ok((pool, next)) => spec_pool(bytes_view(*buf), pos as int, major, count) == Ok::<(Seq<Entry>, int), ClassError>((pool@, next as int)),
            Err(x) => spec_pool(bytes_view(*buf), pos as int, major, count) == Err::<(Seq<Entry>, int), ClassError>(x),
        },
        r matches Ok((pool, _)) ==> pool@.len() == (if count == 0 { 1 } else { count as int }) && pool@[0] == Entry::Empty,
{
    let ghost data = bytes_view(*buf);
    let mut items: Vec<PoolItem> = Vec::new();
    items.push(PoolItem::Empty);
    assert(entries_of(items@) =~= seq![Entry::Empty]);
    let mut p = pos;
    while items.len() < count as usize
        invariant
            1 <= items@.len() <= count as int + 1,
            data == bytes_view(*buf),
            spec_pool(data, pos as int, major, count) == spec_pool_from(data, p as int, major, count as int, entries_of(items@)),
        decreases count as int + 1 - items@.len(),
    {
        match decode_entry(buf, p, major) {
            Ok((it, next)) => {
                let wide = match it {
                    PoolItem::Long(_) => true,
                    PoolItem::Double(_) => true,
                    _ => false,
                };
                if wide && items.len() + 2 > count as usize {
                    return Err(ClassError::MalformedContainer);
                }
                let ghost e = it@;
                let ghost before = entries_of(items@);
                items.push(it);
                assert(entries_of(items@) =~= before.push(e));
                if wide {
                    items.push(PoolItem::Reserved);
                    assert(entries_of(items@) =~= before.push(e).push(Entry::Reserved));
                }
                p = next;
            },
            Err(e) => {
                return Err(e);
            },
        }
    }
    proof {
        lemma_pool_size(data, pos as int, major, count);
        assert(entries_of(items@)[0] == Entry::Empty);
    }
    Ok((ClassPool(Arc::new(items)), p))
}

/// The decoded pool of a container, shared by every reader and iterator
/// derived from it.
pub struct ClassPool(Arc<Vec<PoolItem>>);

impl View for ClassPool {
    type V = Seq<Entry>;

    closed spec fn view(&self) -> Seq<Entry> {
        entries_of(self.0@)
    }
}

/// The entries of the category `U`, in pool order.
pub open spec fn of_category<U: UseIndex>(entries: Seq<Entry>) -> Seq<Entry> {
    entries.filter(|e: Entry| U::accepts(e))
}

/// Why a lookup of `index` in the category `R` fails, if it does.
pub open spec fn spec_lookup_error<R: UseIndex>(entries: Seq<Entry>, index: u16) -> Option<ClassError> {
    if index as int >= entries.len() {
        Some(ClassError::PoolIndexOutOfRange { index })
    } else if !R::accepts(entries[index as int]) {
        Some(ClassError::PoolCategoryMismatch { expected: R::spec_category(), found: entries[index as int].tag() })
    } else {
        None
    }
}

/// The name that a type-reference index leads to: the type-reference entry,
/// then the UTF-8 entry that it points at.
pub open spec fn spec_type_name(entries: Seq<Entry>, raw: u16) -> Result<Seq<u8>, ClassError> {
    if raw == 0 {
        Err(ClassError::ZeroIndex)
    } else {
        match spec_lookup_error::<ClassInfo>(entries, raw) {
            Some(e) => Err(e),
            None => match entries[raw as int] {
                Entry::Class(u) => match spec_lookup_error::<Utf8>(entries, u) {
                    Some(e) => Err(e),
                    None => match entries[u as int] {
                        Entry::Utf8(s) => Ok(s),
                        _ => Err(ClassError::ZeroIndex),
                    },
                },
                _ => Err(ClassError::ZeroIndex),
            },
        }
    }
}

impl ClassPool {
    /// A pool holds the placeholder in slot zero, and no more slots than a
    /// 16-bit count can declare.
    #[verifier::type_invariant]
    spec fn inv(self) -> bool {
        &&& 1 <= entries_of(self.0@).len() <= 65535
        &&& entries_of(self.0@)[0] == Entry::Empty
    }

    /// Resolves a type-reference index to the type's name.
    pub fn class_name_at(&self, raw: u16) -> (r: Result<JStr, ClassError>)
        ensures
            match r {
                Ok(s) => spec_type_name(self@, raw) == Ok::<Seq<u8>, ClassError>(s@),
                Err(e) => spec_type_name(self@, raw) == Err::<Seq<u8>, ClassError>(e),
            },
    {
        let u = match self.get_::<ClassInfo>(raw) {
            Ok(u) => u,
            Err(e) => return Err(e),
        };
        self.get(u)
    }

    /// A handle on the same pool; nothing is copied.
    pub fn share(&self) -> (r: ClassPool)
        ensures
            r@ == self@,
    {
        proof {
            use_type_invariant(self);
        }
        ClassPool(self.0.clone())
    }

    /// The number of slots, slot zero included; slot zero is always the
    /// placeholder.
    pub fn len(&self) -> (r: usize)
        ensures
            r == self@.len(),
            1 <= r <= 65535,
            self@[0] == Entry::Empty,
    {
        proof {
            use_type_invariant(self);
        }
        self.0.len()
    }

    /// The entry in slot `i`.
    pub fn item(&self, i: usize) -> (r: &PoolItem)
        requires
            i < self@.len(),
        ensures
            r@ == self@[i as int],
    {
        &self.0[i]
    }

    /// Resolves a typed index: it must be in range and its entry must belong
    /// to the category `R`.
    pub fn get<R: UseIndex>(&self, idx: Index<R>) -> (r: Result<R::Out, ClassError>)
        ensures
            match r {
                Ok(o) => spec_lookup_error::<R>(self@, idx@) is None && R::yields(self@[idx@ as int], o),
                Err(e) => spec_lookup_error::<R>(self@, idx@) == Some(e),
            },
    {
        let i = idx.get();
        if i as usize >= self.0.len() {
            return Err(ClassError::PoolIndexOutOfRange { index: i });
        }
        let item = &self.0[i as usize];
        match R::at(item) {
            Some(o) => Ok(o),
            None => Err(ClassError::PoolCategoryMismatch { expected: R::category(), found: item_tag(item) }),
        }
    }

    /// Resolves a raw index, which must not be zero.
    pub fn get_<R: UseIndex>(&self, idx: u16) -> (r: Result<R::Out, ClassError>)
        ensures
            idx == 0 ==> r == Err::<R::Out, ClassError>(ClassError::ZeroIndex),
            idx != 0 ==> match r {
                Ok(o) => spec_lookup_error::<R>(self@, idx) is None && R::yields(self@[idx as int], o),
                Err(e) => spec_lookup_error::<R>(self@, idx) == Some(e),
            },
    {
        match Index::<R>::maybe(idx) {
            Some(i) => self.get(i),
            None => Err(ClassError::ZeroIndex),
        }
    }

    /// The first UTF-8 entry that holds exactly the bytes of `s`.
    pub fn str_to_index(&self, s: &str) -> (r: Option<Index<Utf8>>)
        ensures
            match r {
                Some(i) => i@ < self@.len() && self@[i@ as int] == Entry::Utf8(s.spec_bytes())
                    && forall|j: int| 0 <= j < i@ ==> self@[j] != Entry::Utf8(s.spec_bytes()),
                None => forall|j: int| 0 <= j < self@.len() ==> self@[j] != Entry::Utf8(s.spec_bytes()),
            },
    {
        let b = s.as_bytes();
        let n = self.len();
        let mut i: usize = 1;
        while i < n
            invariant
                1 <= i,
                n == self@.len(),
                n <= 65535,
                self@[0] == Entry::Empty,
                b@ == s.spec_bytes(),
                forall|j: int| 0 <= j < i ==> self@[j] != Entry::Utf8(s.spec_bytes()),
            decreases n - i,
        {
            match &self.0[i] {
                PoolItem::Utf8(x) => {
                    if crate::buf::bytes_eq(x.as_slice(), b) {
                        return Some(Index::from_nonzero(i as u16));
                    }
                },
                _ => {},
            }
            i = i + 1;
        }
        None
    }

    /// Every entry of the category `U`, in pool order, as a lookup would
    /// yield it.
    pub fn by_type<U: UseIndex>(&self) -> (r: Vec<U::Out>)
        ensures
            r@.len() == of_category::<U>(self@).len(),
            forall|k: int| 0 <= k < r@.len() ==> U::yields(of_category::<U>(self@)[k], #[trigger] r@[k]),
    {
        let mut out: Vec<U::Out> = Vec::new();
        let n = self.0.len();
        let mut i: usize = 0;
        let ghost pred = |e: Entry| U::accepts(e);
        while i < n
            invariant
                i <= n,
                n == self@.len(),
                pred == (|e: Entry| U::accepts(e)),
                out@.len() == self@.subrange(0, i as int).filter(pred).len(),
                forall|k: int| 0 <= k < out@.len() ==> U::yields(#[trigger] self@.subrange(0, i as int).filter(pred)[k], out@[k]),
            decreases n - i,
        {
            let ghost old_out = out@;
            assert(self@.subrange(0, i as int + 1).drop_last() =~= self@.subrange(0, i as int));
            reveal_with_fuel(Seq::filter, 1);
            match U::at(&self.0[i]) {
                Some(o) => {
                    out.push(o);
                },
                None => {},
            }
            i = i + 1;
            assert forall|k: int| 0 <= k < out@.len() implies U::yields(#[trigger] self@.subrange(0, i as int).filter(pred)[k], out@[k]) by {
                if k < old_out.len() {
                    assert(out@[k] == old_out[k]);
                }
            }
        }
        assert(self@.subrange(0, n as int) =~= self@);
        assert(forall|k: int| 0 <= k < out@.len() ==> U::yields(of_category::<U>(self@)[k], #[trigger] out@[k]));
        out
    }
}

fn item_tag(item: &PoolItem) -> (r: u8)
    ensures
        r == item@.tag(),
{
    match item {
        PoolItem::Empty => 0,
        PoolItem::Utf8(_) => 1,
        PoolItem::Int(_) => 3,
        PoolItem::Float(_) => 4,
        PoolItem::Long(_) => 5,
        PoolItem::Double(_) => 6,
        PoolItem::Class(_) => 7,
        PoolItem::String(_) => 8,
        PoolItem::RefField(_, _) => 9,
        PoolItem::RefMethod(_, _) => 10,
        PoolItem::RefInterfaceMethod(_, _) => 11,
        PoolItem::NameAndType(_, _) => 12,
        PoolItem::MethodHandle(_) => 15,
        PoolItem::MethodType(_) => 16,
        PoolItem::Dynamic(_, _) => 17,
        PoolItem::InvokeDynamic(_, _) => 18,
        PoolItem::Module(_) => 19,
        PoolItem::Package(_) => 20,
        PoolItem::Reserved => 0,
    }
}

} // verus!
