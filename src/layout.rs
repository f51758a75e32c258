use vstd::prelude::*;

use crate::be::{read_be16, read_be32, spec_be16, spec_be32};

verus! {

/// An optional position, as an integer.
pub open spec fn opt_int(r: Option<usize>) -> Option<int> {
    match r {
        Some(e) => Some(e as int),
        None => None,
    }
}

/// Where `n` attribute records that start at `pos` end: each is a name index
/// (2 bytes), a length (4 bytes) and that many payload bytes.
pub open spec fn spec_attrs_end(data: Seq<u8>, pos: int, n: nat) -> Option<int>
    decreases n,
{
    if n == 0 {
        Some(pos)
    } else if 0 <= pos && pos + 6 <= data.len() {
        let end = pos + 6 + spec_be32(data, pos + 2);
        if end <= data.len() {
            spec_attrs_end(data, end, (n - 1) as nat)
        } else {
            None
        }
    } else {
        None
    }
}

/// Where `n` member records that start at `pos` end: each is flags, name
/// index, descriptor index and attribute count (2 bytes each), then that many
/// attribute records.
pub open spec fn spec_members_end(data: Seq<u8>, pos: int, n: nat) -> Option<int>
    decreases n,
{
    if n == 0 {
        Some(pos)
    } else if 0 <= pos && pos + 8 <= data.len() {
        match spec_attrs_end(data, pos + 8, spec_be16(data, pos + 6) as nat) {
            Some(e) => spec_members_end(data, e, (n - 1) as nat),
            None => None,
        }
    } else {
        None
    }
}

/// Where a counted list of attributes that starts at `pos` ends.
pub open spec fn spec_attr_list_end(data: Seq<u8>, pos: int) -> Option<int> {
    if 0 <= pos && pos + 2 <= data.len() {
        spec_attrs_end(data, pos + 2, spec_be16(data, pos) as nat)
    } else {
        None
    }
}

/// Where a counted list of members that starts at `pos` ends.
pub open spec fn spec_member_list_end(data: Seq<u8>, pos: int) -> Option<int> {
    if 0 <= pos && pos + 2 <= data.len() {
        spec_members_end(data, pos + 2, spec_be16(data, pos) as nat)
    } else {
        None
    }
}

/// Where a counted list of 2-byte interface indices that starts at `pos` ends.
pub open spec fn spec_interface_list_end(data: Seq<u8>, pos: int) -> Option<int> {
    if 0 <= pos && pos + 2 <= data.len() && pos + 2 + 2 * spec_be16(data, pos) <= data.len() {
        Some(pos + 2 + 2 * spec_be16(data, pos))
    } else {
        None
    }
}

pub proof fn lemma_attrs_end_grows(data: Seq<u8>, pos: int, n: nat)
    ensures
        spec_attrs_end(data, pos, n) matches Some(e) ==> pos <= e <= if n == 0 { pos } else { data.len() as int },
    decreases n,
{
    if n > 0 && 0 <= pos && pos + 6 <= data.len() {
        let end = pos + 6 + spec_be32(data, pos + 2);
        crate::be::lemma_be32_bound(data, pos + 2);
        if end <= data.len() {
            lemma_attrs_end_grows(data, end, (n - 1) as nat);
        }
    }
}

pub proof fn lemma_members_end_grows(data: Seq<u8>, pos: int, n: nat)
    ensures
        spec_members_end(data, pos, n) matches Some(e) ==> pos <= e <= if n == 0 { pos } else { data.len() as int },
    decreases n,
{
    if n > 0 && 0 <= pos && pos + 8 <= data.len() {
        lemma_attrs_end_grows(data, pos + 8, spec_be16(data, pos + 6) as nat);
        match spec_attrs_end(data, pos + 8, spec_be16(data, pos + 6) as nat) {
            Some(e) => lemma_members_end_grows(data, e, (n - 1) as nat),
            None => {},
        }
    }
}

/// Attribute records keep their layout in any window of the buffer that
/// holds them.
pub proof fn lemma_attrs_end_window(data: Seq<u8>, lo: int, hi: int, pos: int, n: nat)
    requires
        0 <= lo <= pos,
        hi <= data.len(),
        spec_attrs_end(data, pos, n) matches Some(e) && e <= hi,
    ensures
        spec_attrs_end(data.subrange(lo, hi), pos - lo, n) == Some(spec_attrs_end(data, pos, n).unwrap() - lo),
    decreases n,
{
    let sub = data.subrange(lo, hi);
    lemma_attrs_end_grows(data, pos, n);
    if n > 0 {
        let end = pos + 6 + spec_be32(data, pos + 2);
        crate::be::lemma_be32_bound(data, pos + 2);
        lemma_attrs_end_grows(data, end, (n - 1) as nat);
        assert(spec_be32(sub, pos - lo + 2) == spec_be32(data, pos + 2));
        lemma_attrs_end_window(data, lo, hi, end, (n - 1) as nat);
    }
}

/// Member records keep their layout in any window of the buffer that holds
/// them.
pub proof fn lemma_members_end_window(data: Seq<u8>, lo: int, hi: int, pos: int, n: nat)
    requires
        0 <= lo <= pos,
        hi <= data.len(),
        spec_members_end(data, pos, n) matches Some(e) && e <= hi,
    ensures
        spec_members_end(data.subrange(lo, hi), pos - lo, n) == Some(spec_members_end(data, pos, n).unwrap() - lo),
    decreases n,
{
    let sub = data.subrange(lo, hi);
    lemma_members_end_grows(data, pos, n);
    if n > 0 {
        let ac = spec_be16(data, pos + 6) as nat;
        let e = spec_attrs_end(data, pos + 8, ac).unwrap();
        lemma_attrs_end_grows(data, pos + 8, ac);
        lemma_members_end_grows(data, e, (n - 1) as nat);
        assert(spec_be16(sub, pos - lo + 6) == spec_be16(data, pos + 6));
        lemma_attrs_end_window(data, lo, hi, pos + 8, ac);
        lemma_members_end_window(data, lo, hi, e, (n - 1) as nat);
    }
}

/// Measures `n` attribute records from `pos` without interpreting them.
pub fn attrs_end(data: &[u8], pos: usize, n: u16) -> (r: Option<usize>)
    requires
        pos <= data.len(),
    ensures
        opt_int(r) == spec_attrs_end(data@, pos as int, n as nat),
{
    let mut p = pos;
    let mut i: u16 = 0;
    while i < n
        invariant
            i <= n,
            p <= data.len(),
            spec_attrs_end(data@, pos as int, n as nat) == spec_attrs_end(data@, p as int, (n - i) as nat),
        decreases n - i,
    {
        if data.len() - p < 6 {
            return None;
        }
        let l = read_be32(data, p + 2) as usize;
        if data.len() - (p + 6) < l {
            return None;
        }
        p = p + 6 + l;
        i = i + 1;
    }
    Some(p)
}

/// Measures `n` member records from `pos` without interpreting them.
pub fn members_end(data: &[u8], pos: usize, n: u16) -> (r: Option<usize>)
    requires
        pos <= data.len(),
    ensures
        opt_int(r) == spec_members_end(data@, pos as int, n as nat),
{
    let mut p = pos;
    let mut i: u16 = 0;
    while i < n
        invariant
            i <= n,
            p <= data.len(),
            spec_members_end(data@, pos as int, n as nat) == spec_members_end(data@, p as int, (n - i) as nat),
        decreases n - i,
    {
        if data.len() - p < 8 {
            return None;
        }
        let ac = read_be16(data, p + 6);
        proof {
            lemma_attrs_end_grows(data@, p as int + 8, ac as nat);
        }
        match attrs_end(data, p + 8, ac) {
            Some(e) => {
                p = e;
            },
            None => {
                return None;
            },
        }
        i = i + 1;
    }
    Some(p)
}

/// Measures a counted list of attributes at `pos`.
pub fn attr_list_end(data: &[u8], pos: usize) -> (r: Option<usize>)
    requires
        pos <= data.len(),
    ensures
        opt_int(r) == spec_attr_list_end(data@, pos as int),
{
    if data.len() - pos < 2 {
        return None;
    }
    let n = read_be16(data, pos);
    attrs_end(data, pos + 2, n)
}

/// Measures a counted list of members at `pos`.
pub fn member_list_end(data: &[u8], pos: usize) -> (r: Option<usize>)
    requires
        pos <= data.len(),
    ensures
        opt_int(r) == spec_member_list_end(data@, pos as int),
{
    if data.len() - pos < 2 {
        return None;
    }
    let n = read_be16(data, pos);
    members_end(data, pos + 2, n)
}

/// Measures a counted list of interface indices at `pos`.
pub fn interface_list_end(data: &[u8], pos: usize) -> (r: Option<usize>)
    requires
        pos <= data.len(),
    ensures
        opt_int(r) == spec_interface_list_end(data@, pos as int),
{
    if data.len() - pos < 2 {
        return None;
    }
    let n = read_be16(data, pos) as usize;
    if (data.len() - pos - 2) / 2 < n {
        return None;
    }
    Some(pos + 2 + 2 * n)
}

} // verus!
