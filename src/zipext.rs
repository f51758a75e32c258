use vstd::prelude::*;
use vstd::utf8::{decode_utf8, valid_utf8};

verus! {

/// What the raw deflate stream `raw` decodes to, cut to its first `n` bytes;
/// `None` where it does not decode to that many.
pub uninterp spec fn inflate_prefix_of(raw: Seq<u8>, n: nat) -> Option<Seq<u8>>;

/// Relies on `flate2::read::DeflateDecoder` read through
/// `std::io::Read::read_exact`: the first `n` bytes that the raw deflate
/// stream decodes to, or an error where it ends early or is corrupt. The
/// buffer of `n` bytes cannot exceed `isize::MAX`.
#[verifier::external_body]
fn inflate_prefix(raw: &[u8], n: usize) -> (r: Option<Vec<u8>>)
    requires
        n <= isize::MAX,
    ensures
        match r {
            Some(v) => inflate_prefix_of(raw@, n as nat) == Some(v@) && v@.len() == n,
            None => inflate_prefix_of(raw@, n as nat) is None,
        },
{
    let mut buf = vec![0u8; n];
    let mut dec = flate2::read::DeflateDecoder::new(raw);
    match std::io::Read::read_exact(&mut dec, &mut buf) {
        Ok(()) => Some(buf),
        Err(_) => None,
    }
}

/// Relies on `String::from_utf8`: it succeeds exactly on valid UTF-8, and the
/// string then holds the decoded characters.
#[verifier::external_body]
fn utf8_string(v: Vec<u8>) -> (r: Option<String>)
    ensures
        r is Some <==> valid_utf8(v@),
        r matches Some(s) ==> s@ == decode_utf8(v@),
{
    String::from_utf8(v).ok()
}

/// Why an archive member could not be read.
#[derive(PartialEq, Eq, Structural, Clone, Copy, Debug)]
pub enum FileError {
    /// The member is stored with a method other than store or deflate.
    BadCompression,
    /// The archive ends before the member's bytes do.
    Truncated,
    /// The deflate stream does not decode to the member's size.
    Corrupt,
    /// The member is larger than a buffer can be.
    TooLarge,
    /// The member's bytes are not UTF-8.
    NotUtf8,
}

/// Where an archive member lies and how it is stored.
pub struct FileEntry {
    len: u64,
    comp_len: u64,
    start: u64,
    /// Deflated, stored, or (`None`) another method.
    comp: Option<bool>,
}

/// The bytes of `archive` from `start` on, at most `n` of them.
pub open spec fn spec_window(archive: Seq<u8>, start: int, n: int) -> Seq<u8> {
    let lo = if start < archive.len() { start } else { archive.len() as int };
    let hi = if start + n < archive.len() { start + n } else { archive.len() as int };
    archive.subrange(lo, hi)
}

impl FileEntry {
    pub closed spec fn len_view(&self) -> u64 {
        self.len
    }

    pub closed spec fn comp_len_view(&self) -> u64 {
        self.comp_len
    }

    pub closed spec fn start_view(&self) -> u64 {
        self.start
    }

    pub closed spec fn comp_view(&self) -> Option<bool> {
        self.comp
    }

    /// An entry of `len` bytes, stored in `comp_len` bytes from `start` on.
    pub fn new(len: u64, comp_len: u64, start: u64, comp: Option<bool>) -> (r: FileEntry)
        ensures
            r.len_view() == len,
            r.comp_len_view() == comp_len,
            r.start_view() == start,
            r.comp_view() == comp,
    {
        FileEntry { len, comp_len, start, comp }
    }

    /// The uncompressed size.
    pub fn size(&self) -> (r: u64)
        ensures
            r == self.len_view(),
    {
        self.len
    }

    /// The compressed size.
    pub fn compressed(&self) -> (r: u64)
        ensures
            r == self.comp_len_view(),
    {
        self.comp_len
    }

    /// What `vec_from` reads out of `archive`.
    pub open spec fn spec_vec_from(&self, archive: Seq<u8>) -> Result<Seq<u8>, FileError> {
        let raw = spec_window(archive, self.start_view() as int, self.comp_len_view() as int);
        let n = self.len_view() as int;
        match self.comp_view() {
            None => Err(FileError::BadCompression),
            Some(false) => if raw.len() >= n {
                Ok(raw.subrange(0, n))
            } else {
                Err(FileError::Truncated)
            },
            Some(true) => if n > isize::MAX {
                Err(FileError::TooLarge)
            } else {
                match inflate_prefix_of(raw, n as nat) {
                    Some(v) => Ok(v),
                    None => Err(FileError::Corrupt),
                }
            },
        }
    }

    /// Reads the member's bytes out of the whole archive in `archive`,
    /// inflating them where they are deflated.
    pub fn vec_from(&self, archive: &[u8]) -> (r: Result<Vec<u8>, FileError>)
        ensures
            match r {
                Ok(v) => self.spec_vec_from(archive@) == Ok::<Seq<u8>, FileError>(v@),
                Err(e) => self.spec_vec_from(archive@) == Err::<Seq<u8>, FileError>(e),
            },
            r matches Ok(v) ==> v@.len() == self.len_view(),
    {
        let deflated = match self.comp {
            None => return Err(FileError::BadCompression),
            Some(x) => x,
        };
        let alen = archive.len();
        let lo: usize = if (self.start as u128) < (alen as u128) { self.start as usize } else { alen };
        let hi: usize = if (self.start as u128) + (self.comp_len as u128) < (alen as u128) {
            (self.start + self.comp_len) as usize
        } else {
            alen
        };
        let raw = slice_range(archive, lo, hi);
        if !deflated {
            if (raw.len() as u128) < (self.len as u128) {
                return Err(FileError::Truncated);
            }
            let out = copy_prefix(raw, self.len as usize);
            return Ok(out);
        }
        if (self.len as u128) > (isize::MAX as u128) {
            return Err(FileError::TooLarge);
        }
        match inflate_prefix(raw, self.len as usize) {
            Some(v) => Ok(v),
            None => Err(FileError::Corrupt),
        }
    }

    /// Reads the member as text: its bytes, which must be UTF-8.
    pub fn string_from(&self, archive: &[u8]) -> (r: Result<String, FileError>)
        ensures
            match self.spec_vec_from(archive@) {
                Ok(b) => if valid_utf8(b) {
                    r matches Ok(s) && s@ == decode_utf8(b)
                } else {
                    r == Err::<String, FileError>(FileError::NotUtf8)
                },
                Err(e) => r == Err::<String, FileError>(e),
            },
    {
        match self.vec_from(archive) {
            Ok(v) => match utf8_string(v) {
                Some(s) => Ok(s),
                None => Err(FileError::NotUtf8),
            },
            Err(e) => Err(e),
        }
    }
}

fn slice_range(a: &[u8], lo: usize, hi: usize) -> (r: &[u8])
    requires
        lo <= hi <= a@.len(),
    ensures
        r@ == a@.subrange(lo as int, hi as int),
{
    vstd::slice::slice_subrange(a, lo, hi)
}

fn copy_prefix(a: &[u8], n: usize) -> (r: Vec<u8>)
    requires
        n <= a@.len(),
    ensures
        r@ == a@.subrange(0, n as int),
{
    let mut v: Vec<u8> = Vec::new();
    let mut i: usize = 0;
    while i < n
        invariant
            i <= n <= a@.len(),
            v@ == a@.subrange(0, i as int),
        decreases n - i,
    {
        v.push(a[i]);
        i = i + 1;
        assert(v@ =~= a@.subrange(0, i as int));
    }
    v
}

} // verus!
