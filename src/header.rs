//! The container header in front of a payload: a type marker, four reserved
//! bytes, a NUL-terminated name, the original size (compressed files only)
//! and one terminator byte.
use vstd::prelude::*;

verus! {

/// Type marker of a file whose payload is a compressed bitstream.
pub const COMPRESSED_MARKER: u8 = 0xA4;

/// Type marker of a file whose payload is stored as it is.
pub const RAW_MARKER: u8 = 0x24;

/// Offset of the name: after the marker and four reserved bytes.
pub const NAME_START: usize = 5;

/// Why a header could not be read.
#[derive(Debug, Clone, Copy, PartialEq, Eq, Structural)]
pub enum HeaderError {
    /// The data ends before the header does.
    Truncated,
    /// The name is not valid text.
    InvalidName,
}

/// What the header of a file says.
#[derive(Debug)]
pub struct Fileheader {
    /// The payload is a compressed bitstream.
    pub compressed: bool,
    /// Size of the payload once decompressed; for a raw file, the file's length.
    pub original_size: u32,
    /// The name stored in the header.
    pub save_name: String,
    /// Offset just past the name and, for a compressed file, the size field.
    pub header_end: u64,
}

/// Index of the first NUL byte at or after `from`, or the length if none.
pub open spec fn nul_from(data: Seq<u8>, from: nat) -> nat
    decreases data.len() - from,
{
    if from >= data.len() {
        data.len()
    } else if data[from as int] == 0 {
        from
    } else {
        nul_from(data, from + 1)
    }
}

/// Little-endian value of the four bytes at `at`.
pub open spec fn le_u32(data: Seq<u8>, at: int) -> nat {
    data[at] as nat + 256 * (data[at + 1] as nat) + 65536 * (data[at + 2] as nat) + 16777216 * (
    data[at + 3] as nat)
}

/// The four little-endian bytes of `v`.
pub open spec fn le_bytes(v: u32) -> Seq<u8> {
    seq![
        (v % 256) as u8,
        ((v / 256) % 256) as u8,
        ((v / 65536) % 256) as u8,
        (v / 16777216) as u8,
    ]
}

pub open spec fn is_ascii(b: Seq<u8>) -> bool {
    forall|i: int| 0 <= i < b.len() ==> #[trigger] b[i] < 128
}

/// `s` holds, one for one, the characters whose codes are the bytes `b`.
pub open spec fn chars_of_bytes(s: Seq<char>, b: Seq<u8>) -> bool {
    s.len() == b.len() && forall|i: int| 0 <= i < b.len() ==> #[trigger] s[i] as u32 == b[i] as u32
}

/// The characters that `b` decodes to as UTF-8, or `None` where `b` is not
/// valid UTF-8.
pub uninterp spec fn utf8_text(b: Seq<u8>) -> Option<Seq<char>>;

/// Relies on `String::from_utf8`: it succeeds exactly on valid UTF-8, with the
/// characters the bytes encode; ASCII is valid UTF-8 whose characters have the
/// bytes' codes.
#[verifier::external_body]
fn text_from_bytes(bytes: Vec<u8>) -> (r: Option<String>)
    ensures
        match r {
            Some(s) => utf8_text(bytes@) == Some(s@),
            None => utf8_text(bytes@) is None,
        },
        is_ascii(bytes@) ==> r is Some && chars_of_bytes(r->Some_0@, bytes@),
{
    String::from_utf8(bytes).ok()
}

/// Where the name ends in a header, given the data begins with one.
pub open spec fn name_end(data: Seq<u8>) -> nat {
    nul_from(data, NAME_START as nat)
}

/// Offset just past the name's NUL and, for a compressed file, the size field.
pub open spec fn header_end_of(data: Seq<u8>) -> nat {
    if data[0] == COMPRESSED_MARKER {
        name_end(data) + 5
    } else {
        name_end(data) + 1
    }
}

/// The data holds a whole header: marker, reserved bytes, a NUL-terminated
/// name, the size field if compressed, and the terminator byte.
pub open spec fn header_complete(data: Seq<u8>) -> bool {
    data.len() >= NAME_START && name_end(data) < data.len() && header_end_of(data) < data.len()
}

proof fn lemma_nul_from_bound(data: Seq<u8>, from: nat)
    ensures
        from <= data.len() ==> from <= nul_from(data, from) <= data.len(),
        nul_from(data, from) < data.len() ==> data[nul_from(data, from) as int] == 0,
    decreases data.len() - from,
{
    if from < data.len() && data[from as int] != 0 {
        lemma_nul_from_bound(data, from + 1);
    }
}

impl Fileheader {
    /// Reads the header at the start of `data`, the whole file.
    ///
    /// The original size comes from the size field of a compressed file, and
    /// is the file's length (modulo 2^32) for a raw one.
    pub fn parse(data: &[u8]) -> (r: Result<Fileheader, HeaderError>)
        ensures
            data@.len() < NAME_START || name_end(data@) >= data@.len() ==> r matches Err(
                HeaderError::Truncated,
            ),
            data@.len() >= NAME_START && name_end(data@) < data@.len() ==> {
                let name = data@.subrange(NAME_START as int, name_end(data@) as int);
                &&& utf8_text(name) is None ==> (r is Err && r->Err_0 == HeaderError::InvalidName)
                &&& utf8_text(name) is Some && !header_complete(data@) ==> (r is Err && r->Err_0
                    == HeaderError::Truncated)
                &&& utf8_text(name) is Some && header_complete(data@) ==> r is Ok
                &&& r is Ok ==> Some(r->Ok_0.save_name@) == utf8_text(name)
                &&& r is Ok && is_ascii(name) ==> chars_of_bytes(r->Ok_0.save_name@, name)
            },
            r matches Ok(h) ==> {
                &&& h.compressed == (data@[0] == COMPRESSED_MARKER)
                &&& h.header_end == header_end_of(data@)
                &&& h.original_size == if h.compressed {
                    le_u32(data@, name_end(data@) + 1int)
                } else {
                    data@.len() % 0x1_0000_0000
                }
            },
    {
        let n = data.len();
        if n < NAME_START {
            return Err(HeaderError::Truncated);
        }
        let compressed = data[0] == COMPRESSED_MARKER;
        let mut i: usize = NAME_START;
        let mut name: Vec<u8> = Vec::new();
        while i < n && data[i] != 0
            invariant
                n == data@.len(),
                NAME_START <= i <= n,
                nul_from(data@, i as nat) == name_end(data@),
                name@ == data@.subrange(NAME_START as int, i as int),
            decreases n - i,
        {
            name.push(data[i]);
            i = i + 1;
            assert(name@ =~= data@.subrange(NAME_START as int, i as int));
        }
        proof {
            lemma_nul_from_bound(data@, NAME_START as nat);
        }
        if i >= n {
            return Err(HeaderError::Truncated);
        }
        let save_name = match text_from_bytes(name) {
            Some(s) => s,
            None => {
                return Err(HeaderError::InvalidName);
            },
        };
        let pos = i + 1;
        let header_end = if compressed {
            if n - pos < 4 {
                return Err(HeaderError::Truncated);
            }
            pos + 4
        } else {
            pos
        };
        if header_end >= n {
            return Err(HeaderError::Truncated);
        }
        let original_size: u32 = if compressed {
            data[pos] as u32 + 256 * (data[pos + 1] as u32) + 65536 * (data[pos + 2] as u32)
                + 16777216 * (data[pos + 3] as u32)
        } else {
            (n as u64 % 0x1_0000_0000) as u32
        };
        Ok(Fileheader { compressed, original_size, save_name, header_end: header_end as u64 })
    }
}

/// The header of the converted file, from the first `header_end` bytes of the
/// input file: a compressed file's header loses its size field and gets the raw
/// marker; a raw file's header gets the compressed marker and `original_size`
/// as a little-endian size field.
pub fn rewrite_header(prefix: &[u8], compressed: bool, original_size: u32) -> (r: Vec<u8>)
    requires
        prefix@.len() >= NAME_START,
    ensures
        compressed ==> r@ == seq![RAW_MARKER] + prefix@.subrange(1, prefix@.len() - 4),
        !compressed ==> r@ == seq![COMPRESSED_MARKER] + prefix@.subrange(1, prefix@.len() as int)
            + le_bytes(original_size),
{
    let end = if compressed {
        prefix.len() - 4
    } else {
        prefix.len()
    };
    let mut r: Vec<u8> = Vec::new();
    r.push(if compressed {
        RAW_MARKER
    } else {
        COMPRESSED_MARKER
    });
    let mut i: usize = 1;
    while i < end
        invariant
            1 <= i <= end <= prefix@.len(),
            r@ == seq![
                if compressed {
                    RAW_MARKER
                } else {
                    COMPRESSED_MARKER
                },
            ] + prefix@.subrange(1, i as int),
        decreases end - i,
    {
        r.push(prefix[i]);
        i = i + 1;
        assert(r@ =~= seq![
            if compressed {
                RAW_MARKER
            } else {
                COMPRESSED_MARKER
            },
        ] + prefix@.subrange(1, i as int));
    }
    if !compressed {
        r.push((original_size % 256) as u8);
        r.push(((original_size / 256) % 256) as u8);
        r.push(((original_size / 65536) % 256) as u8);
        r.push((original_size / 16777216) as u8);
        assert(r@ =~= seq![COMPRESSED_MARKER] + prefix@.subrange(1, prefix@.len() as int)
            + le_bytes(original_size));
    }
    r
}

} // verus!
