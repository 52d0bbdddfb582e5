//! Encrypted-file container format and the plaintext/ciphertext size map.
//!
//! An encrypted object is a 6-byte HFEB header (magic, version, algorithm)
//! followed by an AEGIS-RAF container. The RAF container has its own 64-byte
//! header and splits the plaintext into 64 KiB chunks, each stored with a
//! 16-byte nonce and a 16-byte authentication tag. The size map converts
//! between the plaintext size the user sees and the ciphertext size the remote
//! stores.

use aegis::raf;
use vstd::prelude::*;

use crate::base91;
use crate::text;

verus! {

/// The bytes `HFEB`.
pub const HFEB_MAGIC: [u8; 4] = [72, 70, 69, 66];

pub const HFEB_VERSION: u8 = 1;

pub const HFEB_HEADER_LEN: usize = 6;

/// HFEB algorithm byte for AEGIS-128X2 (matches `aegis`'s `AlgorithmId`).
pub const ALG_AEGIS_128X2: u8 = 2;

/// Length of the header of a RAF container.
pub const RAF_HEADER_LEN: u64 = 64;

/// The bytes `AEGISRAF`, with which a RAF container starts.
pub const RAF_MAGIC: [u8; 8] = [65, 69, 71, 73, 83, 82, 65, 70];

/// Plaintext bytes per chunk (the RAF default).
pub const RAF_CHUNK_SIZE: u64 = 65536;

/// On-disk size of one chunk slot: a chunk, a 16-byte nonce and a 16-byte tag.
/// The RAF stores fixed-size slots — the final chunk is padded to a full slot
/// — so a file's on-disk body is always a whole number of these.
pub const RAF_CHUNK_RECORD: u64 = 65568;

/// Full object header length: the HFEB prefix plus the RAF header.
pub const CONTAINER_HEADER_LEN: u64 = 70;

/// Failure modes when parsing an HFEB header.
#[derive(Debug, Clone, Copy, PartialEq, Eq, Structural)]
pub enum HeaderError {
    Truncated,
    BadMagic,
    UnsupportedVersion(u8),
    UnknownAlgorithm(u8),
}

impl HeaderError {
    /// The message of this error.
    pub open spec fn message(self) -> Seq<char> {
        match self {
            HeaderError::Truncated => "encrypted file header is truncated"@,
            HeaderError::BadMagic => "not an HFEB encrypted file"@,
            HeaderError::UnsupportedVersion(v) => "unsupported HFEB version "@ + text::decimal(
                v as nat,
            ),
            HeaderError::UnknownAlgorithm(a) => "unknown HFEB algorithm "@ + text::decimal(
                a as nat,
            ),
        }
    }

    /// The message of this error, as a string.
    pub fn to_string(&self) -> (s: String)
        ensures
            s@ == self.message(),
    {
        match self {
            HeaderError::Truncated => "encrypted file header is truncated".to_owned(),
            HeaderError::BadMagic => "not an HFEB encrypted file".to_owned(),
            HeaderError::UnsupportedVersion(v) => {
                let mut s: String = "unsupported HFEB version ".to_owned();
                text::push_decimal(&mut s, *v as u64);
                s
            },
            HeaderError::UnknownAlgorithm(a) => {
                let mut s: String = "unknown HFEB algorithm ".to_owned();
                text::push_decimal(&mut s, *a as u64);
                s
            },
        }
    }
}

/// The HFEB header for an algorithm.
pub open spec fn header_bytes(algorithm: u8) -> Seq<u8> {
    HFEB_MAGIC@ + seq![HFEB_VERSION, algorithm]
}

/// The algorithm that an HFEB header names, or what is wrong with it.
pub open spec fn parsed_header(bytes: Seq<u8>) -> Result<u8, HeaderError> {
    if bytes.len() < HFEB_HEADER_LEN {
        Err(HeaderError::Truncated)
    } else if bytes.take(4) != HFEB_MAGIC@ {
        Err(HeaderError::BadMagic)
    } else if bytes[4] != HFEB_VERSION {
        Err(HeaderError::UnsupportedVersion(bytes[4]))
    } else if bytes[5] != ALG_AEGIS_128X2 {
        Err(HeaderError::UnknownAlgorithm(bytes[5]))
    } else {
        Ok(ALG_AEGIS_128X2)
    }
}

/// Write the 6-byte HFEB header for `algorithm` into `buf`.
pub fn write_header(buf: &mut [u8; HFEB_HEADER_LEN], algorithm: u8)
    ensures
        final(buf)@ == header_bytes(algorithm),
{
    buf[0] = HFEB_MAGIC[0];
    buf[1] = HFEB_MAGIC[1];
    buf[2] = HFEB_MAGIC[2];
    buf[3] = HFEB_MAGIC[3];
    buf[4] = HFEB_VERSION;
    buf[5] = algorithm;
    assert(buf@ =~= header_bytes(algorithm));
}

/// Parse an HFEB header, returning the algorithm byte on success.
pub fn parse_header(bytes: &[u8]) -> (r: Result<u8, HeaderError>)
    ensures
        r == parsed_header(bytes@),
{
    if bytes.len() < HFEB_HEADER_LEN {
        return Err(HeaderError::Truncated);
    }
    let magic: bool = bytes[0] == HFEB_MAGIC[0] && bytes[1] == HFEB_MAGIC[1] && bytes[2]
        == HFEB_MAGIC[2] && bytes[3] == HFEB_MAGIC[3];
    proof {
        let head = bytes@.take(4);
        if magic {
            assert(head =~= HFEB_MAGIC@);
        } else {
            assert(head[0] == bytes@[0] && head[1] == bytes@[1] && head[2] == bytes@[2] && head[3]
                == bytes@[3]);
        }
    }
    if !magic {
        return Err(HeaderError::BadMagic);
    }
    if bytes[4] != HFEB_VERSION {
        return Err(HeaderError::UnsupportedVersion(bytes[4]));
    }
    if bytes[5] != ALG_AEGIS_128X2 {
        return Err(HeaderError::UnknownAlgorithm(bytes[5]));
    }
    Ok(ALG_AEGIS_128X2)
}

/// A header that was written is read back, with whatever follows it, if its
/// algorithm is the one that is understood.
pub proof fn law_header_round_trip(algorithm: u8, rest: Seq<u8>)
    ensures
        parsed_header(header_bytes(algorithm) + rest) == if algorithm == ALG_AEGIS_128X2 {
            Ok::<u8, HeaderError>(algorithm)
        } else {
            Err(HeaderError::UnknownAlgorithm(algorithm))
        },
{
    assert((header_bytes(algorithm) + rest).take(4) =~= HFEB_MAGIC@);
}

/// How many chunks hold `plaintext` bytes.
pub open spec fn chunks_for(plaintext: nat) -> nat {
    (plaintext + 65535) / 65536
}

/// Size of the container that holds `plaintext` bytes.
pub open spec fn container_size(plaintext: nat) -> nat {
    CONTAINER_HEADER_LEN as nat + chunks_for(plaintext) * RAF_CHUNK_RECORD as nat
}

/// How many chunk slots a container of `ciphertext` bytes holds, if that is the
/// size of a container.
pub open spec fn chunk_count(ciphertext: u64) -> Option<u64> {
    if ciphertext >= CONTAINER_HEADER_LEN && (ciphertext - CONTAINER_HEADER_LEN) % (
    RAF_CHUNK_RECORD as int) == 0 {
        Some(((ciphertext - CONTAINER_HEADER_LEN) / RAF_CHUNK_RECORD as int) as u64)
    } else {
        None
    }
}

/// Ciphertext size of the full HFEB container holding `plaintext` plaintext
/// bytes.
pub fn ciphertext_size(plaintext: u64) -> (n: u64)
    requires
        container_size(plaintext as nat) <= u64::MAX,
    ensures
        n == container_size(plaintext as nat),
{
    let whole: u64 = plaintext / RAF_CHUNK_SIZE;
    let chunks: u64 = if plaintext % RAF_CHUNK_SIZE > 0 {
        whole + 1
    } else {
        whole
    };
    CONTAINER_HEADER_LEN + chunks * RAF_CHUNK_RECORD
}

/// Number of chunk slots in a container of `ciphertext` bytes, or `None` if
/// that is not a valid container size. Note this does **not** give the
/// plaintext size: the final chunk is padded to a full slot, so a container
/// only reveals how many chunks it holds, bounding the plaintext to
/// `((n-1)*CHUNK, n*CHUNK]`. The exact plaintext size must come from the RAF
/// header or from our own write.
pub fn container_chunk_count(ciphertext: u64) -> (r: Option<u64>)
    ensures
        r == chunk_count(ciphertext),
{
    if ciphertext < CONTAINER_HEADER_LEN {
        return None;
    }
    let body: u64 = ciphertext - CONTAINER_HEADER_LEN;
    if body % RAF_CHUNK_RECORD == 0 {
        Some(body / RAF_CHUNK_RECORD)
    } else {
        None
    }
}

/// The size of a container reveals how many chunks its plaintext takes.
pub proof fn law_chunk_count_of_size(plaintext: u64)
    requires
        container_size(plaintext as nat) <= u64::MAX,
    ensures
        chunk_count(container_size(plaintext as nat) as u64) == Some(
            chunks_for(plaintext as nat) as u64,
        ),
{
}

/// ... and no more: plaintexts have containers of one size if and only if they
/// take the same number of chunks.
pub proof fn law_size_reveals_chunks_only(p: nat, q: nat)
    ensures
        container_size(p) == container_size(q) <==> chunks_for(p) == chunks_for(q),
{
}

/// A plaintext of `n > 0` chunks is longer than `n - 1` chunks and at most `n`.
pub proof fn law_chunks_bound_plaintext(plaintext: nat)
    ensures
        chunks_for(plaintext) > 0 ==> (chunks_for(plaintext) - 1) * RAF_CHUNK_SIZE < plaintext,
        plaintext <= chunks_for(plaintext) * RAF_CHUNK_SIZE,
        chunks_for(plaintext) == 0 <==> plaintext == 0,
{
}

/// A container is always larger than what it holds.
pub proof fn law_container_is_larger(plaintext: nat)
    ensures
        container_size(plaintext) > plaintext,
{
}

/// What a single decrypting read needs to fetch from the remote object.
///
/// A plaintext read touches only the chunk slots that cover it, so we never
/// download the whole file. `header_object` is the RAF header byte range (fetch
/// once and cache); `slots_object` is the byte range of the covering chunk slots
/// (may be empty for a read at or past EOF). Both ranges are in *object* space,
/// i.e. they include the 6-byte HFEB prefix.
#[derive(Debug, PartialEq, Eq)]
pub struct ReadPlan {
    pub header_object: core::ops::Range<u64>,
    pub slots_object: core::ops::Range<u64>,
    /// RAF-space offset of the first byte of `slots_object`.
    pub slot_base_raf: u64,
    /// Total RAF container size (object size minus the HFEB header).
    pub raf_size: u64,
}

impl Clone for ReadPlan {
    fn clone(&self) -> (r: Self)
        ensures
            r == *self,
    {
        ReadPlan {
            header_object: self.header_object.start..self.header_object.end,
            slots_object: self.slots_object.start..self.slots_object.end,
            slot_base_raf: self.slot_base_raf,
            raf_size: self.raf_size,
        }
    }
}

/// Whether a read of `len` bytes at `off` touches chunk `k` of a container with
/// `chunks` chunks.
pub open spec fn touches(chunks: int, off: int, len: int, k: int) -> bool {
    0 <= k < chunks && off < (k + 1) * 65536 && k * 65536 < off + len && len > 0
}

/// First byte of slot `k`, in RAF space.
pub open spec fn slot_start(k: int) -> int {
    64 + k * 65568
}

/// The slots that a plan fetches are those that the read touches, no others.
pub open spec fn plan_covers(plan: ReadPlan, chunks: int, off: int, len: int) -> bool {
    &&& forall|k: int|
        touches(chunks, off, len, k) ==> plan.slots_object.start <= 6 + #[trigger] slot_start(k)
            && 6 + slot_start(k + 1) <= plan.slots_object.end
    &&& forall|k: int|
        0 <= k && plan.slots_object.start <= 6 + #[trigger] slot_start(k) && 6 + slot_start(k + 1)
            <= plan.slots_object.end ==> touches(chunks, off, len, k)
}

/// What a plan for a read of `len` bytes at `off` is, for an object of
/// `object_size` bytes: the header, and the slots from the one that holds the
/// first byte to the one that holds the last, short of the end of the object.
pub open spec fn is_plan(plan: ReadPlan, object_size: u64, off: u64, len: u64) -> bool {
    let chunks = chunk_count(object_size)->0 as int;
    let first = off as int / 65536;
    let last = if (off + len - 1) / 65536 < chunks - 1 {
        (off + len - 1) / 65536
    } else {
        chunks - 1
    };
    &&& chunk_count(object_size) is Some
    &&& plan.header_object.start == 6
    &&& plan.header_object.end == 70
    &&& plan.raf_size == object_size - 6
    &&& if len == 0 || first >= chunks {
        plan.slots_object.start == 0 && plan.slots_object.end == 0 && plan.slot_base_raf == 64
    } else {
        &&& plan.slot_base_raf == slot_start(first)
        &&& plan.slots_object.start == 6 + slot_start(first)
        &&& plan.slots_object.end == 6 + slot_start(last + 1)
        &&& first <= last
        &&& plan.slots_object.end <= object_size
    }
}

/// Plan the fetch for a plaintext read of `len` bytes at `off`, given the remote
/// object size. Returns `None` if `object_size` is not a valid container size.
pub fn plan_read(object_size: u64, off: u64, len: u64) -> (r: Option<ReadPlan>)
    ensures
        r is Some <==> chunk_count(object_size) is Some,
        r matches Some(plan) ==> {
            &&& is_plan(plan, object_size, off, len)
            &&& plan_covers(plan, chunk_count(object_size)->0 as int, off as int, len as int)
        },
{
    let chunks: u64 = match container_chunk_count(object_size) {
        Some(n) => n,
        None => {
            return None;
        },
    };
    let hfeb: u64 = HFEB_HEADER_LEN as u64;
    let raf_size: u64 = object_size - hfeb;
    let first: u64 = off / RAF_CHUNK_SIZE;
    // No slots to fetch for an empty file, a zero-length read, or a read that
    // starts at or past the last chunk.
    if len == 0 || chunks == 0 || first >= chunks {
        let plan = ReadPlan {
            header_object: hfeb..hfeb + RAF_HEADER_LEN,
            slots_object: 0..0,
            slot_base_raf: RAF_HEADER_LEN,
            raf_size,
        };
        return Some(plan);
    }
    // The last byte of the read, short of the largest offset there is.
    let last_byte: u64 = if len - 1 > u64::MAX - off {
        u64::MAX
    } else {
        off + (len - 1)
    };
    let last_chunk: u64 = last_byte / RAF_CHUNK_SIZE;
    let last: u64 = if last_chunk < chunks - 1 {
        last_chunk
    } else {
        chunks - 1
    };
    assert(chunks * 65568 <= object_size - 70);
    let slot_base_raf: u64 = RAF_HEADER_LEN + first * RAF_CHUNK_RECORD;
    let slot_end_raf: u64 = RAF_HEADER_LEN + (last + 1) * RAF_CHUNK_RECORD;
    let plan = ReadPlan {
        header_object: hfeb..hfeb + RAF_HEADER_LEN,
        slots_object: hfeb + slot_base_raf..hfeb + slot_end_raf,
        slot_base_raf,
        raf_size,
    };
    Some(plan)
}

/// The kinds of I/O errors, as std has them.
#[verifier::external_type_specification]
pub struct ExErrorKind(std::io::ErrorKind);

/// Why a read from a [`ReadIo`] cannot be served.
#[derive(Debug, Clone, Copy, PartialEq, Eq, Structural)]
pub enum ReadIoError {
    /// The end of the range is past the largest offset.
    OffsetOverflow,
    /// The range was not fetched.
    OutsideFetchedRange,
    /// Only reads can be served.
    ReadOnly,
}

impl ReadIoError {
    /// The message of this error.
    pub open spec fn message(self) -> Seq<char> {
        match self {
            ReadIoError::OffsetOverflow => "offset overflow"@,
            ReadIoError::OutsideFetchedRange => "read outside the fetched ciphertext range"@,
            ReadIoError::ReadOnly => "ReadIo is read-only"@,
        }
    }

    /// The kind of I/O error that stands for this error.
    pub fn kind(&self) -> (k: std::io::ErrorKind)
        ensures
            k == match *self {
                ReadIoError::OffsetOverflow => std::io::ErrorKind::InvalidInput,
                ReadIoError::OutsideFetchedRange => std::io::ErrorKind::UnexpectedEof,
                ReadIoError::ReadOnly => std::io::ErrorKind::Unsupported,
            },
    {
        match self {
            ReadIoError::OffsetOverflow => std::io::ErrorKind::InvalidInput,
            ReadIoError::OutsideFetchedRange => std::io::ErrorKind::UnexpectedEof,
            ReadIoError::ReadOnly => std::io::ErrorKind::Unsupported,
        }
    }

    /// The message of this error, as a string.
    pub fn to_string(&self) -> (s: String)
        ensures
            s@ == self.message(),
    {
        match self {
            ReadIoError::OffsetOverflow => "offset overflow".to_owned(),
            ReadIoError::OutsideFetchedRange => {
                "read outside the fetched ciphertext range".to_owned()
            },
            ReadIoError::ReadOnly => "ReadIo is read-only".to_owned(),
        }
    }
}

/// Read-only storage that serves the RAF a cached header plus one fetched slice
/// of chunk slots, reporting the file's true size. This lets a ranged read be
/// decrypted without the whole container in memory. All offsets are
/// RAF-container space (the 6-byte HFEB prefix is already stripped by the
/// caller).
pub struct ReadIo {
    raf_size: u64,
    header: Vec<u8>,
    slot_base: u64,
    slots: Vec<u8>,
}

/// What reading `len` bytes at `offset` gives, with `header` at the start and
/// `slots` at `slot_base`.
pub open spec fn io_read(
    header: Seq<u8>,
    slot_base: u64,
    slots: Seq<u8>,
    offset: nat,
    len: nat,
) -> Result<Seq<u8>, ReadIoError> {
    if offset + len > u64::MAX {
        Err(ReadIoError::OffsetOverflow)
    } else if offset + len <= header.len() {
        Ok(header.subrange(offset as int, offset + len as int))
    } else if offset >= slot_base && offset + len <= slot_base + slots.len() {
        Ok(slots.subrange(offset - slot_base, offset - slot_base + len))
    } else {
        Err(ReadIoError::OutsideFetchedRange)
    }
}

impl ReadIo {
    pub closed spec fn size(self) -> u64 {
        self.raf_size
    }

    pub closed spec fn header(self) -> Seq<u8> {
        self.header@
    }

    pub closed spec fn base(self) -> u64 {
        self.slot_base
    }

    pub closed spec fn fetched(self) -> Seq<u8> {
        self.slots@
    }

    /// What reading `len` bytes at `offset` gives.
    pub open spec fn served(self, offset: nat, len: nat) -> Result<Seq<u8>, ReadIoError> {
        io_read(self.header(), self.base(), self.fetched(), offset, len)
    }

    /// `header` is the RAF header (offsets `0..header.len()`); `slots` covers
    /// RAF offsets `slot_base..slot_base + slots.len()`; `raf_size` is the full
    /// container size.
    pub fn new(raf_size: u64, header: Vec<u8>, slot_base: u64, slots: Vec<u8>) -> (io: Self)
        ensures
            io.size() == raf_size,
            io.header() == header@,
            io.base() == slot_base,
            io.fetched() == slots@,
    {
        ReadIo { raf_size, header, slot_base, slots }
    }

    /// The `len` bytes at `offset`.
    pub fn bytes_at(&self, len: usize, offset: u64) -> (r: Result<&[u8], ReadIoError>)
        ensures
            match r {
                Ok(bytes) => self.served(offset as nat, len as nat) == Ok::<Seq<u8>, ReadIoError>(
                    bytes@,
                ),
                Err(e) => self.served(offset as nat, len as nat) == Err::<Seq<u8>, ReadIoError>(e),
            },
    {
        if len as u64 > u64::MAX - offset {
            return Err(ReadIoError::OffsetOverflow);
        }
        let end: u64 = offset + len as u64;
        if end <= self.header.len() as u64 {
            let start: usize = offset as usize;
            Ok(vstd::slice::slice_subrange(self.header.as_slice(), start, start + len))
        } else if offset >= self.slot_base && end - self.slot_base <= self.slots.len() as u64 {
            let start: usize = (offset - self.slot_base) as usize;
            Ok(vstd::slice::slice_subrange(self.slots.as_slice(), start, start + len))
        } else {
            Err(ReadIoError::OutsideFetchedRange)
        }
    }
}

/// An I/O error, as std has it.
#[verifier::external_type_specification]
#[verifier::external_body]
pub struct ExIoError(std::io::Error);

/// `std::io::Error::new`: an error of that kind with that message. Such an error
/// is opaque, so neither is stated.
#[verifier::external_body]
fn new_io_error(kind: std::io::ErrorKind, message: String) -> (r: std::io::Error) {
    std::io::Error::new(kind, message)
}

/// How `aegis` reads the storage: what was fetched is served, and nothing is
/// ever changed.
impl raf::RafIo for ReadIo {
    fn read_at(&mut self, buf: &mut [u8], offset: u64) -> (r: std::io::Result<()>)
        ensures
            *final(self) == *old(self),
            match old(self).served(offset as nat, old(buf)@.len()) {
                Ok(bytes) => r is Ok && final(buf)@ == bytes,
                Err(_) => r is Err && final(buf)@ == old(buf)@,
            },
    {
        let n: usize = buf.len();
        match self.bytes_at(n, offset) {
            Ok(bytes) => {
                let mut i: usize = 0;
                while i < n
                    invariant
                        i <= n == buf@.len() == bytes@.len(),
                        forall|j: int| 0 <= j < i ==> buf@[j] == bytes@[j],
                    decreases n - i,
                {
                    buf[i] = bytes[i];
                    i = i + 1;
                }
                assert(buf@ =~= bytes@);
                Ok(())
            },
            Err(e) => Err(new_io_error(e.kind(), e.to_string())),
        }
    }

    fn write_at(&mut self, _buf: &[u8], _offset: u64) -> (r: std::io::Result<()>)
        ensures
            *final(self) == *old(self),
            r is Err,
    {
        Err(new_io_error(ReadIoError::ReadOnly.kind(), ReadIoError::ReadOnly.to_string()))
    }

    fn get_size(&mut self) -> (r: std::io::Result<u64>)
        ensures
            *final(self) == *old(self),
            r matches Ok(n) && n == old(self).size(),
    {
        Ok(self.raf_size)
    }

    fn set_size(&mut self, _size: u64) -> (r: std::io::Result<()>)
        ensures
            *final(self) == *old(self),
            r is Err,
    {
        Err(new_io_error(ReadIoError::ReadOnly.kind(), ReadIoError::ReadOnly.to_string()))
    }
}

/// Storage that holds what a plan fetches of an object serves every read in
/// the header, and every read in a slot that the plan covers, with the bytes
/// that the object holds there behind its HFEB prefix.
pub proof fn law_planned_io_serves_object(
    object: Seq<u8>,
    plan: ReadPlan,
    offset: u64,
    len: nat,
)
    requires
        plan.header_object.start == 6,
        plan.header_object.end == 70,
        70 <= object.len() <= u64::MAX,
        plan.slots_object.start == 6 + plan.slot_base_raf,
        plan.slots_object.start <= plan.slots_object.end <= object.len(),
        offset + len <= 64 || (plan.slots_object.start <= 6 + offset && 6 + offset + len
            <= plan.slots_object.end),
    ensures
        io_read(
            object.subrange(plan.header_object.start as int, plan.header_object.end as int),
            plan.slot_base_raf,
            object.subrange(plan.slots_object.start as int, plan.slots_object.end as int),
            offset as nat,
            len,
        ) == Ok::<Seq<u8>, ReadIoError>(object.subrange(6 + offset, 6 + offset + len)),
{
    let header = object.subrange(6, 70);
    let slots = object.subrange(
        plan.slots_object.start as int,
        plan.slots_object.end as int,
    );
    let want = object.subrange(6 + offset, 6 + offset + len);
    if offset + len <= header.len() {
        assert(header.subrange(offset as int, offset + len) =~= want);
    } else {
        let at = offset - plan.slot_base_raf;
        assert(slots.subrange(at, at + len) =~= want);
    }
}

/// What the header of a RAF container says, if it is one: the number of the
/// cipher, the plaintext bytes per chunk and the size of the plaintext. It is
/// not authenticated.
pub open spec fn raf_info(head: Seq<u8>) -> Option<(u8, u32, u64)> {
    let chunk_size = base91::le_value(head.subrange(12, 16));
    if head.take(8) == RAF_MAGIC@ && base91::le_value(head.subrange(8, 10)) == RAF_HEADER_LEN
        && head[10] == 1 && 1 <= head[11] <= 6 && 1024 <= chunk_size <= 1048576 && chunk_size % 16
        == 0 {
        Some((head[11], chunk_size as u32, base91::le_value(head.subrange(16, 24)) as u64))
    } else {
        None
    }
}

/// `aegis::raf::probe`: it reads the 64 bytes at the start of the storage and
/// gives what they say, or fails where they are not served or no header. It
/// looks at nothing else, the size of the storage included.
#[verifier::external_body]
fn probe_raf(io: ReadIo) -> (r: Option<(u8, u32, u64)>)
    ensures
        r == match io.served(0, RAF_HEADER_LEN as nat) {
            Ok(head) => raf_info(head),
            Err(_) => None,
        },
{
    let mut io = io;
    let info = raf::probe(&mut io).ok()?;
    Some((info.algorithm as u8, info.chunk_size, info.file_size))
}

/// The plaintext size that a probed header gives. Only the exact format that
/// is written here is accepted: AEGIS-128X2 at the default chunk size (the size
/// map assumes both).
pub fn probed_plaintext_size(algorithm: u8, chunk_size: u32, file_size: u64) -> (r: Option<u64>)
    ensures
        r == if algorithm == ALG_AEGIS_128X2 && chunk_size == RAF_CHUNK_SIZE {
            Some(file_size)
        } else {
            None
        },
{
    if algorithm != ALG_AEGIS_128X2 || chunk_size as u64 != RAF_CHUNK_SIZE {
        return None;
    }
    Some(file_size)
}

/// The plaintext size that a header and the size of its object give.
pub open spec fn plaintext_size(raf_header: Seq<u8>, ciphertext_size: u64) -> Option<u64> {
    if ciphertext_size < HFEB_HEADER_LEN || raf_header.len() < RAF_HEADER_LEN {
        None
    } else {
        match raf_info(raf_header.take(RAF_HEADER_LEN as int)) {
            Some((algorithm, chunk_size, size)) => if algorithm == ALG_AEGIS_128X2 && chunk_size
                == RAF_CHUNK_SIZE {
                Some(size)
            } else {
                None
            },
            None => None,
        }
    }
}

/// Recover the plaintext size from a file's RAF header bytes (the 64 bytes after
/// the HFEB prefix) and its full ciphertext object size, without the key. This
/// is the authoritative plaintext size — it cannot be derived from the object
/// size alone. Fewer than [`RAF_HEADER_LEN`] header bytes give none.
pub fn probe_plaintext_size(raf_header: &[u8], ciphertext_size: u64) -> (r: Option<u64>)
    ensures
        r == plaintext_size(raf_header@, ciphertext_size),
{
    if ciphertext_size < HFEB_HEADER_LEN as u64 {
        return None;
    }
    let io: ReadIo = ReadIo::new(
        ciphertext_size - HFEB_HEADER_LEN as u64,
        vstd::slice::slice_to_vec(raf_header),
        RAF_HEADER_LEN,
        Vec::new(),
    );
    assert(raf_header@.len() >= 64 ==> raf_header@.subrange(0, 64) =~= raf_header@.take(64));
    match probe_raf(io) {
        Some((algorithm, chunk_size, file_size)) => probed_plaintext_size(
            algorithm,
            chunk_size,
            file_size,
        ),
        None => None,
    }
}

/// Whether a RAF header authenticates under a key.
pub uninterp spec fn raf_opens(key: Seq<u8>, head: Seq<u8>) -> bool;

/// The plaintext that AEGIS-128X2 finds in the record of a chunk, in a container
/// with the given header, if the record authenticates under the key.
pub uninterp spec fn raf_chunk(key: Seq<u8>, head: Seq<u8>, index: nat, record: Seq<u8>) -> Option<
    Seq<u8>,
>;

/// The least size of a container whose header says that it holds `size` bytes in
/// chunks of `chunk_size`: each chunk takes a full slot.
pub open spec fn raf_len(chunk_size: nat, size: nat) -> nat {
    let chunks = if size == 0 {
        0
    } else {
        ((size - 1) / chunk_size as int + 1) as nat
    };
    RAF_HEADER_LEN as nat + chunks * (chunk_size + 32)
}

/// How many bytes a read of `len` bytes at `off` gives of `size` bytes.
pub open spec fn read_len(size: nat, off: nat, len: nat) -> nat {
    if off >= size {
        0
    } else if len <= size - off {
        len
    } else {
        (size - off) as nat
    }
}

/// Whether `n` bytes at `off` lie in chunk `k` in part.
pub open spec fn reads_chunk(chunk_size: nat, off: nat, n: nat, k: nat) -> bool {
    n > 0 && off / chunk_size <= k <= (off + n - 1) / (chunk_size as int)
}

impl ReadIo {
    /// The bytes at the start, where the header of a container stands.
    pub open spec fn head(self) -> Seq<u8> {
        self.served(0, RAF_HEADER_LEN as nat)->Ok_0
    }

    /// Plaintext bytes per chunk, as the header says.
    pub open spec fn chunk_size(self) -> nat {
        (raf_info(self.head())->0).1 as nat
    }

    /// The size of the plaintext, as the header says.
    pub open spec fn plaintext_len(self) -> nat {
        (raf_info(self.head())->0).2 as nat
    }

    /// The record of chunk `k`: a nonce, the ciphertext and a tag.
    pub open spec fn record(self, k: nat) -> Result<Seq<u8>, ReadIoError> {
        self.served(
            RAF_HEADER_LEN as nat + k * (self.chunk_size() + 32),
            self.chunk_size() + 32,
        )
    }
}

/// Whether a container starts with a header of AEGIS-128X2 and is as large as
/// that header says.
pub open spec fn is_readable(io: ReadIo) -> bool {
    &&& io.served(0, RAF_HEADER_LEN as nat) is Ok
    &&& raf_info(io.head()) matches Some((algorithm, _, _)) && algorithm == ALG_AEGIS_128X2
    &&& raf_len(io.chunk_size(), io.plaintext_len()) <= io.size()
}

/// The plaintext of chunk `k`, if its record is served and authenticates.
pub open spec fn chunk_of(io: ReadIo, key: Seq<u8>, k: nat) -> Option<Seq<u8>> {
    match io.record(k) {
        Ok(record) => raf_chunk(key, io.head(), k, record),
        Err(_) => None,
    }
}

/// Byte `at` of the plaintext.
pub open spec fn plaintext_byte(io: ReadIo, key: Seq<u8>, at: int) -> u8 {
    chunk_of(io, key, (at / (io.chunk_size() as int)) as nat)->0[at % (io.chunk_size() as int)]
}

/// What a read of `len` plaintext bytes at `off` gives of a container: those of
/// the bytes that there are, if the header authenticates and every chunk that
/// they lie in is served and authenticates.
pub open spec fn decrypted(io: ReadIo, key: Seq<u8>, off: nat, len: nat) -> Option<Seq<u8>> {
    let n = read_len(io.plaintext_len(), off, len);
    if is_readable(io) && raf_opens(key, io.head()) && forall|k: nat|
        reads_chunk(io.chunk_size(), off, n, k) ==> #[trigger] chunk_of(io, key, k) is Some {
        Some(Seq::new(n, |i: int| plaintext_byte(io, key, off + i)))
    } else {
        None
    }
}

/// Each byte of a read lies in a chunk that is read.
proof fn lemma_byte_in_chunk(chunk_size: nat, off: nat, n: nat, i: int)
    requires
        chunk_size > 0,
        0 <= i < n,
    ensures
        reads_chunk(chunk_size, off, n, ((off + i) / (chunk_size as int)) as nat),
{
    vstd::arithmetic::div_mod::lemma_div_is_ordered(off as int, off + i, chunk_size as int);
    vstd::arithmetic::div_mod::lemma_div_is_ordered(off + i, off + n - 1, chunk_size as int);
    vstd::arithmetic::div_mod::lemma_div_pos_is_pos(off as int, chunk_size as int);
}

/// Why a container cannot be read.
#[derive(Debug)]
pub enum RafError {
    /// The storage failed.
    Io(std::io::Error),
    /// The header or an argument is invalid.
    InvalidArgument(&'static str),
    /// A chunk or the header does not authenticate: it was tampered with, or the
    /// key is another.
    AuthenticationFailed,
    AlreadyExists,
    NotFound,
    /// An offset or size is out of range.
    Overflow,
    MerkleNotEnabled,
    CorruptedChunk(u64),
    Rng,
}

/// `RafBuilder::open` of `aegis` for AEGIS-128X2, and `Raf::read` of what it
/// opens. The read gives as many bytes as there are and touches no others of
/// `out`; it reads and authenticates the header and the records of the chunks
/// that the bytes lie in, and no others. Which error a failure brings is left
/// open: it goes through the error number of the operating system. So is what a
/// failed read leaves in `out`.
#[verifier::external_body]
fn read_raf(key: &[u8; 16], io: ReadIo, plaintext_off: u64, out: &mut [u8]) -> (r: Result<
    usize,
    RafError,
>)
    ensures
        final(out)@.len() == old(out)@.len(),
        r is Ok <==> is_readable(io) && raf_opens(key@, io.head()) && forall|k: nat|
            reads_chunk(
                io.chunk_size(),
                plaintext_off as nat,
                read_len(io.plaintext_len(), plaintext_off as nat, old(out)@.len()),
                k,
            ) ==> (#[trigger] io.record(k) matches Ok(record) && raf_chunk(
                key@,
                io.head(),
                k,
                record,
            ) is Some),
        r matches Ok(n) ==> {
            &&& n == read_len(io.plaintext_len(), plaintext_off as nat, old(out)@.len())
            &&& forall|i: int|
                0 <= i < n ==> {
                    let k = ((plaintext_off + i) / (io.chunk_size() as int)) as nat;
                    #[trigger] final(out)@[i] == raf_chunk(
                        key@,
                        io.head(),
                        k,
                        io.record(k)->Ok_0,
                    )->0[(plaintext_off + i) % (io.chunk_size() as int)]
                }
            &&& final(out)@.skip(n as int) == old(out)@.skip(n as int)
        },
{
    let opened = raf::RafBuilder::<raf::Aegis128X2>::new().open(io, key);
    opened.and_then(|mut raf| raf.read(out, plaintext_off)).map_err(|e| match e {
        raf::Error::Io(e) => RafError::Io(e),
        raf::Error::InvalidArgument(what) => RafError::InvalidArgument(what),
        raf::Error::AuthenticationFailed => RafError::AuthenticationFailed,
        raf::Error::AlreadyExists => RafError::AlreadyExists,
        raf::Error::NotFound => RafError::NotFound,
        raf::Error::Overflow => RafError::Overflow,
        raf::Error::MerkleNotEnabled => RafError::MerkleNotEnabled,
        raf::Error::CorruptedChunk(k) => RafError::CorruptedChunk(k),
        raf::Error::Rng => RafError::Rng,
    })
}

/// Decrypt a plaintext read into `out`, returning the number of bytes produced
/// (fewer than `out.len()` at end of file). `io` must already hold the header and
/// the chunk slots covering `[plaintext_off, plaintext_off + out.len())`, as
/// planned by [`plan_read`]. Authentication failure (tampering) surfaces as an
/// error.
pub fn decrypt_read(key: &[u8; 16], io: ReadIo, plaintext_off: u64, out: &mut [u8]) -> (r: Result<
    usize,
    RafError,
>)
    ensures
        final(out)@.len() == old(out)@.len(),
        match r {
            Ok(n) => {
                &&& n <= old(out)@.len()
                &&& decrypted(io, key@, plaintext_off as nat, old(out)@.len()) == Some(
                    final(out)@.take(n as int),
                )
                &&& final(out)@.skip(n as int) == old(out)@.skip(n as int)
            },
            Err(_) => decrypted(io, key@, plaintext_off as nat, old(out)@.len()) is None,
        },
{
    let ghost off = plaintext_off as nat;
    let ghost len = out@.len();
    let ghost n = read_len(io.plaintext_len(), off, len);
    let r: Result<usize, RafError> = read_raf(key, io, plaintext_off, out);
    proof {
        if r is Ok {
            assert forall|k: nat| reads_chunk(io.chunk_size(), off, n, k) implies #[trigger] chunk_of(
                io,
                key@,
                k,
            ) is Some by {
                assert(io.record(k) is Ok);
            }
            assert(decrypted(io, key@, off, len) is Some);
            let all = decrypted(io, key@, off, len)->0;
            assert forall|i: int| 0 <= i < n implies out@[i] == #[trigger] all[i] by {
                let k = ((off + i) / (io.chunk_size() as int)) as nat;
                lemma_byte_in_chunk(io.chunk_size(), off, n, i);
                assert(chunk_of(io, key@, k) is Some);
            }
            assert(out@.take(n as int) =~= all);
        } else if decrypted(io, key@, off, len) is Some {
            assert forall|k: nat| reads_chunk(io.chunk_size(), off, n, k) implies (
            #[trigger] io.record(k) matches Ok(record) && raf_chunk(
                key@,
                io.head(),
                k,
                record,
            ) is Some) by {
                assert(chunk_of(io, key@, k) is Some);
            }
        }
    }
    r
}

/// A read gives as many bytes as there are between its offset and the plaintext
/// size that the header is probed for.
pub proof fn law_read_stops_at_probed_size(
    io: ReadIo,
    key: Seq<u8>,
    off: nat,
    len: nat,
    ciphertext_size: u64,
)
    requires
        plaintext_size(io.header(), ciphertext_size) is Some,
        decrypted(io, key, off, len) is Some,
    ensures
        decrypted(io, key, off, len)->0.len() == read_len(
            plaintext_size(io.header(), ciphertext_size)->0 as nat,
            off,
            len,
        ),
{
    assert(io.head() =~= io.header().take(64));
}

/// A ranged read gives that range of what a read of the whole file gives, as far
/// as there is one.
pub proof fn law_ranged_read_is_range_of_file(
    io: ReadIo,
    key: Seq<u8>,
    whole: nat,
    off: nat,
    len: nat,
)
    requires
        decrypted(io, key, 0, whole) is Some,
        io.plaintext_len() <= whole,
        off <= io.plaintext_len(),
    ensures
        decrypted(io, key, 0, whole)->0.len() == io.plaintext_len(),
        decrypted(io, key, off, len) == Some(
            decrypted(io, key, 0, whole)->0.subrange(
                off as int,
                off + read_len(io.plaintext_len(), off, len) as int,
            ),
        ),
{
    let c = io.chunk_size();
    let size = io.plaintext_len();
    let n = read_len(size, off, len);
    let all = decrypted(io, key, 0, whole)->0;
    assert forall|k: nat| reads_chunk(c, off, n, k) implies #[trigger] chunk_of(
        io,
        key,
        k,
    ) is Some by {
        vstd::arithmetic::div_mod::lemma_div_is_ordered(off + n - 1, size - 1, c as int);
        vstd::arithmetic::div_mod::lemma_div_of0(c as int);
        assert(reads_chunk(c, 0, size, k));
    }
    assert(decrypted(io, key, off, len)->0 =~= all.subrange(off as int, off + n as int));
}

/// A decrypting read never needs the whole file: with what a plan fetches of an
/// object it gives what it would give with the whole object. (The plan is made
/// for chunks of the size that is written here, so the header is one that says
/// so.)
pub proof fn law_planned_read_is_whole_read(
    object: Seq<u8>,
    plan: ReadPlan,
    planned: ReadIo,
    whole: ReadIo,
    key: Seq<u8>,
    off: u64,
    len: u64,
)
    requires
        object.len() <= u64::MAX,
        is_plan(plan, object.len() as u64, off, len),
        planned.size() == plan.raf_size,
        planned.header() == object.subrange(
            plan.header_object.start as int,
            plan.header_object.end as int,
        ),
        planned.base() == plan.slot_base_raf,
        planned.fetched() == object.subrange(
            plan.slots_object.start as int,
            plan.slots_object.end as int,
        ),
        whole.size() == object.len() - HFEB_HEADER_LEN,
        whole.header() == object.skip(HFEB_HEADER_LEN as int),
        whole.fetched() == Seq::<u8>::empty(),
        raf_info(planned.header()) matches Some((_, chunk_size, _)) ==> chunk_size
            == RAF_CHUNK_SIZE,
    ensures
        decrypted(planned, key, off as nat, len as nat) == decrypted(
            whole,
            key,
            off as nat,
            len as nat,
        ),
{
    let n = read_len(planned.plaintext_len(), off as nat, len as nat);
    assert(planned.head() =~= object.subrange(6, 70));
    assert(whole.head() =~= object.subrange(6, 70));
    assert(planned.header() =~= object.subrange(6, 70));
    if is_readable(planned) {
        assert forall|k: nat| reads_chunk(65536, off as nat, n, k) implies #[trigger] chunk_of(
            planned,
            key,
            k,
        ) == chunk_of(whole, key, k) by {
            lemma_planned_record(object, plan, planned, whole, off, len, k);
        }
        let p = decrypted(planned, key, off as nat, len as nat);
        let w = decrypted(whole, key, off as nat, len as nat);
        assert forall|i: int| 0 <= i < n implies #[trigger] plaintext_byte(planned, key, off + i)
            == plaintext_byte(whole, key, off + i) by {
            lemma_byte_in_chunk(65536, off as nat, n, i);
            let k = ((off + i) / 65536) as nat;
            assert(chunk_of(planned, key, k) == chunk_of(whole, key, k));
        }
        assert(is_readable(whole));
        if p is Some {
            assert forall|k: nat| reads_chunk(65536, off as nat, n, k) implies #[trigger] chunk_of(
                whole,
                key,
                k,
            ) is Some by {
                assert(chunk_of(planned, key, k) == chunk_of(whole, key, k));
            }
            assert(w is Some);
            assert(p->0 =~= w->0);
        }
    }
}

/// The record of a chunk that a read touches is served alike from what a plan
/// fetches and from the whole object.
proof fn lemma_planned_record(
    object: Seq<u8>,
    plan: ReadPlan,
    planned: ReadIo,
    whole: ReadIo,
    off: u64,
    len: u64,
    k: nat,
)
    requires
        object.len() <= u64::MAX,
        is_plan(plan, object.len() as u64, off, len),
        planned.size() == plan.raf_size,
        planned.header() == object.subrange(6, 70),
        planned.base() == plan.slot_base_raf,
        planned.fetched() == object.subrange(
            plan.slots_object.start as int,
            plan.slots_object.end as int,
        ),
        whole.header() == object.skip(6),
        planned.head() == whole.head(),
        is_readable(planned),
        planned.chunk_size() == 65536,
        reads_chunk(
            65536,
            off as nat,
            read_len(planned.plaintext_len(), off as nat, len as nat),
            k,
        ),
    ensures
        planned.record(k) is Ok,
        planned.record(k) == whole.record(k),
{
    let size = planned.plaintext_len();
    let chunks = (size - 1) / 65536 + 1;
    assert(raf_len(65536, size) <= planned.size());
    assert(raf_len(65536, size) == 64 + chunks * 65568);
    assert(k + 1 <= chunks);
    let at = 64 + k * 65568;
    assert(6 + at + 65568 <= object.len());
    assert(planned.record(k) == planned.served(at, 65568));
    assert(whole.record(k) == whole.served(at, 65568));
    let want = object.subrange(6 + at as int, 6 + at as int + 65568);
    assert(object.skip(6).subrange(at as int, at as int + 65568) =~= want);
    let from = at - plan.slot_base_raf;
    assert(planned.fetched().subrange(from, from + 65568) =~= want);
}

/// Where a RAF offset lies in a staging file, behind the HFEB prefix, if there
/// is such an offset.
pub fn staging_offset(raf_offset: u64) -> (r: Option<u64>)
    ensures
        r == if raf_offset + HFEB_HEADER_LEN <= u64::MAX {
            Some((raf_offset + HFEB_HEADER_LEN) as u64)
        } else {
            None
        },
{
    if raf_offset > u64::MAX - HFEB_HEADER_LEN as u64 {
        None
    } else {
        Some(raf_offset + HFEB_HEADER_LEN as u64)
    }
}

/// Size of the RAF container in a staging file of `file_len` bytes.
pub fn staging_raf_size(file_len: u64) -> (n: u64)
    ensures
        n == if file_len >= HFEB_HEADER_LEN {
            file_len - HFEB_HEADER_LEN
        } else {
            0
        },
{
    if file_len >= HFEB_HEADER_LEN as u64 {
        file_len - HFEB_HEADER_LEN as u64
    } else {
        0
    }
}

/// An encrypted object starts with the letters `HFEB`, the version and the
/// algorithm, one byte each.
pub proof fn law_header_layout(algorithm: u8)
    ensures
        header_bytes(algorithm) == seq![0x48u8, 0x46, 0x45, 0x42, 1, algorithm],
{
    assert(header_bytes(algorithm) =~= seq![0x48u8, 0x46, 0x45, 0x42, 1, algorithm]);
}

/// A header is refused for the first thing that is wrong with it: its length, its
/// letters, its version or its algorithm, in this order.
pub proof fn law_headers_are_refused_in_order(bytes: Seq<u8>)
    ensures
        bytes.len() < 6 ==> parsed_header(bytes) == Err::<u8, HeaderError>(HeaderError::Truncated),
        bytes.len() >= 6 && !(bytes[0] == 0x48 && bytes[1] == 0x46 && bytes[2] == 0x45 && bytes[3]
            == 0x42) ==> parsed_header(bytes) == Err::<u8, HeaderError>(HeaderError::BadMagic),
        bytes.len() >= 6 && bytes[0] == 0x48 && bytes[1] == 0x46 && bytes[2] == 0x45 && bytes[3]
            == 0x42 && bytes[4] != 1 ==> parsed_header(bytes) == Err::<u8, HeaderError>(
            HeaderError::UnsupportedVersion(bytes[4]),
        ),
        bytes.len() >= 6 && bytes[0] == 0x48 && bytes[1] == 0x46 && bytes[2] == 0x45 && bytes[3]
            == 0x42 && bytes[4] == 1 ==> parsed_header(bytes) == if bytes[5] == 2 {
            Ok::<u8, HeaderError>(2)
        } else {
            Err(HeaderError::UnknownAlgorithm(bytes[5]))
        },
{
    let head = bytes.take(4);
    if bytes.len() >= 6 {
        if bytes[0] == 0x48 && bytes[1] == 0x46 && bytes[2] == 0x45 && bytes[3] == 0x42 {
            assert(head =~= HFEB_MAGIC@);
        } else {
            assert(head[0] == bytes[0] && head[1] == bytes[1] && head[2] == bytes[2] && head[3]
                == bytes[3]);
            assert(HFEB_MAGIC@[0] == 0x48 && HFEB_MAGIC@[1] == 0x46 && HFEB_MAGIC@[2] == 0x45
                && HFEB_MAGIC@[3] == 0x42);
        }
    }
}

/// The container of an empty file is its header of 70 bytes. Each 65536 bytes more
/// of plaintext, begun or full, make it 65568 bytes larger.
pub proof fn law_containers_grow_by_slots(plaintext: nat, more: nat)
    requires
        1 <= more <= 65536,
    ensures
        container_size(0) == 70,
        container_size(plaintext + 65536) == container_size(plaintext) + 65568,
        plaintext % 65536 == 0 ==> container_size(plaintext + more) == container_size(plaintext)
            + 65568,
{
    assert(chunks_for(plaintext + 65536) == chunks_for(plaintext) + 1);
}

/// A size is that of a container exactly where it is some number of slots behind a
/// header, and that number is the one that is found.
pub proof fn law_container_sizes_are_whole_slots(size: u64, slots: u64)
    ensures
        size == 70 + slots * 65568 ==> chunk_count(size) == Some(slots),
        chunk_count(size) == Some(slots) ==> size == 70 + slots * 65568,
        size < 70 ==> chunk_count(size) is None,
{
    if size == 70 + slots * 65568 {
        assert((size - 70) / 65568 == slots && (size - 70) % 65568 == 0);
    }
}

/// A plan fetches the header that follows the prefix, and for a read of something
/// that is there a whole number of slots: the one with the first byte, the one with
/// the last byte that is there, and those in between.
pub proof fn law_plans_fetch_whole_slots(size: u64, off: u64, len: u64, plan: ReadPlan)
    requires
        is_plan(plan, size, off, len),
    ensures
        plan.header_object.start == 6 && plan.header_object.end == 70,
        plan.raf_size == size - 6,
        plan.slots_object.end <= size,
        (plan.slots_object.end - plan.slots_object.start) % 65568 == 0,
        plan.slots_object.start < plan.slots_object.end ==> (plan.slots_object.start - 70) % 65568
            == 0 && plan.slots_object.start == 6 + plan.slot_base_raf,
        plan.slots_object.start < plan.slots_object.end ==> ({
            let first = (plan.slots_object.start - 70) / 65568;
            let end = (plan.slots_object.end - 70) / 65568;
            &&& first * 65536 <= off < (first + 1) * 65536
            &&& end * 65536 >= off + len || plan.slots_object.end == size
            &&& (end - 1) * 65536 < off + len
        }),
        plan.slots_object.start == plan.slots_object.end <==> len == 0 || off / 65536 >= (size - 70)
            / 65568,
{
    let chunks = chunk_count(size)->0 as int;
    let first = off as int / 65536;
    let last = if (off + len - 1) / 65536 < chunks - 1 {
        (off + len - 1) / 65536
    } else {
        chunks - 1
    };
    assert(size == 70 + chunks * 65568);
    assert((size - 70) / 65568 == chunks);
    if !(len == 0 || first >= chunks) {
        let from = plan.slots_object.start as int;
        let to = plan.slots_object.end as int;
        assert(from == 70 + first * 65568);
        assert(to == 70 + (last + 1) * 65568);
        assert((from - 70) / 65568 == first && (from - 70) % 65568 == 0);
        assert((to - 70) / 65568 == last + 1);
        assert(to - from == (last + 1 - first) * 65568);
        assert((to - from) % 65568 == 0);
    }
}

/// Storage serves exactly the bytes that it holds: those of the header at the start,
/// those that were fetched where they lie, and nothing that is not held whole.
pub proof fn law_storage_serves_what_it_holds(
    header: Seq<u8>,
    base: u64,
    slots: Seq<u8>,
    offset: nat,
    len: nat,
    i: int,
)
    requires
        offset + len <= u64::MAX,
        header.len() <= base,
    ensures
        ({
            let r = io_read(header, base, slots, offset, len);
            &&& r is Ok <==> offset + len <= header.len() || (base <= offset && offset + len <= base
                + slots.len())
            &&& r is Ok ==> r->Ok_0.len() == len
            &&& r is Ok && 0 <= i < len && offset + i < header.len() ==> r->Ok_0[i] == header[offset
                + i]
            &&& r is Ok && 0 <= i < len && offset + i >= base ==> r->Ok_0[i] == slots[offset + i
                - base]
            &&& r is Err ==> r == Err::<Seq<u8>, ReadIoError>(ReadIoError::OutsideFetchedRange)
        }),
{
}

/// Only the format that is written here has its size taken from the header.
pub proof fn law_foreign_formats_have_no_size(
    algorithm: u8,
    chunk_size: u32,
    size: u64,
    r: Option<u64>,
)
    requires
        call_ensures(probed_plaintext_size, (algorithm, chunk_size, size), r),
    ensures
        algorithm == 2 && chunk_size == 65536 ==> r == Some(size),
        algorithm != 2 || chunk_size != 65536 ==> r is None,
{
}

/// A read gives what it asks for as far as the file goes: never more than was asked
/// for, never past the end, and all of it where that lies before the end.
pub proof fn law_reads_stop_at_the_end(size: nat, off: nat, len: nat)
    ensures
        read_len(size, off, len) <= len,
        off <= size ==> off + read_len(size, off, len) <= size,
        off >= size ==> read_len(size, off, len) == 0,
        off + len <= size ==> read_len(size, off, len) == len,
        off < size && off + len > size ==> off + read_len(size, off, len) == size,
{
}

/// In a staging file the container stands behind the prefix: an offset in it lies
/// six bytes further on, and it is six bytes shorter.
pub proof fn law_staging_files_have_the_prefix(at: u64, r: Option<u64>, len: u64, size: u64)
    requires
        call_ensures(staging_offset, (at,), r),
        call_ensures(staging_raf_size, (len,), size),
    ensures
        r matches Some(o) ==> o - at == 6,
        r is None <==> at + 6 > u64::MAX,
        len >= 6 ==> len - size == 6,
        len < 6 ==> size == 0,
{
}

/// The size of a file is what its header says, exactly where the header is all there
/// and is that of the format that is written here.
pub proof fn law_size_is_what_the_header_says(header: Seq<u8>, object_size: u64, size: u64)
    ensures
        plaintext_size(header, object_size) == Some(size) <==> object_size >= 6 && header.len()
            >= 64 && raf_info(header.take(64)) == Some((2u8, 65536u32, size)),
{
}

/// What is wrong with a header is said with the number that is wrong.
pub proof fn law_header_errors_name_the_number(n: u8)
    ensures
        HeaderError::UnsupportedVersion(n).message() == "unsupported HFEB version "@
            + text::decimal(n as nat),
        HeaderError::UnknownAlgorithm(n).message() == "unknown HFEB algorithm "@ + text::decimal(
            n as nat,
        ),
{
}

} // verus!
