//! Region and world-blob file framing: little-endian headers with magic, version, CRC32 and
//! payload length around zstd-compressed payloads, and the region grid of chunks.

use crate::chunk::{Chunk, ChunkPos, Voxel, CHUNK_VOLUME};
use vstd::prelude::*;

verus! {

/// Region file magic ("MDRG").
pub const REGION_MAGIC: u32 = 0x4D445247;

/// Region file format version.
pub const REGION_VERSION: u16 = 1;

/// World meta file magic ("MDWM").
pub const WORLD_META_MAGIC: u32 = 0x4D44574D;

/// World meta file format version.
pub const WORLD_META_VERSION: u16 = 1;

/// World state file magic ("MDWS").
pub const WORLD_STATE_MAGIC: u32 = 0x4D445753;

/// World state file format version.
pub const WORLD_STATE_VERSION: u16 = 2;

/// Chunks per region side.
pub const REGION_SIZE: i32 = 32;

/// Length of a file header in bytes.
pub const HEADER_LEN: usize = 14;

/// zstd compression level of saved payloads.
pub const COMPRESSION_LEVEL: i32 = 3;

#[verifier::external_type_specification]
#[verifier::external_body]
pub struct ExIoError(std::io::Error);

/// CRC32 (IEEE) of a byte sequence, as computed by `crc32fast`.
pub uninterp spec fn crc32_of(data: Seq<u8>) -> u32;

/// What zstd decompression makes of a byte sequence: the decompressed bytes, or nothing
/// when the input is not a valid zstd stream.
pub uninterp spec fn zstd_decoded(data: Seq<u8>) -> Option<Seq<u8>>;

/// Calls `crc32fast::hash`: the CRC32 checksum of the bytes, a function of the bytes alone.
#[verifier::external_body]
fn crc32(data: &[u8]) -> (res: u32)
    ensures
        res == crc32_of(data@),
{
    crc32fast::hash(data)
}

/// What zstd compression at a level makes of a byte sequence (zstd's output is fixed by
/// its input and parameters).
pub uninterp spec fn zstd_encoded(data: Seq<u8>, level: i32) -> Seq<u8>;

/// Calls `zstd::encode_all` at the given level on an in-memory slice. Claimed: it succeeds,
/// with the named compression of the input at that level, which decompresses back to the
/// input. In the source its only error paths are setting the level (zstd accepts the
/// levels 1 to 22), reading the slice and writing the vector (neither can fail), and the C
/// library running out of memory, which, like any allocation failure, is not modelled.
#[verifier::external_body]
fn zstd_compress(data: &[u8], level: i32) -> (res: Result<Vec<u8>, std::io::Error>)
    requires
        1 <= level <= 22,
    ensures
        res is Ok,
        res matches Ok(c) ==> c@ == zstd_encoded(data@, level) && zstd_decoded(c@) == Some(data@),
{
    zstd::encode_all(data, level)
}

/// Calls `zstd::decode_all` on an in-memory slice: the decompressed bytes, or an error
/// exactly when the input is not a valid zstd stream, as named by `zstd_decoded`.
#[verifier::external_body]
fn zstd_decompress(data: &[u8]) -> (res: Result<Vec<u8>, std::io::Error>)
    ensures
        match res {
            Ok(v) => zstd_decoded(data@) == Some(v@),
            Err(_) => zstd_decoded(data@).is_none(),
        },
{
    zstd::decode_all(data)
}

/// Why reading or writing a saved file failed.
#[derive(Debug, Clone, Copy, PartialEq, Eq, Structural)]
pub enum PersistError {
    /// Fewer than 14 header bytes.
    HeaderTooShort,
    /// The header carries another magic number.
    InvalidMagic { expected: u32, found: u32 },
    /// The header carries an unsupported format version.
    UnsupportedVersion { expected_version: u16, found_version: u16 },
    /// The file ends before the payload the header announces.
    PayloadTruncated,
    /// The payload's checksum differs from the header's.
    CrcMismatch { expected: u32, computed: u32 },
    /// Compression failed.
    CompressionFailed,
    /// The payload is not valid compressed data.
    DecompressionFailed,
    /// A chunk payload holds the wrong number of voxels.
    InvalidChunkData { expected_voxels: usize, found_voxels: usize },
}

/// The readable description of an error.
pub open spec fn error_text(e: PersistError) -> Seq<char> {
    match e {
        PersistError::HeaderTooShort => "header too short"@,
        PersistError::InvalidMagic { .. } => "invalid magic"@,
        PersistError::UnsupportedVersion { .. } => "unsupported version"@,
        PersistError::PayloadTruncated => "payload truncated"@,
        PersistError::CrcMismatch { .. } => "CRC32 mismatch"@,
        PersistError::CompressionFailed => "failed to compress"@,
        PersistError::DecompressionFailed => "failed to decompress"@,
        PersistError::InvalidChunkData { .. } => "invalid chunk data"@,
    }
}

impl PersistError {
    /// A readable description.
    pub fn message(&self) -> (res: String)
        ensures
            res@ == error_text(*self),
    {
        match self {
            PersistError::HeaderTooShort => String::from_str("header too short"),
            PersistError::InvalidMagic { .. } => String::from_str("invalid magic"),
            PersistError::UnsupportedVersion { .. } => String::from_str("unsupported version"),
            PersistError::PayloadTruncated => String::from_str("payload truncated"),
            PersistError::CrcMismatch { .. } => String::from_str("CRC32 mismatch"),
            PersistError::CompressionFailed => String::from_str("failed to compress"),
            PersistError::DecompressionFailed => String::from_str("failed to decompress"),
            PersistError::InvalidChunkData { .. } => String::from_str("invalid chunk data"),
        }
    }
}

/// Little-endian bytes of a 32-bit value.
pub open spec fn le32(v: u32) -> Seq<u8> {
    seq![(v & 0xff) as u8, ((v >> 8) & 0xff) as u8, ((v >> 16) & 0xff) as u8, ((v >> 24) & 0xff) as u8]
}

/// Little-endian bytes of a 16-bit value.
pub open spec fn le16(v: u16) -> Seq<u8> {
    seq![(v & 0xff) as u8, ((v >> 8) & 0xff) as u8]
}

/// The 32-bit value of four little-endian bytes.
pub open spec fn from_le32(b0: u8, b1: u8, b2: u8, b3: u8) -> u32 {
    (b0 as u32) | ((b1 as u32) << 8) | ((b2 as u32) << 16) | ((b3 as u32) << 24)
}

/// The 16-bit value of two little-endian bytes.
pub open spec fn from_le16(b0: u8, b1: u8) -> u16 {
    (b0 as u16) | ((b1 as u16) << 8)
}

/// The 14 header bytes: magic, version, CRC32, payload length, each little-endian.
pub open spec fn header_bytes(magic: u32, version: u16, crc32: u32, payload_len: u32) -> Seq<u8> {
    le32(magic) + le16(version) + le32(crc32) + le32(payload_len)
}

proof fn lemma_le32(v: u32)
    ensures
        from_le32(le32(v)[0], le32(v)[1], le32(v)[2], le32(v)[3]) == v,
{
    let b0 = (v & 0xff) as u8;
    let b1 = ((v >> 8) & 0xff) as u8;
    let b2 = ((v >> 16) & 0xff) as u8;
    let b3 = ((v >> 24) & 0xff) as u8;
    assert((b0 as u32) | ((b1 as u32) << 8) | ((b2 as u32) << 16) | ((b3 as u32) << 24) == v) by (bit_vector)
        requires
            b0 == (v & 0xff) as u8,
            b1 == ((v >> 8) & 0xff) as u8,
            b2 == ((v >> 16) & 0xff) as u8,
            b3 == ((v >> 24) & 0xff) as u8,
    ;
}

proof fn lemma_le16(v: u16)
    ensures
        from_le16(le16(v)[0], le16(v)[1]) == v,
{
    let b0 = (v & 0xff) as u8;
    let b1 = ((v >> 8) & 0xff) as u8;
    assert((b0 as u16) | ((b1 as u16) << 8) == v) by (bit_vector)
        requires
            b0 == (v & 0xff) as u8,
            b1 == ((v >> 8) & 0xff) as u8,
    ;
}

fn push_le32(out: &mut Vec<u8>, v: u32)
    ensures
        final(out)@ == old(out)@ + le32(v),
{
    out.push((v & 0xff) as u8);
    out.push(((v >> 8) & 0xff) as u8);
    out.push(((v >> 16) & 0xff) as u8);
    out.push(((v >> 24) & 0xff) as u8);
    assert(out@ =~= old(out)@ + le32(v));
}

fn push_le16(out: &mut Vec<u8>, v: u16)
    ensures
        final(out)@ == old(out)@ + le16(v),
{
    out.push((v & 0xff) as u8);
    out.push(((v >> 8) & 0xff) as u8);
    assert(out@ =~= old(out)@ + le16(v));
}

fn read_le32(bytes: &[u8], at: usize) -> (res: u32)
    requires
        at + 4 <= bytes@.len(),
    ensures
        res == from_le32(bytes@[at as int], bytes@[at + 1], bytes@[at + 2], bytes@[at + 3]),
{
    (bytes[at] as u32) | ((bytes[at + 1] as u32) << 8) | ((bytes[at + 2] as u32) << 16) | ((bytes[at
        + 3] as u32) << 24)
}

fn read_le16(bytes: &[u8], at: usize) -> (res: u16)
    requires
        at + 2 <= bytes@.len(),
    ensures
        res == from_le16(bytes@[at as int], bytes@[at + 1]),
{
    (bytes[at] as u16) | ((bytes[at + 1] as u16) << 8)
}

/// World meta stored alongside region data.
#[derive(Debug, Clone, Copy, PartialEq, Eq, Structural)]
pub struct WorldMeta {
    /// World seed used for deterministic world generation.
    pub world_seed: u64,
    /// Whether the End boss has been defeated in this world.
    pub end_boss_defeated: bool,
}

/// The header of a region file.
#[derive(Debug, Clone, Copy, PartialEq, Eq, Structural)]
pub struct RegionHeader {
    pub magic: u32,
    pub version: u16,
    pub crc32: u32,
    pub payload_len: u32,
}

/// The header fields decoded from the first 14 bytes.
pub open spec fn decoded_fields(bytes: Seq<u8>) -> (u32, u16, u32, u32) {
    (
        from_le32(bytes[0], bytes[1], bytes[2], bytes[3]),
        from_le16(bytes[4], bytes[5]),
        from_le32(bytes[6], bytes[7], bytes[8], bytes[9]),
        from_le32(bytes[10], bytes[11], bytes[12], bytes[13]),
    )
}

impl RegionHeader {
    /// A region header of the current format.
    pub fn new(crc32: u32, payload_len: u32) -> (res: Self)
        ensures
            res == (RegionHeader { magic: REGION_MAGIC, version: REGION_VERSION, crc32, payload_len }),
    {
        RegionHeader { magic: REGION_MAGIC, version: REGION_VERSION, crc32, payload_len }
    }

    /// The 14 header bytes.
    pub fn to_bytes(&self) -> (res: Vec<u8>)
        ensures
            res@ == header_bytes(self.magic, self.version, self.crc32, self.payload_len),
    {
        let mut bytes: Vec<u8> = Vec::with_capacity(HEADER_LEN);
        push_le32(&mut bytes, self.magic);
        push_le16(&mut bytes, self.version);
        push_le32(&mut bytes, self.crc32);
        push_le32(&mut bytes, self.payload_len);
        bytes
    }

    /// Decode a header from the first 14 bytes; fails on fewer bytes or another magic.
    pub fn from_bytes(bytes: &[u8]) -> (res: Result<Self, PersistError>)
        ensures
            bytes@.len() < 14 ==> res == Err::<Self, PersistError>(PersistError::HeaderTooShort),
            bytes@.len() >= 14 && decoded_fields(bytes@).0 != REGION_MAGIC ==> res == Err::<
                Self,
                PersistError,
            >(PersistError::InvalidMagic { expected: REGION_MAGIC, found: decoded_fields(bytes@).0 }),
            bytes@.len() >= 14 && decoded_fields(bytes@).0 == REGION_MAGIC ==> res == Ok::<
                Self,
                PersistError,
            >(
                RegionHeader {
                    magic: decoded_fields(bytes@).0,
                    version: decoded_fields(bytes@).1,
                    crc32: decoded_fields(bytes@).2,
                    payload_len: decoded_fields(bytes@).3,
                },
            ),
    {
        if bytes.len() < HEADER_LEN {
            return Err(PersistError::HeaderTooShort);
        }
        let magic = read_le32(bytes, 0);
        if magic != REGION_MAGIC {
            return Err(PersistError::InvalidMagic { expected: REGION_MAGIC, found: magic });
        }
        let version = read_le16(bytes, 4);
        let crc32 = read_le32(bytes, 6);
        let payload_len = read_le32(bytes, 10);
        Ok(RegionHeader { magic, version, crc32, payload_len })
    }
}

/// The header of a world meta or world state file.
#[derive(Debug, Clone, Copy, PartialEq, Eq, Structural)]
pub struct WorldBlobHeader {
    pub magic: u32,
    pub version: u16,
    pub crc32: u32,
    pub payload_len: u32,
}

impl WorldBlobHeader {
    pub fn new(magic: u32, version: u16, crc32: u32, payload_len: u32) -> (res: Self)
        ensures
            res == (WorldBlobHeader { magic, version, crc32, payload_len }),
    {
        WorldBlobHeader { magic, version, crc32, payload_len }
    }

    /// The 14 header bytes.
    pub fn to_bytes(&self) -> (res: Vec<u8>)
        ensures
            res@ == header_bytes(self.magic, self.version, self.crc32, self.payload_len),
    {
        let mut bytes: Vec<u8> = Vec::with_capacity(HEADER_LEN);
        push_le32(&mut bytes, self.magic);
        push_le16(&mut bytes, self.version);
        push_le32(&mut bytes, self.crc32);
        push_le32(&mut bytes, self.payload_len);
        bytes
    }

    /// Decode a header from the first 14 bytes; fails only on fewer bytes.
    pub fn from_bytes(bytes: &[u8]) -> (res: Result<Self, PersistError>)
        ensures
            bytes@.len() < 14 ==> res == Err::<Self, PersistError>(PersistError::HeaderTooShort),
            bytes@.len() >= 14 ==> res == Ok::<Self, PersistError>(
                WorldBlobHeader {
                    magic: decoded_fields(bytes@).0,
                    version: decoded_fields(bytes@).1,
                    crc32: decoded_fields(bytes@).2,
                    payload_len: decoded_fields(bytes@).3,
                },
            ),
    {
        if bytes.len() < HEADER_LEN {
            return Err(PersistError::HeaderTooShort);
        }
        let magic = read_le32(bytes, 0);
        let version = read_le16(bytes, 4);
        let crc32 = read_le32(bytes, 6);
        let payload_len = read_le32(bytes, 10);
        Ok(WorldBlobHeader { magic, version, crc32, payload_len })
    }
}

/// Decoding the bytes of a header gives back its fields.
pub proof fn law_header_roundtrip(magic: u32, version: u16, crc32: u32, payload_len: u32)
    ensures
        header_bytes(magic, version, crc32, payload_len).len() == 14,
        decoded_fields(header_bytes(magic, version, crc32, payload_len)) == (magic, version, crc32, payload_len),
{
    let b = header_bytes(magic, version, crc32, payload_len);
    lemma_le32(magic);
    lemma_le16(version);
    lemma_le32(crc32);
    lemma_le32(payload_len);
    assert(b[0] == le32(magic)[0] && b[1] == le32(magic)[1] && b[2] == le32(magic)[2] && b[3] == le32(magic)[3]);
    assert(b[4] == le16(version)[0] && b[5] == le16(version)[1]);
    assert(b[6] == le32(crc32)[0] && b[7] == le32(crc32)[1] && b[8] == le32(crc32)[2] && b[9] == le32(crc32)[3]);
    assert(b[10] == le32(payload_len)[0] && b[11] == le32(payload_len)[1] && b[12] == le32(payload_len)[2]
        && b[13] == le32(payload_len)[3]);
}

/// The region holding a chunk: chunk coordinates divided by 32, rounding down.
pub fn chunk_to_region(chunk_pos: ChunkPos) -> (res: (i32, i32))
    ensures
        res.0 == chunk_pos.x as int / 32,
        res.1 == chunk_pos.z as int / 32,
{
    (div_floor_32(chunk_pos.x), div_floor_32(chunk_pos.z))
}

fn div_floor_32(v: i32) -> (res: i32)
    ensures
        res == v as int / 32,
{
    let q = v / REGION_SIZE;
    let r = v % REGION_SIZE;
    if r < 0 {
        q - 1
    } else {
        q
    }
}

/// A saved file: a header followed by the compressed payload.
pub open spec fn framed(magic: u32, version: u16, compressed: Seq<u8>) -> Seq<u8> {
    header_bytes(magic, version, crc32_of(compressed), compressed.len() as u32) + compressed
}

fn frame(header: Vec<u8>, compressed: &[u8]) -> (res: Vec<u8>)
    ensures
        res@ == header@ + compressed@,
{
    let mut out = header;
    let mut i: usize = 0;
    let ghost h = out@;
    while i < compressed.len()
        invariant
            i <= compressed@.len(),
            out@ == h + compressed@.take(i as int),
        decreases compressed@.len() - i,
    {
        out.push(compressed[i]);
        i = i + 1;
        assert(out@ =~= h + compressed@.take(i as int));
    }
    assert(compressed@.take(compressed@.len() as int) =~= compressed@);
    out
}

fn compress(serialized: &[u8]) -> (res: Result<Vec<u8>, PersistError>)
    ensures
        res matches Ok(c) ==> c@ == zstd_encoded(serialized@, COMPRESSION_LEVEL) && zstd_decoded(c@) == Some(
            serialized@,
        ),
        res is Ok,
{
    match zstd_compress(serialized, COMPRESSION_LEVEL) {
        Ok(c) => Ok(c),
        Err(_) => Err(PersistError::CompressionFailed),
    }
}

/// Compress serialized region data and frame it as a region file.
pub fn encode_region_file(serialized: &[u8]) -> (res: Result<Vec<u8>, PersistError>)
    ensures
        res matches Ok(file) ==> file@ == framed(
            REGION_MAGIC,
            REGION_VERSION,
            zstd_encoded(serialized@, COMPRESSION_LEVEL),
        ) && zstd_decoded(zstd_encoded(serialized@, COMPRESSION_LEVEL)) == Some(serialized@),
        res is Ok,
{
    let compressed = compress(serialized)?;
    let header = RegionHeader::new(crc32(compressed.as_slice()), compressed.len() as u32);
    let file = frame(header.to_bytes(), compressed.as_slice());
    assert(file@ == framed(REGION_MAGIC, REGION_VERSION, compressed@));
    Ok(file)
}

/// The payload announced by a header, when the bytes hold it and its checksum matches.
fn checked_payload(bytes: &[u8], crc: u32, payload_len: u32) -> (res: Result<Vec<u8>, PersistError>)
    requires
        bytes@.len() >= 14,
    ensures
        bytes@.len() < 14 + payload_len ==> res == Err::<Vec<u8>, PersistError>(PersistError::PayloadTruncated),
        bytes@.len() >= 14 + payload_len && crc32_of(bytes@.subrange(14, 14 + payload_len)) != crc ==> res
            == Err::<Vec<u8>, PersistError>(
            PersistError::CrcMismatch { expected: crc, computed: crc32_of(bytes@.subrange(14, 14 + payload_len)) },
        ),
        bytes@.len() >= 14 + payload_len && crc32_of(bytes@.subrange(14, 14 + payload_len)) == crc ==> (
        res matches Ok(p) && p@ == bytes@.subrange(14, 14 + payload_len)),
{
    let len = payload_len as usize;
    let n = bytes.len();
    if n - HEADER_LEN < len {
        return Err(PersistError::PayloadTruncated);
    }
    let mut payload: Vec<u8> = Vec::new();
    let mut i: usize = 0;
    while i < len
        invariant
            i <= len,
            len == payload_len,
            n == bytes@.len(),
            14 + len <= n,
            payload@ == bytes@.subrange(14, 14 + i),
        decreases len - i,
    {
        payload.push(bytes[HEADER_LEN + i]);
        i = i + 1;
        assert(payload@ =~= bytes@.subrange(14, 14 + i));
    }
    let computed = crc32(payload.as_slice());
    if computed != crc {
        return Err(PersistError::CrcMismatch { expected: crc, computed });
    }
    Ok(payload)
}

fn decompress(compressed: &[u8]) -> (res: Result<Vec<u8>, PersistError>)
    ensures
        match res {
            Ok(v) => zstd_decoded(compressed@) == Some(v@),
            Err(e) => zstd_decoded(compressed@).is_none() && e == PersistError::DecompressionFailed,
        },
{
    match zstd_decompress(compressed) {
        Ok(v) => Ok(v),
        Err(_) => Err(PersistError::DecompressionFailed),
    }
}

/// Read a region file: check the header (length, magic, version), the payload length and
/// checksum, and decompress the payload to the serialized region data.
pub fn decode_region_file(bytes: &[u8]) -> (res: Result<Vec<u8>, PersistError>)
    ensures
        bytes@.len() < 14 ==> res == Err::<Vec<u8>, PersistError>(PersistError::HeaderTooShort),
        bytes@.len() >= 14 && decoded_fields(bytes@).0 != REGION_MAGIC ==> res == Err::<Vec<u8>, PersistError>(
            PersistError::InvalidMagic { expected: REGION_MAGIC, found: decoded_fields(bytes@).0 },
        ),
        bytes@.len() >= 14 && decoded_fields(bytes@).0 == REGION_MAGIC && decoded_fields(bytes@).1
            != REGION_VERSION ==> res == Err::<Vec<u8>, PersistError>(
            PersistError::UnsupportedVersion { expected_version: REGION_VERSION, found_version: decoded_fields(bytes@).1 },
        ),
        res matches Ok(data) ==> bytes@.len() >= 14 && decoded_fields(bytes@).0 == REGION_MAGIC
            && decoded_fields(bytes@).1 == REGION_VERSION && {
            let len = decoded_fields(bytes@).3;
            let payload = bytes@.subrange(14, 14 + len);
            &&& bytes@.len() >= 14 + len
            &&& crc32_of(payload) == decoded_fields(bytes@).2
            &&& zstd_decoded(payload) == Some(data@)
        },
        bytes@.len() >= 14 && decoded_fields(bytes@).0 == REGION_MAGIC && decoded_fields(bytes@).1
            == REGION_VERSION && bytes@.len() < 14 + decoded_fields(bytes@).3 ==> res == Err::<Vec<u8>, PersistError>(
            PersistError::PayloadTruncated,
        ),
        bytes@.len() >= 14 && decoded_fields(bytes@).0 == REGION_MAGIC && decoded_fields(bytes@).1
            == REGION_VERSION && bytes@.len() >= 14 + decoded_fields(bytes@).3 && crc32_of(
            bytes@.subrange(14, 14 + decoded_fields(bytes@).3),
        ) != decoded_fields(bytes@).2 ==> res == Err::<Vec<u8>, PersistError>(
            PersistError::CrcMismatch {
                expected: decoded_fields(bytes@).2,
                computed: crc32_of(bytes@.subrange(14, 14 + decoded_fields(bytes@).3)),
            },
        ),
        bytes@.len() >= 14 && decoded_fields(bytes@).0 == REGION_MAGIC && decoded_fields(bytes@).1
            == REGION_VERSION && bytes@.len() >= 14 + decoded_fields(bytes@).3 && crc32_of(
            bytes@.subrange(14, 14 + decoded_fields(bytes@).3),
        ) == decoded_fields(bytes@).2 && zstd_decoded(bytes@.subrange(14, 14 + decoded_fields(bytes@).3)) is None
            ==> res == Err::<Vec<u8>, PersistError>(PersistError::DecompressionFailed),
        (bytes@.len() >= 14 && decoded_fields(bytes@).0 == REGION_MAGIC && decoded_fields(bytes@).1
            == REGION_VERSION && bytes@.len() >= 14 + decoded_fields(bytes@).3 && crc32_of(
            bytes@.subrange(14, 14 + decoded_fields(bytes@).3),
        ) == decoded_fields(bytes@).2 && zstd_decoded(bytes@.subrange(14, 14 + decoded_fields(bytes@).3))
            is Some) ==> res is Ok,
        forall|c: Seq<u8>|
            c.len() <= u32::MAX && bytes@.len() >= 14 + c.len() && bytes@.subrange(0, 14 + c.len() as int)
                == #[trigger] framed(REGION_MAGIC, REGION_VERSION, c) ==> match zstd_decoded(
                c,
            ) {
                Some(data) => res matches Ok(d) && d@ == data,
                None => res == Err::<Vec<u8>, PersistError>(PersistError::DecompressionFailed),
            },
{
    proof {
        assert forall|c: Seq<u8>| c.len() <= u32::MAX && bytes@.len() >= 14 + c.len() && bytes@.subrange(0, 14 + c.len() as int)
            == #[trigger] framed(REGION_MAGIC, REGION_VERSION, c) implies (
            decoded_fields(bytes@) == (REGION_MAGIC, REGION_VERSION, crc32_of(c), c.len() as u32)
            && bytes@.subrange(14, 14 + c.len() as int) == c) by {
            lemma_framed_prefix(bytes@, REGION_MAGIC, REGION_VERSION, c);
        }
    }
    let header = RegionHeader::from_bytes(bytes)?;
    if header.version != REGION_VERSION {
        return Err(PersistError::UnsupportedVersion { expected_version: REGION_VERSION, found_version: header.version });
    }
    let compressed = checked_payload(bytes, header.crc32, header.payload_len)?;
    decompress(compressed.as_slice())
}

/// Bytes that start with a framed file (anything may follow) decode to its header fields
/// and hold its payload right after the header.
proof fn lemma_framed_prefix(bytes: Seq<u8>, magic: u32, version: u16, c: Seq<u8>)
    requires
        c.len() <= u32::MAX,
        bytes.len() >= 14 + c.len(),
        bytes.subrange(0, 14 + c.len() as int) == framed(magic, version, c),
    ensures
        decoded_fields(bytes) == (magic, version, crc32_of(c), c.len() as u32),
        bytes.subrange(14, 14 + c.len() as int) == c,
{
    law_framed_fields(magic, version, c);
    let f = framed(magic, version, c);
    assert forall|i: int| 0 <= i < 14 + c.len() implies bytes[i] == f[i] by {
        assert(bytes.subrange(0, 14 + c.len() as int)[i] == bytes[i]);
    }
    assert(decoded_fields(bytes) == decoded_fields(f));
    assert(bytes.subrange(14, 14 + c.len() as int) =~= f.subrange(14, 14 + c.len() as int));
}

/// The header of a framed file decodes to its magic, version, the payload's checksum and
/// length, and the payload follows it.
pub proof fn law_framed_fields(magic: u32, version: u16, compressed: Seq<u8>)
    requires
        compressed.len() <= u32::MAX,
    ensures
        ({
            let file = framed(magic, version, compressed);
            &&& file.len() == 14 + compressed.len()
            &&& decoded_fields(file) == (magic, version, crc32_of(compressed), compressed.len() as u32)
            &&& file.subrange(14, 14 + compressed.len() as int) == compressed
        }),
{
    let file = framed(magic, version, compressed);
    let h = header_bytes(magic, version, crc32_of(compressed), compressed.len() as u32);
    law_header_roundtrip(magic, version, crc32_of(compressed), compressed.len() as u32);
    assert forall|i: int| 0 <= i < 14 implies file[i] == h[i] by {}
    assert(decoded_fields(file) == decoded_fields(h));
    assert(file.subrange(14, 14 + compressed.len() as int) =~= compressed);
}

/// Compress a serialized world blob and frame it with the given magic and version.
pub fn encode_world_blob(magic: u32, version: u16, serialized: &[u8]) -> (res: Result<Vec<u8>, PersistError>)
    ensures
        res matches Ok(file) ==> file@ == framed(magic, version, zstd_encoded(serialized@, COMPRESSION_LEVEL))
            && zstd_decoded(zstd_encoded(serialized@, COMPRESSION_LEVEL)) == Some(serialized@),
        res is Ok,
{
    let compressed = compress(serialized)?;
    let header = WorldBlobHeader::new(magic, version, crc32(compressed.as_slice()), compressed.len() as u32);
    let file = frame(header.to_bytes(), compressed.as_slice());
    assert(file@ == framed(magic, version, compressed@));
    Ok(file)
}

/// Read a world blob: check the header length and magic, the version when one is expected,
/// the payload length and checksum, and decompress. Returns the header and the serialized
/// payload.
pub fn decode_world_blob(bytes: &[u8], expected_magic: u32, expected_version: Option<u16>) -> (res: Result<
    (WorldBlobHeader, Vec<u8>),
    PersistError,
>)
    ensures
        bytes@.len() < 14 ==> res == Err::<(WorldBlobHeader, Vec<u8>), PersistError>(
            PersistError::HeaderTooShort,
        ),
        bytes@.len() >= 14 && decoded_fields(bytes@).0 != expected_magic ==> res == Err::<
            (WorldBlobHeader, Vec<u8>),
            PersistError,
        >(PersistError::InvalidMagic { expected: expected_magic, found: decoded_fields(bytes@).0 }),
        bytes@.len() >= 14 && decoded_fields(bytes@).0 == expected_magic && (expected_version matches Some(
            v,
        ) && decoded_fields(bytes@).1 != v) ==> res == Err::<(WorldBlobHeader, Vec<u8>), PersistError>(
            PersistError::UnsupportedVersion { expected_version: expected_version.unwrap(), found_version: decoded_fields(bytes@).1 },
        ),
        bytes@.len() >= 14 && decoded_fields(bytes@).0 == expected_magic && (expected_version matches Some(v)
            ==> decoded_fields(bytes@).1 == v) && bytes@.len() < 14 + decoded_fields(bytes@).3 ==> res == Err::<
            (WorldBlobHeader, Vec<u8>),
            PersistError,
        >(PersistError::PayloadTruncated),
        bytes@.len() >= 14 && decoded_fields(bytes@).0 == expected_magic && (expected_version matches Some(v)
            ==> decoded_fields(bytes@).1 == v) && bytes@.len() >= 14 + decoded_fields(bytes@).3 && crc32_of(
            bytes@.subrange(14, 14 + decoded_fields(bytes@).3),
        ) != decoded_fields(bytes@).2 ==> res == Err::<(WorldBlobHeader, Vec<u8>), PersistError>(
            PersistError::CrcMismatch {
                expected: decoded_fields(bytes@).2,
                computed: crc32_of(bytes@.subrange(14, 14 + decoded_fields(bytes@).3)),
            },
        ),
        bytes@.len() >= 14 && decoded_fields(bytes@).0 == expected_magic && (expected_version matches Some(v)
            ==> decoded_fields(bytes@).1 == v) && bytes@.len() >= 14 + decoded_fields(bytes@).3 && crc32_of(
            bytes@.subrange(14, 14 + decoded_fields(bytes@).3),
        ) == decoded_fields(bytes@).2 && zstd_decoded(bytes@.subrange(14, 14 + decoded_fields(bytes@).3)) is None
            ==> res == Err::<(WorldBlobHeader, Vec<u8>), PersistError>(PersistError::DecompressionFailed),
        res matches Ok(r) ==> bytes@.len() >= 14 && r.0.magic == expected_magic && decoded_fields(bytes@)
            == (r.0.magic, r.0.version, r.0.crc32, r.0.payload_len) && (expected_version matches Some(v)
            ==> r.0.version == v) && {
            let payload = bytes@.subrange(14, 14 + r.0.payload_len);
            &&& bytes@.len() >= 14 + r.0.payload_len
            &&& crc32_of(payload) == r.0.crc32
            &&& zstd_decoded(payload) == Some(r.1@)
        },
        forall|c: Seq<u8>, version: u16|
            c.len() <= u32::MAX && bytes@.len() >= 14 + c.len() && bytes@.subrange(0, 14 + c.len() as int)
                == #[trigger] framed(expected_magic, version, c) && (
            expected_version matches Some(v) ==> v == version) ==> match zstd_decoded(c) {
                Some(data) => res matches Ok(r) && r.1@ == data && r.0.version == version,
                None => res == Err::<(WorldBlobHeader, Vec<u8>), PersistError>(
                    PersistError::DecompressionFailed,
                ),
            },
{
    proof {
        assert forall|c: Seq<u8>, version: u16| c.len() <= u32::MAX && bytes@.len() >= 14 + c.len() && bytes@.subrange(
            0,
            14 + c.len() as int,
        ) == #[trigger] framed(expected_magic, version, c) implies (
            decoded_fields(bytes@) == (expected_magic, version, crc32_of(c), c.len() as u32)
            && bytes@.subrange(14, 14 + c.len() as int) == c) by {
            lemma_framed_prefix(bytes@, expected_magic, version, c);
        }
    }
    let header = WorldBlobHeader::from_bytes(bytes)?;
    if header.magic != expected_magic {
        return Err(PersistError::InvalidMagic { expected: expected_magic, found: header.magic });
    }
    match expected_version {
        Some(v) => {
            if header.version != v {
                return Err(PersistError::UnsupportedVersion { expected_version: v, found_version: header.version });
            }
        },
        None => {},
    }
    let compressed = checked_payload(bytes, header.crc32, header.payload_len)?;
    let data = decompress(compressed.as_slice())?;
    Ok((header, data))
}

/// Build a chunk from a decoded voxel payload, which must hold exactly one voxel per cell
/// in linear index order.
pub fn chunk_from_voxels(pos: ChunkPos, voxels: &Vec<Voxel>) -> (res: Result<Chunk, PersistError>)
    ensures
        voxels@.len() != CHUNK_VOLUME ==> res == Err::<Chunk, PersistError>(
            PersistError::InvalidChunkData { expected_voxels: CHUNK_VOLUME, found_voxels: voxels@.len() as usize },
        ),
        voxels@.len() == CHUNK_VOLUME ==> (res matches Ok(c) && c.wf() && c.spec_pos() == pos && c.cells()
            == voxels@),
{
    if voxels.len() != CHUNK_VOLUME {
        return Err(PersistError::InvalidChunkData { expected_voxels: CHUNK_VOLUME, found_voxels: voxels.len() });
    }
    let mut chunk = Chunk::new(pos);
    let mut idx: usize = 0;
    while idx < voxels.len()
        invariant
            voxels@.len() == CHUNK_VOLUME,
            idx <= CHUNK_VOLUME,
            chunk.wf(),
            chunk.spec_pos() == pos,
            forall|j: int| 0 <= j < idx ==> #[trigger] chunk.cells()[j] == voxels@[j],
        decreases CHUNK_VOLUME - idx,
    {
        let x = idx % 16;
        let z = (idx / 16) % 16;
        let y = idx / 256;
        proof {
            assert(y * 256 + z * 16 + x == idx) by (nonlinear_arith)
                requires
                    x == idx % 16,
                    z == (idx / 16) % 16,
                    y == idx / 256,
            ;
            assert(y < 256) by (nonlinear_arith)
                requires
                    y == idx / 256,
                    idx < 65536,
            ;
        }
        chunk.set_voxel(x, y, z, voxels[idx]);
        idx = idx + 1;
    }
    assert(chunk.cells() =~= voxels@);
    Ok(chunk)
}

} // verus!
