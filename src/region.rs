use std::io::{Read, Write};

use flate2::read::{GzDecoder, ZlibDecoder};
use flate2::write::ZlibEncoder;
use vstd::prelude::*;

use crate::nbt::{NbtCompound, NbtError, NbtValue, be32, children_encodable, lookup};
use crate::nbt_read::{lemma_nbt_round_trip, parse_root, root_bytes, well_formed};

verus! {

/// The bytes of a sector of a region file.
pub const SECTOR_BYTES: usize = 4096;

/// The chunks of a region file: 32 by 32.
pub const REGION_CHUNKS: usize = 1024;

/// What gzip decoding gives for some bytes: the data, or nothing when they
/// are no gzip stream.
pub uninterp spec fn gunzipped(b: Seq<u8>) -> Option<Seq<u8>>;

/// What zlib decoding gives for some bytes: the data, or nothing when they
/// are no zlib stream.
pub uninterp spec fn inflated(b: Seq<u8>) -> Option<Seq<u8>>;

/// What zlib encoding at the default level makes of some bytes.
pub uninterp spec fn deflated(b: Seq<u8>) -> Seq<u8>;

/// Relies on `flate2::read::GzDecoder`: reading it to the end gives the
/// decoded data, and fails on bytes that are no gzip stream.
#[verifier::external_body]
fn gunzip(data: &[u8]) -> (r: Option<Vec<u8>>)
    ensures
        match r {
            Some(v) => gunzipped(data@) == Some(v@),
            None => gunzipped(data@) is None,
        },
{
    let mut out = Vec::new();
    GzDecoder::new(data).read_to_end(&mut out).ok().map(|_| out)
}

/// Relies on `flate2::read::ZlibDecoder`: reading it to the end gives the
/// decoded data, and fails on bytes that are no zlib stream.
#[verifier::external_body]
fn inflate(data: &[u8]) -> (r: Option<Vec<u8>>)
    ensures
        match r {
            Some(v) => inflated(data@) == Some(v@),
            None => inflated(data@) is None,
        },
{
    let mut out = Vec::new();
    ZlibDecoder::new(data).read_to_end(&mut out).ok().map(|_| out)
}

/// Relies on `flate2::write::ZlibEncoder` at the default level: writing
/// into a `Vec` cannot fail, and the stream it finishes decodes back to the
/// input (it is lossless).
#[verifier::external_body]
fn deflate(data: &[u8]) -> (r: Vec<u8>)
    ensures
        r@ == deflated(data@),
        inflated(r@) == Some(data@),
{
    let mut encoder = ZlibEncoder::new(Vec::new(), flate2::Compression::default());
    let _ = encoder.write_all(data);
    encoder.finish().unwrap_or_default()
}

/// How a chunk payload is compressed.
#[derive(Clone, Copy, Debug, PartialEq, Eq, Structural)]
pub enum CompressionScheme {
    GZip,
    ZLib,
    NoCompression,
    LZ4,
}

pub open spec fn scheme_of(b: u8) -> Option<CompressionScheme> {
    if b == 1 {
        Some(CompressionScheme::GZip)
    } else if b == 2 {
        Some(CompressionScheme::ZLib)
    } else if b == 3 {
        Some(CompressionScheme::NoCompression)
    } else if b == 4 {
        Some(CompressionScheme::LZ4)
    } else {
        None
    }
}

impl CompressionScheme {
    /// The scheme of a compression byte: 1 gzip, 2 zlib, 3 none, 4 LZ4.
    pub fn from_byte(b: u8) -> (r: Option<CompressionScheme>)
        ensures
            r == scheme_of(b),
    {
        match b {
            1 => Some(CompressionScheme::GZip),
            2 => Some(CompressionScheme::ZLib),
            3 => Some(CompressionScheme::NoCompression),
            4 => Some(CompressionScheme::LZ4),
            _ => None,
        }
    }

    pub fn to_byte(&self) -> (r: u8)
        ensures
            scheme_of(r) == Some(*self),
    {
        match self {
            CompressionScheme::GZip => 1,
            CompressionScheme::ZLib => 2,
            CompressionScheme::NoCompression => 3,
            CompressionScheme::LZ4 => 4,
        }
    }
}

/// Why a chunk could not be read from a region file.
#[derive(Clone, Copy, Debug, PartialEq, Eq, Structural)]
pub enum RegionError {
    /// The header has no entry for the chunk.
    ChunkNotExist,
    /// The file is shorter than its header or a payload says.
    Truncated,
    /// A compression byte outside 1..=4.
    UnknownCompression(u8),
    /// A scheme this library does not decode.
    UnsupportedCompression,
    /// The payload does not decompress.
    Decompression,
    /// The decompressed payload is no NBT compound, or the compound cannot
    /// be encoded.
    Nbt(NbtError),
    /// A payload of more than 255 sectors, or past the 24-bit sector offsets.
    TooLarge,
}

/// Where a chunk lies in its region file: the first sector and the number
/// of sectors.
#[derive(Clone, Copy, Debug, PartialEq, Eq, Structural)]
pub struct ChunkLocation {
    pub offset: u32,
    pub sector_count: u8,
}

/// The place of a chunk in its region's tables: `(x & 31) + 32 * (z & 31)`.
pub open spec fn spec_chunk_index(cx: i32, cz: i32) -> int {
    (cx as int % 32) + 32 * (cz as int % 32)
}

pub fn chunk_index(cx: i32, cz: i32) -> (r: usize)
    ensures
        r == spec_chunk_index(cx, cz),
        r < REGION_CHUNKS,
{
    let x = cx & 31;
    let z = cz & 31;
    assert(0 <= x < 32 && x == cx as int % 32) by (bit_vector)
        requires
            x == cx & 31,
    ;
    assert(0 <= z < 32 && z == cz as int % 32) by (bit_vector)
        requires
            z == cz & 31,
    ;
    (x + 32 * z) as usize
}

/// The location entry at `index` of a header: a 24-bit big-endian sector
/// offset, then the sector count; an all-zero entry means no chunk.
pub open spec fn location_at(header: Seq<u8>, index: int) -> Option<ChunkLocation> {
    let p = 4 * index;
    if header[p] == 0 && header[p + 1] == 0 && header[p + 2] == 0 && header[p + 3] == 0 {
        None
    } else {
        Some(
            ChunkLocation {
                offset: (header[p] as int * 0x1_0000 + header[p + 1] as int * 0x100 + header[p
                    + 2] as int) as u32,
                sector_count: header[p + 3],
            },
        )
    }
}

pub fn read_location(header: &[u8], index: usize) -> (r: Option<ChunkLocation>)
    requires
        index < REGION_CHUNKS,
        header@.len() >= 2 * SECTOR_BYTES,
    ensures
        r == location_at(header@, index as int),
{
    let p = 4 * index;
    let (a, b, c, d) = (header[p], header[p + 1], header[p + 2], header[p + 3]);
    if a == 0 && b == 0 && c == 0 && d == 0 {
        None
    } else {
        Some(
            ChunkLocation {
                offset: (a as u32) * 0x1_0000 + (b as u32) * 0x100 + (c as u32),
                sector_count: d,
            },
        )
    }
}

/// The timestamp entry at `index`: a big-endian u32 in the second table.
pub fn read_timestamp(header: &[u8], index: usize) -> (r: u32)
    requires
        index < REGION_CHUNKS,
        header@.len() >= 2 * SECTOR_BYTES,
    ensures
        r == header@[4096 + 4 * index] as int * 0x100_0000 + header@[4096 + 4 * index + 1] as int
            * 0x1_0000 + header@[4096 + 4 * index + 2] as int * 0x100 + header@[4096 + 4 * index
            + 3] as int,
{
    let p = SECTOR_BYTES + 4 * index;
    (header[p] as u32) * 0x100_0000 + (header[p + 1] as u32) * 0x1_0000 + (header[p + 2] as u32)
        * 0x100 + (header[p + 3] as u32)
}

/// Writes the location entry at `index`, the rest of the header unchanged.
pub fn write_location(header: &mut Vec<u8>, index: usize, loc: ChunkLocation)
    requires
        index < REGION_CHUNKS,
        old(header)@.len() >= 2 * SECTOR_BYTES,
        loc.offset < 0x100_0000,
    ensures
        final(header)@.len() == old(header)@.len(),
        forall|i: int|
            0 <= i < old(header)@.len() && !(4 * index <= i < 4 * index + 4) ==> final(header)@[i] == old(header)@[i],
        final(header)@[4 * index] as int * 0x1_0000 + final(header)@[4 * index + 1] as int * 0x100
            + final(header)@[4 * index + 2] as int == loc.offset,
        final(header)@[4 * index + 3] == loc.sector_count,
{
    let p = 4 * index;
    header.set(p, (loc.offset / 0x1_0000) as u8);
    header.set(p + 1, ((loc.offset / 0x100) % 0x100) as u8);
    header.set(p + 2, (loc.offset % 0x100) as u8);
    header.set(p + 3, loc.sector_count);
}

/// A location that is written is read back, unless it is all zero.
pub proof fn lemma_location_round_trip(header: Seq<u8>, index: int, loc: ChunkLocation)
    requires
        0 <= index < 1024,
        header.len() >= 8192,
        loc.offset < 0x100_0000,
        loc.offset != 0 || loc.sector_count != 0,
        header[4 * index] as int * 0x1_0000 + header[4 * index + 1] as int * 0x100 + header[4
            * index + 2] as int == loc.offset,
        header[4 * index + 3] == loc.sector_count,
    ensures
        location_at(header, index) == Some(loc),
{
}

/// The sectors that `len` bytes take.
pub open spec fn sectors_for(len: nat) -> nat {
    ((len + 4095) / 4096) as nat
}

pub fn sectors_needed(len: usize) -> (r: u32)
    requires
        len <= u32::MAX,
    ensures
        r == sectors_for(len as nat),
{
    ((len as u64 + 4095) / 4096) as u32
}

/// Where a payload of `needed` sectors goes: the chunk's own sectors when it
/// fits there (and they lie past the header), else the end of the file,
/// never inside the header.
pub open spec fn spec_allocate(existing: Option<ChunkLocation>, needed: nat, file_sectors: nat) -> nat {
    match existing {
        Some(loc) => if needed <= loc.sector_count && loc.offset >= 2 {
            loc.offset as nat
        } else if file_sectors < 2 {
            2
        } else {
            file_sectors
        },
        None => if file_sectors < 2 {
            2
        } else {
            file_sectors
        },
    }
}

pub fn allocate(existing: Option<ChunkLocation>, needed: u32, file_sectors: u64) -> (r: u64)
    ensures
        r == spec_allocate(existing, needed as nat, file_sectors as nat),
{
    let end = if file_sectors < 2 {
        2
    } else {
        file_sectors
    };
    match existing {
        Some(loc) => if needed <= loc.sector_count as u32 && loc.offset >= 2 {
            loc.offset as u64
        } else {
            end
        },
        None => end,
    }
}

/// The payload at a location: its length field, the compression byte, and
/// the `length - 1` bytes after it, all within the file and the location's
/// sectors.
pub open spec fn payload_at(file: Seq<u8>, loc: ChunkLocation) -> Result<(u8, Seq<u8>), RegionError> {
    let start = loc.offset as int * 4096;
    if start + 5 > file.len() {
        Err(RegionError::Truncated)
    } else {
        let len = file[start] as int * 0x100_0000 + file[start + 1] as int * 0x1_0000 + file[start
            + 2] as int * 0x100 + file[start + 3] as int;
        if len < 1 || start + 4 + len > file.len() || 4 + len > loc.sector_count as int * 4096 {
            Err(RegionError::Truncated)
        } else {
            Ok((file[start + 4], file.subrange(start + 5, start + 4 + len)))
        }
    }
}

pub fn read_payload_at(file: &[u8], loc: ChunkLocation) -> (r: Result<(u8, Vec<u8>), RegionError>)
    ensures
        match payload_at(file@, loc) {
            Ok((c, d)) => r matches Ok((c2, d2)) && c2 == c && d2@ == d,
            Err(e) => r == Err::<(u8, Vec<u8>), RegionError>(e),
        },
{
    let len = file.len();
    let start: u64 = (loc.offset as u64) * 4096;
    if start + 5 > len as u64 {
        return Err(RegionError::Truncated);
    }
    let s = start as usize;
    let n: u64 = (file[s] as u64) * 0x100_0000 + (file[s + 1] as u64) * 0x1_0000 + (file[s + 2]
        as u64) * 0x100 + (file[s + 3] as u64);
    if n < 1 || start + 4 + n > len as u64 || 4 + n > (loc.sector_count as u64) * 4096 {
        return Err(RegionError::Truncated);
    }
    let end = s + 4 + n as usize;
    let mut data: Vec<u8> = Vec::new();
    let mut i: usize = s + 5;
    while i < end
        invariant
            s + 5 <= i <= end <= file@.len(),
            data@ == file@.subrange(s + 5, i as int),
        decreases end - i,
    {
        data.push(file[i]);
        i = i + 1;
        assert(data@ =~= file@.subrange(s + 5, i as int));
    }
    Ok((file[s + 4], data))
}

/// What a payload decompresses to under its compression byte.
pub open spec fn decompressed(c: u8, data: Seq<u8>) -> Result<Seq<u8>, RegionError> {
    match scheme_of(c) {
        None => Err(RegionError::UnknownCompression(c)),
        Some(CompressionScheme::GZip) => match gunzipped(data) {
            Some(d) => Ok(d),
            None => Err(RegionError::Decompression),
        },
        Some(CompressionScheme::ZLib) => match inflated(data) {
            Some(d) => Ok(d),
            None => Err(RegionError::Decompression),
        },
        Some(CompressionScheme::NoCompression) => Ok(data),
        Some(CompressionScheme::LZ4) => Err(RegionError::UnsupportedCompression),
    }
}

pub fn decompress(c: u8, data: Vec<u8>) -> (r: Result<Vec<u8>, RegionError>)
    ensures
        match decompressed(c, data@) {
            Ok(d) => r matches Ok(v) && v@ == d,
            Err(e) => r == Err::<Vec<u8>, RegionError>(e),
        },
{
    match CompressionScheme::from_byte(c) {
        None => Err(RegionError::UnknownCompression(c)),
        Some(CompressionScheme::GZip) => match gunzip(data.as_slice()) {
            Some(d) => Ok(d),
            None => Err(RegionError::Decompression),
        },
        Some(CompressionScheme::ZLib) => match inflate(data.as_slice()) {
            Some(d) => Ok(d),
            None => Err(RegionError::Decompression),
        },
        Some(CompressionScheme::NoCompression) => Ok(data),
        Some(CompressionScheme::LZ4) => Err(RegionError::UnsupportedCompression),
    }
}

/// The chunk compound that a region file holds for chunk `(cx, cz)`.
pub open spec fn chunk_in_region(file: Seq<u8>, cx: i32, cz: i32) -> Result<
    Seq<(Seq<char>, NbtValue)>,
    RegionError,
> {
    if file.len() < 8192 {
        Err(RegionError::Truncated)
    } else {
        match location_at(file, spec_chunk_index(cx, cz)) {
        None => Err(RegionError::ChunkNotExist),
        Some(loc) => match payload_at(file, loc) {
            Err(e) => Err(e),
            Ok((c, data)) => match decompressed(c, data) {
                Err(e) => Err(e),
                Ok(bytes) => match parse_root(bytes) {
                    Err(e) => Err(RegionError::Nbt(e)),
                    Ok(cs) => Ok(cs),
                },
            },
        },
        }
    }
}

/// Reads the compound of chunk `(cx, cz)` from the bytes of its region file.
pub fn read_chunk_nbt(file: &[u8], cx: i32, cz: i32) -> (r: Result<NbtCompound, RegionError>)
    ensures
        match chunk_in_region(file@, cx, cz) {
            Ok(cs) => r matches Ok(c) && c.value() == cs,
            Err(e) => r matches Err(e2) && e2 == e,
        },
{
    if file.len() < 2 * SECTOR_BYTES {
        return Err(RegionError::Truncated);
    }
    let index = chunk_index(cx, cz);
    let loc = match read_location(file, index) {
        Some(loc) => loc,
        None => {
            return Err(RegionError::ChunkNotExist);
        },
    };
    let (c, data) = read_payload_at(file, loc)?;
    let bytes = decompress(c, data)?;
    match NbtCompound::read_root(bytes.as_slice()) {
        Ok(compound) => Ok(compound),
        Err(e) => Err(RegionError::Nbt(e)),
    }
}

/// A payload as stored: length (the data and the compression byte), the
/// zlib byte 2, the compressed data.
pub open spec fn framed(compressed: Seq<u8>) -> Seq<u8> {
    be32((compressed.len() + 1) as u32) + seq![2u8] + compressed
}

/// The stored payload of a chunk compound: its root bytes, zlib-compressed
/// and framed.
pub fn encode_chunk_payload(nbt: &NbtCompound) -> (r: Result<Vec<u8>, RegionError>)
    ensures
        r matches Ok(v) ==> v@ == framed(deflated(root_bytes(nbt.value()))) && inflated(
            deflated(root_bytes(nbt.value())),
        ) == Some(root_bytes(nbt.value())),
        r matches Err(RegionError::Nbt(_)) ==> !children_encodable(nbt.value()),
        children_encodable(nbt.value()) ==> !(r matches Err(RegionError::Nbt(_))),
        children_encodable(nbt.value()) && deflated(root_bytes(nbt.value())).len() < 0xFFFF_FFFF
            ==> r is Ok,
        r matches Err(RegionError::TooLarge) ==> deflated(root_bytes(nbt.value())).len()
            >= 0xFFFF_FFFF,
{
    let mut raw: Vec<u8> = Vec::new();
    match nbt.write_root(&mut raw) {
        Ok(()) => {},
        Err(e) => {
            return Err(RegionError::Nbt(e));
        },
    }
    assert(raw@ =~= root_bytes(nbt.value()));
    let compressed = deflate(raw.as_slice());
    if compressed.len() >= 0xFFFF_FFFF {
        return Err(RegionError::TooLarge);
    }
    let n: u32 = (compressed.len() + 1) as u32;
    let mut out: Vec<u8> = Vec::new();
    out.push((n / 0x100_0000) as u8);
    out.push(((n / 0x1_0000) % 0x100) as u8);
    out.push(((n / 0x100) % 0x100) as u8);
    out.push((n % 0x100) as u8);
    out.push(2u8);
    let ghost head = out@;
    let mut i: usize = 0;
    while i < compressed.len()
        invariant
            i <= compressed@.len(),
            out@ == head + compressed@.subrange(0, i as int),
        decreases compressed@.len() - i,
    {
        out.push(compressed[i]);
        i = i + 1;
        assert(out@ =~= head + compressed@.subrange(0, i as int));
    }
    assert(compressed@.subrange(0, compressed@.len() as int) =~= compressed@);
    assert(out@ =~= framed(compressed@));
    Ok(out)
}

/// A payload fits a region file: at most 255 sectors, ending below sector
/// 2^24 and within the address space.
pub open spec fn write_fits(file_len: nat, existing: Option<ChunkLocation>, payload_len: nat) -> bool {
    let needed = sectors_for(payload_len);
    let offset = spec_allocate(existing, needed, ((file_len + 4095) / 4096) as nat);
    &&& payload_len <= 255 * 4096
    &&& offset + needed < 0x100_0000
    &&& (offset + needed) * 4096 <= usize::MAX
}

/// Puts a stored payload into a region file for chunk `(cx, cz)`: in the
/// chunk's own sectors when it fits, else at the end, then points the
/// header at it.
pub fn write_chunk_into(file: &mut Vec<u8>, cx: i32, cz: i32, payload: &Vec<u8>) -> (r: Result<
    ChunkLocation,
    RegionError,
>)
    requires
        old(file)@.len() >= 2 * SECTOR_BYTES,
        payload@.len() >= 1,
    ensures
        r is Err ==> *final(file) == *old(file),
        r matches Ok(loc) ==> {
            &&& loc.sector_count as nat == sectors_for(payload@.len())
            &&& loc.offset >= 2
            &&& location_at(final(file)@, spec_chunk_index(cx, cz)) == Some(loc)
            &&& final(file)@.len() >= (loc.offset as int + loc.sector_count as int) * 4096
            &&& final(file)@.subrange(
                loc.offset as int * 4096,
                loc.offset as int * 4096 + payload@.len(),
            ) == payload@
        },
        r is Ok <==> write_fits(
            old(file)@.len(),
            location_at(old(file)@, spec_chunk_index(cx, cz)),
            payload@.len(),
        ),
{
    if payload.len() > 255 * SECTOR_BYTES {
        return Err(RegionError::TooLarge);
    }
    let index = chunk_index(cx, cz);
    let existing = read_location(file.as_slice(), index);
    let needed = sectors_needed(payload.len());
    let len = file.len();
    let file_sectors: u64 = len as u64 / 4096 + if len % 4096 != 0 {
        1
    } else {
        0
    };
    let offset64 = allocate(existing, needed, file_sectors);
    if offset64 + needed as u64 >= 0x100_0000 {
        return Err(RegionError::TooLarge);
    }
    if (offset64 + needed as u64) * 4096 > usize::MAX as u64 {
        return Err(RegionError::TooLarge);
    }
    let offset = offset64 as u32;
    let start: usize = (offset64 * 4096) as usize;
    let end: usize = ((offset64 + needed as u64) * 4096) as usize;
    let ghost before = file@;
    while file.len() < end
        invariant
            file@.len() >= before.len(),
            forall|i: int| 0 <= i < before.len() ==> file@[i] == before[i],
        decreases end - file@.len(),
    {
        file.push(0u8);
    }
    assert(payload@.len() <= needed * 4096) by (nonlinear_arith)
        requires
            needed == (payload@.len() + 4095) / 4096,
    ;
    let mut i: usize = 0;
    while i < payload.len()
        invariant
            i <= payload@.len(),
            start + payload@.len() <= end,
            file@.len() >= end,
            end == (offset + needed) * 4096,
            start == offset * 4096,
            offset >= 2,
            before.len() >= 8192,
            forall|j: int| 0 <= j < 8192 ==> file@[j] == before[j],
            forall|j: int| 0 <= j < i ==> file@[start + j] == payload@[j],
        decreases payload@.len() - i,
    {
        file.set(start + i, payload[i]);
        i = i + 1;
    }
    let loc = ChunkLocation { offset, sector_count: needed as u8 };
    write_location(file, index, loc);
    proof {
        assert(file@.subrange(start as int, start + payload@.len()) =~= payload@);
    }
    Ok(loc)
}

proof fn lemma_framed_payload(file: Seq<u8>, loc: ChunkLocation, z: Seq<u8>)
    requires
        loc.sector_count as nat == sectors_for(framed(z).len()),
        file.len() >= (loc.offset as int + loc.sector_count as int) * 4096,
        file.subrange(loc.offset as int * 4096, loc.offset as int * 4096 + framed(z).len())
            == framed(z),
        framed(z).len() <= u32::MAX,
    ensures
        payload_at(file, loc) == Ok::<(u8, Seq<u8>), RegionError>((2u8, z)),
{
    let p = framed(z);
    let start = loc.offset as int * 4096;
    let n = (z.len() + 1) as u32;
    assert(p.len() == z.len() + 5);
    assert(file[start + 4] == p[4]);
    assert(file[start] == p[0] && file[start + 1] == p[1] && file[start + 2] == p[2] && file[start
        + 3] == p[3]);
    assert(p[0] as int * 0x100_0000 + p[1] as int * 0x1_0000 + p[2] as int * 0x100 + p[3] as int
        == n);
    assert(p.len() <= sectors_for(p.len()) * 4096) by (nonlinear_arith);
    assert(file.subrange(start + 5, start + 4 + n) =~= z) by {
        assert forall|k: int| 0 <= k < z.len() implies file.subrange(start + 5, start + 4 + n)[k]
            == z[k] by {
            assert(file[start + 5 + k] == p[5 + k]);
        }
    }
}

/// A chunk compound written into a region file reads back as itself, for
/// every well-formed compound.
pub proof fn lemma_region_round_trip(
    file: Seq<u8>,
    cx: i32,
    cz: i32,
    loc: ChunkLocation,
    cs: Seq<(Seq<char>, NbtValue)>,
)
    requires
        well_formed(NbtValue::Compound(cs)),
        inflated(deflated(root_bytes(cs))) == Some(root_bytes(cs)),
        file.len() >= 8192,
        location_at(file, spec_chunk_index(cx, cz)) == Some(loc),
        loc.sector_count as nat == sectors_for(framed(deflated(root_bytes(cs))).len()),
        file.len() >= (loc.offset as int + loc.sector_count as int) * 4096,
        file.subrange(
            loc.offset as int * 4096,
            loc.offset as int * 4096 + framed(deflated(root_bytes(cs))).len(),
        ) == framed(deflated(root_bytes(cs))),
        framed(deflated(root_bytes(cs))).len() <= u32::MAX,
    ensures
        chunk_in_region(file, cx, cz) == Ok::<Seq<(Seq<char>, NbtValue)>, RegionError>(cs),
{
    let z = deflated(root_bytes(cs));
    lemma_framed_payload(file, loc, z);
    assert(decompressed(2, z) == Ok::<Seq<u8>, RegionError>(root_bytes(cs)));
    lemma_nbt_round_trip(cs);
}

/// The compound of a `level.dat`: a gzip-compressed root compound.
pub open spec fn level_dat(bytes: Seq<u8>) -> Result<Seq<(Seq<char>, NbtValue)>, RegionError> {
    match gunzipped(bytes) {
        None => Err(RegionError::Decompression),
        Some(d) => match parse_root(d) {
            Err(e) => Err(RegionError::Nbt(e)),
            Ok(cs) => Ok(cs),
        },
    }
}

pub fn read_level_dat(bytes: &[u8]) -> (r: Result<NbtCompound, RegionError>)
    ensures
        match level_dat(bytes@) {
            Ok(cs) => r matches Ok(c) && c.value() == cs,
            Err(e) => r matches Err(e2) && e2 == e,
        },
{
    match gunzip(bytes) {
        None => Err(RegionError::Decompression),
        Some(d) => match NbtCompound::read_root(d.as_slice()) {
            Ok(c) => Ok(c),
            Err(e) => Err(RegionError::Nbt(e)),
        },
    }
}

/// The world seed of a `level.dat` compound: `Data.WorldGenSettings.seed`.
pub open spec fn spec_level_seed(cs: Seq<(Seq<char>, NbtValue)>) -> Option<i64> {
    match lookup(cs, "Data"@) {
        Some(NbtValue::Compound(data)) => match lookup(data, "WorldGenSettings"@) {
            Some(NbtValue::Compound(settings)) => match lookup(settings, "seed"@) {
                Some(NbtValue::Long(seed)) => Some(seed),
                _ => None,
            },
            _ => None,
        },
        _ => None,
    }
}

pub fn level_seed(level: &NbtCompound) -> (r: Option<i64>)
    ensures
        r == spec_level_seed(level.value()),
{
    proof {
        reveal_strlit("Data");
        reveal_strlit("WorldGenSettings");
        reveal_strlit("seed");
    }
    let data = level.get_compound("Data")?;
    let settings = data.get_compound("WorldGenSettings")?;
    settings.get_long("seed")
}

} // verus!
