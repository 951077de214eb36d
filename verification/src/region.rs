//! The region container layer: the fixed 1024-entry location table,
//! sector-based chunk framing, zlib decompression, and the reader that walks
//! all slots and decodes each present chunk's NBT tree.

use vstd::prelude::*;

use crate::bytes::{as_i32, be32, read_data, read_u32, to_i32};
use crate::nbt::{read_nbt, spec_read_nbt, NbtTag, SpecTag};
use crate::NbtError;

verus! {

/// Number of bytes in one sector, the addressing unit of chunk offsets.
pub const SECTOR_SIZE: usize = 4096;

/// Number of chunk slots in a region file's location table.
pub const SLOT_COUNT: usize = 1024;

/// One location-table entry: where a chunk slot's data lives.
///
/// `offset` counts sectors from the start of the file (24-bit, so it always
/// fits); `sector_count` is how many sectors the chunk occupies. Both zero
/// means the slot holds no chunk.
#[derive(Debug, Clone, Copy, PartialEq, Eq, Structural)]
pub struct Location {
    pub offset: u32,
    pub sector_count: u8,
}

/// The decode result for one present chunk slot: the slot index it is
/// attributed to, and the chunk's root tag or the error that stopped it.
#[derive(Debug, PartialEq)]
pub struct ChunkOutcome {
    pub slot: usize,
    pub result: Result<NbtTag, NbtError>,
}

impl ChunkOutcome {
    /// The mathematical value of this outcome.
    pub open spec fn dv(self) -> (int, Result<SpecTag, NbtError>) {
        (
            self.slot as int,
            match self.result {
                Ok(tag) => Ok(tag.dv()),
                Err(e) => Err(e),
            },
        )
    }
}

/// The mathematical values of a sequence of outcomes, elementwise.
pub open spec fn dv_outcomes(s: Seq<ChunkOutcome>) -> Seq<(int, Result<SpecTag, NbtError>)> {
    Seq::new(s.len(), |i: int| s[i].dv())
}

/// The location-table entry of slot `i`: 3 bytes of big-endian sector
/// offset, then 1 byte of sector count.
pub open spec fn spec_location(s: Seq<u8>, i: int) -> Location
    recommends
        0 <= i < SLOT_COUNT,
        s.len() >= 4096,
{
    Location {
        offset: (s[4 * i] as nat * 0x10000 + s[4 * i + 1] as nat * 0x100 + s[4 * i
            + 2] as nat) as u32,
        sector_count: s[4 * i + 3],
    }
}

/// Whether a location-table entry marks a present chunk.
pub open spec fn spec_present(loc: Location) -> bool {
    !(loc.offset == 0 && loc.sector_count == 0)
}

/// What `flate2`'s zlib decompression yields for a byte sequence: `None`
/// where the bytes are not a well-formed zlib stream, otherwise the inflated
/// bytes.
pub uninterp spec fn zlib_inflate(bytes: Seq<u8>) -> Option<Seq<u8>>;

/// Relies on `flate2::bufread::ZlibDecoder` (driven by `Read::read_to_end`):
/// whether a buffer is a well-formed zlib stream, and what it inflates to,
/// depend on the bytes alone.
#[verifier::external_body]
fn inflate_zlib(data: &Vec<u8>) -> (r: Result<Vec<u8>, NbtError>)
    ensures
        (match r {
            Ok(out) => zlib_inflate(data@) == Some(out@),
            Err(e) => zlib_inflate(data@) is None && e == NbtError::DecompressionError,
        }),
{
    let mut decoder = flate2::bufread::ZlibDecoder::new(data.as_slice());
    let mut out: Vec<u8> = Vec::new();
    match std::io::Read::read_to_end(&mut decoder, &mut out) {
        Ok(_) => Ok(out),
        Err(_) => Err(NbtError::DecompressionError),
    }
}

/// The decompressed payload of the chunk a location points at: a 4-byte
/// big-endian length (compression byte plus compressed data), a compression
/// type that must be 2 (zlib), and `length - 1` bytes of zlib stream.
pub open spec fn spec_chunk_data(s: Seq<u8>, loc: Location) -> Result<Seq<u8>, NbtError> {
    let base = loc.offset as int * SECTOR_SIZE as int;
    if base + 5 > s.len() {
        Err(NbtError::TruncatedChunk)
    } else {
        let length = as_i32(be32(s, base));
        if length < 1 {
            Err(NbtError::InvalidLength)
        } else if base + 4 + length > s.len() {
            Err(NbtError::TruncatedChunk)
        } else if s[base + 4] != 2 {
            Err(NbtError::UnsupportedCompressionType(s[base + 4]))
        } else {
            match zlib_inflate(s.subrange(base + 5, base + 4 + length)) {
                Some(d) => Ok(d),
                None => Err(NbtError::DecompressionError),
            }
        }
    }
}

/// The decode result of the chunk a location points at: its frame extracted
/// and inflated, then its root NBT tag decoded.
pub open spec fn spec_chunk(s: Seq<u8>, loc: Location) -> Result<SpecTag, NbtError> {
    match spec_chunk_data(s, loc) {
        Ok(d) => spec_read_nbt(d),
        Err(e) => Err(e),
    }
}

/// The outcomes of decoding the present chunks among slots `0 .. n`, in slot
/// order, each attributed to its slot; absent slots are skipped.
pub open spec fn spec_outcomes(s: Seq<u8>, n: int) -> Seq<(int, Result<SpecTag, NbtError>)>
    decreases n,
{
    if n <= 0 {
        seq![]
    } else {
        let prev = spec_outcomes(s, n - 1);
        if spec_present(spec_location(s, n - 1)) {
            prev.push((n - 1, spec_chunk(s, spec_location(s, n - 1))))
        } else {
            prev
        }
    }
}

/// Reads the fixed 1024-entry location table from the start of the buffer.
#[verifier::loop_isolation(false)]
pub fn read_locations(bytes: &Vec<u8>) -> (r: Result<Vec<Location>, NbtError>)
    ensures
        bytes@.len() < 4096 ==> (r matches Err(e) && e == NbtError::TruncatedHeader),
        bytes@.len() >= 4096 ==> (r matches Ok(locs) && locs@.len() == SLOT_COUNT && (forall|
            i: int,
        |
            0 <= i < SLOT_COUNT ==> locs@[i] == spec_location(bytes@, i))),
{
    if bytes.len() < 4096 {
        return Err(NbtError::TruncatedHeader);
    }
    let mut locs: Vec<Location> = Vec::new();
    let mut i: usize = 0;
    while i < SLOT_COUNT
        invariant
            i <= SLOT_COUNT,
            locs@.len() == i,
            forall|j: int| 0 <= j < i ==> locs@[j] == spec_location(bytes@, j),
        decreases SLOT_COUNT - i,
    {
        let offset: u32 = (bytes[4 * i] as u32) * 0x10000 + (bytes[4 * i + 1] as u32) * 0x100 + (
        bytes[4 * i + 2] as u32);
        let sector_count: u8 = bytes[4 * i + 3];
        locs.push(Location { offset, sector_count });
        i = i + 1;
    }
    Ok(locs)
}

/// Extracts and inflates the chunk frame a present location points at,
/// exactly as `spec_chunk_data` describes.
pub fn extract_chunk(bytes: &Vec<u8>, loc: Location) -> (r: Result<Vec<u8>, NbtError>)
    ensures
        (match r {
            Ok(d) => spec_chunk_data(bytes@, loc) == Ok::<Seq<u8>, NbtError>(d@),
            Err(e) => spec_chunk_data(bytes@, loc) == Err::<Seq<u8>, NbtError>(e),
        }),
{
    let n: usize = bytes.len();
    let base64: u64 = (loc.offset as u64) * (SECTOR_SIZE as u64);
    if base64 + 5 > (n as u64) {
        return Err(NbtError::TruncatedChunk);
    }
    let base = base64 as usize;
    let len_i = to_i32(read_u32(bytes, base));
    if len_i < 1 {
        return Err(NbtError::InvalidLength);
    }
    let length = len_i as usize;
    if (base as u64) + 4 + (length as u64) > (n as u64) {
        return Err(NbtError::TruncatedChunk);
    }
    let ct = bytes[base + 4];
    if ct != 2 {
        return Err(NbtError::UnsupportedCompressionType(ct));
    }
    let payload = read_data(bytes, base + 5, length - 1);
    inflate_zlib(&payload)
}

/// Decodes the chunk a present location points at: frame, inflate, then the
/// root NBT tag.
pub fn read_chunk(bytes: &Vec<u8>, loc: Location) -> (r: Result<NbtTag, NbtError>)
    ensures
        (match r {
            Ok(tag) => spec_chunk(bytes@, loc) == Ok::<SpecTag, NbtError>(tag.dv()),
            Err(e) => spec_chunk(bytes@, loc) == Err::<SpecTag, NbtError>(e),
        }),
{
    let data = match extract_chunk(bytes, loc) {
        Ok(d) => d,
        Err(e) => {
            return Err(e);
        },
    };
    read_nbt(&data)
}

/// Decodes a whole region file: reads the location table, then decodes every
/// present chunk in slot order. A failure in one chunk is recorded in that
/// slot's outcome and does not stop the remaining slots; only a buffer too
/// short to hold the header fails the whole region.
#[verifier::loop_isolation(false)]
pub fn read_mca(bytes: &Vec<u8>) -> (r: Result<Vec<ChunkOutcome>, NbtError>)
    ensures
        bytes@.len() < 8192 ==> (r matches Err(e) && e == NbtError::TruncatedHeader),
        bytes@.len() >= 8192 ==> (r matches Ok(out) && dv_outcomes(out@) == spec_outcomes(
            bytes@,
            SLOT_COUNT as int,
        )),
{
    let n: usize = bytes.len();
    if n < 8192 {
        return Err(NbtError::TruncatedHeader);
    }
    let locs = match read_locations(bytes) {
        Ok(l) => l,
        Err(e) => {
            // unreachable: the buffer was already checked to hold the header
            proof {
                assert(false);
            }
            return Err(e);
        },
    };
    let mut out: Vec<ChunkOutcome> = Vec::new();
    let mut i: usize = 0;
    while i < SLOT_COUNT
        invariant
            i <= SLOT_COUNT,
            dv_outcomes(out@) == spec_outcomes(bytes@, i as int),
        decreases SLOT_COUNT - i,
    {
        let loc = locs[i];
        if !(loc.offset == 0 && loc.sector_count == 0) {
            let result = read_chunk(bytes, loc);
            out.push(ChunkOutcome { slot: i, result });
            proof {
                assert(dv_outcomes(out@) =~= spec_outcomes(bytes@, i as int + 1));
            }
        }
        i = i + 1;
    }
    Ok(out)
}

/// Every outcome a region decode reports belongs to a present slot.
pub proof fn lemma_outcomes_present(s: Seq<u8>, n: int)
    ensures
        forall|k: int|
            0 <= k < spec_outcomes(s, n).len() ==> {
                let slot = (#[trigger] spec_outcomes(s, n)[k]).0;
                0 <= slot < n && spec_present(spec_location(s, slot))
            },
    decreases n,
{
    if n > 0 {
        lemma_outcomes_present(s, n - 1);
        let prev = spec_outcomes(s, n - 1);
        if spec_present(spec_location(s, n - 1)) {
            assert forall|k: int| 0 <= k < spec_outcomes(s, n).len() implies {
                let slot = (#[trigger] spec_outcomes(s, n)[k]).0;
                0 <= slot < n && spec_present(spec_location(s, slot))
            } by {
                if k < prev.len() {
                    assert(spec_outcomes(s, n)[k] == prev[k]);
                } else {
                    assert(spec_outcomes(s, n)[k] == (n - 1, spec_chunk(
                        s,
                        spec_location(s, n - 1),
                    )));
                }
            }
        }
    }
}

/// Decoding a region is deterministic: any two decodes of the same byte
/// buffer yield the same outcomes, since `read_mca` pins its result to a
/// function of the buffer alone.
pub proof fn lemma_read_mca_deterministic(
    s: Seq<u8>,
    o1: Seq<(int, Result<SpecTag, NbtError>)>,
    o2: Seq<(int, Result<SpecTag, NbtError>)>,
)
    requires
        o1 == spec_outcomes(s, SLOT_COUNT as int),
        o2 == spec_outcomes(s, SLOT_COUNT as int),
    ensures
        o1 == o2,
{
}

/// An all-zero location-table entry decodes to offset 0 and sector count 0,
/// and a region decode skips that slot: no outcome carries its index.
pub proof fn lemma_zero_entry_skipped(s: Seq<u8>, i: int)
    requires
        0 <= i < SLOT_COUNT,
        s[4 * i] == 0,
        s[4 * i + 1] == 0,
        s[4 * i + 2] == 0,
        s[4 * i + 3] == 0,
    ensures
        spec_location(s, i) == (Location { offset: 0, sector_count: 0 }),
        !spec_present(spec_location(s, i)),
        forall|k: int|
            0 <= k < spec_outcomes(s, SLOT_COUNT as int).len() ==> (#[trigger] spec_outcomes(
                s,
                SLOT_COUNT as int,
            )[k]).0 != i,
{
    lemma_outcomes_present(s, SLOT_COUNT as int);
}

} // verus!
