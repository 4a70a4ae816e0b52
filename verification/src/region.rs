//! Region grid geometry and the fixed-width pixel record.

use vstd::prelude::*;

verus! {

/// Region size in pixels (128x128).
pub const REGION_SIZE: i32 = 128;

/// Per-pixel binary size: 3 (RGB) + 3 (owner id, 24 bits little-endian).
pub const PIXEL_SIZE: usize = 6;

/// Total region blob size: 128 * 128 * 6 bytes.
pub const REGION_BLOB_SIZE: usize = 98_304;

/// Number of claimed pixels at which a region opens its cardinal neighbors
/// (a fifth of the region, rounded down).
pub const REGION_OPEN_THRESHOLD: i64 = 3_276;

/// Owner ids are stored in 24 bits: valid ids lie in `1..OWNER_ID_LIMIT`.
pub const OWNER_ID_LIMIT: u32 = 0x100_0000;

/// Region coordinates reachable from 32-bit world coordinates lie in
/// `-REGION_COORD_BOUND..REGION_COORD_BOUND`.
pub const REGION_COORD_BOUND: i32 = 0x100_0000;

/// A stored pixel with color and owner. `owner_id == 0` means undrawn.
#[derive(Debug, Clone, Copy, PartialEq, Eq, Structural)]
pub struct Pixel {
    pub r: u8,
    pub g: u8,
    pub b: u8,
    pub owner_id: u32,
}

/// The region coordinate of a world coordinate: floor division by the side.
pub open spec fn region_of(x: int) -> int {
    x / 128
}

/// The local coordinate of a world coordinate: the non-negative remainder.
pub open spec fn local_of(x: int) -> int {
    x % 128
}

/// The byte offset of the pixel at local `(lx, ly)` in a row-major blob.
pub open spec fn offset_of(lx: int, ly: int) -> int {
    (ly * 128 + lx) * 6
}

/// Whether `(lx, ly)` addresses a pixel inside a region.
pub open spec fn is_local(lx: int, ly: int) -> bool {
    0 <= lx < 128 && 0 <= ly < 128
}

/// Whether `rx` is a region coordinate that some 32-bit world coordinate has.
pub open spec fn is_region_coord(rx: int) -> bool {
    -0x100_0000 <= rx < 0x100_0000
}

/// Whether `id` names an owner: non-zero and representable in 24 bits.
pub open spec fn is_owner_id(id: u32) -> bool {
    1 <= id < 0x100_0000
}

/// The three owner bytes of a record: the low 24 bits, little-endian.
pub open spec fn owner_bytes(owner_id: u32) -> Seq<u8> {
    seq![
        (owner_id % 256) as u8,
        ((owner_id / 256) % 256) as u8,
        ((owner_id / 65536) % 256) as u8,
    ]
}

/// The six-byte record of a pixel.
pub open spec fn encoded(p: Pixel) -> Seq<u8> {
    seq![p.r, p.g, p.b] + owner_bytes(p.owner_id)
}

/// The pixel that the first six bytes of `buf` hold.
pub open spec fn decoded(buf: Seq<u8>) -> Pixel {
    Pixel {
        r: buf[0],
        g: buf[1],
        b: buf[2],
        owner_id: (buf[3] as int + buf[4] as int * 256 + buf[5] as int * 65536) as u32,
    }
}

/// The pixel stored at local `(lx, ly)` of a region blob.
pub open spec fn pixel_at(blob: Seq<u8>, lx: int, ly: int) -> Pixel {
    decoded(blob.subrange(offset_of(lx, ly), offset_of(lx, ly) + 6))
}

/// Compute which region a world-space pixel coordinate falls in.
pub fn region_coords(x: i32, y: i32) -> (r: (i32, i32))
    ensures
        r.0 == region_of(x as int),
        r.1 == region_of(y as int),
        is_region_coord(r.0 as int),
        is_region_coord(r.1 as int),
{
    let rx = match x.checked_div_euclid(REGION_SIZE) {
        Some(q) => q,
        None => 0,
    };
    let ry = match y.checked_div_euclid(REGION_SIZE) {
        Some(q) => q,
        None => 0,
    };
    (rx, ry)
}

/// Compute the local offset within a region for a world-space coordinate.
pub fn local_coords(x: i32, y: i32) -> (l: (usize, usize))
    ensures
        l.0 == local_of(x as int),
        l.1 == local_of(y as int),
        is_local(l.0 as int, l.1 as int),
{
    let lx = match x.checked_rem_euclid(REGION_SIZE) {
        Some(m) => m,
        None => 0,
    };
    let ly = match y.checked_rem_euclid(REGION_SIZE) {
        Some(m) => m,
        None => 0,
    };
    (lx as usize, ly as usize)
}

/// Byte offset into a region blob for a local (lx, ly) coordinate.
pub fn pixel_offset(lx: usize, ly: usize) -> (offset: usize)
    requires
        offset_of(lx as int, ly as int) <= usize::MAX,
    ensures
        offset == offset_of(lx as int, ly as int),
{
    (ly * 128 + lx) * PIXEL_SIZE
}

impl Pixel {
    /// Encode a pixel into the 6-byte binary format (3 RGB + 3 owner id
    /// bytes, little-endian). Bytes past the record are left alone; owner
    /// bits above the 24th are not stored.
    pub fn encode(&self, buf: &mut [u8])
        requires
            old(buf)@.len() >= 6,
        ensures
            final(buf)@.len() == old(buf)@.len(),
            final(buf)@.subrange(0, 6) == encoded(*self),
            final(buf)@.subrange(6, old(buf)@.len() as int) == old(buf)@.subrange(
                6,
                old(buf)@.len() as int,
            ),
    {
        let o = self.owner_id;
        let o0: u8 = (o & 0xff) as u8;
        let o1: u8 = ((o >> 8) & 0xff) as u8;
        let o2: u8 = ((o >> 16) & 0xff) as u8;
        proof {
            assert(o & 0xff == o % 256) by (bit_vector);
            assert((o >> 8) & 0xff == (o / 256) % 256) by (bit_vector);
            assert((o >> 16) & 0xff == (o / 65536) % 256) by (bit_vector);
        }
        buf[0] = self.r;
        buf[1] = self.g;
        buf[2] = self.b;
        buf[3] = o0;
        buf[4] = o1;
        buf[5] = o2;
        proof {
            assert(buf@.subrange(0, 6) =~= encoded(*self));
            assert(buf@.subrange(6, old(buf)@.len() as int) =~= old(buf)@.subrange(
                6,
                old(buf)@.len() as int,
            ));
        }
    }

    /// Decode a pixel from the 6-byte binary format.
    pub fn decode(buf: &[u8]) -> (p: Pixel)
        requires
            buf@.len() >= 6,
        ensures
            p == decoded(buf@),
    {
        let b3: u32 = buf[3] as u32;
        let b4: u32 = buf[4] as u32;
        let b5: u32 = buf[5] as u32;
        Pixel { r: buf[0], g: buf[1], b: buf[2], owner_id: b3 + b4 * 256 + b5 * 65536 }
    }

    /// Whether this pixel has never been drawn on.
    pub fn is_empty(&self) -> (empty: bool)
        ensures
            empty == (self.owner_id == 0),
    {
        self.owner_id == 0
    }
}

impl Default for Pixel {
    fn default() -> (p: Pixel)
        ensures
            p == (Pixel { r: 0, g: 0, b: 0, owner_id: 0 }),
    {
        Pixel { r: 0, g: 0, b: 0, owner_id: 0 }
    }
}

/// Decoding what `encode` wrote gives the pixel back, for every color and
/// every owner id below 2^24.
pub proof fn lemma_codec_round_trip(p: Pixel)
    requires
        p.owner_id < 0x100_0000,
    ensures
        decoded(encoded(p)) == p,
{
    let o = p.owner_id;
    assert((o % 256) + ((o / 256) % 256) * 256 + ((o / 65536) % 256) * 65536 == o) by {
        assert(o / 65536 < 256);
    }
}

/// Encoding what a record decodes to gives the record back: the blob bytes
/// and the pixels they hold determine each other.
pub proof fn lemma_codec_round_trip_bytes(buf: Seq<u8>)
    requires
        buf.len() == 6,
    ensures
        encoded(decoded(buf)) == buf,
        decoded(buf).owner_id < 0x100_0000,
{
    assert(encoded(decoded(buf)) =~= buf);
}

/// A world coordinate is its region coordinate times the side plus its
/// local coordinate, and the local coordinate lies inside the region.
pub proof fn lemma_coordinate_mapping(x: int, y: int)
    ensures
        region_of(x) * 128 + local_of(x) == x,
        region_of(y) * 128 + local_of(y) == y,
        is_local(local_of(x), local_of(y)),
{
}

} // verus!
