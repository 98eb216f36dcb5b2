//! The packed metadata word pair that every allocation block carries in its
//! header.
use packed_struct::prelude::packed_bits::{Bits62, Bits63};
use packed_struct::prelude::{Integer, SizedInteger};
use vstd::prelude::*;

verus! {

/// The number of bytes a [`BlockMetadata`] packs into.
pub const SIZE_BLOCKMETADATA: usize = 16;

/// The bits a block size may use.
pub const SIZE_MASK: u64 = 0x3fff_ffff_ffff_ffff;

/// The bits a vtable pointer may use.
pub const VPTR_MASK: u64 = 0x7fff_ffff_ffff_ffff;

/// The bookkeeping of one allocation block.
#[derive(Clone, Copy, Debug, PartialEq, Eq, Structural)]
pub struct BlockMetadata {
    /// The size of the block (excluding its header).
    pub size: u64,
    /// Is the block managed by the collector?
    pub is_gc: bool,
    /// Used by the collector to determine the block's reachability.
    pub mark_bit: bool,
    /// The pointer to the vtable of the `Drop` implementation of the value in
    /// the block.
    pub drop_vptr: u64,
}

/// The number that eight bytes spell with the most significant byte first.
pub open spec fn msb_value(b: Seq<u8>) -> u64 {
    ((b[0] as u64) << 56) | ((b[1] as u64) << 48) | ((b[2] as u64) << 40) | ((b[3] as u64) << 32)
        | ((b[4] as u64) << 24) | ((b[5] as u64) << 16) | ((b[6] as u64) << 8) | (b[7] as u64)
}

/// The eight bytes that spell a number with the most significant byte first.
pub open spec fn msb_bytes(n: u64) -> Seq<u8> {
    seq![
        (n >> 56) as u8,
        (n >> 48) as u8,
        (n >> 40) as u8,
        (n >> 32) as u8,
        (n >> 24) as u8,
        (n >> 16) as u8,
        (n >> 8) as u8,
        n as u8,
    ]
}

/// `Integer<u64, Bits62>::from_primitive`: keeps the low 62 bits of `n`, as a
/// native integer.
#[verifier::external_body]
pub(crate) fn integer62(n: u64) -> (r: u64)
    ensures
        r == n & SIZE_MASK,
{
    <Integer<u64, Bits62> as SizedInteger<u64, Bits62>>::from_primitive(n).to_primitive()
}

/// `Integer<u64, Bits63>::from_primitive`: keeps the low 63 bits of `n`, as a
/// native integer.
#[verifier::external_body]
pub(crate) fn integer63(n: u64) -> (r: u64)
    ensures
        r == n & VPTR_MASK,
{
    <Integer<u64, Bits63> as SizedInteger<u64, Bits63>>::from_primitive(n).to_primitive()
}

/// `Integer<u64, Bits62>::to_msb_bytes`: the bytes of the 62-bit integer made
/// of `n`, most significant byte first.
#[verifier::external_body]
fn integer62_to_msb_bytes(n: u64) -> (r: [u8; 8])
    ensures
        r@ == msb_bytes(n & SIZE_MASK),
{
    <Integer<u64, Bits62> as SizedInteger<u64, Bits62>>::from_primitive(n).to_msb_bytes()
}

/// `Integer<u64, Bits62>::from_msb_bytes`: the low 62 bits of the number that
/// the bytes spell, most significant byte first.
#[verifier::external_body]
fn integer62_from_msb_bytes(bytes: &[u8; 8]) -> (r: u64)
    ensures
        r == msb_value(bytes@) & SIZE_MASK,
{
    <Integer<u64, Bits62> as SizedInteger<u64, Bits62>>::from_msb_bytes(bytes).to_primitive()
}

/// `Integer<u64, Bits63>::to_msb_bytes`: the bytes of the 63-bit integer made
/// of `n`, most significant byte first.
#[verifier::external_body]
fn integer63_to_msb_bytes(n: u64) -> (r: [u8; 8])
    ensures
        r@ == msb_bytes(n & VPTR_MASK),
{
    <Integer<u64, Bits63> as SizedInteger<u64, Bits63>>::from_primitive(n).to_msb_bytes()
}

/// `Integer<u64, Bits63>::from_msb_bytes`: the low 63 bits of the number that
/// the bytes spell, most significant byte first.
#[verifier::external_body]
fn integer63_from_msb_bytes(bytes: &[u8; 8]) -> (r: u64)
    ensures
        r == msb_value(bytes@) & VPTR_MASK,
{
    <Integer<u64, Bits63> as SizedInteger<u64, Bits63>>::from_msb_bytes(bytes).to_primitive()
}

/// The first word of packed metadata: the size above the two flags.
pub open spec fn flag_word(md: BlockMetadata) -> u64 {
    (md.size << 2) | (if md.is_gc {
        2u64
    } else {
        0u64
    }) | (if md.mark_bit {
        1u64
    } else {
        0u64
    })
}

/// The sixteen bytes that metadata packs into: the size in the first 62 bits,
/// then the two flags, then the vtable pointer in the second word.
pub open spec fn packed(md: BlockMetadata) -> Seq<u8> {
    msb_bytes(flag_word(md)) + msb_bytes(md.drop_vptr)
}

/// What sixteen bytes unpack into.
pub open spec fn unpacked(b: Seq<u8>) -> BlockMetadata {
    BlockMetadata {
        size: msb_value(b.subrange(0, 8)) >> 2,
        is_gc: msb_value(b.subrange(0, 8)) & 2 != 0,
        mark_bit: msb_value(b.subrange(0, 8)) & 1 != 0,
        drop_vptr: msb_value(b.subrange(8, 16)) & VPTR_MASK,
    }
}

impl BlockMetadata {
    /// The size fits in 62 bits and the vtable pointer in 63.
    pub open spec fn wf(self) -> bool {
        self.size <= SIZE_MASK && self.drop_vptr <= VPTR_MASK
    }

    /// Metadata of a fresh block: unmarked, with a null vtable pointer.
    pub fn new(size: u64, is_gc: bool) -> (r: Self)
        ensures
            r == (BlockMetadata { size: size & SIZE_MASK, is_gc, mark_bit: false, drop_vptr: 0 }),
            r.wf(),
            size <= SIZE_MASK ==> r.size == size,
    {
        let size62 = integer62(size);
        let vptr63 = integer63(0);
        proof {
            assert(size & 0x3fff_ffff_ffff_ffffu64 <= 0x3fff_ffff_ffff_ffffu64) by (bit_vector);
            assert(size <= 0x3fff_ffff_ffff_ffffu64 ==> size & 0x3fff_ffff_ffff_ffffu64 == size)
                by (bit_vector);
            assert(0u64 & 0x7fff_ffff_ffff_ffffu64 == 0u64) by (bit_vector);
        }
        BlockMetadata { size: size62, is_gc, mark_bit: false, drop_vptr: vptr63 }
    }

    /// Packs the metadata into bytes.
    pub fn pack(&self) -> (r: [u8; 16])
        requires
            self.wf(),
        ensures
            r@ == packed(*self),
            unpacked(r@) == *self,
    {
        let p = integer62_to_msb_bytes(self.size);
        let v = integer63_to_msb_bytes(self.drop_vptr);
        let gc_bit: u8 = if self.is_gc {
            2
        } else {
            0
        };
        let mark_bit: u8 = if self.mark_bit {
            1
        } else {
            0
        };
        let r: [u8; 16] = [
            (p[0] << 2) | (p[1] >> 6),
            (p[1] << 2) | (p[2] >> 6),
            (p[2] << 2) | (p[3] >> 6),
            (p[3] << 2) | (p[4] >> 6),
            (p[4] << 2) | (p[5] >> 6),
            (p[5] << 2) | (p[6] >> 6),
            (p[6] << 2) | (p[7] >> 6),
            (p[7] << 2) | gc_bit | mark_bit,
            v[0],
            v[1],
            v[2],
            v[3],
            v[4],
            v[5],
            v[6],
            v[7],
        ];
        proof {
            let s = self.size;
            let d = self.drop_vptr;
            assert(s & 0x3fff_ffff_ffff_ffffu64 == s) by (bit_vector)
                requires
                    s <= 0x3fff_ffff_ffff_ffffu64,
            ;
            assert(d & 0x7fff_ffff_ffff_ffffu64 == d) by (bit_vector)
                requires
                    d <= 0x7fff_ffff_ffff_ffffu64,
            ;
            lemma_shifted_bytes(s, gc_bit, mark_bit);
            assert(r@ =~= packed(*self));
            lemma_packed_unpacks(*self);
        }
        r
    }

    /// Reads metadata back from its bytes.
    pub fn unpack(bytes: &[u8; 16]) -> (r: Self)
        ensures
            r == unpacked(bytes@),
            r.wf(),
    {
        let b: [u8; 8] = [
            bytes[0] >> 2,
            (bytes[0] << 6) | (bytes[1] >> 2),
            (bytes[1] << 6) | (bytes[2] >> 2),
            (bytes[2] << 6) | (bytes[3] >> 2),
            (bytes[3] << 6) | (bytes[4] >> 2),
            (bytes[4] << 6) | (bytes[5] >> 2),
            (bytes[5] << 6) | (bytes[6] >> 2),
            (bytes[6] << 6) | (bytes[7] >> 2),
        ];
        let v: [u8; 8] = [
            bytes[8],
            bytes[9],
            bytes[10],
            bytes[11],
            bytes[12],
            bytes[13],
            bytes[14],
            bytes[15],
        ];
        let r = BlockMetadata {
            size: integer62_from_msb_bytes(&b),
            is_gc: bytes[7] & 2 != 0,
            mark_bit: bytes[7] & 1 != 0,
            drop_vptr: integer63_from_msb_bytes(&v),
        };
        proof {
            lemma_unshifted_bytes(bytes@, b@);
            assert(v@ =~= bytes@.subrange(8, 16));
            let d = msb_value(v@);
            assert(d & 0x7fff_ffff_ffff_ffffu64 <= 0x7fff_ffff_ffff_ffffu64) by (bit_vector);
        }
        r
    }
}

/// The bytes of a size, shifted up by two bits and joined with the flags, are
/// the bytes of the flag word.
proof fn lemma_shifted_bytes(s: u64, g: u8, m: u8)
    requires
        s <= SIZE_MASK,
        g == 0 || g == 2,
        m == 0 || m == 1,
    ensures
        ({
            let p = msb_bytes(s);
            let w = (s << 2) | (g as u64) | (m as u64);
            &&& ((p[0] << 2) | (p[1] >> 6)) == (w >> 56) as u8
            &&& ((p[1] << 2) | (p[2] >> 6)) == (w >> 48) as u8
            &&& ((p[2] << 2) | (p[3] >> 6)) == (w >> 40) as u8
            &&& ((p[3] << 2) | (p[4] >> 6)) == (w >> 32) as u8
            &&& ((p[4] << 2) | (p[5] >> 6)) == (w >> 24) as u8
            &&& ((p[5] << 2) | (p[6] >> 6)) == (w >> 16) as u8
            &&& ((p[6] << 2) | (p[7] >> 6)) == (w >> 8) as u8
            &&& ((p[7] << 2) | g | m) == w as u8
        }),
{
    let w = (s << 2) | (g as u64) | (m as u64);
    let p0 = (s >> 56) as u8;
    let p1 = (s >> 48) as u8;
    let p2 = (s >> 40) as u8;
    let p3 = (s >> 32) as u8;
    let p4 = (s >> 24) as u8;
    let p5 = (s >> 16) as u8;
    let p6 = (s >> 8) as u8;
    let p7 = s as u8;
    assert(((p0 << 2) | (p1 >> 6)) == (w >> 56) as u8 && ((p1 << 2) | (p2 >> 6)) == (w >> 48) as u8
        && ((p2 << 2) | (p3 >> 6)) == (w >> 40) as u8 && ((p3 << 2) | (p4 >> 6)) == (w >> 32) as u8
        && ((p4 << 2) | (p5 >> 6)) == (w >> 24) as u8 && ((p5 << 2) | (p6 >> 6)) == (w >> 16) as u8
        && ((p6 << 2) | (p7 >> 6)) == (w >> 8) as u8 && ((p7 << 2) | g | m) == w as u8)
        by (bit_vector)
        requires
            s <= 0x3fff_ffff_ffff_ffffu64,
            g == 0 || g == 2,
            m == 0 || m == 1,
            w == (s << 2) | (g as u64) | (m as u64),
            p0 == (s >> 56) as u8,
            p1 == (s >> 48) as u8,
            p2 == (s >> 40) as u8,
            p3 == (s >> 32) as u8,
            p4 == (s >> 24) as u8,
            p5 == (s >> 16) as u8,
            p6 == (s >> 8) as u8,
            p7 == s as u8,
    ;
}

/// A number is what its bytes spell.
proof fn lemma_msb_roundtrip(n: u64)
    ensures
        msb_value(msb_bytes(n)) == n,
{
    assert(((((n >> 56) as u8) as u64) << 56) | ((((n >> 48) as u8) as u64) << 48) | ((((n
        >> 40) as u8) as u64) << 40) | ((((n >> 32) as u8) as u64) << 32) | ((((n
        >> 24) as u8) as u64) << 24) | ((((n >> 16) as u8) as u64) << 16) | ((((n
        >> 8) as u8) as u64) << 8) | ((n as u8) as u64) == n) by (bit_vector);
}

/// The bytes of packed metadata unpack into the same metadata.
pub proof fn lemma_packed_unpacks(md: BlockMetadata)
    requires
        md.wf(),
    ensures
        unpacked(packed(md)) == md,
{
    let w = flag_word(md);
    let s = md.size;
    let d = md.drop_vptr;
    let g: u64 = if md.is_gc {
        2
    } else {
        0
    };
    let m: u64 = if md.mark_bit {
        1
    } else {
        0
    };
    assert(packed(md).subrange(0, 8) =~= msb_bytes(w));
    assert(packed(md).subrange(8, 16) =~= msb_bytes(d));
    lemma_msb_roundtrip(w);
    lemma_msb_roundtrip(d);
    assert(w >> 2 == s && w & 2 == g && w & 1 == m) by (bit_vector)
        requires
            s <= 0x3fff_ffff_ffff_ffffu64,
            g == 0 || g == 2,
            m == 0 || m == 1,
            w == (s << 2) | g | m,
    ;
    assert(d & 0x7fff_ffff_ffff_ffffu64 == d) by (bit_vector)
        requires
            d <= 0x7fff_ffff_ffff_ffffu64,
    ;
}

/// Shifting the first eight bytes down by two bits leaves the size alone.
proof fn lemma_unshifted_bytes(bytes: Seq<u8>, b: Seq<u8>)
    requires
        bytes.len() == 16,
        b.len() == 8,
        b[0] == bytes[0] >> 2,
        b[1] == (bytes[0] << 6) | (bytes[1] >> 2),
        b[2] == (bytes[1] << 6) | (bytes[2] >> 2),
        b[3] == (bytes[2] << 6) | (bytes[3] >> 2),
        b[4] == (bytes[3] << 6) | (bytes[4] >> 2),
        b[5] == (bytes[4] << 6) | (bytes[5] >> 2),
        b[6] == (bytes[5] << 6) | (bytes[6] >> 2),
        b[7] == (bytes[6] << 6) | (bytes[7] >> 2),
    ensures
        msb_value(b) & SIZE_MASK == msb_value(bytes.subrange(0, 8)) >> 2,
        msb_value(bytes.subrange(0, 8)) >> 2 <= SIZE_MASK,
        (bytes[7] & 2 != 0) == (msb_value(bytes.subrange(0, 8)) & 2 != 0),
        (bytes[7] & 1 != 0) == (msb_value(bytes.subrange(0, 8)) & 1 != 0),
{
    let h = bytes.subrange(0, 8);
    let w = msb_value(h);
    let u = msb_value(b);
    let (a0, a1, a2, a3) = (bytes[0], bytes[1], bytes[2], bytes[3]);
    let (a4, a5, a6, a7) = (bytes[4], bytes[5], bytes[6], bytes[7]);
    let (b0, b1, b2, b3) = (b[0], b[1], b[2], b[3]);
    let (b4, b5, b6, b7) = (b[4], b[5], b[6], b[7]);
    assert(u & 0x3fff_ffff_ffff_ffffu64 == w >> 2 && w >> 2 <= 0x3fff_ffff_ffff_ffffu64 && ((a7
        & 2 != 0) == (w & 2 != 0)) && ((a7 & 1 != 0) == (w & 1 != 0))) by (bit_vector)
        requires
            b0 == a0 >> 2,
            b1 == (a0 << 6) | (a1 >> 2),
            b2 == (a1 << 6) | (a2 >> 2),
            b3 == (a2 << 6) | (a3 >> 2),
            b4 == (a3 << 6) | (a4 >> 2),
            b5 == (a4 << 6) | (a5 >> 2),
            b6 == (a5 << 6) | (a6 >> 2),
            b7 == (a6 << 6) | (a7 >> 2),
            w == ((a0 as u64) << 56) | ((a1 as u64) << 48) | ((a2 as u64) << 40) | ((a3 as u64)
                << 32) | ((a4 as u64) << 24) | ((a5 as u64) << 16) | ((a6 as u64) << 8) | (
            a7 as u64),
            u == ((b0 as u64) << 56) | ((b1 as u64) << 48) | ((b2 as u64) << 40) | ((b3 as u64)
                << 32) | ((b4 as u64) << 24) | ((b5 as u64) << 16) | ((b6 as u64) << 8) | (
            b7 as u64),
    ;
}

/// Eight bytes, the most significant first, spell the sum of the bytes times the
/// powers of 256.
proof fn lemma_msb_sum(b: Seq<u8>)
    requires
        b.len() == 8,
    ensures
        msb_value(b) == b[0] * 0x100000000000000 + b[1] * 0x1000000000000 + b[2] * 0x10000000000
                + b[3] * 0x100000000 + b[4] * 0x1000000 + b[5] * 0x10000 + b[6] * 0x100 + b[7],
{
    let (a0, a1, a2, a3) = (b[0], b[1], b[2], b[3]);
    let (a4, a5, a6, a7) = (b[4], b[5], b[6], b[7]);
    assert((((a0 as u64) << 56) | ((a1 as u64) << 48) | ((a2 as u64) << 40) | ((a3 as u64) << 32)
        | ((a4 as u64) << 24) | ((a5 as u64) << 16) | ((a6 as u64) << 8) | (a7 as u64))
        == a0 * 0x100000000000000 + a1 * 0x1000000000000 + a2 * 0x10000000000
                + a3 * 0x100000000 + a4 * 0x1000000 + a5 * 0x10000 + a6 * 0x100 + a7)
        by (bit_vector);
}

/// Metadata is packed into sixteen bytes, the most significant first: the first
/// eight spell four times the size, plus two for a collected block, plus one for a
/// marked one, the others the vtable pointer.
pub proof fn law_packed_metadata(md: BlockMetadata)
    requires
        md.wf(),
    ensures
        packed(md).len() == 16,
        ({
            let b = packed(md);
            &&& md.size * 4 + (if md.is_gc {
                2int
            } else {
                0
            }) + (if md.mark_bit {
                1int
            } else {
                0
            }) == b[0] * 0x100000000000000 + b[1] * 0x1000000000000 + b[2] * 0x10000000000
                + b[3] * 0x100000000 + b[4] * 0x1000000 + b[5] * 0x10000 + b[6] * 0x100 + b[7]
            &&& md.drop_vptr == b[8] * 0x100000000000000 + b[9] * 0x1000000000000 + b[10] * 0x10000000000
                + b[11] * 0x100000000 + b[12] * 0x1000000 + b[13] * 0x10000 + b[14] * 0x100 + b[15]
        }),
{
    let b = packed(md);
    let w = flag_word(md);
    let s = md.size;
    let g: u64 = if md.is_gc {
        2
    } else {
        0
    };
    let m: u64 = if md.mark_bit {
        1
    } else {
        0
    };
    assert(b.subrange(0, 8) =~= msb_bytes(w));
    assert(b.subrange(8, 16) =~= msb_bytes(md.drop_vptr));
    lemma_msb_roundtrip(w);
    lemma_msb_roundtrip(md.drop_vptr);
    lemma_msb_sum(b.subrange(0, 8));
    lemma_msb_sum(b.subrange(8, 16));
    assert(w == s * 4 + g + m) by (bit_vector)
        requires
            s <= 0x3fff_ffff_ffff_ffffu64,
            g == 0 || g == 2,
            m == 0 || m == 1,
            w == (s << 2) | g | m,
    ;
}

/// Any sixteen bytes unpack into the metadata that they spell in this way. Of the
/// vtable pointer the topmost bit is dropped.
pub proof fn law_unpacked_metadata(b: Seq<u8>)
    requires
        b.len() == 16,
    ensures
        ({
            let md = unpacked(b);
            let rest = b[8] * 0x100000000000000 + b[9] * 0x1000000000000 + b[10] * 0x10000000000
                + b[11] * 0x100000000 + b[12] * 0x1000000 + b[13] * 0x10000 + b[14] * 0x100 + b[15];
            &&& md.size * 4 + (if md.is_gc {
                2int
            } else {
                0
            }) + (if md.mark_bit {
                1int
            } else {
                0
            }) == b[0] * 0x100000000000000 + b[1] * 0x1000000000000 + b[2] * 0x10000000000
                + b[3] * 0x100000000 + b[4] * 0x1000000 + b[5] * 0x10000 + b[6] * 0x100 + b[7]
            &&& md.drop_vptr == rest % 0x8000_0000_0000_0000
        }),
{
    let w = msb_value(b.subrange(0, 8));
    let d = msb_value(b.subrange(8, 16));
    lemma_msb_sum(b.subrange(0, 8));
    lemma_msb_sum(b.subrange(8, 16));
    assert((w >> 2) * 4 + (w & 2) + (w & 1) == w && (w & 2 == 0 || w & 2 == 2) && (w & 1 == 0 || w
        & 1 == 1)) by (bit_vector);
    assert(d & 0x7fff_ffff_ffff_ffffu64 == d % 0x8000_0000_0000_0000u64) by (bit_vector);
}

/// Sizes below 2 to the 62 and vtable pointers below 2 to the 63 are kept as they
/// are, and metadata is well formed exactly when it holds such.
pub proof fn law_what_headers_have_room_for(n: u64, md: BlockMetadata)
    ensures
        n < 0x4000_0000_0000_0000 ==> n & SIZE_MASK == n,
        n < 0x8000_0000_0000_0000 ==> n & VPTR_MASK == n,
        md.wf() <==> md.size < 0x4000_0000_0000_0000 && md.drop_vptr < 0x8000_0000_0000_0000,
{
    assert(n < 0x4000_0000_0000_0000u64 ==> n & 0x3fff_ffff_ffff_ffffu64 == n) by (bit_vector);
    assert(n < 0x8000_0000_0000_0000u64 ==> n & 0x7fff_ffff_ffff_ffffu64 == n) by (bit_vector);
}

} // verus!
