use gcmalloc::metadata::{BlockMetadata, SIZE_BLOCKMETADATA};

#[test]
fn fresh_metadata() {
    let md = BlockMetadata::new(24, true);
    assert_eq!(md, BlockMetadata { size: 24, is_gc: true, mark_bit: false, drop_vptr: 0 });
    // Sizes are cut to 62 bits.
    assert_eq!(BlockMetadata::new(u64::MAX, false).size, 0x3fff_ffff_ffff_ffff);
    assert_eq!(BlockMetadata::new(1 << 62, false).size, 0);
}

#[test]
fn packed_bytes() {
    let md = BlockMetadata { size: 24, is_gc: true, mark_bit: false, drop_vptr: 0x200 };
    assert_eq!(md.pack(), [0, 0, 0, 0, 0, 0, 0, 98, 0, 0, 0, 0, 0, 0, 2, 0]);
    let md = BlockMetadata {
        size: 0x0123_4567_89ab_cdef,
        is_gc: false,
        mark_bit: true,
        drop_vptr: 0x0102_0304_0506_0708,
    };
    assert_eq!(
        md.pack(),
        [0x04, 0x8d, 0x15, 0x9e, 0x26, 0xaf, 0x37, 0xbd, 1, 2, 3, 4, 5, 6, 7, 8]
    );
    assert_eq!(md.pack().len(), SIZE_BLOCKMETADATA);
}

#[test]
fn packing_round_trips() {
    for size in [0, 1, 24, 0x0123_4567_89ab_cdef, 0x3fff_ffff_ffff_ffff] {
        for (is_gc, mark_bit) in [(false, false), (false, true), (true, false), (true, true)] {
            for drop_vptr in [0, 0x200, 0x7fff_ffff_ffff_ffff] {
                let md = BlockMetadata { size, is_gc, mark_bit, drop_vptr };
                assert_eq!(BlockMetadata::unpack(&md.pack()), md);
            }
        }
    }
}

#[test]
fn unpacking_drops_the_top_bit_of_the_vtable_pointer() {
    let bytes = [0, 0, 0, 0, 0, 0, 0, 7, 0xff, 0, 0, 0, 0, 0, 0, 1];
    let md = BlockMetadata::unpack(&bytes);
    assert_eq!(
        md,
        BlockMetadata { size: 1, is_gc: true, mark_bit: true, drop_vptr: 0x7f00_0000_0000_0001 }
    );
    assert_ne!(md.pack(), bytes);
}
