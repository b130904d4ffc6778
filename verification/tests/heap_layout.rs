use kernel_core::heap::block::HeapBlock;
use kernel_core::heap::layout::{
    align_size, block_size_for, canary_for, chunk_bytes, class_size, compute_checksum,
    get_size_class, ALLOC_MAGIC, CANARY_SEED, FREE_MAGIC, MAX_ALLOC,
};

#[test]
fn align_size_rounds_up_to_sixteen() {
    assert_eq!(align_size(0), 0);
    assert_eq!(align_size(1), 16);
    assert_eq!(align_size(16), 16);
    assert_eq!(align_size(17), 32);
    assert_eq!(align_size(4095), 4096);
}

#[test]
fn align_size_reaches_the_last_multiple_of_sixteen() {
    assert_eq!(align_size(usize::MAX - 15), usize::MAX - 15);
    assert_eq!(align_size(usize::MAX - 16), usize::MAX - 15);
    assert_eq!(align_size(usize::MAX - 31), usize::MAX - 31);
}

#[test]
fn size_classes_are_sixteen_ascending() {
    let expected = [
        16usize, 32, 48, 64, 96, 128, 192, 256, 384, 512, 768, 1024, 1536, 2048, 3072, 4096,
    ];
    for (i, &size) in expected.iter().enumerate() {
        assert_eq!(class_size(i), size);
        assert_eq!(get_size_class(size), Some(i));
    }
}

#[test]
fn size_class_is_the_smallest_that_fits() {
    assert_eq!(get_size_class(0), Some(0));
    assert_eq!(get_size_class(1), Some(0));
    assert_eq!(get_size_class(17), Some(1));
    assert_eq!(get_size_class(33), Some(2));
    assert_eq!(get_size_class(65), Some(4));
    assert_eq!(get_size_class(3073), Some(15));
    assert_eq!(get_size_class(4096), Some(15));
    assert_eq!(get_size_class(4097), None);
}

#[test]
fn block_size_leaves_room_for_the_canary() {
    assert_eq!(block_size_for(1), 16);
    assert_eq!(block_size_for(8), 16);
    assert_eq!(block_size_for(9), 32);
    assert_eq!(block_size_for(48), 64);
    assert_eq!(block_size_for(64), 96);
    assert_eq!(block_size_for(4088), 4096);
    assert_eq!(block_size_for(4089), 4112);
    assert_eq!(block_size_for(MAX_ALLOC), MAX_ALLOC + 16);
}

#[test]
fn chunk_sizes_follow_the_policy() {
    assert_eq!(chunk_bytes(16), 4096);
    assert_eq!(chunk_bytes(1024), 4096);
    assert_eq!(chunk_bytes(1040), 4096);
    assert_eq!(chunk_bytes(4096), 8192);
    assert_eq!(chunk_bytes(65536), 69632);
    assert_eq!(chunk_bytes(65552), 131072);
}

#[test]
fn checksum_depends_on_every_input() {
    let base = compute_checksum(4096, ALLOC_MAGIC, 64, 0);
    assert_eq!(base, compute_checksum(4096, ALLOC_MAGIC, 64, 0));
    assert_ne!(base, compute_checksum(4112, ALLOC_MAGIC, 64, 0));
    assert_ne!(base, compute_checksum(4096, FREE_MAGIC, 64, 0));
    assert_ne!(base, compute_checksum(4096, ALLOC_MAGIC, 80, 0));
    assert_ne!(base, compute_checksum(4096, ALLOC_MAGIC, 64, 1));
}

#[test]
fn canary_mixes_the_address_with_the_seed() {
    assert_eq!(canary_for(0), CANARY_SEED);
    assert_eq!(canary_for(4096), CANARY_SEED ^ 4096);
    assert_ne!(canary_for(4096), canary_for(8192));
}

#[test]
fn header_flags_and_seal() {
    let mut h = HeapBlock {
        magic: 0,
        flags: 0,
        size: 0,
        next: 7,
        prev: 9,
        cache_next: 11,
        checksum: 0,
    };
    h.init(4096, 64, true);
    assert_eq!(h.magic, FREE_MAGIC);
    assert!(h.is_free());
    assert!(!h.in_cache());
    assert_eq!(h.cache_next, 0);
    assert_eq!(h.next, 7);
    assert_eq!(h.prev, 9);
    assert!(h.validate(4096));
    assert!(!h.validate(4112));
    h.set_in_cache(true);
    assert_eq!(h.flags, 3);
    assert!(!h.validate(4096));
    h.seal(4096);
    assert!(h.validate(4096));
    h.set_free(false);
    assert_eq!(h.flags, 2);
    h.set_in_cache(false);
    assert_eq!(h.flags, 0);
    h.init(4096, 64, false);
    assert_eq!(h.magic, ALLOC_MAGIC);
    assert!(!h.is_free());
    assert_eq!(HeapBlock::to_user_ptr(4096), 4144);
    assert_eq!(HeapBlock::from_user_ptr(4144), 4096);
    assert!(h.are_adjacent(4096, 4096 + 48 + 64));
    assert!(!h.are_adjacent(4096, 4096 + 48 + 80));
}
