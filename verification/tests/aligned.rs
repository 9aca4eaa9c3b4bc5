use bit_compact::aligned::{
    align_up, align_up_u64, alloc_aligned_vec, is_aligned, is_block_aligned, is_cache_aligned,
    AlignedBuffer, BlockAlignedBuffer, CacheAlignedBuffer,
};

#[test]
fn cache_aligned_alloc() {
    let buf = CacheAlignedBuffer::new_zeroed(128);
    assert!(is_cache_aligned(buf.as_ptr()));
    assert_eq!(buf.len(), 128);
}

#[test]
fn block_aligned_alloc() {
    let buf = BlockAlignedBuffer::new_zeroed(4096);
    assert!(is_block_aligned(buf.as_ptr()));
}

#[test]
fn align_up_works() {
    assert_eq!(align_up(0, 64), 0);
    assert_eq!(align_up(1, 64), 64);
    assert_eq!(align_up(64, 64), 64);
    assert_eq!(align_up(65, 64), 128);
    assert_eq!(align_up(4095, 4096), 4096);
    assert_eq!(align_up_u64(62, 4096), 4096);
}

#[test]
fn recorded_address_is_where_the_bytes_are() {
    let mut buf = BlockAlignedBuffer::new(100).expect("memory");
    let at = buf.as_ptr();
    assert_eq!(buf.as_slice().as_ptr() as usize, at);
    assert_eq!(buf.as_mut_ptr(), at);
    assert_eq!(at % 4096, 0);
    assert!(!buf.is_empty());
}

#[test]
fn resize_keeps_the_prefix() {
    let mut buf = CacheAlignedBuffer::new(3).expect("memory");
    buf.as_mut_slice().copy_from_slice(&[7, 8, 9]);
    assert!(buf.resize(5));
    assert_eq!(buf.as_slice(), &[7, 8, 9, 0, 0]);
    assert!(is_cache_aligned(buf.as_slice().as_ptr() as usize));
    assert!(buf.resize(2));
    assert_eq!(buf.as_slice(), &[7, 8]);
    assert!(buf.resize(2));
    assert!(buf.resize(0));
    assert!(buf.is_empty());
}

#[test]
fn alignment_must_be_a_power_of_two() {
    assert!(AlignedBuffer::<48>::new(8).is_none());
    assert!(AlignedBuffer::<0>::new(8).is_none());
    assert!(AlignedBuffer::<1>::new(8).is_some());
}

#[test]
fn rounding_edges() {
    assert_eq!(align_up(17, 0), 17);
    assert_eq!(align_up_u64(17, 0), 17);
    assert_eq!(align_up_u64(10, 3), 12);
    assert!(is_aligned(9, 3));
    assert!(!is_aligned(10, 3));
    assert_eq!(alloc_aligned_vec(3, 64), vec![0, 0, 0]);
    assert!(alloc_aligned_vec(0, 64).is_empty());
}

#[test]
fn sizes_without_a_layout_are_refused() {
    assert!(CacheAlignedBuffer::new(usize::MAX).is_none());
    assert!(CacheAlignedBuffer::new(isize::MAX as usize).is_none());
    assert!(AlignedBuffer::<48>::from_storage(8, Some(Vec::new())).is_none());
    assert!(CacheAlignedBuffer::from_storage(usize::MAX, Some(Vec::new())).is_none());
    let mut buf = CacheAlignedBuffer::new(2).expect("memory");
    buf.as_mut_slice().copy_from_slice(&[5, 6]);
    assert!(!buf.resize(isize::MAX as usize));
    assert_eq!(buf.as_slice(), &[5, 6]);
}

#[test]
fn the_allocator_decides_the_rest() {
    assert!(CacheAlignedBuffer::from_storage(8, None).is_none());
    let buf = BlockAlignedBuffer::from_storage(8, Some(vec![1, 2, 3])).expect("granted");
    assert_eq!(buf.as_slice(), &[0u8; 8]);
    assert!(is_block_aligned(buf.as_ptr()));
    assert!(CacheAlignedBuffer::new(0).expect("memory").is_empty());
}
