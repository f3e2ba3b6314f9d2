use ralloc::block::Block;

fn block(addr: usize, size: usize) -> Block {
    Block::from_raw_parts(addr, size).unwrap()
}

#[test]
fn a_block_has_its_base_size_and_end() {
    let b = block(0x1000, 0x20);
    assert_eq!(b.addr(), 0x1000);
    assert_eq!(b.size(), 0x20);
    assert_eq!(b.end(), 0x1020);
    assert!(!b.is_empty());
}

#[test]
fn a_block_must_end_within_the_address_space() {
    assert!(Block::from_raw_parts(usize::MAX, 1).is_none());
    assert!(Block::from_raw_parts(usize::MAX - 4, 5).is_none());
    assert!(Block::from_raw_parts(1, usize::MAX).is_none());
    let top = Block::from_raw_parts(usize::MAX - 4, 4).unwrap();
    assert_eq!(top.end(), usize::MAX);
    assert!(Block::from_raw_parts(usize::MAX, 0).is_some());
}

#[test]
fn empty_blocks_sit_at_either_side() {
    let b = block(0x1000, 0x20);
    assert_eq!(b.empty_left(), Block::empty(0x1000));
    assert_eq!(b.empty_right(), Block::empty(0x1020));
    assert!(b.empty_left().is_empty());
    assert_eq!(Block::empty(7).size(), 0);
    assert_eq!(Block::empty(7).addr(), 7);
}

#[test]
fn split_parts_make_up_the_whole() {
    let b = block(0x1000, 0x20);
    let (low, high) = b.split(0x8);
    assert_eq!(low, block(0x1000, 0x8));
    assert_eq!(high, block(0x1008, 0x18));
    assert_eq!(low.end(), high.addr());
    assert_eq!(low.size() + high.size(), b.size());

    let (none, all) = b.split(0);
    assert!(none.is_empty());
    assert_eq!(all, b);
    let (all, none) = b.split(0x20);
    assert_eq!(all, b);
    assert_eq!(none, Block::empty(0x1020));
}

#[test]
fn aligner_is_the_distance_to_the_next_multiple() {
    assert_eq!(block(0x1010, 8).aligner(64), 48);
    assert_eq!(block(0x1000, 8).aligner(64), 0);
    assert_eq!(block(0x1001, 8).aligner(2), 1);
    assert_eq!(block(13, 8).aligner(1), 0);
    assert_eq!(block(13, 8).aligner(5), 2);
    assert_eq!(block(0, 8).aligner(4096), 0);
}

#[test]
fn align_separates_the_misaligned_head() {
    let (head, rest) = block(0x1010, 144).align(64).unwrap();
    assert_eq!(head, block(0x1010, 48));
    assert_eq!(rest, block(0x1040, 96));
    assert!(rest.aligned_to(64));
    assert!(!head.aligned_to(64));

    let (head, rest) = block(0x1000, 16).align(16).unwrap();
    assert!(head.is_empty());
    assert_eq!(rest, block(0x1000, 16));
}

#[test]
fn align_fails_where_the_head_takes_all() {
    assert_eq!(block(0x1010, 48).align(64), None);
    assert_eq!(block(0x1010, 47).align(64), None);
    assert!(block(0x1010, 49).align(64).is_some());
    assert_eq!(Block::empty(0x1000).align(1), None);
}

#[test]
fn left_to_means_nothing_lies_between() {
    let a = block(0x1000, 0x10);
    assert!(a.left_to(&block(0x1010, 4)));
    assert!(!a.left_to(&block(0x1011, 4)));
    assert!(!a.left_to(&block(0x1000, 4)));
    assert!(!block(0x1010, 4).left_to(&a));
}

#[test]
fn merge_right_takes_a_neighbour_only() {
    let mut a = block(0x1000, 0x10);
    assert_eq!(a.merge_right(block(0x1010, 0x30)), Ok(()));
    assert_eq!(a, block(0x1000, 0x40));
    let far = block(0x2000, 0x10);
    assert_eq!(a.merge_right(far), Err(far));
    assert_eq!(a, block(0x1000, 0x40));
}

#[test]
fn blocks_are_ordered_by_address_then_size() {
    assert!(block(0x1000, 0x10) < block(0x1001, 0));
    assert!(block(0x1000, 0) < block(0x1000, 1));
    assert!(block(0x1000, 4) <= block(0x1000, 4));
    assert!(block(0x2000, 0) > block(0x1000, 0x2000));
    assert!(block(0x1000, 4) >= block(0x1000, 4));
    assert_eq!(block(0x1000, 4).partial_cmp(&block(0x1000, 4)), Some(std::cmp::Ordering::Equal));
}
