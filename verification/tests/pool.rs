use ralloc::block::Block;
use ralloc::chain::LEVELS;
use ralloc::pool::{tower_height, InsertError, Pool, SearchMiss};
use ralloc::search::{BlockSearcher, Search};

fn block(addr: usize, size: usize) -> Block {
    Block::from_raw_parts(addr, size).unwrap()
}

/// The nodes that the links of `level` lead to, the head left out.
fn level_nodes(pool: &Pool, level: usize) -> Vec<usize> {
    let mut nodes = Vec::new();
    let mut cur = 0;
    while let Some(n) = pool.next(cur, level) {
        nodes.push(n);
        cur = n;
    }
    nodes
}

fn assert_levels_nest(pool: &Pool) {
    let order = level_nodes(pool, 0);
    let place = |node: usize| {
        if node == 0 {
            0
        } else {
            1 + order.iter().position(|n| *n == node).unwrap()
        }
    };
    for level in 0..LEVELS {
        let mut cur = 0;
        loop {
            let to = match pool.next(cur, level) {
                Some(n) => place(n),
                None => order.len() + 1,
            };
            assert_eq!(pool.skips(cur, level), Some(to - place(cur) - 1));
            match pool.next(cur, level) {
                Some(n) => cur = n,
                None => break,
            }
        }
    }
    for level in 1..LEVELS {
        let above = level_nodes(pool, level);
        let below = level_nodes(pool, level - 1);
        let mut rest = below.iter();
        for node in &above {
            assert!(rest.any(|n| n == node), "level {} is no part of level {}", level, level - 1);
        }
    }
    let lowest: Vec<Block> = level_nodes(pool, 0).iter().map(|&n| pool.block(n).unwrap()).collect();
    assert_eq!(lowest, pool.blocks());
    assert!(lowest.windows(2).all(|w| w[0].addr() < w[1].addr()));
}

/// A search for the first block of at least a given size, from a given
/// address on.
struct RoomFrom {
    from: usize,
    size: usize,
}

impl Search for RoomFrom {
    fn spec_refine(&self, block: Block) -> bool {
        block.addr() >= self.from
    }

    fn spec_is_match(&self, block: Block) -> bool {
        block.addr() >= self.from && block.size() >= self.size
    }

    fn refine(&self, block: &Block) -> bool {
        self.spec_refine(*block)
    }

    fn is_match(&self, block: &Block) -> bool {
        self.spec_is_match(*block)
    }
}

fn sample() -> Pool {
    let mut pool = Pool::new();
    assert_eq!(pool.insert(block(0x300, 0x30), 2), Ok(1));
    assert_eq!(pool.insert(block(0x100, 0x10), 1), Ok(2));
    assert_eq!(pool.insert(block(0x400, 0x40), 1), Ok(3));
    assert_eq!(pool.insert(block(0x200, 0x20), 3), Ok(4));
    pool
}

#[test]
fn a_new_pool_holds_nothing() {
    let pool = Pool::new();
    assert!(pool.is_empty());
    assert_eq!(pool.len(), 0);
    assert_eq!(pool.blocks(), vec![]);
    for level in 0..LEVELS {
        assert_eq!(pool.next(0, level), None);
    }
    assert_eq!(pool.next(0, LEVELS), None);
    assert_eq!(pool.block(0), None);
}

#[test]
fn every_search_of_an_empty_pool_misses() {
    let pool = Pool::new();
    assert_eq!(pool.search(&block(0, 0)).err(), Some(SearchMiss));
    assert_eq!(pool.search(&block(0x1000, 8)).err(), Some(SearchMiss));
    assert_eq!(pool.search_with(&BlockSearcher { needle: block(0x1000, 8) }).err(), Some(SearchMiss));
    assert_eq!(pool.search_with(&RoomFrom { from: 0, size: 0 }).err(), Some(SearchMiss));
}

#[test]
fn blocks_come_out_in_address_order() {
    let pool = sample();
    assert!(!pool.is_empty());
    assert_eq!(pool.len(), 4);
    assert_eq!(
        pool.blocks(),
        vec![block(0x100, 0x10), block(0x200, 0x20), block(0x300, 0x30), block(0x400, 0x40)]
    );
}

#[test]
fn links_skip_the_lower_nodes() {
    let pool = sample();
    assert_eq!(level_nodes(&pool, 0), vec![2, 4, 1, 3]);
    assert_eq!(level_nodes(&pool, 1), vec![4, 1]);
    assert_eq!(level_nodes(&pool, 2), vec![4]);
    assert_eq!(level_nodes(&pool, 3), vec![]);
    assert_eq!(pool.next(3, 1), None);
    assert_eq!(pool.next(99, 0), None);
}

#[test]
fn links_count_what_they_pass_over() {
    let pool = sample();
    assert_eq!(pool.skips(0, 0), Some(0));
    assert_eq!(pool.skips(0, 1), Some(1));
    assert_eq!(pool.skips(0, 2), Some(1));
    assert_eq!(pool.skips(0, 3), Some(4));
    assert_eq!(pool.skips(0, LEVELS - 1), Some(4));
    assert_eq!(pool.skips(0, LEVELS), None);
    assert_eq!(pool.skips(4, 0), Some(0));
    assert_eq!(pool.skips(4, 1), Some(0));
    assert_eq!(pool.skips(4, 2), Some(2));
    assert_eq!(pool.skips(4, 3), None);
    assert_eq!(pool.skips(1, 1), Some(1));
    assert_eq!(pool.skips(3, 0), Some(0));
    assert_eq!(pool.skips(3, 1), None);
    assert_eq!(pool.skips(9, 0), None);
}

#[test]
fn links_count_on_after_a_removal() {
    let mut pool = sample();
    pool.remove(&block(0x200, 0)).unwrap();
    assert_eq!(pool.skips(0, 0), Some(0));
    assert_eq!(pool.skips(0, 1), Some(1));
    assert_eq!(pool.skips(0, 2), Some(3));
    assert_eq!(pool.skips(1, 1), Some(1));
    assert_eq!(pool.skips(4, 0), None);
    pool.remove(&block(0x400, 0)).unwrap();
    assert_eq!(pool.skips(1, 0), Some(0));
    assert_eq!(pool.skips(1, 1), Some(0));
    assert_eq!(pool.skips(0, 2), Some(2));
}

#[test]
fn rank_counts_the_blocks_below() {
    let pool = sample();
    assert_eq!(pool.rank(&block(0, 0)), 0);
    assert_eq!(pool.rank(&block(0x100, 0)), 0);
    assert_eq!(pool.rank(&block(0x101, 0)), 1);
    assert_eq!(pool.rank(&block(0x300, 0)), 2);
    assert_eq!(pool.rank(&block(0x3ff, 0)), 3);
    assert_eq!(pool.rank(&block(0x400, 0)), 3);
    assert_eq!(pool.rank(&block(0x401, 0)), 4);
    assert_eq!(Pool::new().rank(&block(0x401, 0)), 0);
}

#[test]
fn a_search_finds_each_block_that_went_in() {
    let pool = sample();
    for b in [block(0x100, 0x10), block(0x200, 0x20), block(0x300, 0x30), block(0x400, 0x40)] {
        let seek = pool.search(&Block::empty(b.addr())).unwrap();
        assert_eq!(pool.block(seek.node()), Some(b));
    }
}

#[test]
fn a_search_records_the_node_before_on_each_level() {
    let pool = sample();
    let seek = pool.search(&block(0x300, 0)).unwrap();
    assert_eq!(seek.node(), 1);
    assert_eq!(seek.back_look(0), Some(4));
    assert_eq!(seek.back_look(1), Some(4));
    assert_eq!(seek.back_look(2), Some(4));
    for level in 3..LEVELS {
        assert_eq!(seek.back_look(level), Some(0));
    }
    assert_eq!(seek.back_look(LEVELS), None);

    let seek = pool.search(&block(0x400, 0)).unwrap();
    assert_eq!(seek.node(), 3);
    assert_eq!(seek.back_look(0), Some(1));
    assert_eq!(seek.back_look(1), Some(1));
    assert_eq!(seek.back_look(2), Some(4));
    assert_eq!(seek.back_look(3), Some(0));

    let seek = pool.search(&block(0x100, 0)).unwrap();
    assert_eq!(seek.node(), 2);
    for level in 0..LEVELS {
        assert_eq!(seek.back_look(level), Some(0));
    }
}

#[test]
fn a_search_misses_an_address_that_no_block_starts_at() {
    let pool = sample();
    assert_eq!(pool.search(&block(0x101, 0x10)).err(), Some(SearchMiss));
    assert_eq!(pool.search(&block(0x50, 0x10)).err(), Some(SearchMiss));
    assert_eq!(pool.search(&block(0x500, 0x10)).err(), Some(SearchMiss));
}

#[test]
fn a_search_takes_the_first_match_after_the_descent() {
    let pool = sample();
    let seek = pool.search_with(&RoomFrom { from: 0x150, size: 0x30 }).unwrap();
    assert_eq!(pool.block(seek.node()), Some(block(0x300, 0x30)));
    assert_eq!(seek.back_look(0), Some(4));

    let seek = pool.search_with(&RoomFrom { from: 0x150, size: 0x31 }).unwrap();
    assert_eq!(pool.block(seek.node()), Some(block(0x400, 0x40)));
    assert_eq!(seek.back_look(0), Some(1));

    assert_eq!(pool.search_with(&RoomFrom { from: 0x150, size: 0x41 }).err(), Some(SearchMiss));
    assert_eq!(pool.search_with(&RoomFrom { from: 0x401, size: 0 }).err(), Some(SearchMiss));
}

#[test]
fn insert_refuses_a_height_out_of_range() {
    let mut pool = sample();
    assert_eq!(pool.insert(block(0x500, 8), 0), Err(InsertError::Height));
    assert_eq!(pool.insert(block(0x500, 8), LEVELS + 1), Err(InsertError::Height));
    assert_eq!(pool.blocks().len(), 4);
    assert!(pool.insert(block(0x500, 8), LEVELS).is_ok());
    assert_eq!(level_nodes(&pool, LEVELS - 1), vec![5]);
}

#[test]
fn insert_refuses_an_address_that_is_held() {
    let mut pool = sample();
    assert_eq!(pool.insert(block(0x300, 1), 1), Err(InsertError::Occupied));
    assert_eq!(pool.insert(block(0x100, 0x10), 4), Err(InsertError::Occupied));
    assert_eq!(pool.blocks().len(), 4);
    assert_eq!(pool.block(1), Some(block(0x300, 0x30)));
}

#[test]
fn remove_takes_the_block_out_of_every_level() {
    let mut pool = sample();
    assert_eq!(pool.remove(&block(0x200, 0)), Ok(block(0x200, 0x20)));
    assert_eq!(pool.blocks(), vec![block(0x100, 0x10), block(0x300, 0x30), block(0x400, 0x40)]);
    assert_eq!(level_nodes(&pool, 0), vec![2, 1, 3]);
    assert_eq!(level_nodes(&pool, 1), vec![1]);
    assert_eq!(level_nodes(&pool, 2), vec![]);
    assert_eq!(pool.block(4), None);
    assert_eq!(pool.len(), 3);
    assert_eq!(pool.search(&block(0x200, 0)).err(), Some(SearchMiss));
    assert_eq!(pool.remove(&block(0x200, 0)), Err(SearchMiss));
    assert!(pool.search(&block(0x300, 0)).is_ok());
}

#[test]
fn remove_down_to_nothing() {
    let mut pool = sample();
    for addr in [0x400usize, 0x100, 0x300, 0x200] {
        assert_eq!(pool.remove(&Block::empty(addr)).map(|b| b.addr()), Ok(addr));
        assert_levels_nest(&pool);
    }
    assert!(pool.is_empty());
    assert_eq!(pool.insert(block(0x200, 2), 2), Ok(4));
    assert_eq!(pool.blocks(), vec![block(0x200, 2)]);
}

#[test]
fn a_place_that_was_given_up_is_used_again() {
    let mut pool = sample();
    assert_eq!(pool.remove(&block(0x100, 0)), Ok(block(0x100, 0x10)));
    assert_eq!(pool.remove(&block(0x300, 0)), Ok(block(0x300, 0x30)));
    assert_eq!(pool.insert(block(0x250, 5), 4), Ok(1));
    assert_eq!(pool.insert(block(0x50, 5), 1), Ok(2));
    assert_eq!(pool.insert(block(0x450, 5), 2), Ok(5));
    assert_eq!(
        pool.blocks(),
        vec![block(0x50, 5), block(0x200, 0x20), block(0x250, 5), block(0x400, 0x40), block(0x450, 5)]
    );
    assert_eq!(level_nodes(&pool, 0), vec![2, 4, 1, 3, 5]);
    assert_eq!(level_nodes(&pool, 1), vec![4, 1, 5]);
    assert_eq!(level_nodes(&pool, 2), vec![4, 1]);
    assert_eq!(level_nodes(&pool, 3), vec![1]);
    assert_levels_nest(&pool);
}

#[test]
fn levels_nest_after_inserts_and_removes() {
    let mut pool = Pool::new();
    let mut state: u64 = 0x2545f4914f6cdd1d;
    let mut held: Vec<usize> = Vec::new();
    for round in 0..400 {
        state ^= state << 13;
        state ^= state >> 7;
        state ^= state << 17;
        let addr = ((state >> 8) % 200) as usize * 0x10;
        let height = 1 + (state.trailing_ones() as usize).min(LEVELS - 1);
        if round % 3 == 2 {
            let got = pool.remove(&Block::empty(addr));
            assert_eq!(got.is_ok(), held.contains(&addr));
            held.retain(|a| *a != addr);
        } else {
            let got = pool.insert(block(addr, 0x10), height);
            if held.contains(&addr) {
                assert_eq!(got, Err(InsertError::Occupied));
            } else {
                assert!(got.is_ok());
                held.push(addr);
            }
        }
        assert_levels_nest(&pool);
    }
    assert_eq!(pool.len(), held.len());
    held.sort();
    let addrs: Vec<usize> = pool.blocks().iter().map(|b| b.addr()).collect();
    assert_eq!(addrs, held);
    for addr in held {
        let seek = pool.search(&Block::empty(addr)).unwrap();
        assert_eq!(pool.block(seek.node()), Some(block(addr, 0x10)));
    }
}

#[test]
fn tower_height_counts_the_low_one_bits() {
    assert_eq!(tower_height(0), 1);
    assert_eq!(tower_height(0b10), 1);
    assert_eq!(tower_height(0b1), 2);
    assert_eq!(tower_height(0b1011), 3);
    assert_eq!(tower_height(0b0111_1111), LEVELS);
    assert_eq!(tower_height(0b0011_1111), LEVELS - 1);
    assert_eq!(tower_height(u64::MAX), LEVELS);
}

#[test]
fn every_tower_height_goes_in() {
    let mut pool = Pool::new();
    for bits in 0..64u64 {
        let addr = (bits as usize) * 8;
        assert!(pool.insert(block(addr, 8), tower_height(bits)).is_ok());
    }
    assert_eq!(pool.blocks().len(), 64);
    assert_eq!(level_nodes(&pool, 1).len(), 32);
    assert_eq!(level_nodes(&pool, 2).len(), 16);
    assert_eq!(level_nodes(&pool, 6).len(), 1);
    assert_levels_nest(&pool);
}
