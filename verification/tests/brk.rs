use ralloc::block::Block;
use ralloc::brk::{
    canonical_request, carve, lock, sbrk, sbrk_target, Brk, BrkFailure, BrkLock, BrkState,
    ReleaseError, Shim,
};

/// A program break kept in memory. It lets itself be put anywhere between
/// where it started and a ceiling, and hands a request for any other place
/// back.
struct FakeBreak {
    brk: usize,
    floor: usize,
    ceiling: usize,
    slack: usize,
    requests: usize,
    queries: usize,
}

impl FakeBreak {
    fn new(brk: usize, ceiling: usize, slack: usize) -> FakeBreak {
        FakeBreak { brk, floor: brk, ceiling, slack, requests: 0, queries: 0 }
    }
}

impl Shim for FakeBreak {
    fn current_break(&mut self) -> usize {
        self.queries += 1;
        self.brk
    }

    fn request_break(&mut self, new_break: usize) -> usize {
        self.requests += 1;
        if self.floor <= new_break && new_break <= self.ceiling {
            let previous = self.brk;
            self.brk = new_break;
            previous
        } else {
            new_break
        }
    }

    fn extra_slack(&self, _size: usize) -> usize {
        self.slack
    }
}

fn fresh() -> BrkLock<FakeBreak> {
    lock(Brk::new(FakeBreak::new(0x1000, 0x100000, 64)))
}

fn block(addr: usize, size: usize) -> Block {
    Block::from_raw_parts(addr, size).unwrap()
}

#[test]
fn test_ordered() {
    let brk = fresh().canonical_brk(20, 1).unwrap();

    assert!(brk.0 <= brk.1);
    assert!(brk.1 <= brk.2);
}

#[test]
fn test_brk_grow_up() {
    let mut held = fresh();
    let brk1 = held.sbrk(5).unwrap();
    let brk2 = held.sbrk(100).unwrap();

    assert!(brk1 < brk2);
}

#[test]
fn sbrk_returns_the_old_break_and_caches_the_new() {
    let mut held = fresh();
    assert_eq!(held.cached(), None);
    assert_eq!(held.sbrk(5), Ok(0x1000));
    assert_eq!(held.cached(), Some(0x1005));
    assert_eq!(held.sbrk(100), Ok(0x1005));
    assert_eq!(held.cached(), Some(0x1069));
    assert_eq!(held.shim().brk, 0x1069);
    assert_eq!(held.sbrk(-0x69), Ok(0x1069));
    assert_eq!(held.cached(), Some(0x1000));
    assert_eq!(held.shim().brk, 0x1000);
}

#[test]
fn sbrk_of_nothing_succeeds_and_moves_nothing() {
    let mut held = fresh();
    assert_eq!(held.sbrk(0), Ok(0x1000));
    assert_eq!(held.cached(), Some(0x1000));
    assert_eq!(held.shim().brk, 0x1000);
    held.sbrk(32).unwrap();
    assert_eq!(held.sbrk(0), Ok(0x1020));
    assert_eq!(held.cached(), Some(held.shim().brk));
}

#[test]
fn sbrk_of_nothing_succeeds_at_the_ceiling() {
    let mut held = lock(Brk::new(FakeBreak::new(0x1000, 0x1000, 0)));
    assert_eq!(held.sbrk(0), Ok(0x1000));
    assert_eq!(held.sbrk(1), Err(BrkFailure));
    assert_eq!(held.sbrk(0), Ok(0x1000));
}

#[test]
fn the_break_is_asked_for_once() {
    let mut held = fresh();
    assert_eq!(held.current_brk(), 0x1000);
    assert_eq!(held.current_brk(), 0x1000);
    held.sbrk(8).unwrap();
    assert_eq!(held.current_brk(), 0x1008);
    assert_eq!(held.shim().queries, 1);
}

#[test]
fn a_refused_move_fails_and_leaves_the_cache() {
    let mut held = fresh();
    held.sbrk(16).unwrap();
    assert_eq!(held.sbrk(0x200000), Err(BrkFailure));
    assert_eq!(held.cached(), Some(0x1010));
    assert_eq!(held.shim().brk, 0x1010);
}

#[test]
fn a_move_out_of_the_address_space_fails_without_a_request() {
    let mut high = lock(Brk::new(FakeBreak::new(usize::MAX - 10, usize::MAX, 0)));
    assert_eq!(high.sbrk(100), Err(BrkFailure));
    assert_eq!(high.cached(), Some(usize::MAX - 10));
    assert_eq!(high.shim().requests, 0);

    let mut low = fresh();
    assert_eq!(low.sbrk(-0x2000), Err(BrkFailure));
    assert_eq!(low.shim().requests, 0);
}

#[test]
fn sbrk_target_adds_the_delta() {
    assert_eq!(sbrk_target(0x1000, 5), Some(0x1005));
    assert_eq!(sbrk_target(0x1000, -5), Some(0xffb));
    assert_eq!(sbrk_target(0x1000, 0), Some(0x1000));
    assert_eq!(sbrk_target(0x1000, -0x1000), Some(0));
    assert_eq!(sbrk_target(0x1000, -0x1001), None);
    assert_eq!(sbrk_target(usize::MAX, 1), None);
    assert_eq!(sbrk_target(usize::MAX - 1, 1), Some(usize::MAX));
    assert_eq!(sbrk_target(0, isize::MIN), None);
    assert_eq!(sbrk_target(usize::MAX, isize::MIN), Some(usize::MAX - (1usize << (usize::BITS - 1))));
}

#[test]
fn the_cache_remembers_the_first_report() {
    let mut state = BrkState::new();
    assert_eq!(state.cached(), None);
    assert_eq!(state.remember(0x4000), 0x4000);
    assert_eq!(state.remember(0x5000), 0x4000);
    assert_eq!(state.cached(), Some(0x4000));
}

#[test]
fn settle_tells_a_refusal_by_the_echo() {
    let mut state = BrkState::new();
    state.remember(0x4000);
    assert_eq!(state.settle(0x4100, 0x4100, true), Err(BrkFailure));
    assert_eq!(state.cached(), Some(0x4000));
    assert_eq!(state.settle(0x4100, 0x4000, true), Ok(0x4000));
    assert_eq!(state.cached(), Some(0x4100));
    assert_eq!(state.settle(0x4100, 0x4100, false), Ok(0x4100));
    assert_eq!(state.cached(), Some(0x4100));
}

#[test]
fn canonical_request_sums_size_slack_and_alignment() {
    assert_eq!(canonical_request(20, 1, 64), Some(85));
    assert_eq!(canonical_request(0, 1, 0), Some(1));
    let top = isize::MAX as usize;
    assert_eq!(canonical_request(top - 2, 1, 1), Some(top));
    assert_eq!(canonical_request(top - 1, 1, 1), None);
    assert_eq!(canonical_request(usize::MAX, 1, 0), None);
    assert_eq!(canonical_request(1, usize::MAX, usize::MAX), None);
}

#[test]
fn carve_cuts_head_result_and_rest() {
    let (head, res, rest) = carve(block(0x1010, 144), 16, 64);
    assert_eq!((head.addr(), head.size()), (0x1010, 48));
    assert_eq!((res.addr(), res.size()), (0x1040, 16));
    assert_eq!((rest.addr(), rest.size()), (0x1050, 80));
}

#[test]
fn canonical_brk_splits_what_it_broke() {
    let mut held = lock(Brk::new(FakeBreak::new(0x1010, 0x100000, 64)));
    let (head, res, rest) = held.canonical_brk(16, 64).unwrap();
    assert_eq!((head.addr(), head.size()), (0x1010, 48));
    assert_eq!((res.addr(), res.size()), (0x1040, 16));
    assert_eq!((rest.addr(), rest.size()), (0x1050, 80));
    assert!(res.aligned_to(64));
    assert_eq!(head.size() + res.size() + rest.size(), 16 + 64 + 64);
    assert_eq!(held.cached(), Some(0x10a0));
    assert_eq!(held.shim().brk, 0x10a0);
}

#[test]
fn canonical_brk_keeps_its_promises_over_sizes_and_alignments() {
    let mut held = fresh();
    for size in [1usize, 7, 20, 64, 1000] {
        for align in [1usize, 2, 8, 64, 4096] {
            let before = held.current_brk();
            let (head, res, rest) = held.canonical_brk(size, align).unwrap();
            assert_eq!(head.addr(), before);
            assert_eq!(head.end(), res.addr());
            assert_eq!(res.end(), rest.addr());
            assert_eq!(res.size(), size);
            assert_eq!(res.addr() % align, 0);
            assert!(head.size() < align);
            assert_eq!(head.size() + res.size() + rest.size(), size + 64 + align);
            assert_eq!(held.cached(), Some(rest.end()));
        }
    }
}

#[test]
fn canonical_brk_fails_where_the_system_refuses() {
    let mut held = lock(Brk::new(FakeBreak::new(0x1000, 0x1040, 64)));
    assert_eq!(held.canonical_brk(20, 1), Err(BrkFailure));
    assert_eq!(held.cached(), Some(0x1000));
    assert_eq!(held.shim().brk, 0x1000);
}

#[test]
fn canonical_brk_fails_on_a_size_beyond_any_move() {
    let mut held = fresh();
    assert_eq!(held.canonical_brk(usize::MAX, 1), Err(BrkFailure));
    assert_eq!(held.cached(), None);
    assert_eq!(held.shim().requests, 0);
}

#[test]
fn three_canonical_requests_do_not_overlap() {
    let mut held = fresh();
    let first = held.canonical_brk(20, 1).unwrap();
    let second = held.canonical_brk(20, 1).unwrap();
    let third = held.canonical_brk(20, 1).unwrap();
    let all = [first.0, first.1, first.2, second.0, second.1, second.2, third.0, third.1, third.2];
    for pair in all.windows(2) {
        assert!(pair[0] <= pair[1]);
        assert!(pair[0].end() <= pair[1].addr());
    }
    assert_eq!(first.1.addr(), 0x1000);
    assert_eq!(second.1.addr(), 0x1055);
    assert_eq!(third.1.addr(), 0x10aa);
}

#[test]
fn many_canonical_requests_give_disjoint_results() {
    let mut held = fresh();
    let mut results: Vec<Block> = Vec::new();
    for i in 0..16usize {
        results.push(held.canonical_brk(8 + i, 16).unwrap().1);
    }
    for a in 0..results.len() {
        for b in (a + 1)..results.len() {
            assert!(results[a].end() <= results[b].addr());
        }
    }
}

#[test]
fn release_gives_back_what_ends_at_the_break() {
    let mut held = fresh();
    let (_, _, rest) = held.canonical_brk(20, 1).unwrap();
    assert_eq!(held.cached(), Some(0x1055));
    assert_eq!(held.release(rest), Ok(()));
    assert_eq!(held.cached(), Some(0x1055 - rest.size()));
    assert_eq!(held.shim().brk, 0x1014);
}

#[test]
fn release_rejects_what_lies_elsewhere() {
    let mut held = fresh();
    let (_, res, rest) = held.canonical_brk(20, 1).unwrap();
    assert_eq!(held.release(res), Err(ReleaseError::Rejected(res)));
    assert_eq!(held.cached(), Some(0x1055));
    assert_eq!(held.shim().brk, 0x1055);
    assert_eq!(held.release(rest), Ok(()));
    assert_eq!(held.release(rest), Err(ReleaseError::Rejected(rest)));
}

#[test]
fn release_reports_a_shrink_that_the_system_refused() {
    let mut held = fresh();
    let below = block(0x0f00, 0x100);
    assert_eq!(held.release(below), Err(ReleaseError::ShrinkFailed(below)));
    assert_eq!(held.cached(), Some(0x1000));
    assert_eq!(held.shim().brk, 0x1000);
}

#[test]
fn release_of_an_empty_block_at_the_break_succeeds() {
    let mut held = fresh();
    assert_eq!(held.release(Block::empty(0x1000)), Ok(()));
    assert_eq!(held.cached(), Some(0x1000));
}

#[test]
fn the_free_sbrk_answers_with_the_top_address_on_failure() {
    let brk = Brk::new(FakeBreak::new(0x1000, 0x2000, 0));
    let (brk, at) = sbrk(brk, 0x10);
    assert_eq!(at, 0x1000);
    assert_eq!(brk.cached(), Some(0x1010));
    let (brk, at) = sbrk(brk, 0x10000);
    assert_eq!(at, usize::MAX);
    assert_eq!(brk.cached(), Some(0x1010));
    assert_eq!(brk.shim().brk, 0x1010);
}

#[test]
fn unlock_keeps_the_cache() {
    let mut held = fresh();
    held.sbrk(4).unwrap();
    let brk = held.unlock();
    assert_eq!(brk.cached(), Some(0x1004));
    let mut again = lock(brk);
    assert_eq!(again.sbrk(4), Ok(0x1004));
    assert_eq!(again.shim().queries, 1);
}
