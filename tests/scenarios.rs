use index_pool::iter::{IndexAfterIter, IndexIter};
use index_pool::{AlreadyInUse, AlreadyReturned, IndexPool};

fn all(pool: &IndexPool) -> Vec<usize> {
    let mut iter: IndexIter = pool.all_indices();
    let mut out = Vec::new();
    while let Some(v) = iter.next() {
        out.push(v);
    }
    out
}

fn all_after(pool: &IndexPool, after: usize) -> Vec<usize> {
    let mut iter: IndexAfterIter = pool.all_indices_after(after);
    let mut out = Vec::new();
    while let Some(v) = iter.next() {
        out.push(v);
    }
    out
}

fn free_below_maximum(pool: &IndexPool) -> Vec<usize> {
    (0..pool.maximum()).filter(|&v| pool.is_free(v)).collect()
}

#[test]
fn allocate_free_reuse() {
    let mut pool = IndexPool::new();
    assert_eq!(pool.new_id(), 0);
    assert_eq!(pool.new_id(), 1);
    assert_eq!(pool.new_id(), 2);
    assert_eq!(pool.return_id(1), Ok(()));
    assert_eq!(pool.new_id(), 1);
    assert_eq!(all(&pool), vec![0, 1, 2]);
    assert_eq!(pool.maximum(), 3);
    assert_eq!(pool.in_use(), 3);
}

#[test]
fn frontier_collapse() {
    let mut pool = IndexPool::new();
    pool.new_id();
    pool.new_id();
    pool.new_id();
    assert_eq!(pool.return_id(2), Ok(()));
    assert_eq!(pool.maximum(), 2);
    assert_eq!(pool.return_id(1), Ok(()));
    assert_eq!(pool.maximum(), 1);
    assert_eq!(pool.return_id(0), Ok(()));
    assert_eq!(pool.maximum(), 0);
    assert_eq!(pool.in_use(), 0);
}

#[test]
fn coalesced_free_then_reuse_lowest_first() {
    let mut pool = IndexPool::new();
    for _ in 0..5 {
        pool.new_id();
    }
    assert_eq!(pool.return_id(2), Ok(()));
    assert_eq!(pool.return_id(1), Ok(()));
    assert_eq!(pool.return_id(3), Ok(()));
    assert_eq!(free_below_maximum(&pool), vec![1, 2, 3]);
    assert_eq!(pool.in_use(), 2);
    assert_eq!(pool.new_id(), 1);
    assert_eq!(pool.new_id(), 2);
    assert_eq!(pool.new_id(), 3);
    assert_eq!(pool.maximum(), 5);
    assert_eq!(pool.in_use(), 5);
}

#[test]
fn request_with_gap() {
    let mut pool = IndexPool::new();
    assert_eq!(pool.request_id(5), Ok(()));
    assert_eq!(pool.maximum(), 6);
    for v in 0..5 {
        assert!(pool.is_free(v));
    }
    assert!(!pool.is_free(5));
    for v in 6..10 {
        assert_eq!(pool.request_id(v), Ok(()));
        assert_eq!(pool.maximum(), v + 1);
        assert_eq!(free_below_maximum(&pool), vec![0, 1, 2, 3, 4]);
    }
    assert_eq!(pool.in_use(), 5);
}

#[test]
fn request_already_used() {
    let mut pool = IndexPool::new();
    for v in 5..10 {
        assert_eq!(pool.request_id(v), Ok(()));
    }
    assert_eq!(pool.request_id(7), Err(AlreadyInUse));
    assert_eq!(pool.maximum(), 10);
    assert_eq!(pool.in_use(), 5);
    assert_eq!(all(&pool), vec![5, 6, 7, 8, 9]);
}

#[test]
fn indices_after() {
    let mut pool = IndexPool::new();
    for _ in 0..5 {
        pool.new_id();
    }
    assert_eq!(pool.request_id(7), Ok(()));
    assert_eq!(all_after(&pool, 2), vec![2, 3, 4, 7]);
    assert_eq!(all_after(&pool, 5), vec![7]);
    assert_eq!(all_after(&pool, 6), vec![7]);
    assert_eq!(all_after(&pool, 8), Vec::<usize>::new());
    assert_eq!(all_after(&pool, 100), Vec::<usize>::new());
    assert_eq!(all_after(&pool, 0), vec![0, 1, 2, 3, 4, 7]);
}

#[test]
fn double_return() {
    let mut pool = IndexPool::new();
    pool.new_id();
    pool.new_id();
    pool.new_id();
    assert_eq!(pool.return_id(1), Ok(()));
    assert_eq!(pool.return_id(1), Err(AlreadyReturned));
    assert_eq!(pool.return_id(9), Err(AlreadyReturned));
    assert_eq!(pool.in_use(), 2);
    assert_eq!(pool.maximum(), 3);
}

#[test]
fn request_a_freed_index() {
    let mut pool = IndexPool::new();
    for _ in 0..6 {
        pool.new_id();
    }
    assert_eq!(pool.return_id(1), Ok(()));
    assert_eq!(pool.return_id(2), Ok(()));
    assert_eq!(pool.return_id(3), Ok(()));
    assert_eq!(pool.request_id(2), Ok(()));
    assert_eq!(free_below_maximum(&pool), vec![1, 3]);
    assert_eq!(pool.request_id(2), Err(AlreadyInUse));
    assert_eq!(pool.new_id(), 1);
    assert_eq!(pool.new_id(), 3);
    assert_eq!(pool.new_id(), 6);
}

#[test]
fn collapse_across_free_range() {
    let mut pool = IndexPool::new();
    for _ in 0..6 {
        pool.new_id();
    }
    assert_eq!(pool.return_id(2), Ok(()));
    assert_eq!(pool.return_id(3), Ok(()));
    assert_eq!(pool.return_id(4), Ok(()));
    assert_eq!(pool.maximum(), 6);
    assert_eq!(pool.return_id(5), Ok(()));
    assert_eq!(pool.maximum(), 2);
    assert_eq!(pool.in_use(), 2);
    assert_eq!(free_below_maximum(&pool), Vec::<usize>::new());
    assert_eq!(pool.new_id(), 2);
}

#[test]
fn free_everything_collapses() {
    let mut pool = IndexPool::new();
    for _ in 0..8 {
        pool.new_id();
    }
    for v in [3, 0, 6, 1, 7, 4, 2, 5] {
        assert_eq!(pool.return_id(v), Ok(()));
    }
    assert_eq!(pool.maximum(), 0);
    assert_eq!(pool.in_use(), 0);
    assert_eq!(all(&pool), Vec::<usize>::new());
}

#[test]
fn allocate_then_return_highest_first_restores_state() {
    let mut pool = IndexPool::new();
    for _ in 0..4 {
        pool.new_id();
    }
    assert_eq!(pool.return_id(1), Ok(()));
    let before_max = pool.maximum();
    let before_use = pool.in_use();
    let before_all = all(&pool);
    let mut got = vec![pool.new_id(), pool.new_id(), pool.new_id()];
    got.sort();
    for v in got.iter().rev() {
        assert_eq!(pool.return_id(*v), Ok(()));
    }
    assert_eq!(pool.maximum(), before_max);
    assert_eq!(pool.in_use(), before_use);
    assert_eq!(all(&pool), before_all);
    assert_eq!(free_below_maximum(&pool), vec![1]);
}

#[test]
fn in_use_is_maximum_minus_free() {
    let mut pool = IndexPool::new();
    for _ in 0..10 {
        pool.new_id();
    }
    for v in [1, 2, 5, 7] {
        assert_eq!(pool.return_id(v), Ok(()));
    }
    assert_eq!(pool.in_use(), pool.maximum() - free_below_maximum(&pool).len());
    assert_eq!(pool.in_use(), 6);
    assert_eq!(all(&pool), vec![0, 3, 4, 6, 8, 9]);
}

#[test]
fn new_id_takes_lowest_free() {
    let mut pool = IndexPool::new();
    for _ in 0..6 {
        pool.new_id();
    }
    assert_eq!(pool.return_id(4), Ok(()));
    assert_eq!(pool.return_id(1), Ok(()));
    assert_eq!(pool.new_id(), 1);
    assert_eq!(pool.new_id(), 4);
    assert_eq!(pool.new_id(), 6);
}

#[test]
fn initial_index_starts_above_zero() {
    let mut pool = IndexPool::with_initial_index(3);
    assert_eq!(pool.maximum(), 3);
    assert_eq!(pool.in_use(), 0);
    assert!(!pool.is_free(0));
    assert!(!pool.is_free(2));
    assert!(pool.is_free(3));
    assert_eq!(pool.new_id(), 3);
    assert_eq!(pool.in_use(), 1);
    assert_eq!(all(&pool), vec![0, 1, 2, 3]);
    assert_eq!(pool.request_id(1), Err(AlreadyInUse));
}

#[test]
fn initial_index_block_can_be_returned() {
    let mut pool = IndexPool::with_initial_index(3);
    assert_eq!(pool.return_id(1), Ok(()));
    assert_eq!(pool.in_use(), 0);
    assert!(pool.is_free(1));
    assert_eq!(pool.new_id(), 1);
    assert_eq!(pool.return_id(2), Ok(()));
    assert_eq!(pool.maximum(), 2);
}

#[test]
fn clear_resets() {
    let mut pool = IndexPool::new();
    for _ in 0..4 {
        pool.new_id();
    }
    assert_eq!(pool.return_id(1), Ok(()));
    pool.clear();
    assert_eq!(pool.maximum(), 0);
    assert_eq!(pool.in_use(), 0);
    assert!(pool.is_free(1));
    assert_eq!(pool.new_id(), 0);
}

#[test]
fn default_is_empty() {
    let mut pool = IndexPool::default();
    assert_eq!(pool.maximum(), 0);
    assert_eq!(pool.in_use(), 0);
    assert_eq!(pool.new_id(), 0);
}

#[test]
fn error_descriptions() {
    assert_eq!(
        AlreadyReturned.description(),
        "An index was tried to be returned to the pool, but it was already marked as free."
    );
    assert_eq!(
        AlreadyInUse.description(),
        "An index was requested which was already marked as in use."
    );
}

#[test]
fn iterator_exhausts_and_stays_empty() {
    let mut pool = IndexPool::new();
    pool.new_id();
    let mut iter = pool.all_indices();
    assert_eq!(iter.next(), Some(0));
    assert_eq!(iter.next(), None);
    assert_eq!(iter.next(), None);
}

#[test]
fn iterator_skips_leading_free_range() {
    let mut pool = IndexPool::new();
    assert_eq!(pool.request_id(3), Ok(()));
    assert_eq!(pool.new_id(), 0);
    assert_eq!(pool.return_id(0), Ok(()));
    assert_eq!(all(&pool), vec![3]);
    assert_eq!(all_after(&pool, 1), vec![3]);
}

#[test]
fn cloned_iterator_resumes_independently() {
    let mut pool = IndexPool::new();
    for _ in 0..4 {
        pool.new_id();
    }
    assert_eq!(pool.return_id(1), Ok(()));
    let mut iter = pool.all_indices();
    assert_eq!(iter.next(), Some(0));
    let mut copy = iter.clone();
    assert_eq!(iter.next(), Some(2));
    assert_eq!(iter.next(), Some(3));
    assert_eq!(iter.next(), None);
    assert_eq!(copy.next(), Some(2));
    let mut after = pool.all_indices_after(1);
    let mut after_copy = after.clone();
    assert_eq!(after.next(), Some(2));
    assert_eq!(after_copy.next(), Some(2));
    assert_eq!(after_copy.next(), Some(3));
}
