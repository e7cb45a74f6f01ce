use forge::pool::apply::{Calls, Collected};
use forge::pool::order::{compare, Sign};
use forge::pool::par::{chunk_ranges, par_map, par_reduce, par_sort, ParIter};
use forge::pool::par::{PAR_MAP_CUTOFF, PAR_SORT_CUTOFF};
use forge::pool::par_sort::partition_three_way;
use forge::pool::work::Work;
use forge::pool::StealingPool;
use std::cell::Cell;
use std::rc::Rc;
use std::sync::atomic::{AtomicUsize, Ordering};
use std::sync::Arc;

type Other = Box<dyn FnOnce()>;

type Pool = StealingPool<Work<Other>>;

fn pool_of(n_workers: usize) -> Pool {
    StealingPool::new(n_workers)
}

/// A pool with tasks of others, which count how often they were run.
fn busy_pool(n_workers: usize, n_tasks: usize) -> (Pool, Rc<Cell<usize>>) {
    let mut pool = pool_of(n_workers);
    let ran = Rc::new(Cell::new(0));
    for i in 0..n_tasks {
        let ran = ran.clone();
        let task: Other = Box::new(move || ran.set(ran.get() + 1));
        pool.spawn(Work::Other(task), if i % 2 == 0 { None } else { Some(i % n_workers) });
    }
    (pool, ran)
}

#[test]
fn par_iter_sum_basic() {
    let mut pool = pool_of(4);
    let input: Vec<i64> = (0..10_000).collect();
    let total = ParIter::from_slice(&input).sum(&mut pool);
    assert_eq!(total, (0..10_000i64).sum::<i64>());
}

#[test]
fn par_iter_map_filter_sum() {
    let mut pool = pool_of(4);
    let input: Vec<i64> = (0..10_000).collect();
    let total = ParIter::from_slice(&input)
        .map(Calls::new(|x: &i64| x * 2))
        .filter(Calls::new(|x: &i64| x % 3 == 0))
        .sum(&mut pool);
    let expected: i64 = (0..10_000i64).map(|x| x * 2).filter(|x| x % 3 == 0).sum();
    assert_eq!(total, expected);
}

#[test]
fn par_iter_chained_maps() {
    let mut pool = pool_of(4);
    let input: Vec<i64> = (0..5_000).collect();
    let total = ParIter::from_slice(&input)
        .map(Calls::new(|x: &i64| x + 1))
        .map(Calls::new(|x: &i64| x * x))
        .map(Calls::new(|x: &i64| x - 1))
        .sum(&mut pool);
    let expected: i64 =
        (0..5_000i64).map(|x| x + 1).map(|x| x * x).map(|x| x - 1).sum();
    assert_eq!(total, expected);
}

#[test]
fn par_iter_empty() {
    let mut pool = pool_of(2);
    let empty: Vec<i64> = vec![];
    let total = ParIter::from_slice(&empty).map(Calls::new(|x: &i64| x + 1)).sum(&mut pool);
    assert_eq!(total, 0);
}

#[test]
fn par_iter_filter_drops_all() {
    let mut pool = pool_of(4);
    let input: Vec<i64> = (0..2_000).collect();
    let total = ParIter::from_slice(&input).filter(Calls::new(|_: &i64| false)).sum(&mut pool);
    assert_eq!(total, 0);
}

#[test]
fn par_iter_for_each_counts() {
    let mut pool = pool_of(4);
    let input: Vec<i64> = (0..8_000).collect();
    let counter = Arc::new(AtomicUsize::new(0));
    let c2 = counter.clone();
    let mut count = Calls::new(move |_: &i64| {
        c2.fetch_add(1, Ordering::Relaxed);
    });
    ParIter::from_slice(&input).for_each(&mut pool, &mut count);
    assert_eq!(counter.load(Ordering::Relaxed), 8_000);
}

#[test]
fn par_map_basic() {
    let mut pool = pool_of(4);
    let input: Vec<i64> = (0..10_000).collect();
    let out = par_map(&mut pool, &input, &mut Calls::new(|x: &i64| x * x));
    let expected: Vec<i64> = input.iter().map(|x| x * x).collect();
    assert_eq!(out, expected);
}

#[test]
fn par_map_empty() {
    let mut pool = pool_of(2);
    let out: Vec<i64> = par_map(&mut pool, &[], &mut Calls::new(|x: &i64| x * 2));
    assert!(out.is_empty());
}

#[test]
fn par_map_small() {
    let mut pool = pool_of(4);
    let input: Vec<i32> = vec![1, 2, 3, 4, 5];
    let out = par_map(&mut pool, &input, &mut Calls::new(|x: &i32| x + 100));
    assert_eq!(out, vec![101, 102, 103, 104, 105]);
}

#[test]
fn par_map_preserves_order() {
    let mut pool = pool_of(8);
    let input: Vec<i64> = (0..20_000).collect();
    let out = par_map(&mut pool, &input, &mut Calls::new(|&x: &i64| x));
    assert_eq!(out, input);
}

#[test]
fn par_reduce_sum() {
    let mut pool = pool_of(4);
    let input: Vec<i64> = (1..=10_000).collect();
    let total = par_reduce(&mut pool, &input, || 0i64, |acc, x| acc + x, |a, b| a + b);
    assert_eq!(total, 5_000_5_000);
}

#[test]
fn par_reduce_max() {
    let mut pool = pool_of(4);
    let input: Vec<i64> = (0..10_000).map(|i| (i as i64).wrapping_mul(2654435761)).collect();
    let expected = input.iter().copied().max().unwrap();
    let got = par_reduce(
        &mut pool,
        &input,
        || i64::MIN,
        |acc, x| if *x > acc { *x } else { acc },
        |a, b| if a > b { a } else { b },
    );
    assert_eq!(got, expected);
}

#[test]
fn par_reduce_empty() {
    let mut pool = pool_of(2);
    let empty: Vec<i64> = vec![];
    let got = par_reduce(&mut pool, &empty, || 0i64, |acc, x| acc + x, |a, b| a + b);
    assert_eq!(got, 0);
}

#[test]
fn par_reduce_string_concat() {
    let mut pool = pool_of(4);
    let input: Vec<String> = (0..2000).map(|i| format!("{i},")).collect();
    let got = par_reduce(
        &mut pool,
        &input,
        || String::new(),
        |acc, x| acc + x,
        |a, b| a + &b,
    );
    let expected_len: usize = (0..2000).map(|i| format!("{i},").len()).sum();
    assert_eq!(got.len(), expected_len);
    assert_eq!(got, input.concat());
}

#[test]
fn par_sort_small_array() {
    let mut pool = pool_of(4);
    let mut a = vec![5, 3, 8, 1, 9, 2, 7, 4, 6, 0];
    let mut expected = a.clone();
    expected.sort();
    par_sort(&mut pool, &mut a);
    assert_eq!(a, expected);
}

#[test]
fn par_sort_large_random() {
    let mut pool = pool_of(4);
    let mut a: Vec<i64> =
        (0..65_536i64).map(|i| (i.wrapping_mul(2654435761)) ^ 0x9E3779B9).collect();
    let mut expected = a.clone();
    expected.sort();
    par_sort(&mut pool, &mut a);
    assert_eq!(a, expected);
}

#[test]
fn par_sort_already_sorted() {
    let mut pool = pool_of(4);
    let mut a: Vec<i32> = (0..8_000).collect();
    let expected = a.clone();
    par_sort(&mut pool, &mut a);
    assert_eq!(a, expected);
}

#[test]
fn par_sort_all_equal() {
    let mut pool = pool_of(4);
    let mut a = vec![7i32; 10_000];
    let expected = a.clone();
    par_sort(&mut pool, &mut a);
    assert_eq!(a, expected);
}

#[test]
fn par_sort_empty_and_single() {
    let mut pool = pool_of(2);
    let mut empty: Vec<i32> = vec![];
    par_sort(&mut pool, &mut empty);
    assert!(empty.is_empty());

    let mut single = vec![42];
    par_sort(&mut pool, &mut single);
    assert_eq!(single, vec![42]);
}

#[test]
fn par_sort_two_elements() {
    let mut pool = pool_of(2);
    let mut a = vec![2, 1];
    par_sort(&mut pool, &mut a);
    assert_eq!(a, vec![1, 2]);

    let mut b = vec![1, 2];
    par_sort(&mut pool, &mut b);
    assert_eq!(b, vec![1, 2]);
}

#[test]
fn par_sort_stress_many_runs() {
    let mut pool = pool_of(8);
    for seed in 0..20u64 {
        let mut a: Vec<i64> = (0..2000)
            .map(|i| {
                let x = (seed << 32) ^ i;
                (x.wrapping_mul(2654435761) as i64).abs()
            })
            .collect();
        let mut expected = a.clone();
        expected.sort();
        par_sort(&mut pool, &mut a);
        assert_eq!(a, expected, "seed {seed} mismatched");
    }
}

#[test]
fn par_sort_does_not_deadlock_on_deep_recursion() {
    let mut pool = pool_of(2);
    let mut a: Vec<i64> = (0..50_000).map(|i| (i as i64).wrapping_mul(31)).collect();
    let mut expected = a.clone();
    expected.sort();
    par_sort(&mut pool, &mut a);
    assert_eq!(a, expected);
}

#[test]
fn par_sort_of_a_short_slice_needs_no_worker() {
    let mut pool = pool_of(0);
    let mut a: Vec<usize> = (0..PAR_SORT_CUTOFF).rev().collect();
    par_sort(&mut pool, &mut a);
    assert_eq!(a, (0..PAR_SORT_CUTOFF).collect::<Vec<usize>>());
}

#[test]
fn partition_puts_the_middle_one_of_three_between() {
    let mut s = vec![5, 9, 1, 5, 7, 3, 5, 8, 5];
    let (lt, gt) = partition_three_way(&mut s, 0, 9);
    assert_eq!((lt, gt), (2, 6));
    assert!(s[..lt].iter().all(|x| *x < 5));
    assert!(s[lt..gt].iter().all(|x| *x == 5));
    assert!(s[gt..].iter().all(|x| *x > 5));
}

#[test]
fn compare_tells_the_sign() {
    assert_eq!(compare(&1, &2), Sign::Less);
    assert_eq!(compare(&2, &2), Sign::Same);
    assert_eq!(compare(&3, &2), Sign::Greater);
}

#[test]
fn chunks_cover_a_slice_without_gaps() {
    for n in [1usize, 255, 256, 257, 1000, 4096, 10_000] {
        let ranges = chunk_ranges(n);
        assert_eq!(ranges[0].0, 0);
        assert_eq!(ranges[ranges.len() - 1].1, n);
        for w in ranges.windows(2) {
            assert_eq!(w[0].1, w[1].0);
        }
    }
    assert_eq!(chunk_ranges(1000), vec![(0, 334), (334, 668), (668, 1000)]);
    assert_eq!(chunk_ranges(100 * PAR_MAP_CUTOFF).len(), 16);
    assert!(chunk_ranges(0).is_empty());
}

#[test]
fn nothing_to_do_needs_no_worker() {
    let mut pool = pool_of(0);
    assert!(par_map(&mut pool, &[], &mut Calls::new(|x: &u8| *x)).is_empty());
    assert_eq!(par_reduce(&mut pool, &[], || 7, |a: i32, x: &i32| a + x, |a, b| a + b), 7);
    assert_eq!(ParIter::from_slice(&[]).sum(&mut pool), 0);
    let mut never = Calls::new(|_: &i64| panic!("there is nothing"));
    ParIter::from_slice(&[]).for_each(&mut pool, &mut never);
}

#[test]
fn a_busy_pool_gives_the_same_results() {
    let input: Vec<i64> = (0..5_000).collect();
    let (mut pool, ran) = busy_pool(3, 10);
    let squares = par_map(&mut pool, &input, &mut Calls::new(|x: &i64| x * x));
    assert_eq!(squares, input.iter().map(|x| x * x).collect::<Vec<i64>>());
    assert_eq!(ran.get() + pool.n_pending(), 10);

    let (mut pool, ran) = busy_pool(2, 7);
    let total = par_reduce(&mut pool, &input, || 0i64, |acc, x| acc + x, |a, b| a + b);
    assert_eq!(total, input.iter().sum::<i64>());
    assert_eq!(ran.get() + pool.n_pending(), 7);

    let (mut pool, ran) = busy_pool(4, 9);
    let total = ParIter::from_slice(&input)
        .map(Calls::new(|x: &i64| x + 1))
        .filter(Calls::new(|x: &i64| x % 2 == 0))
        .sum(&mut pool);
    assert_eq!(total, input.iter().map(|x| x + 1).filter(|x| x % 2 == 0).sum::<i64>());
    assert_eq!(ran.get() + pool.n_pending(), 9);

    let (mut pool, ran) = busy_pool(2, 5);
    let mut a: Vec<i64> = (0..5_000).map(|i| (i * 7919) % 5_003).collect();
    let mut expected = a.clone();
    expected.sort();
    par_sort(&mut pool, &mut a);
    assert_eq!(a, expected);
    assert_eq!(ran.get() + pool.n_pending(), 5);
}

#[test]
fn for_each_sees_each_item_that_is_left_once() {
    let input: Vec<i64> = (0..3_000).collect();
    let (mut pool, _) = busy_pool(2, 3);
    let mut seen = Collected { items: Vec::new() };
    ParIter::from_slice(&input)
        .map(Calls::new(|x: &i64| x / 2))
        .filter(Calls::new(|x: &i64| x % 3 == 0))
        .for_each(&mut pool, &mut seen);
    let mut expected: Vec<i64> = input.iter().map(|x| x / 2).filter(|x| x % 3 == 0).collect();
    expected.sort();
    seen.items.sort();
    assert_eq!(seen.items, expected);
}

#[test]
fn par_map_calls_once_for_each_item() {
    let input: Vec<i64> = (0..2_000).collect();
    let mut pool = pool_of(3);
    let calls = Cell::new(0);
    let mut f = Calls::new(|x: &i64| {
        calls.set(calls.get() + 1);
        -x
    });
    let out = par_map(&mut pool, &input, &mut f);
    assert_eq!(out[1_999], -1_999);
    assert_eq!(calls.get(), 2_000);
}

/// Values that are compared by their first part alone.
#[derive(Clone, Debug, PartialEq, Eq)]
struct Keyed(u32, u32);

impl PartialOrd for Keyed {
    fn partial_cmp(&self, other: &Self) -> Option<std::cmp::Ordering> {
        Some(self.cmp(other))
    }
}

impl Ord for Keyed {
    fn cmp(&self, other: &Self) -> std::cmp::Ordering {
        self.0.cmp(&other.0)
    }
}

#[test]
fn a_short_sort_is_stable() {
    let mut pool = pool_of(1);
    let mut a: Vec<Keyed> = (0..1_000).map(|i| Keyed((i * 37) % 5, i)).collect();
    par_sort(&mut pool, &mut a);
    for w in a.windows(2) {
        assert!(w[0].0 < w[1].0 || (w[0].0 == w[1].0 && w[0].1 < w[1].1));
    }
}

#[test]
fn map_and_filter_are_applied_once_to_each_item_that_comes_to_them() {
    let input: Vec<i64> = (0..6_000).collect();
    let (mut pool, _) = busy_pool(3, 2);
    let mapped = Arc::new(AtomicUsize::new(0));
    let tested = Arc::new(AtomicUsize::new(0));
    let (m, t) = (mapped.clone(), tested.clone());
    let mut it = ParIter::from_slice(&input)
        .filter(Calls::new(move |x: &i64| {
            t.fetch_add(1, Ordering::Relaxed);
            x % 3 == 0
        }))
        .map(Calls::new(move |x: &i64| {
            m.fetch_add(1, Ordering::Relaxed);
            x * 2
        }));
    assert_eq!(mapped.load(Ordering::Relaxed), 0);
    assert_eq!(tested.load(Ordering::Relaxed), 0);
    let total = it.sum(&mut pool);
    assert_eq!(total, (0..6_000i64).filter(|x| x % 3 == 0).map(|x| x * 2).sum::<i64>());
    assert_eq!(tested.load(Ordering::Relaxed), 6_000);
    assert_eq!(mapped.load(Ordering::Relaxed), 2_000);
    let again = it.sum(&mut pool);
    assert_eq!(again, total);
    assert_eq!(mapped.load(Ordering::Relaxed), 4_000);
}
