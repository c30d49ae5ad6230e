use dupfinder::multiprocessing::{IMapIterator, Step, WorkerPool};
use std::sync::mpsc;

fn shuffled(n: usize, seed: u64) -> Vec<usize> {
    let mut order: Vec<usize> = (0..n).collect();
    let mut state = seed;
    for i in (1..n).rev() {
        state = state.wrapping_mul(6364136223846793005).wrapping_add(1442695040888963407);
        let j = (state >> 33) as usize % (i + 1);
        order.swap(i, j);
    }
    order
}

/// Feeds the completions in the given order and collects what the buffer
/// hands out, polling after each arrival.
fn run(order: &[usize]) -> Vec<String> {
    let mut it: IMapIterator<String> = IMapIterator::new(order.len());
    let mut out = Vec::new();
    let mut arrivals = order.iter();
    loop {
        match it.poll() {
            Step::Ready(v) => out.push(v),
            Step::Finished => break,
            Step::Pending => {
                let i = *arrivals.next().expect("a result is missing");
                assert!(it.accepts(i));
                it.receive(i, format!("job {}", i));
            }
        }
    }
    out
}

#[test]
fn results_come_out_in_submission_order() {
    for n in [0usize, 1, 2, 3, 10, 100, 1000] {
        for seed in 0..5u64 {
            let order = shuffled(n, seed);
            let out = run(&order);
            assert_eq!(out.len(), n);
            for (i, v) in out.iter().enumerate() {
                assert_eq!(v, &format!("job {}", i));
            }
        }
    }
}

#[test]
fn no_jobs_finish_at_once() {
    let mut it: IMapIterator<u32> = IMapIterator::new(0);
    assert_eq!(it.poll(), Step::Finished);
    assert_eq!(it.poll(), Step::Finished);
}

#[test]
fn early_results_wait_for_earlier_ones() {
    let mut it: IMapIterator<u32> = IMapIterator::new(3);
    assert_eq!(it.poll(), Step::Pending);
    it.receive(2, 20);
    assert_eq!(it.poll(), Step::Pending);
    it.receive(1, 10);
    assert_eq!(it.poll(), Step::Pending);
    assert!(!it.accepts(1));
    assert!(!it.accepts(3));
    it.receive(0, 0);
    assert_eq!(it.poll(), Step::Ready(0));
    assert!(!it.accepts(0));
    assert_eq!(it.poll(), Step::Ready(10));
    assert_eq!(it.poll(), Step::Ready(20));
    assert_eq!(it.poll(), Step::Finished);
}

#[test]
fn disconnect_ends_the_results() {
    let mut it: IMapIterator<u32> = IMapIterator::new(4);
    it.receive(0, 7);
    it.receive(2, 9);
    assert_eq!(it.poll(), Step::Ready(7));
    it.disconnect();
    assert_eq!(it.poll(), Step::Finished);
}

#[test]
fn pool_has_the_workers_asked_for() {
    assert_eq!(WorkerPool::with_workers(1).worker_count(), 1);
    assert_eq!(WorkerPool::with_workers(7).worker_count(), 7);
    assert!(WorkerPool::new().worker_count() >= 1);
    assert_eq!(WorkerPool::with_available(0).worker_count(), 1);
    assert_eq!(WorkerPool::with_available(6).worker_count(), 6);
}

#[test]
fn parallel_results_are_reordered() {
    for workers in [1usize, 2, 8, 64] {
        for n in [0usize, 1, 17, 300] {
            let pool = WorkerPool::with_workers(workers);
            let (tx, rx) = mpsc::channel();
            for i in 0..n {
                let tx = tx.clone();
                pool.pool().execute(move || {
                    // Uneven work so that jobs finish out of order.
                    let mut acc: u64 = i as u64;
                    for k in 0..((n - i) * 200) as u64 {
                        acc = acc.wrapping_mul(31).wrapping_add(k);
                    }
                    let _ = tx.send((i, (i * i, acc)));
                });
            }
            drop(tx);
            let mut it = IMapIterator::new(n);
            let mut out = Vec::new();
            loop {
                match it.poll() {
                    Step::Ready(v) => out.push(v),
                    Step::Finished => break,
                    Step::Pending => match rx.recv() {
                        Ok((i, v)) => {
                            assert!(it.accepts(i));
                            it.receive(i, v);
                        }
                        Err(_) => it.disconnect(),
                    },
                }
            }
            assert_eq!(out.len(), n);
            for (i, v) in out.iter().enumerate() {
                assert_eq!(v.0, i * i);
            }
        }
    }
}
