use vstd::prelude::*;

use std::collections::BTreeMap;

verus! {

#[verifier::external_type_specification]
#[verifier::external_body]
pub struct ExThreadPool(threadpool::ThreadPool);

/// The number of jobs a thread pool runs at once, as its `max_count`
/// reports it.
pub uninterp spec fn pool_size(pool: threadpool::ThreadPool) -> usize;

/// Relies on `threadpool::ThreadPool::new`, which starts a pool that runs
/// up to `count` jobs at once (its `max_count` is then `count`) and panics
/// when `count` is zero.
#[verifier::external_body]
fn start_workers(count: usize) -> (r: threadpool::ThreadPool)
    requires
        count > 0,
    ensures
        pool_size(r) == count,
{
    threadpool::ThreadPool::new(count)
}

/// Relies on `threadpool::ThreadPool::max_count`, the number of jobs the
/// pool runs at once; only `set_num_threads`, which takes the pool
/// mutably, changes it.
#[verifier::external_body]
fn max_count(pool: &threadpool::ThreadPool) -> (r: usize)
    ensures
        r == pool_size(*pool),
{
    pool.max_count()
}

/// Relies on `num_cpus::get`, the number of processing units available to
/// this process; nothing is promised of its value.
#[verifier::external_body]
fn available_parallelism() -> usize {
    num_cpus::get()
}

/// A fixed set of worker threads.
pub struct WorkerPool {
    pool: threadpool::ThreadPool,
}

impl WorkerPool {
    /// The number of workers of the pool.
    pub closed spec fn workers(&self) -> usize {
        pool_size(self.pool)
    }

    /// A pool with one worker per available processing unit, and at least
    /// one worker.
    pub fn new() -> (r: WorkerPool)
        ensures
            r.workers() >= 1,
    {
        WorkerPool::with_available(available_parallelism())
    }

    /// A pool sized for `available` processing units: one worker each, and
    /// one worker when none is reported.
    pub fn with_available(available: usize) -> (r: WorkerPool)
        ensures
            r.workers() == if available == 0 {
                1
            } else {
                available
            },
    {
        let count: usize = if available == 0 {
            1
        } else {
            available
        };
        WorkerPool::with_workers(count)
    }

    /// A pool of `count` workers.
    pub fn with_workers(count: usize) -> (r: WorkerPool)
        requires
            count > 0,
        ensures
            r.workers() == count,
    {
        WorkerPool { pool: start_workers(count) }
    }

    /// The number of workers.
    pub fn worker_count(&self) -> (r: usize)
        ensures
            r == self.workers(),
    {
        max_count(&self.pool)
    }

    /// The underlying pool, to hand jobs to.
    pub fn pool(&self) -> &threadpool::ThreadPool {
        &self.pool
    }
}

/// What the consumer of ordered results does next.
#[derive(Debug, PartialEq, Eq)]
pub enum Step<T> {
    /// The next result in submission order.
    Ready(T),
    /// The next result has not arrived yet: wait for a completion.
    Pending,
    /// Every result has been handed out.
    Finished,
}

/// The state of a reordering buffer: the completions that arrived early,
/// keyed by submission index, the index to hand out next, and the number
/// of submitted jobs.
pub ghost struct Reorder<T> {
    pub buffered: Map<usize, T>,
    pub next: usize,
    pub total: usize,
}

impl<T> Reorder<T> {
    /// Nothing has arrived and nothing has been handed out.
    pub open spec fn start(total: usize) -> Reorder<T> {
        Reorder { buffered: Map::empty(), next: 0, total }
    }

    /// A completion of index `i` can be taken: it is a submitted index not
    /// handed out and not buffered yet.
    pub open spec fn accepts(self, i: usize) -> bool {
        self.next <= i < self.total && !self.buffered.contains_key(i)
    }

    /// The completion `(i, v)` is buffered.
    pub open spec fn received(self, i: usize, v: T) -> Reorder<T> {
        Reorder { buffered: self.buffered.insert(i, v), ..self }
    }

    /// Hands out the next result when it is buffered, reports that all were
    /// handed out, or that the next one is still to come.
    pub open spec fn polled(self) -> (Reorder<T>, Step<T>) {
        if self.next >= self.total {
            (self, Step::Finished)
        } else if self.buffered.contains_key(self.next) {
            (
                Reorder {
                    buffered: self.buffered.remove(self.next),
                    next: (self.next + 1) as usize,
                    total: self.total,
                },
                Step::Ready(self.buffered[self.next]),
            )
        } else {
            (self, Step::Pending)
        }
    }

    /// No completion will arrive any more: nothing further is handed out,
    /// and what was buffered is dropped.
    pub open spec fn disconnected(self) -> Reorder<T> {
        Reorder { buffered: Map::empty(), next: self.total, total: self.total }
    }

    /// Every buffered index belongs to a submitted job not handed out yet:
    /// results are handed out in index order, so an index handed out is
    /// never buffered, nor accepted, again.
    pub open spec fn is_consistent(self) -> bool {
        &&& self.next <= self.total
        &&& forall|k: usize| #[trigger] self.buffered.contains_key(k) ==> self.next <= k < self.total
    }
}

/// The results that a consumer receives when completions arrive in the
/// order `arrivals`: it takes every buffered result in order, and waits
/// for the next arrival only when the next result is missing.
pub open spec fn drain<T>(s: Reorder<T>, arrivals: Seq<(usize, T)>) -> Seq<T>
    decreases arrivals.len(), s.total - s.next,
{
    let (s2, step) = s.polled();
    match step {
        Step::Ready(v) => seq![v] + drain(s2, arrivals),
        Step::Finished => Seq::empty(),
        Step::Pending => if arrivals.len() == 0 {
            Seq::empty()
        } else {
            drain(s2.received(arrivals[0].0, arrivals[0].1), arrivals.drop_first())
        },
    }
}

/// Results of jobs that finish in any order, handed out in the order the
/// jobs were submitted.
pub struct IMapIterator<T> {
    results: BTreeMap<usize, T>,
    next: usize,
    total: usize,
}

impl<T> View for IMapIterator<T> {
    type V = Reorder<T>;

    closed spec fn view(&self) -> Reorder<T> {
        Reorder { buffered: self.results@, next: self.next, total: self.total }
    }
}

impl<T> IMapIterator<T> {
    /// A buffer for the results of `total` submitted jobs.
    pub fn new(total: usize) -> (r: IMapIterator<T>)
        ensures
            r@ == Reorder::<T>::start(total),
            r@.is_consistent(),
    {
        let r = IMapIterator { results: BTreeMap::new(), next: 0, total };
        assert(r@.buffered =~= Map::<usize, T>::empty());
        r
    }

    /// Whether a completion of index `i` can be taken now.
    pub fn accepts(&self, i: usize) -> (r: bool)
        ensures
            r == self@.accepts(i),
    {
        broadcast use vstd::std_specs::btree::group_btree_axioms;

        self.next <= i && i < self.total && !self.results.contains_key(&i)
    }

    /// Buffers the result of job `i`.
    pub fn receive(&mut self, i: usize, value: T)
        requires
            old(self)@.accepts(i),
        ensures
            final(self)@ == old(self)@.received(i, value),
            old(self)@.is_consistent() ==> final(self)@.is_consistent(),
    {
        broadcast use vstd::std_specs::btree::group_btree_axioms;

        self.results.insert(i, value);
    }

    /// Hands out the next result in submission order if it has arrived.
    pub fn poll(&mut self) -> (r: Step<T>)
        ensures
            (final(self)@, r) == old(self)@.polled(),
            old(self)@.is_consistent() ==> final(self)@.is_consistent(),
    {
        broadcast use vstd::std_specs::btree::group_btree_axioms;

        if self.next >= self.total {
            return Step::Finished;
        }
        assert(vstd::laws_cmp::obeys_cmp::<usize>());
        match self.results.remove(&self.next) {
            Some(value) => {
                self.next = self.next + 1;
                Step::Ready(value)
            },
            None => {
                assert(self.results@ =~= old(self).results@);
                Step::Pending
            },
        }
    }

    /// Gives up on the results still missing.
    pub fn disconnect(&mut self)
        ensures
            final(self)@ == old(self)@.disconnected(),
            final(self)@.is_consistent(),
    {
        self.results.clear();
        self.next = self.total;
    }
}

/// Job `key` completes at some position `m` or later of `arrivals`.
pub open spec fn arrives_from<T>(arrivals: Seq<(usize, T)>, m: int, key: usize) -> bool {
    exists|j: int| m <= j < arrivals.len() && (#[trigger] arrivals[j]).0 == key
}

/// `arrivals` completes each of the jobs `0..total` exactly once.
pub open spec fn is_completion_order<T>(total: usize, arrivals: Seq<(usize, T)>) -> bool {
    &&& arrivals.len() == total
    &&& forall|j: int| 0 <= j < arrivals.len() ==> (#[trigger] arrivals[j]).0 < total
    &&& forall|j1: int, j2: int|
        0 <= j1 < arrivals.len() && 0 <= j2 < arrivals.len() && j1 != j2
            ==> (#[trigger] arrivals[j1]).0 != (#[trigger] arrivals[j2]).0
    &&& forall|i: usize| i < total ==> #[trigger] arrives_from(arrivals, 0, i)
}

proof fn lemma_drain_from<T>(s: Reorder<T>, arrivals: Seq<(usize, T)>, m: int)
    requires
        is_completion_order(s.total, arrivals),
        0 <= m <= arrivals.len(),
        s.next <= s.total,
        forall|key: usize| #[trigger] s.buffered.contains_key(key) ==> s.next <= key < s.total,
        forall|j: int|
            0 <= j < arrivals.len() && s.buffered.contains_key(#[trigger] arrivals[j].0)
                ==> s.buffered[arrivals[j].0] == arrivals[j].1,
        forall|j: int|
            m <= j < arrivals.len() ==> s.next <= (#[trigger] arrivals[j]).0 && !s.buffered.contains_key(
                arrivals[j].0,
            ),
        forall|key: usize|
            s.next <= key < s.total ==> s.buffered.contains_key(key) || #[trigger] arrives_from(
                arrivals,
                m,
                key,
            ),
    ensures
        drain(s, arrivals.skip(m)).len() == s.total - s.next,
        forall|j: int|
            0 <= j < arrivals.len() && s.next <= (#[trigger] arrivals[j]).0 ==> drain(
                s,
                arrivals.skip(m),
            )[arrivals[j].0 - s.next] == arrivals[j].1,
    decreases arrivals.len() - m, s.total - s.next,
{
    let rest = arrivals.skip(m);
    let (s2, step) = s.polled();
    if s.next >= s.total {
    } else if s.buffered.contains_key(s.next) {
        lemma_drain_from(s2, arrivals, m);
        let tail = drain(s2, rest);
        assert(drain(s, rest) == seq![s.buffered[s.next]] + tail);
        assert forall|j: int|
            0 <= j < arrivals.len() && s.next <= (#[trigger] arrivals[j]).0 implies drain(
            s,
            rest,
        )[arrivals[j].0 - s.next] == arrivals[j].1 by {
            if arrivals[j].0 == s.next {
            } else {
                assert(s2.next <= arrivals[j].0);
            }
        }
    } else {
        let key = s.next;
        assert(arrives_from(arrivals, m, key));
        assert(rest.len() > 0);
        let s3 = s2.received(rest[0].0, rest[0].1);
        assert(rest[0] == arrivals[m]);
        assert(rest.drop_first() == arrivals.skip(m + 1));
        assert forall|j: int|
            0 <= j < arrivals.len() && s3.buffered.contains_key(#[trigger] arrivals[j].0) implies s3.buffered[arrivals[j].0]
            == arrivals[j].1 by {
            if arrivals[j].0 == arrivals[m].0 {
                assert(j == m);
            }
        }
        assert forall|j: int| m + 1 <= j < arrivals.len() implies s3.next <= (#[trigger] arrivals[j]).0
            && !s3.buffered.contains_key(arrivals[j].0) by {
            assert(arrivals[j].0 != arrivals[m].0);
        }
        assert forall|k: usize|
            s3.next <= k < s3.total implies s3.buffered.contains_key(k) || #[trigger] arrives_from(
            arrivals,
            m + 1,
            k,
        ) by {
            if !s.buffered.contains_key(k) && k != arrivals[m].0 {
                assert(arrives_from(arrivals, m, k));
                let j = choose|j: int| m <= j < arrivals.len() && (#[trigger] arrivals[j]).0 == k;
                assert(j != m);
            }
        }
        lemma_drain_from(s3, arrivals, m + 1);
    }
}

/// However the jobs' completions are ordered, the consumer receives every
/// result once, in submission order: result `i` is the one of job `i`. With
/// no jobs the first step already reports that all were handed out.
pub proof fn lemma_results_in_submission_order<T>(total: usize, arrivals: Seq<(usize, T)>)
    requires
        is_completion_order(total, arrivals),
    ensures
        drain(Reorder::start(total), arrivals).len() == total,
        forall|j: int|
            0 <= j < arrivals.len() ==> drain(Reorder::start(total), arrivals)[(#[trigger] arrivals[j]).0 as int]
                == arrivals[j].1,
        total == 0 ==> Reorder::<T>::start(total).polled().1 == Step::<T>::Finished,
{
    assert(arrivals.skip(0) == arrivals);
    lemma_drain_from(Reorder::start(total), arrivals, 0);
}

} // verus!
