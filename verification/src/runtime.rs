//! Samples of an async runtime's own metrics.

use vstd::prelude::*;

verus! {

/// What is remembered from one sample to the next.
pub struct RuntimeLog {
    /// How long each worker had been busy, in nanoseconds.
    pub last_busy: Vec<u128>,
}

/// One sample.
pub struct RuntimeSample {
    /// How long each worker was busy since the last sample, in nanoseconds.
    pub busy: Vec<u128>,
    /// How many tasks wait in the queues of the workers.
    pub local: u128,
    /// How many tasks wait in all queues.
    pub runnable: u128,
    /// The greatest mean poll time of a worker, in microseconds: a rising value
    /// means that tasks run long without yielding.
    pub max_poll_us: u64,
}

/// `a - b`, or 0 where `b` is more.
pub open spec fn time_since(a: u128, b: u128) -> u128 {
    if a >= b {
        (a - b) as u128
    } else {
        0
    }
}

/// The sum of `depths`.
pub open spec fn depth_of(depths: Seq<usize>) -> nat
    decreases depths.len(),
{
    if depths.len() == 0 {
        0
    } else {
        depth_of(depths.drop_last()) + depths.last() as nat
    }
}

/// A time in microseconds, as far as 64 bits hold it.
pub open spec fn low_micros(micros: u128) -> u128 {
    micros % 0x1_0000_0000_0000_0000
}

/// How long each worker was busy between two samples.
fn busy_since(busy: &Vec<u128>, last: &Vec<u128>) -> (r: Vec<u128>)
    requires
        busy@.len() == last@.len(),
    ensures
        r@ == Seq::new(busy@.len(), |i: int| time_since(busy@[i], last@[i])),
{
    let mut r: Vec<u128> = Vec::new();
    let mut i: usize = 0;
    while i < busy.len()
        invariant
            i <= busy.len(),
            busy@.len() == last@.len(),
            r@ == Seq::new(i as nat, |k: int| time_since(busy@[k], last@[k])),
        decreases busy.len() - i,
    {
        r.push(busy[i].saturating_sub(last[i]));
        assert(r@ =~= Seq::new((i + 1) as nat, |k: int| time_since(busy@[k], last@[k])));
        i = i + 1;
    }
    r
}

/// The sum of `depths`.
fn total_depth(depths: &Vec<usize>) -> (r: u128)
    ensures
        r == depth_of(depths@),
        r <= u64::MAX * u64::MAX,
{
    let mut r: u128 = 0;
    let mut i: usize = 0;
    assert(depths@.take(0) =~= Seq::<usize>::empty());
    while i < depths.len()
        invariant
            i <= depths.len(),
            r == depth_of(depths@.take(i as int)),
            r <= i * u64::MAX,
        decreases depths.len() - i,
    {
        assert(depths@.take(i + 1).drop_last() =~= depths@.take(i as int));
        r = r + depths[i] as u128;
        i = i + 1;
    }
    assert(depths@.take(i as int) =~= depths@);
    r
}

/// The greatest of `times`, or 0 where there are none.
fn greatest_poll(times: &Vec<u128>) -> (r: u64)
    ensures
        forall|i: int| 0 <= i < times@.len() ==> low_micros(#[trigger] times@[i]) <= r,
        if times@.len() == 0 {
            r == 0
        } else {
            exists|i: int| 0 <= i < times@.len() && low_micros(#[trigger] times@[i]) == r
        },
{
    let mut r: u64 = 0;
    let mut i: usize = 0;
    while i < times.len()
        invariant
            i <= times.len(),
            forall|k: int| 0 <= k < i ==> low_micros(#[trigger] times@[k]) <= r,
            if i == 0 {
                r == 0
            } else {
                exists|k: int| 0 <= k < i && low_micros(#[trigger] times@[k]) == r
            },
        decreases times.len() - i,
    {
        let time: u128 = times[i];
        assert(time as u64 == time % 0x1_0000_0000_0000_0000) by (bit_vector);
        let micros: u64 = time as u64;
        assert(low_micros(times@[i as int]) == micros);
        if micros > r || i == 0 {
            r = micros;
        }
        i = i + 1;
    }
    r
}

impl RuntimeLog {
    /// Before the first sample of `workers` workers.
    pub fn new(workers: usize) -> (r: Self)
        ensures
            r.last_busy@ == Seq::new(workers as nat, |i: int| 0u128),
    {
        let mut last_busy: Vec<u128> = Vec::new();
        let mut i: usize = 0;
        while i < workers
            invariant
                i <= workers,
                last_busy@ == Seq::new(i as nat, |k: int| 0u128),
            decreases workers - i,
        {
            last_busy.push(0);
            assert(last_busy@ =~= Seq::new((i + 1) as nat, |k: int| 0u128));
            i = i + 1;
        }
        RuntimeLog { last_busy }
    }

    /// Takes a sample: how long each worker has been busy so far, how many tasks wait
    /// in its queue, its mean poll time in microseconds, and how many tasks wait in
    /// the queue of all.
    pub fn sample(
        &mut self,
        busy: Vec<u128>,
        local: &Vec<usize>,
        polls: &Vec<u128>,
        inject: usize,
    ) -> (r: RuntimeSample)
        requires
            busy@.len() == old(self).last_busy@.len(),
        ensures
            final(self).last_busy == busy,
            r.busy@ == Seq::new(
                busy@.len(),
                |i: int| time_since(busy@[i], old(self).last_busy@[i]),
            ),
            r.busy@.len() == busy@.len(),
            forall|i: int|
                0 <= i < busy@.len() ==> #[trigger] r.busy@[i] == if busy@[i]
                    >= old(self).last_busy@[i] {
                    busy@[i] - old(self).last_busy@[i]
                } else {
                    0
                },
            forall|i: int|
                0 <= i < polls@.len() ==> (#[trigger] polls@[i]) % 0x1_0000_0000_0000_0000
                    <= r.max_poll_us,
            polls@.len() > 0 ==> exists|i: int|
                0 <= i < polls@.len() && (#[trigger] polls@[i]) % 0x1_0000_0000_0000_0000
                    == r.max_poll_us,
            polls@.len() == 0 ==> r.max_poll_us == 0,
            r.runnable == r.local + inject,
            r.local == depth_of(local@),
            r.runnable == depth_of(local@) + inject,
            forall|i: int| 0 <= i < polls@.len() ==> low_micros(#[trigger] polls@[i])
                <= r.max_poll_us,
            if polls@.len() == 0 {
                r.max_poll_us == 0
            } else {
                exists|i: int|
                    0 <= i < polls@.len() && low_micros(#[trigger] polls@[i]) == r.max_poll_us
            },
    {
        let since: Vec<u128> = busy_since(&busy, &self.last_busy);
        let waiting: u128 = total_depth(local);
        let max_poll_us: u64 = greatest_poll(polls);
        assert forall|i: int| 0 <= i < polls@.len() implies (#[trigger] polls@[i])
            % 0x1_0000_0000_0000_0000 <= max_poll_us by {
            assert(low_micros(polls@[i]) <= max_poll_us);
        }
        self.last_busy = busy;
        RuntimeSample {
            busy: since,
            local: waiting,
            runnable: waiting + inject as u128,
            max_poll_us,
        }
    }
}

//=============================================================================
// Laws
//=============================================================================

/// How many tasks wait is the sum over the queues: none without queues, what waits in the
/// one where there is one, and for two groups of queues what waits in both.
pub proof fn law_depth_is_the_sum(a: Seq<usize>, b: Seq<usize>, n: usize)
    ensures
        depth_of(Seq::<usize>::empty()) == 0,
        depth_of(seq![n]) == n,
        depth_of(a + b) == depth_of(a) + depth_of(b),
    decreases b.len(),
{
    reveal_with_fuel(depth_of, 2);
    assert(seq![n].drop_last() =~= Seq::<usize>::empty());
    if b.len() == 0 {
        assert(a + b =~= a);
    } else {
        law_depth_is_the_sum(a, b.drop_last(), n);
        assert((a + b).drop_last() =~= a + b.drop_last());
    }
}

} // verus!
