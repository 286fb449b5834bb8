//! Series of measurements of a fixed length.

use std::collections::VecDeque;

use vstd::prelude::*;

verus! {

/// The number of measurements that a series holds.
pub const HISTORY_LEN: usize = 120;

/// The series `history` after one more measurement: the oldest one leaves.
pub open spec fn with_latest<T>(history: Seq<T>, sample: T) -> Seq<T> {
    if history.len() > 0 {
        history.drop_first().push(sample)
    } else {
        history.push(sample)
    }
}

/// The last measurements of a series, oldest first.
pub struct History<T> {
    samples: VecDeque<T>,
}

impl<T> View for History<T> {
    type V = Seq<T>;

    closed spec fn view(&self) -> Seq<T> {
        self.samples@
    }
}

impl<T> History<T> {
    /// The series has its full length.
    pub open spec fn full(&self) -> bool {
        self@.len() == HISTORY_LEN
    }

    /// Adds a measurement; the oldest one leaves.
    pub fn record(&mut self, sample: T)
        ensures
            final(self)@ == with_latest(old(self)@, sample),
            final(self)@.last() == sample,
            old(self)@.len() > 0 ==> final(self)@.len() == old(self)@.len(),
            forall|i: int|
                0 <= i < old(self)@.len() - 1 ==> #[trigger] final(self)@[i] == old(self)@[i + 1],
            old(self).full() ==> final(self).full(),
    {
        let _oldest = self.samples.pop_front();
        self.samples.push_back(sample);
    }
}

impl<T: Copy> History<T> {
    /// A series of `first` throughout.
    pub fn new(first: T) -> (r: Self)
        ensures
            r@ == Seq::new(HISTORY_LEN as nat, |i: int| first),
            r.full(),
            r@.len() == 120,
            forall|i: int| 0 <= i < 120 ==> #[trigger] r@[i] == first,
    {
        let mut samples: VecDeque<T> = VecDeque::new();
        let mut i: usize = 0;
        while i < HISTORY_LEN
            invariant
                i <= HISTORY_LEN,
                samples@ == Seq::new(i as nat, |j: int| first),
            decreases HISTORY_LEN - i,
        {
            samples.push_back(first);
            i += 1;
            assert(samples@ =~= Seq::new(i as nat, |j: int| first));
        }
        History { samples }
    }

    /// The measurements, oldest first.
    pub fn samples(&self) -> (r: Vec<T>)
        ensures
            r@ == self@,
    {
        let mut out: Vec<T> = Vec::new();
        let mut i: usize = 0;
        while i < self.samples.len()
            invariant
                i <= self.samples@.len(),
                out@ == self@.take(i as int),
            decreases self.samples@.len() - i,
        {
            out.push(self.samples[i]);
            i += 1;
            assert(out@ =~= self@.take(i as int));
        }
        assert(self@.take(i as int) =~= self@);
        out
    }
}

/// The series `history` after each of `samples` was added, one after the other.
pub open spec fn recorded<T>(history: Seq<T>, samples: Seq<T>) -> Seq<T>
    decreases samples.len(),
{
    if samples.len() == 0 {
        history
    } else {
        with_latest(recorded(history, samples.drop_last()), samples.last())
    }
}

/// A series holds the latest measurements: after `samples` it is the end of what
/// it was followed by `samples`.
pub proof fn history_holds_the_latest<T>(history: Seq<T>, samples: Seq<T>)
    requires
        history.len() > 0,
    ensures
        recorded(history, samples) == (history + samples).skip(samples.len() as int),
    decreases samples.len(),
{
    if samples.len() == 0 {
        assert((history + samples).skip(0) =~= history);
    } else {
        let front = samples.drop_last();
        history_holds_the_latest(history, front);
        assert(recorded(history, samples) =~= (history + samples).skip(samples.len() as int));
    }
}

/// One more measurement stands at the end, and the others move up by one place, the
/// oldest out of the series.
pub proof fn measurements_move_up<T>(history: Seq<T>, sample: T)
    requires
        history.len() > 0,
    ensures
        with_latest(history, sample).len() == history.len(),
        with_latest(history, sample).last() == sample,
        forall|i: int|
            0 <= i < history.len() - 1 ==> #[trigger] with_latest(history, sample)[i] == history[i
                + 1],
{
}

} // verus!
