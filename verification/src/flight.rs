//! Messages travelling along connectors: each takes a fixed time to cross,
//! counted in whole milliseconds, and arrives once its elapsed time is
//! within a small tolerance of that time.
use vstd::prelude::*;

verus! {

/// How long a message takes to cross its connector, in milliseconds.
pub const FLIGHT_MS: u64 = 3000;

/// How close, in milliseconds, a message's elapsed time must come to its
/// travel time for it to arrive.
pub const ARRIVAL_TOLERANCE_MS: u64 = 10;

/// A message on its way: its travel time and the time it has travelled so
/// far, both in milliseconds, and the message itself.
#[derive(Debug)]
pub struct InFlight<T> {
    pub duration_ms: u64,
    pub elapsed_ms: u64,
    pub message: T,
}

/// Whether a message has arrived: its elapsed time is within the tolerance
/// of its travel time, on either side.
pub open spec fn arrived<T>(m: InFlight<T>) -> bool {
    if m.duration_ms >= m.elapsed_ms {
        m.duration_ms - m.elapsed_ms <= ARRIVAL_TOLERANCE_MS
    } else {
        m.elapsed_ms - m.duration_ms <= ARRIVAL_TOLERANCE_MS
    }
}

impl<T> InFlight<T> {
    /// A message just sent.
    pub fn launch(message: T) -> (m: InFlight<T>)
        ensures
            m.duration_ms == FLIGHT_MS,
            m.elapsed_ms == 0,
            m.message == message,
    {
        InFlight { duration_ms: FLIGHT_MS, elapsed_ms: 0, message }
    }

    /// Advances a message's one-shot timer by `delta_ms`: a finished timer
    /// stays as it is; otherwise the elapsed time grows, stopping at the
    /// travel time.
    pub fn advance(&mut self, delta_ms: u64)
        ensures
            final(self).duration_ms == old(self).duration_ms,
            final(self).message == old(self).message,
            final(self).elapsed_ms == if old(self).elapsed_ms >= old(self).duration_ms {
                old(self).elapsed_ms as int
            } else if old(self).elapsed_ms + delta_ms >= old(self).duration_ms {
                old(self).duration_ms as int
            } else {
                old(self).elapsed_ms + delta_ms
            },
    {
        if self.elapsed_ms >= self.duration_ms {
        } else if self.duration_ms - self.elapsed_ms <= delta_ms {
            self.elapsed_ms = self.duration_ms;
        } else {
            self.elapsed_ms = self.elapsed_ms + delta_ms;
        }
    }

    /// Whether the message has arrived.
    pub fn has_arrived(&self) -> (b: bool)
        ensures
            b == arrived(*self),
    {
        if self.duration_ms >= self.elapsed_ms {
            self.duration_ms - self.elapsed_ms <= ARRIVAL_TOLERANCE_MS
        } else {
            self.elapsed_ms - self.duration_ms <= ARRIVAL_TOLERANCE_MS
        }
    }
}

/// The messages among `msgs` that are still travelling, in order.
pub open spec fn travelling<T>(msgs: Seq<InFlight<T>>) -> Seq<InFlight<T>>
    decreases msgs.len(),
{
    if msgs.len() == 0 {
        Seq::empty()
    } else if arrived(msgs.last()) {
        travelling(msgs.drop_last())
    } else {
        travelling(msgs.drop_last()).push(msgs.last())
    }
}

/// What the messages among `msgs` that have arrived carry, in order.
pub open spec fn landed<T>(msgs: Seq<InFlight<T>>) -> Seq<T>
    decreases msgs.len(),
{
    if msgs.len() == 0 {
        Seq::empty()
    } else if arrived(msgs.last()) {
        landed(msgs.drop_last()).push(msgs.last().message)
    } else {
        landed(msgs.drop_last())
    }
}

/// Splits a connector's messages into those still travelling and what the
/// arrived ones carry, each in the order they were sent.
pub fn retire_arrived<T>(msgs: Vec<InFlight<T>>) -> (r: (Vec<InFlight<T>>, Vec<T>))
    ensures
        r.0@ == travelling(msgs@),
        r.1@ == landed(msgs@),
{
    let ghost all = msgs@;
    let mut still: Vec<InFlight<T>> = Vec::new();
    let mut done: Vec<T> = Vec::new();
    let mut rest = msgs;
    let mut i: usize = 0;
    let n = rest.len();
    assert(all.take(0) =~= Seq::<InFlight<T>>::empty());
    while rest.len() > 0
        invariant
            i + rest.len() == n == all.len(),
            rest@ == all.skip(i as int),
            still@ == travelling(all.take(i as int)),
            done@ == landed(all.take(i as int)),
        decreases rest.len(),
    {
        let m = rest.remove(0);
        assert(m == all[i as int]);
        assert(all.take(i + 1).drop_last() =~= all.take(i as int));
        assert(all.take(i + 1).last() == all[i as int]);
        assert(rest@ =~= all.skip(i + 1));
        if m.has_arrived() {
            done.push(m.message);
        } else {
            still.push(m);
        }
        i = i + 1;
    }
    assert(all.take(n as int) =~= all);
    (still, done)
}

/// Retiring loses and duplicates no message: the ones still travelling are
/// exactly those of `msgs` that have not arrived, and what lands is exactly
/// what the arrived ones carry, each in the order sent.
pub proof fn lemma_retire_partition<T>(msgs: Seq<InFlight<T>>)
    ensures
        travelling(msgs) == msgs.filter(|m: InFlight<T>| !arrived(m)),
        landed(msgs) == msgs.filter(|m: InFlight<T>| arrived(m)).map_values(|m: InFlight<T>| m.message),
        travelling(msgs).len() + landed(msgs).len() == msgs.len(),
    decreases msgs.len(),
{
    reveal(Seq::filter);
    if msgs.len() > 0 {
        lemma_retire_partition(msgs.drop_last());
        let a = msgs.drop_last().filter(|m: InFlight<T>| arrived(m));
        if arrived(msgs.last()) {
            assert(msgs.filter(|m: InFlight<T>| arrived(m)) == a.push(msgs.last()));
            assert(a.push(msgs.last()).map_values(|m: InFlight<T>| m.message) =~= a.map_values(
                |m: InFlight<T>| m.message,
            ).push(msgs.last().message));
        }
    }
}

} // verus!
