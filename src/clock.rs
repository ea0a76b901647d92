use vstd::prelude::*;

verus! {

/// The base clock: hands out ticks 0, 1, 2, ... to `fanout` consumers at
/// once, up to a total count or without end.
#[derive(Clone, Copy, Debug, PartialEq, Eq, Structural)]
pub struct Clock {
    next: u64,
    total: Option<u64>,
    fanout: usize,
}

impl Clock {
    /// The tick that the next call hands out.
    pub closed spec fn next_tick(&self) -> nat {
        self.next as nat
    }

    /// The number of ticks of the run, or `None` for an unbounded run.
    pub closed spec fn total_ticks(&self) -> Option<u64> {
        self.total
    }

    pub closed spec fn consumers(&self) -> nat {
        self.fanout as nat
    }

    /// No tick is left: the run's total is reached, or the counter is at its
    /// largest value.
    pub open spec fn finished(&self) -> bool {
        match self.total_ticks() {
            Some(t) => self.next_tick() >= t,
            None => self.next_tick() >= u64::MAX,
        }
    }

    /// A clock that runs `total` ticks for one consumer.
    pub fn new(total: u64) -> (c: Clock)
        ensures
            c.next_tick() == 0,
            c.total_ticks() == Some(total),
            c.consumers() == 1,
    {
        Clock { next: 0, total: Some(total), fanout: 1 }
    }

    /// A clock that runs until the run is cancelled.
    pub fn unbounded() -> (c: Clock)
        ensures
            c.next_tick() == 0,
            c.total_ticks() == None::<u64>,
            c.consumers() == 1,
    {
        Clock { next: 0, total: None, fanout: 1 }
    }

    /// The same clock, delivering each tick to `n` consumers.
    pub fn multiplex(self, n: usize) -> (c: Clock)
        ensures
            c.next_tick() == self.next_tick(),
            c.total_ticks() == self.total_ticks(),
            c.consumers() == n,
    {
        Clock { fanout: n, ..self }
    }

    pub fn fanout(&self) -> (r: usize)
        ensures
            r == self.consumers(),
    {
        self.fanout
    }

    pub fn is_finished(&self) -> (r: bool)
        ensures
            r == self.finished(),
    {
        match self.total {
            Some(t) => self.next >= t,
            None => self.next == u64::MAX,
        }
    }

    /// The next tick, or `None` once the run is over.
    pub fn advance(&mut self) -> (r: Option<u64>)
        ensures
            final(self).total_ticks() == old(self).total_ticks(),
            final(self).consumers() == old(self).consumers(),
            old(self).finished() ==> r == None::<u64> && final(self).next_tick() == old(self).next_tick(),
            !old(self).finished() ==> r == Some(old(self).next_tick() as u64)
                && final(self).next_tick() == old(self).next_tick() + 1,
    {
        if self.is_finished() {
            None
        } else {
            let t = self.next;
            self.next = t + 1;
            Some(t)
        }
    }

    /// The next tick, one copy for each consumer, or `None` once the run is
    /// over. Every consumer gets the same tick in the same step.
    pub fn deliver(&mut self) -> (r: Option<Vec<u64>>)
        ensures
            final(self).total_ticks() == old(self).total_ticks(),
            final(self).consumers() == old(self).consumers(),
            old(self).finished() ==> r == None::<Vec<u64>> && final(self).next_tick() == old(self).next_tick(),
            !old(self).finished() ==> r is Some && r->0@ == Seq::new(
                old(self).consumers(),
                |i: int| old(self).next_tick() as u64,
            ) && final(self).next_tick() == old(self).next_tick() + 1,
    {
        match self.advance() {
            None => None,
            Some(t) => {
                let mut copies: Vec<u64> = Vec::new();
                while copies.len() < self.fanout
                    invariant
                        copies@.len() <= self.fanout,
                        forall|i: int| 0 <= i < copies@.len() ==> #[trigger] copies@[i] == t,
                    decreases self.fanout - copies@.len(),
                {
                    copies.push(t);
                }
                assert(copies@ =~= Seq::new(self.fanout as nat, |i: int| t));
                Some(copies)
            },
        }
    }
}

} // verus!
