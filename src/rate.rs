use vstd::prelude::*;

verus! {

/// How often an actor reads and writes, in base ticks.
#[derive(Clone, Copy, Debug, PartialEq, Eq, Structural)]
pub struct Rate {
    pub input_period: u64,
    pub output_period: u64,
}

/// A tick is due for a period when the period divides it.
pub open spec fn due(period: nat, tick: nat) -> bool {
    tick % period == 0
}

/// The ticks below `run_length` that are whole multiples of `period`.
pub open spec fn multiples_below(period: nat, run_length: nat) -> Set<nat> {
    Set::new(|t: nat| t < run_length && exists|k: nat| t == #[trigger] (k * period))
}

/// The ticks below `run_length` on which `period` is due.
pub open spec fn due_ticks(period: nat, run_length: nat) -> Set<nat> {
    Set::new(|t: nat| t < run_length && due(period, t))
}

impl Rate {
    pub open spec fn is_valid(&self) -> bool {
        self.input_period > 0 && self.output_period > 0
    }

    pub open spec fn reads_at(&self, tick: nat) -> bool {
        due(self.input_period as nat, tick)
    }

    pub open spec fn writes_at(&self, tick: nat) -> bool {
        due(self.output_period as nat, tick)
    }

    pub fn new(input_period: u64, output_period: u64) -> (r: Rate)
        ensures
            r.input_period == input_period,
            r.output_period == output_period,
    {
        Rate { input_period, output_period }
    }

    /// Both periods equal to one base tick.
    pub fn every_tick() -> (r: Rate)
        ensures
            r.input_period == 1,
            r.output_period == 1,
    {
        Rate { input_period: 1, output_period: 1 }
    }

    pub fn is_positive(&self) -> (r: bool)
        ensures
            r == self.is_valid(),
    {
        self.input_period > 0 && self.output_period > 0
    }

    pub fn is_due_to_read(&self, tick: u64) -> (r: bool)
        requires
            self.input_period > 0,
        ensures
            r == self.reads_at(tick as nat),
    {
        tick % self.input_period == 0
    }

    pub fn is_due_to_write(&self, tick: u64) -> (r: bool)
        requires
            self.output_period > 0,
        ensures
            r == self.writes_at(tick as nat),
    {
        tick % self.output_period == 0
    }
}

/// Over a run of any length, a positive period is due exactly on the ticks
/// 0, p, 2p, ... that fall inside the run.
pub proof fn lemma_due_ticks_are_multiples(period: nat, run_length: nat)
    requires
        period > 0,
    ensures
        due_ticks(period, run_length) == multiples_below(period, run_length),
{
    assert forall|t: nat| #[trigger] due_ticks(period, run_length).contains(t)
        <==> multiples_below(period, run_length).contains(t) by {
        if t < run_length && due(period, t) {
            let k = t / period;
            assert(t == k * period) by (nonlinear_arith)
                requires
                    t % period == 0,
                    period > 0,
                    k == t / period,
            ;
        }
        if t < run_length && exists|k: nat| t == #[trigger] (k * period) {
            let k = choose|k: nat| t == #[trigger] (k * period);
            assert((k * period) % period == 0) by (nonlinear_arith)
                requires
                    period > 0,
            ;
        }
    }
    assert(due_ticks(period, run_length) =~= multiples_below(period, run_length));
}

/// A rate's reads and writes happen exactly on the multiples of its periods.
pub proof fn lemma_rate_schedule(rate: Rate, run_length: nat)
    requires
        rate.is_valid(),
    ensures
        forall|t: nat| t < run_length ==> (rate.reads_at(t) <==> multiples_below(rate.input_period as nat, run_length).contains(t)),
        forall|t: nat| t < run_length ==> (rate.writes_at(t) <==> multiples_below(rate.output_period as nat, run_length).contains(t)),
{
    lemma_due_ticks_are_multiples(rate.input_period as nat, run_length);
    lemma_due_ticks_are_multiples(rate.output_period as nat, run_length);
    assert forall|t: nat| t < run_length implies (rate.reads_at(t) <==> multiples_below(rate.input_period as nat, run_length).contains(t)) by {
        assert(due_ticks(rate.input_period as nat, run_length).contains(t) == rate.reads_at(t));
    }
    assert forall|t: nat| t < run_length implies (rate.writes_at(t) <==> multiples_below(rate.output_period as nat, run_length).contains(t)) by {
        assert(due_ticks(rate.output_period as nat, run_length).contains(t) == rate.writes_at(t));
    }
}

} // verus!
