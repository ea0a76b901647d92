use vstd::prelude::*;
use crate::clock::Clock;
use crate::graph::{link_ok, live, ActorConfig, ValidatedGraph};
use crate::rate::multiples_below;

verus! {

/// One action of the engine within a tick.
#[derive(Clone, Copy, Debug, PartialEq, Eq, Structural)]
pub enum Step {
    /// A bootstrapped actor publishes its seed output, before any input.
    Seed(usize),
    /// The actor takes the latest payload of each input channel.
    Read(usize),
    /// The actor recomputes its state from its inputs.
    Update(usize),
    /// The actor publishes its outputs.
    Write(usize),
}

/// An actor reads, updates and writes on the ticks its rate makes due.
pub open spec fn actor_steps(actors: Seq<ActorConfig>, a: usize, tick: nat) -> Seq<Step> {
    let rate = actors[a as int].rate;
    (if rate.reads_at(tick) {
        seq![Step::Read(a), Step::Update(a)]
    } else {
        Seq::empty()
    }) + (if rate.writes_at(tick) {
        seq![Step::Write(a)]
    } else {
        Seq::empty()
    })
}

/// The steps of the actors of `order`, one actor after another.
pub open spec fn steps_in_order(actors: Seq<ActorConfig>, order: Seq<usize>, tick: nat) -> Seq<Step>
    decreases order.len(),
{
    if order.len() == 0 {
        Seq::empty()
    } else {
        steps_in_order(actors, order.drop_last(), tick) + actor_steps(actors, order.last(), tick)
    }
}

/// The seed steps of the bootstrapped actors of `order`.
pub open spec fn seeds(actors: Seq<ActorConfig>, order: Seq<usize>) -> Seq<Step>
    decreases order.len(),
{
    if order.len() == 0 {
        Seq::empty()
    } else {
        seeds(actors, order.drop_last()) + (if actors[order.last() as int].bootstrap {
            seq![Step::Seed(order.last())]
        } else {
            Seq::empty()
        })
    }
}

/// Everything the engine does on one tick: on tick 0 the seeds first, then
/// each actor in the run order.
pub open spec fn plan_of(actors: Seq<ActorConfig>, order: Seq<usize>, tick: nat) -> Seq<Step> {
    (if tick == 0 {
        seeds(actors, order)
    } else {
        Seq::empty()
    }) + steps_in_order(actors, order, tick)
}

proof fn lemma_steps_prefix(actors: Seq<ActorConfig>, order: Seq<usize>, k: int, m: int, tick: nat)
    requires
        0 <= k <= m <= order.len(),
    ensures
        steps_in_order(actors, order.subrange(0, k), tick).len() <= steps_in_order(actors, order.subrange(0, m), tick).len(),
        steps_in_order(actors, order.subrange(0, m), tick).subrange(
            0,
            steps_in_order(actors, order.subrange(0, k), tick).len() as int,
        ) == steps_in_order(actors, order.subrange(0, k), tick),
    decreases m - k,
{
    if k < m {
        lemma_steps_prefix(actors, order, k, m - 1, tick);
        let lo = steps_in_order(actors, order.subrange(0, k), tick);
        let mid = steps_in_order(actors, order.subrange(0, m - 1), tick);
        assert(order.subrange(0, m).drop_last() =~= order.subrange(0, m - 1));
        let hi = steps_in_order(actors, order.subrange(0, m), tick);
        assert(hi == mid + actor_steps(actors, order[m - 1], tick));
        assert(hi.subrange(0, lo.len() as int) =~= mid.subrange(0, lo.len() as int));
    } else {
        let lo = steps_in_order(actors, order.subrange(0, k), tick);
        assert(lo.subrange(0, lo.len() as int) =~= lo);
    }
}

/// The steps of `order[k]` sit right after those of the actors before it.
proof fn lemma_steps_of(actors: Seq<ActorConfig>, order: Seq<usize>, k: int, tick: nat)
    requires
        0 <= k < order.len(),
    ensures
        ({
            let before = steps_in_order(actors, order.subrange(0, k), tick);
            let upto = steps_in_order(actors, order.subrange(0, k + 1), tick);
            upto == before + actor_steps(actors, order[k], tick)
        }),
        steps_in_order(actors, order.subrange(0, order.len() as int), tick) == steps_in_order(actors, order, tick),
{
    assert(order.subrange(0, k + 1).drop_last() =~= order.subrange(0, k));
    assert(order.subrange(0, order.len() as int) =~= order);
}

/// Within every tick, an actor that writes a live link writes it before the
/// actor at its other end reads it.
pub proof fn lemma_write_before_read(g: ValidatedGraph, tick: nat, j: int)
    requires
        g.wf(),
        0 <= j < g.links().len(),
        live(g.actors(), g.links()[j]),
        g.actors()[g.links()[j].from as int].rate.writes_at(tick),
        g.actors()[g.links()[j].to as int].rate.reads_at(tick),
    ensures
        exists|w: int, r: int|
            0 <= w < r < plan_of(g.actors(), g.run_order(), tick).len()
                && plan_of(g.actors(), g.run_order(), tick)[w] == Step::Write(g.links()[j].from)
                && plan_of(g.actors(), g.run_order(), tick)[r] == Step::Read(g.links()[j].to),
{
    let actors = g.actors();
    let order = g.run_order();
    let l = g.links()[j];
    assert(crate::graph::link_ok(actors, g.links()[j]));
    assert(order.contains(l.to));
    let kt = choose|k: int| 0 <= k < order.len() && order[k] == l.to;
    assert(order.subrange(0, kt).contains(l.from));
    let kf = choose|k: int| 0 <= k < kt && order.subrange(0, kt)[k] == l.from;
    assert(order[kf] == l.from);
    lemma_steps_of(actors, order, kf, tick);
    lemma_steps_of(actors, order, kt, tick);
    lemma_steps_prefix(actors, order, kf + 1, kt, tick);
    lemma_steps_prefix(actors, order, kt + 1, order.len() as int, tick);
    let pre = if tick == 0 { seeds(actors, order) } else { Seq::empty() };
    let all = steps_in_order(actors, order, tick);
    let upto_f = steps_in_order(actors, order.subrange(0, kf + 1), tick);
    let before_t = steps_in_order(actors, order.subrange(0, kt), tick);
    let upto_t = steps_in_order(actors, order.subrange(0, kt + 1), tick);
    let w = upto_f.len() - 1;
    let r = before_t.len() as int;
    assert(upto_f[w] == Step::Write(l.from));
    assert(upto_t[r] == Step::Read(l.to));
    assert(before_t.subrange(0, upto_f.len() as int) == upto_f);
    assert(before_t[w] == Step::Write(l.from));
    assert(upto_t[w] == before_t[w]);
    assert(all.subrange(0, upto_t.len() as int) == upto_t);
    assert(all[w] == Step::Write(l.from));
    assert(all[r] == Step::Read(l.to));
    let plan = plan_of(actors, order, tick);
    assert(plan == pre + all);
    assert(plan[pre.len() + w] == Step::Write(l.from));
    assert(plan[pre.len() + r] == Step::Read(l.to));
}


proof fn lemma_steps_contain(actors: Seq<ActorConfig>, order: Seq<usize>, tick: nat, a: usize)
    ensures
        steps_in_order(actors, order, tick).contains(Step::Read(a)) <==> order.contains(a)
            && actors[a as int].rate.reads_at(tick),
        steps_in_order(actors, order, tick).contains(Step::Update(a)) <==> order.contains(a)
            && actors[a as int].rate.reads_at(tick),
        steps_in_order(actors, order, tick).contains(Step::Write(a)) <==> order.contains(a)
            && actors[a as int].rate.writes_at(tick),
        !steps_in_order(actors, order, tick).contains(Step::Seed(a)),
    decreases order.len(),
{
    if order.len() > 0 {
        let rest = order.drop_last();
        lemma_steps_contain(actors, rest, tick, a);
        let head = steps_in_order(actors, rest, tick);
        let tail = actor_steps(actors, order.last(), tick);
        let all = steps_in_order(actors, order, tick);
        assert(all == head + tail);
        assert(order =~= rest.push(order.last()));
        assert forall|x: Step| #[trigger] all.contains(x) <==> head.contains(x) || tail.contains(x) by {
            if all.contains(x) {
                let i = choose|i: int| 0 <= i < all.len() && all[i] == x;
                if i < head.len() {
                    assert(head[i] == x);
                } else {
                    assert(tail[i - head.len()] == x);
                }
            }
            if head.contains(x) {
                let i = choose|i: int| 0 <= i < head.len() && head[i] == x;
                assert(all[i] == x);
            }
            if tail.contains(x) {
                let i = choose|i: int| 0 <= i < tail.len() && tail[i] == x;
                assert(all[head.len() + i] == x);
            }
        }
        assert forall|v: usize| #[trigger] order.contains(v) <==> rest.contains(v) || v == order.last() by {
            if order.contains(v) {
                let i = choose|i: int| 0 <= i < order.len() && order[i] == v;
                if i < rest.len() {
                    assert(rest[i] == v);
                }
            }
            if rest.contains(v) {
                let i = choose|i: int| 0 <= i < rest.len() && rest[i] == v;
                assert(order[i] == v);
            }
        }
        let rate = actors[order.last() as int].rate;
        if rate.reads_at(tick) && order.last() == a {
            assert(tail[0] == Step::Read(a));
            assert(tail[1] == Step::Update(a));
        }
        if rate.writes_at(tick) && order.last() == a {
            assert(tail[tail.len() - 1] == Step::Write(a));
        }
    }
}

proof fn lemma_seeds_contain(actors: Seq<ActorConfig>, order: Seq<usize>, a: usize)
    ensures
        seeds(actors, order).contains(Step::Seed(a)) <==> order.contains(a) && actors[a as int].bootstrap,
        forall|i: int| 0 <= i < seeds(actors, order).len() ==> #[trigger] seeds(actors, order)[i] is Seed,
    decreases order.len(),
{
    if order.len() > 0 {
        let rest = order.drop_last();
        lemma_seeds_contain(actors, rest, a);
        let head = seeds(actors, rest);
        let all = seeds(actors, order);
        assert forall|v: usize| #[trigger] order.contains(v) <==> rest.contains(v) || v == order.last() by {
            if order.contains(v) {
                let i = choose|i: int| 0 <= i < order.len() && order[i] == v;
                if i < rest.len() {
                    assert(rest[i] == v);
                }
            }
            if rest.contains(v) {
                let i = choose|i: int| 0 <= i < rest.len() && rest[i] == v;
                assert(order[i] == v);
            }
        }
        if all.contains(Step::Seed(a)) {
            let i = choose|i: int| 0 <= i < all.len() && all[i] == Step::Seed(a);
            if i < head.len() {
                assert(head[i] == Step::Seed(a));
            }
        }
        if head.contains(Step::Seed(a)) {
            let i = choose|i: int| 0 <= i < head.len() && head[i] == Step::Seed(a);
            assert(all[i] == Step::Seed(a));
        }
        if order.last() == a && actors[a as int].bootstrap {
            assert(all[head.len() as int] == Step::Seed(a));
        }
    }
}

/// Over a run of any length, each actor of a validated graph reads exactly on
/// the multiples of its input period and writes exactly on the multiples of
/// its output period.
pub proof fn lemma_plan_follows_rates(g: ValidatedGraph, a: usize, tick: nat, run_length: nat)
    requires
        g.wf(),
        a < g.actors().len(),
        tick < run_length,
    ensures
        plan_of(g.actors(), g.run_order(), tick).contains(Step::Read(a)) <==> multiples_below(
            g.actors()[a as int].rate.input_period as nat,
            run_length,
        ).contains(tick),
        plan_of(g.actors(), g.run_order(), tick).contains(Step::Write(a)) <==> multiples_below(
            g.actors()[a as int].rate.output_period as nat,
            run_length,
        ).contains(tick),
{
    let actors = g.actors();
    let order = g.run_order();
    lemma_steps_contain(actors, order, tick, a);
    lemma_seeds_contain(actors, order, a);
    crate::rate::lemma_rate_schedule(actors[a as int].rate, run_length);
    let pre = if tick == 0 { seeds(actors, order) } else { Seq::empty() };
    let all = steps_in_order(actors, order, tick);
    let plan = plan_of(actors, order, tick);
    assert(plan == pre + all);
    assert(order.contains(a));
    assert forall|x: Step| !(x is Seed) implies (#[trigger] plan.contains(x) <==> all.contains(x)) by {
        if plan.contains(x) {
            let i = choose|i: int| 0 <= i < plan.len() && plan[i] == x;
            if i >= pre.len() {
                assert(all[i - pre.len()] == x);
            } else {
                assert(pre[i] is Seed);
            }
        }
        if all.contains(x) {
            let i = choose|i: int| 0 <= i < all.len() && all[i] == x;
            assert(plan[pre.len() + i] == x);
        }
    }
    assert(plan.contains(Step::Read(a)) <==> all.contains(Step::Read(a)));
    assert(plan.contains(Step::Write(a)) <==> all.contains(Step::Write(a)));
}

/// On tick 0 every bootstrapped actor publishes its seed, and all seeds come
/// before any actor reads, updates or writes: a feedback loop closed through
/// a bootstrapped actor has a value on its back edge before its first read.
pub proof fn lemma_seeds_first(g: ValidatedGraph, a: usize)
    requires
        g.wf(),
        a < g.actors().len(),
    ensures
        plan_of(g.actors(), g.run_order(), 0).contains(Step::Seed(a)) <==> g.actors()[a as int].bootstrap,
        forall|i: int, j: int|
            0 <= i < j < plan_of(g.actors(), g.run_order(), 0).len() && (#[trigger] plan_of(
                g.actors(),
                g.run_order(),
                0,
            )[j]) is Seed ==> (#[trigger] plan_of(g.actors(), g.run_order(), 0)[i]) is Seed,
        forall|t: nat| t > 0 ==> !(#[trigger] plan_of(g.actors(), g.run_order(), t)).contains(Step::Seed(a)),
{
    let actors = g.actors();
    let order = g.run_order();
    lemma_seeds_contain(actors, order, a);
    lemma_steps_contain(actors, order, 0, a);
    assert(order.contains(a));
    let pre = seeds(actors, order);
    let all = steps_in_order(actors, order, 0);
    let plan = plan_of(actors, order, 0);
    assert(plan == pre + all);
    assert forall|x: Step| #[trigger] plan.contains(x) <==> pre.contains(x) || all.contains(x) by {
        if plan.contains(x) {
            let i = choose|i: int| 0 <= i < plan.len() && plan[i] == x;
            if i < pre.len() {
                assert(pre[i] == x);
            } else {
                assert(all[i - pre.len()] == x);
            }
        }
        if pre.contains(x) {
            let i = choose|i: int| 0 <= i < pre.len() && pre[i] == x;
            assert(plan[i] == x);
        }
        if all.contains(x) {
            let i = choose|i: int| 0 <= i < all.len() && all[i] == x;
            assert(plan[pre.len() + i] == x);
        }
    }
    assert forall|i: int, j: int| 0 <= i < j < plan.len() && (#[trigger] plan[j]) is Seed implies (#[trigger] plan[i]) is Seed by {
        if j >= pre.len() {
            let x = plan[j];
            let b = match x { Step::Seed(b) => b, _ => 0 };
            lemma_steps_contain(actors, order, 0, b);
            assert(all[j - pre.len()] == x);
            assert(all.contains(x));
        }
    }
    assert forall|t: nat| t > 0 implies !(#[trigger] plan_of(actors, order, t)).contains(Step::Seed(a)) by {
        lemma_steps_contain(actors, order, t, a);
        let p = plan_of(actors, order, t);
        let st = steps_in_order(actors, order, t);
        assert(p =~= st);
    }
}

/// In a loop closed through a bootstrapped actor, the actor at the other end
/// of the bootstrapped actor's link first reads on tick 0, and by then the
/// seed has been published: its first input is the seed value.
pub proof fn lemma_seed_precedes_first_read(g: ValidatedGraph, k: int)
    requires
        g.wf(),
        0 <= k < g.links().len(),
        g.actors()[g.links()[k].from as int].bootstrap,
    ensures
        exists|i: int, j: int|
            0 <= i < j < plan_of(g.actors(), g.run_order(), 0).len()
                && plan_of(g.actors(), g.run_order(), 0)[i] == Step::Seed(g.links()[k].from)
                && plan_of(g.actors(), g.run_order(), 0)[j] == Step::Read(g.links()[k].to),
{
    let actors = g.actors();
    let order = g.run_order();
    let l = g.links()[k];
    assert(link_ok(actors, l));
    lemma_seeds_first(g, l.from);
    lemma_steps_contain(actors, order, 0, l.to);
    assert(order.contains(l.to));
    assert(actors[l.to as int].rate.reads_at(0));
    let pre = seeds(actors, order);
    let all = steps_in_order(actors, order, 0);
    let plan = plan_of(actors, order, 0);
    assert(plan == pre + all);
    let j0 = choose|j: int| 0 <= j < all.len() && all[j] == Step::Read(l.to);
    let j = pre.len() + j0;
    assert(plan[j] == Step::Read(l.to));
    let i = choose|i: int| 0 <= i < plan.len() && plan[i] == Step::Seed(l.from);
    if j <= i {
        assert(plan[i] is Seed);
        assert(!(plan[j] is Seed));
        assert(false);
    }
}

impl ValidatedGraph {
    /// The steps of one tick, in the order the engine performs them.
    pub fn plan(&self, tick: u64) -> (r: Vec<Step>)
        requires
            self.wf(),
        ensures
            r@ == plan_of(self.actors(), self.run_order(), tick as nat),
    {
        let order = self.order();
        let n = order.len();
        let mut out: Vec<Step> = Vec::new();
        if tick == 0 {
            let mut k: usize = 0;
            while k < n
                invariant
                    self.wf(),
                    order@ == self.run_order(),
                    n == order@.len(),
                    k <= n,
                    out@ == seeds(self.actors(), order@.subrange(0, k as int)),
                decreases n - k,
            {
                let a = order[k];
                assert(order@.subrange(0, k + 1).drop_last() =~= order@.subrange(0, k as int));
                if self.actor(a).bootstrap {
                    out.push(Step::Seed(a));
                }
                k += 1;
            }
            assert(order@.subrange(0, n as int) =~= order@);
        }
        let ghost pre = out@;
        let mut k: usize = 0;
        while k < n
            invariant
                self.wf(),
                order@ == self.run_order(),
                n == order@.len(),
                k <= n,
                out@ == pre + steps_in_order(self.actors(), order@.subrange(0, k as int), tick as nat),
            decreases n - k,
        {
            let a = order[k];
            assert(order@.subrange(0, k + 1).drop_last() =~= order@.subrange(0, k as int));
            let ghost before = out@;
            let rate = self.actor(a).rate;
            if rate.is_due_to_read(tick) {
                out.push(Step::Read(a));
                out.push(Step::Update(a));
            }
            if rate.is_due_to_write(tick) {
                out.push(Step::Write(a));
            }
            assert(out@ =~= before + actor_steps(self.actors(), a, tick as nat));
            k += 1;
        }
        assert(order@.subrange(0, n as int) =~= order@);
        out
    }
}

/// A validated graph being run: the clock that drives it and, for each tick,
/// the steps the engine performs.
pub struct Run {
    graph: ValidatedGraph,
    clock: Clock,
}

impl ValidatedGraph {
    /// Starts a run of `total_ticks` base ticks.
    pub fn run(self, total_ticks: u64) -> (r: Run)
        requires
            self.wf(),
        ensures
            r.wf(),
            r.graph() == self,
            r.clock().next_tick() == 0,
            r.clock().total_ticks() == Some(total_ticks),
    {
        Run { graph: self, clock: Clock::new(total_ticks) }
    }
}

impl Run {
    pub closed spec fn graph(&self) -> ValidatedGraph {
        self.graph
    }

    pub closed spec fn clock(&self) -> Clock {
        self.clock
    }

    pub open spec fn wf(&self) -> bool {
        self.graph().wf()
    }

    pub fn validated(&self) -> (r: &ValidatedGraph)
        ensures
            *r == self.graph(),
    {
        &self.graph
    }

    /// Advances the clock; returns the new tick and its steps, or `None` once
    /// every tick of the run has been handed out.
    pub fn next_tick(&mut self) -> (r: Option<(u64, Vec<Step>)>)
        requires
            old(self).wf(),
        ensures
            final(self).wf(),
            final(self).graph() == old(self).graph(),
            final(self).clock().total_ticks() == old(self).clock().total_ticks(),
            old(self).clock().finished() ==> r is None && final(self).clock().next_tick() == old(self).clock().next_tick(),
            !old(self).clock().finished() ==> r is Some && r->Some_0.0 == old(self).clock().next_tick()
                && r->Some_0.1@ == plan_of(old(self).graph().actors(), old(self).graph().run_order(), r->Some_0.0 as nat)
                && final(self).clock().next_tick() == old(self).clock().next_tick() + 1,
    {
        match self.clock.advance() {
            None => None,
            Some(tick) => {
                let steps = self.graph.plan(tick);
                Some((tick, steps))
            },
        }
    }
}

} // verus!
