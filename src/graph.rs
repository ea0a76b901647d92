use vstd::prelude::*;
use crate::counting::{lemma_covering_len, lemma_distinct_below_len, lemma_pigeonhole};
use crate::rate::Rate;

verus! {

/// An actor as the graph sees it: its rate, the type tag of each input and
/// output port, which inputs may stay unconnected, and whether it seeds its
/// outputs before any input arrives.
#[derive(Clone, Debug)]
pub struct ActorConfig {
    pub rate: Rate,
    pub inputs: Vec<u64>,
    /// `optional[i]` marks input `i` as optional; inputs past the end of
    /// this list are required.
    pub optional: Vec<bool>,
    pub outputs: Vec<u64>,
    pub bootstrap: bool,
}

impl ActorConfig {
    pub open spec fn is_optional(&self, i: usize) -> bool {
        i < self.optional@.len() && self.optional@[i as int]
    }

    pub fn input_is_optional(&self, i: usize) -> (r: bool)
        ensures
            r == self.is_optional(i),
    {
        i < self.optional.len() && self.optional[i]
    }
}

/// A channel from output port `output` of actor `from` into input port
/// `input` of actor `to`.
#[derive(Clone, Copy, Debug, PartialEq, Eq, Structural)]
pub struct Link {
    pub from: usize,
    pub output: usize,
    pub to: usize,
    pub input: usize,
}

#[derive(Clone, Copy, Debug, PartialEq, Eq, Structural)]
pub enum GraphError {
    UnknownActor { actor: usize },
    UnknownOutput { actor: usize, output: usize },
    UnknownInput { actor: usize, input: usize },
    TypeMismatch { from: usize, output: usize, to: usize, input: usize },
    DuplicateWriter { actor: usize, input: usize },
    NonPositiveRate { actor: usize },
    DanglingInput { actor: usize, input: usize },
    UnbootstrappedCycle { actor: usize },
}

/// The link's ports exist and carry the same type.
pub open spec fn link_ok(actors: Seq<ActorConfig>, l: Link) -> bool {
    &&& l.from < actors.len()
    &&& l.to < actors.len()
    &&& l.output < actors[l.from as int].outputs@.len()
    &&& l.input < actors[l.to as int].inputs@.len()
    &&& actors[l.from as int].outputs@[l.output as int] == actors[l.to as int].inputs@[l.input as int]
}

pub open spec fn feeds(l: Link, actor: usize, input: usize) -> bool {
    l.to == actor && l.input == input
}

/// Some link writes into input `input` of `actor`.
pub open spec fn has_producer(links: Seq<Link>, actor: usize, input: usize) -> bool {
    exists|k: int| 0 <= k < links.len() && feeds(#[trigger] links[k], actor, input)
}

pub open spec fn exactly_one_producer(links: Seq<Link>, actor: usize, input: usize) -> bool {
    &&& has_producer(links, actor, input)
    &&& forall|k1: int, k2: int|
        0 <= k1 < links.len() && 0 <= k2 < links.len() && feeds(#[trigger] links[k1], actor, input)
            && feeds(#[trigger] links[k2], actor, input) ==> k1 == k2
}

/// Every link is well typed and no input has two writers.
pub open spec fn links_wf(actors: Seq<ActorConfig>, links: Seq<Link>) -> bool {
    &&& forall|k: int| 0 <= k < links.len() ==> link_ok(actors, #[trigger] links[k])
    &&& forall|k1: int, k2: int|
        0 <= k1 < links.len() && 0 <= k2 < links.len() && (#[trigger] links[k1]).to == (#[trigger] links[k2]).to
            && links[k1].input == links[k2].input ==> k1 == k2
}

pub open spec fn rates_positive(actors: Seq<ActorConfig>) -> bool {
    forall|a: int| 0 <= a < actors.len() ==> (#[trigger] actors[a]).rate.is_valid()
}

/// Input `i` of actor `a` has exactly one writer, or may stay unconnected.
pub open spec fn input_resolved(actors: Seq<ActorConfig>, links: Seq<Link>, a: usize, i: usize) -> bool {
    exactly_one_producer(links, a, i) || actors[a as int].is_optional(i)
}

pub open spec fn inputs_resolved(actors: Seq<ActorConfig>, links: Seq<Link>) -> bool {
    forall|a: usize, i: usize|
        a < actors.len() && i < actors[a as int].inputs@.len() ==> #[trigger] input_resolved(actors, links, a, i)
}

/// Some link goes from actor `u` to actor `v`.
pub open spec fn edge(links: Seq<Link>, u: usize, v: usize) -> bool {
    exists|k: int| 0 <= k < links.len() && (#[trigger] links[k]).from == u && links[k].to == v
}

/// A closed walk along links: it returns to the actor it started from.
pub open spec fn is_cycle(links: Seq<Link>, p: Seq<usize>) -> bool {
    &&& p.len() >= 2
    &&& p[0] == p.last()
    &&& forall|m: int| 0 <= m < p.len() - 1 ==> edge(links, #[trigger] p[m], p[m + 1])
}

/// One of the actors that the cycle leaves from is bootstrapped.
pub open spec fn breaks_cycle(actors: Seq<ActorConfig>, p: Seq<usize>) -> bool {
    exists|m: int| 0 <= m < p.len() - 1 && actors[#[trigger] p[m] as int].bootstrap
}

pub open spec fn cycles_bootstrapped(actors: Seq<ActorConfig>, links: Seq<Link>) -> bool {
    forall|p: Seq<usize>| #[trigger] is_cycle(links, p) ==> breaks_cycle(actors, p)
}

/// A link that constrains the order within a tick: its writer is not
/// bootstrapped, so its value must be produced before it is read.
pub open spec fn live(actors: Seq<ActorConfig>, l: Link) -> bool {
    !actors[l.from as int].bootstrap
}

/// `order` lists every actor once, and each actor comes after the writers of
/// its live links.
pub open spec fn is_schedule(actors: Seq<ActorConfig>, links: Seq<Link>, order: Seq<usize>) -> bool {
    &&& order.len() == actors.len()
    &&& order.no_duplicates()
    &&& forall|k: int| 0 <= k < order.len() ==> (#[trigger] order[k]) < actors.len()
    &&& forall|a: usize| a < actors.len() ==> #[trigger] order.contains(a)
    &&& forall|k: int, j: int|
        0 <= k < order.len() && 0 <= j < links.len() && (#[trigger] links[j]).to == #[trigger] order[k]
            && live(actors, links[j]) ==> order.subrange(0, k).contains(links[j].from)
}

/// What `connect` decides, in the order in which it tests.
pub open spec fn connect_result(
    actors: Seq<ActorConfig>,
    links: Seq<Link>,
    l: Link,
) -> Result<(), GraphError> {
    if l.from >= actors.len() {
        Err(GraphError::UnknownActor { actor: l.from })
    } else if l.to >= actors.len() {
        Err(GraphError::UnknownActor { actor: l.to })
    } else if l.output >= actors[l.from as int].outputs@.len() {
        Err(GraphError::UnknownOutput { actor: l.from, output: l.output })
    } else if l.input >= actors[l.to as int].inputs@.len() {
        Err(GraphError::UnknownInput { actor: l.to, input: l.input })
    } else if actors[l.from as int].outputs@[l.output as int] != actors[l.to as int].inputs@[l.input as int] {
        Err(GraphError::TypeMismatch { from: l.from, output: l.output, to: l.to, input: l.input })
    } else if has_producer(links, l.to, l.input) {
        Err(GraphError::DuplicateWriter { actor: l.to, input: l.input })
    } else {
        Ok(())
    }
}

/// Actors and the channels between them, as they are assembled.
pub struct Graph {
    actors: Vec<ActorConfig>,
    links: Vec<Link>,
}

impl Graph {
    pub closed spec fn actors(&self) -> Seq<ActorConfig> {
        self.actors@
    }

    pub closed spec fn links(&self) -> Seq<Link> {
        self.links@
    }

    pub open spec fn wf(&self) -> bool {
        links_wf(self.actors(), self.links())
    }

    pub fn new() -> (g: Graph)
        ensures
            g.wf(),
            g.actors() == Seq::<ActorConfig>::empty(),
            g.links() == Seq::<Link>::empty(),
    {
        Graph { actors: Vec::new(), links: Vec::new() }
    }

    pub fn n_actors(&self) -> (r: usize)
        ensures
            r == self.actors().len(),
    {
        self.actors.len()
    }

    pub fn n_links(&self) -> (r: usize)
        ensures
            r == self.links().len(),
    {
        self.links.len()
    }

    pub fn actor(&self, id: usize) -> (r: &ActorConfig)
        requires
            id < self.actors().len(),
        ensures
            *r == self.actors()[id as int],
    {
        &self.actors[id]
    }

    pub fn link(&self, k: usize) -> (r: Link)
        requires
            k < self.links().len(),
        ensures
            r == self.links()[k as int],
    {
        self.links[k]
    }

    /// Adds an actor and returns its identifier.
    pub fn add_actor(&mut self, actor: ActorConfig) -> (id: usize)
        requires
            old(self).wf(),
            old(self).actors().len() < usize::MAX,
        ensures
            final(self).wf(),
            id == old(self).actors().len(),
            final(self).actors() == old(self).actors().push(actor),
            final(self).links() == old(self).links(),
    {
        let id = self.actors.len();
        self.actors.push(actor);
        assert forall|k: int| 0 <= k < self.links@.len() implies link_ok(self.actors@, #[trigger] self.links@[k]) by {
            assert(link_ok(old(self).actors@, self.links@[k]));
        }
        id
    }

    /// Looks for a link already writing into input `input` of `actor`.
    fn find_producer(&self, actor: usize, input: usize) -> (r: Option<usize>)
        ensures
            match r {
                Some(k) => k < self.links().len() && feeds(self.links()[k as int], actor, input),
                None => !has_producer(self.links(), actor, input),
            },
    {
        let mut k: usize = 0;
        while k < self.links.len()
            invariant
                k <= self.links@.len(),
                forall|j: int| 0 <= j < k ==> !feeds(#[trigger] self.links@[j], actor, input),
            decreases self.links@.len() - k,
        {
            let l = self.links[k];
            if l.to == actor && l.input == input {
                return Some(k);
            }
            k += 1;
        }
        None
    }

    /// Connects output `output` of actor `from` to input `input` of actor
    /// `to`. The ports must exist and carry the same type, and the input
    /// must not have a writer yet.
    pub fn connect(&mut self, from: usize, output: usize, to: usize, input: usize) -> (r: Result<(), GraphError>)
        requires
            old(self).wf(),
        ensures
            final(self).wf(),
            r == connect_result(old(self).actors(), old(self).links(), Link { from, output, to, input }),
            final(self).actors() == old(self).actors(),
            r is Ok ==> final(self).links() == old(self).links().push(Link { from, output, to, input }),
            r is Err ==> final(self).links() == old(self).links(),
    {
        let n = self.actors.len();
        if from >= n {
            return Err(GraphError::UnknownActor { actor: from });
        }
        if to >= n {
            return Err(GraphError::UnknownActor { actor: to });
        }
        if output >= self.actors[from].outputs.len() {
            return Err(GraphError::UnknownOutput { actor: from, output });
        }
        if input >= self.actors[to].inputs.len() {
            return Err(GraphError::UnknownInput { actor: to, input });
        }
        if self.actors[from].outputs[output] != self.actors[to].inputs[input] {
            return Err(GraphError::TypeMismatch { from, output, to, input });
        }
        match self.find_producer(to, input) {
            Some(_) => {
                return Err(GraphError::DuplicateWriter { actor: to, input });
            },
            None => {},
        }
        let l = Link { from, output, to, input };
        self.links.push(l);
        assert forall|k1: int, k2: int|
            0 <= k1 < self.links@.len() && 0 <= k2 < self.links@.len() && (#[trigger] self.links@[k1]).to
                == (#[trigger] self.links@[k2]).to && self.links@[k1].input == self.links@[k2].input implies k1 == k2 by {
            if k1 == self.links@.len() - 1 && k2 < k1 {
                assert(feeds(old(self).links@[k2], to, input));
            }
            if k2 == self.links@.len() - 1 && k1 < k2 {
                assert(feeds(old(self).links@[k1], to, input));
            }
        }
        assert forall|k: int| 0 <= k < self.links@.len() implies link_ok(self.actors@, #[trigger] self.links@[k]) by {
            if k < old(self).links@.len() {
                assert(link_ok(old(self).actors@, old(self).links@[k]));
            }
        }
        Ok(())
    }
}


/// Every live link into `v` comes from an actor already marked in `done`.
pub open spec fn ready(actors: Seq<ActorConfig>, links: Seq<Link>, done: Seq<bool>, v: usize) -> bool {
    forall|j: int|
        0 <= j < links.len() && (#[trigger] links[j]).to == v && live(actors, links[j]) ==> done[links[j].from as int]
}

/// Link `j` is a live link into `v` from an actor not yet in `done`.
pub open spec fn blocked_by(actors: Seq<ActorConfig>, links: Seq<Link>, done: Seq<bool>, v: usize, j: int) -> bool {
    &&& 0 <= j < links.len()
    &&& links[j].to == v
    &&& live(actors, links[j])
    &&& !done[links[j].from as int]
}

/// Every actor left out of `done` waits on another actor left out of `done`.
pub open spec fn stuck(actors: Seq<ActorConfig>, links: Seq<Link>, done: Seq<bool>) -> bool {
    forall|v: usize| v < actors.len() && !done[v as int] ==> !#[trigger] ready(actors, links, done, v)
}

spec fn waits_on(actors: Seq<ActorConfig>, links: Seq<Link>, done: Seq<bool>, v: usize) -> usize {
    links[choose|j: int| blocked_by(actors, links, done, v, j)].from
}

/// Walks back from `v` along live links, `k` steps, inside the actors left
/// out of `done`.
spec fn walk_back(actors: Seq<ActorConfig>, links: Seq<Link>, done: Seq<bool>, v: usize, k: nat) -> usize
    decreases k,
{
    if k == 0 {
        v
    } else {
        waits_on(actors, links, done, walk_back(actors, links, done, v, (k - 1) as nat))
    }
}

proof fn lemma_walk_back(actors: Seq<ActorConfig>, links: Seq<Link>, done: Seq<bool>, v: usize, k: nat)
    requires
        links_wf(actors, links),
        done.len() == actors.len(),
        stuck(actors, links, done),
        v < actors.len(),
        !done[v as int],
    ensures
        walk_back(actors, links, done, v, k) < actors.len(),
        !done[walk_back(actors, links, done, v, k) as int],
        k > 0 ==> exists|j: int|
            blocked_by(actors, links, done, walk_back(actors, links, done, v, (k - 1) as nat), j)
                && #[trigger] links[j].from == walk_back(actors, links, done, v, k),
    decreases k,
{
    if k > 0 {
        lemma_walk_back(actors, links, done, v, (k - 1) as nat);
        let u = walk_back(actors, links, done, v, (k - 1) as nat);
        assert(!ready(actors, links, done, u));
        let j0 = choose|j: int|
            0 <= j < links.len() && (#[trigger] links[j]).to == u && live(actors, links[j]) && !done[links[j].from as int];
        assert(blocked_by(actors, links, done, u, j0));
        let j = choose|j: int| blocked_by(actors, links, done, u, j);
        assert(link_ok(actors, links[j]));
        assert(links[j].from == walk_back(actors, links, done, v, k));
    }
}

/// When scheduling gets stuck, some cycle has no bootstrapped actor.
proof fn lemma_stuck_has_cycle(actors: Seq<ActorConfig>, links: Seq<Link>, done: Seq<bool>, v: usize, n: usize)
    requires
        actors.len() == n,
        links_wf(actors, links),
        done.len() == actors.len(),
        stuck(actors, links, done),
        v < actors.len(),
        !done[v as int],
    ensures
        !cycles_bootstrapped(actors, links),
{
    let s = Seq::new((n + 1) as nat, |k: int| walk_back(actors, links, done, v, k as nat));
    assert forall|k: int| 0 <= k < s.len() implies #[trigger] s[k] < n by {
        lemma_walk_back(actors, links, done, v, k as nat);
    }
    lemma_pigeonhole(s, n);
    let (i, j) = choose|i: int, j: int| 0 <= i < j < s.len() && s[i] == s[j];
    let p = Seq::new((j - i + 1) as nat, |m: int| walk_back(actors, links, done, v, (j - m) as nat));
    assert forall|m: int| 0 <= m < p.len() - 1 implies edge(links, #[trigger] p[m], p[m + 1]) && !actors[p[m] as int].bootstrap by {
        lemma_walk_back(actors, links, done, v, (j - m) as nat);
        let jj = choose|jj: int|
            blocked_by(actors, links, done, walk_back(actors, links, done, v, (j - m - 1) as nat), jj)
                && #[trigger] links[jj].from == walk_back(actors, links, done, v, (j - m) as nat);
        assert(p[m + 1] == walk_back(actors, links, done, v, (j - m - 1) as nat));
        assert(links[jj].from == p[m] && links[jj].to == p[m + 1]);
    }
    assert(p[0] == s[j]);
    assert(p.last() == s[i]);
    assert(is_cycle(links, p));
    assert(!breaks_cycle(actors, p));
}

/// A cycle on which no actor is bootstrapped makes `check` fail: taking the
/// bootstrap off the one bootstrapped actor of a feedback loop is caught by
/// validation, before any tick runs.
pub proof fn lemma_unbootstrapped_cycle_is_rejected(actors: Seq<ActorConfig>, links: Seq<Link>, p: Seq<usize>)
    requires
        is_cycle(links, p),
        forall|m: int| 0 <= m < p.len() ==> !actors[#[trigger] p[m] as int].bootstrap,
    ensures
        !cycles_bootstrapped(actors, links),
{
    assert(!breaks_cycle(actors, p));
}

/// Position of `v` in `order`.
spec fn position(order: Seq<usize>, v: usize) -> int {
    choose|k: int| 0 <= k < order.len() && order[k] == v
}

proof fn lemma_cycle_positions(actors: Seq<ActorConfig>, links: Seq<Link>, order: Seq<usize>, p: Seq<usize>, m: int)
    requires
        links_wf(actors, links),
        is_schedule(actors, links, order),
        is_cycle(links, p),
        !breaks_cycle(actors, p),
        0 <= m < p.len(),
    ensures
        p[m] < actors.len(),
        0 <= position(order, p[m]) < order.len(),
        order[position(order, p[m])] == p[m],
        position(order, p[m]) >= position(order, p[0]) + m,
    decreases m,
{
    if m == 0 {
        assert(edge(links, p[0], p[1]));
        let k = choose|k: int| 0 <= k < links.len() && (#[trigger] links[k]).from == p[0] && links[k].to == p[1];
        assert(link_ok(actors, links[k]));
        assert(order.contains(p[0]));
    } else {
        lemma_cycle_positions(actors, links, order, p, m - 1);
        assert(edge(links, p[m - 1], p[m]));
        let k = choose|k: int| 0 <= k < links.len() && (#[trigger] links[k]).from == p[m - 1] && links[k].to == p[m];
        assert(link_ok(actors, links[k]));
        assert(order.contains(p[m]));
        let q = position(order, p[m]);
        assert(!actors[p[m - 1] as int].bootstrap);
        assert(live(actors, links[k]));
        assert(order.subrange(0, q).contains(links[k].from));
        let i = choose|i: int| 0 <= i < q && order.subrange(0, q)[i] == p[m - 1];
        assert(order[i] == p[m - 1]);
        assert(i == position(order, p[m - 1]));
    }
}

/// An order that respects every live link leaves no cycle without a
/// bootstrapped actor.
proof fn lemma_schedule_breaks_cycles(actors: Seq<ActorConfig>, links: Seq<Link>, order: Seq<usize>)
    requires
        links_wf(actors, links),
        is_schedule(actors, links, order),
    ensures
        cycles_bootstrapped(actors, links),
{
    assert forall|p: Seq<usize>| #[trigger] is_cycle(links, p) implies breaks_cycle(actors, p) by {
        if !breaks_cycle(actors, p) {
            lemma_cycle_positions(actors, links, order, p, p.len() - 1);
            lemma_cycle_positions(actors, links, order, p, 0);
            assert(p[p.len() - 1] == p[0]);
        }
    }
}

/// A graph that passed `check`, with an order in which the actors of one tick
/// run so that every live link is written before it is read.
pub struct ValidatedGraph {
    actors: Vec<ActorConfig>,
    links: Vec<Link>,
    order: Vec<usize>,
}

impl ValidatedGraph {
    pub closed spec fn actors(&self) -> Seq<ActorConfig> {
        self.actors@
    }

    pub closed spec fn links(&self) -> Seq<Link> {
        self.links@
    }

    pub closed spec fn run_order(&self) -> Seq<usize> {
        self.order@
    }

    pub open spec fn wf(&self) -> bool {
        &&& links_wf(self.actors(), self.links())
        &&& rates_positive(self.actors())
        &&& inputs_resolved(self.actors(), self.links())
        &&& is_schedule(self.actors(), self.links(), self.run_order())
    }

    pub fn n_actors(&self) -> (r: usize)
        ensures
            r == self.actors().len(),
    {
        self.actors.len()
    }

    pub fn actor(&self, id: usize) -> (r: &ActorConfig)
        requires
            id < self.actors().len(),
        ensures
            *r == self.actors()[id as int],
    {
        &self.actors[id]
    }

    pub fn n_links(&self) -> (r: usize)
        ensures
            r == self.links().len(),
    {
        self.links.len()
    }

    pub fn link(&self, k: usize) -> (r: Link)
        requires
            k < self.links().len(),
        ensures
            r == self.links()[k as int],
    {
        self.links[k]
    }

    /// The order in which the actors of one tick run.
    pub fn order(&self) -> (r: &Vec<usize>)
        ensures
            r@ == self.run_order(),
    {
        &self.order
    }
}

impl Graph {
    fn first_bad_rate(&self) -> (r: Option<usize>)
        ensures
            match r {
                Some(a) => a < self.actors().len() && !self.actors()[a as int].rate.is_valid()
                    && forall|b: int| 0 <= b < a ==> (#[trigger] self.actors()[b]).rate.is_valid(),
                None => rates_positive(self.actors()),
            },
    {
        let mut a: usize = 0;
        while a < self.actors.len()
            invariant
                a <= self.actors@.len(),
                forall|b: int| 0 <= b < a ==> (#[trigger] self.actors@[b]).rate.is_valid(),
            decreases self.actors@.len() - a,
        {
            if !self.actors[a].rate.is_positive() {
                return Some(a);
            }
            a += 1;
        }
        None
    }

    fn first_dangling(&self) -> (r: Option<(usize, usize)>)
        requires
            self.wf(),
        ensures
            match r {
                Some((a, i)) => a < self.actors().len() && i < self.actors()[a as int].inputs@.len()
                    && !has_producer(self.links(), a, i) && !self.actors()[a as int].is_optional(i),
                None => inputs_resolved(self.actors(), self.links()),
            },
    {
        let mut a: usize = 0;
        while a < self.actors.len()
            invariant
                self.wf(),
                a <= self.actors@.len(),
                forall|b: usize, i: usize|
                    b < a && i < self.actors@[b as int].inputs@.len() ==> #[trigger] input_resolved(self.actors@, self.links@, b, i),
            decreases self.actors@.len() - a,
        {
            let mut i: usize = 0;
            while i < self.actors[a].inputs.len()
                invariant
                    self.wf(),
                    a < self.actors@.len(),
                    i <= self.actors@[a as int].inputs@.len(),
                    forall|b: usize, i2: usize|
                        b < a && i2 < self.actors@[b as int].inputs@.len() ==> #[trigger] input_resolved(self.actors@, self.links@, b, i2),
                    forall|i2: usize| i2 < i ==> #[trigger] input_resolved(self.actors@, self.links@, a, i2),
                decreases self.actors@[a as int].inputs@.len() - i,
            {
                if !self.actors[a].input_is_optional(i) {
                    match self.find_producer(a, i) {
                        None => {
                            return Some((a, i));
                        },
                        Some(_) => {},
                    }
                }
                i += 1;
            }
            a += 1;
        }
        None
    }

    fn find_ready(&self, done: &Vec<bool>) -> (r: Option<usize>)
        requires
            self.wf(),
            done@.len() == self.actors().len(),
        ensures
            match r {
                Some(v) => v < self.actors().len() && !done@[v as int] && ready(self.actors(), self.links(), done@, v),
                None => stuck(self.actors(), self.links(), done@),
            },
    {
        let n = self.actors.len();
        let mut v: usize = 0;
        while v < n
            invariant
                self.wf(),
                n == self.actors@.len(),
                done@.len() == n,
                v <= n,
                forall|u: usize| u < v && !done@[u as int] ==> !#[trigger] ready(self.actors@, self.links@, done@, u),
            decreases n - v,
        {
            if !done[v] {
                let mut ok = true;
                let mut j: usize = 0;
                while j < self.links.len()
                    invariant
                        self.wf(),
                        n == self.actors@.len(),
                        done@.len() == n,
                        v < n,
                        j <= self.links@.len(),
                        ok <==> forall|i: int|
                            0 <= i < j && (#[trigger] self.links@[i]).to == v && live(self.actors@, self.links@[i])
                                ==> done@[self.links@[i].from as int],
                    decreases self.links@.len() - j,
                {
                    let l = self.links[j];
                    assert(link_ok(self.actors@, self.links@[j as int]));
                    if l.to == v && !self.actors[l.from].bootstrap && !done[l.from] {
                        ok = false;
                    }
                    j += 1;
                }
                if ok {
                    return Some(v);
                }
            }
            v += 1;
        }
        None
    }

    /// Orders the actors so that every live link runs forward, or names an
    /// actor that no such order can reach.
    fn schedule_order(&self) -> (r: Result<Vec<usize>, usize>)
        requires
            self.wf(),
        ensures
            match r {
                Ok(order) => is_schedule(self.actors(), self.links(), order@),
                Err(v) => v < self.actors().len() && !cycles_bootstrapped(self.actors(), self.links()),
            },
    {
        let n = self.actors.len();
        let mut done: Vec<bool> = Vec::new();
        while done.len() < n
            invariant
                done@.len() <= n,
                forall|k: int| 0 <= k < done@.len() ==> !#[trigger] done@[k],
            decreases n - done@.len(),
        {
            done.push(false);
        }
        let mut order: Vec<usize> = Vec::new();
        loop
            invariant
                self.wf(),
                n == self.actors@.len(),
                done@.len() == n,
                order@.no_duplicates(),
                order@.len() <= n,
                forall|k: int| 0 <= k < order@.len() ==> (#[trigger] order@[k]) < n,
                forall|v: usize| v < n ==> (done@[v as int] <==> #[trigger] order@.contains(v)),
                forall|k: int, j: int|
                    0 <= k < order@.len() && 0 <= j < self.links@.len() && (#[trigger] self.links@[j]).to
                        == #[trigger] order@[k] && live(self.actors@, self.links@[j])
                        ==> order@.subrange(0, k).contains(self.links@[j].from),
            ensures
                done@.len() == n,
                order@.no_duplicates(),
                forall|k: int| 0 <= k < order@.len() ==> (#[trigger] order@[k]) < n,
                forall|v: usize| v < n ==> (done@[v as int] <==> #[trigger] order@.contains(v)),
                forall|k: int, j: int|
                    0 <= k < order@.len() && 0 <= j < self.links@.len() && (#[trigger] self.links@[j]).to
                        == #[trigger] order@[k] && live(self.actors@, self.links@[j])
                        ==> order@.subrange(0, k).contains(self.links@[j].from),
                stuck(self.actors@, self.links@, done@),
            decreases n - order@.len(),
        {
            match self.find_ready(&done) {
                Some(v) => {
                    let ghost old_order = order@;
                    let ghost old_done = done@;
                    done.set(v, true);
                    order.push(v);
                    assert(order@.no_duplicates()) by {
                        assert(!old_order.contains(v));
                        assert forall|a: int, b: int|
                            0 <= a < order@.len() && 0 <= b < order@.len() && a != b implies order@[a] != order@[b] by {
                            if a < old_order.len() && b < old_order.len() {
                                assert(order@[a] == old_order[a]);
                                assert(order@[b] == old_order[b]);
                            } else if a < old_order.len() {
                                assert(order@[a] == old_order[a]);
                            } else if b < old_order.len() {
                                assert(order@[b] == old_order[b]);
                            }
                        }
                    }
                    assert forall|u: usize| u < n implies (done@[u as int] <==> #[trigger] order@.contains(u)) by {
                        if u != v {
                            if old_order.contains(u) {
                                let k = choose|k: int| 0 <= k < old_order.len() && old_order[k] == u;
                                assert(order@[k] == u);
                            }
                            if order@.contains(u) {
                                let k = choose|k: int| 0 <= k < order@.len() && order@[k] == u;
                                assert(old_order[k] == u);
                            }
                        } else {
                            assert(order@[order@.len() - 1] == v);
                        }
                    }
                    assert forall|k: int, j: int|
                        0 <= k < order@.len() && 0 <= j < self.links@.len() && (#[trigger] self.links@[j]).to
                            == #[trigger] order@[k] && live(self.actors@, self.links@[j])
                            implies order@.subrange(0, k).contains(self.links@[j].from) by {
                        if k < old_order.len() {
                            assert(order@.subrange(0, k) =~= old_order.subrange(0, k));
                        } else {
                            let f = self.links@[j].from;
                            assert(link_ok(self.actors@, self.links@[j]));
                            assert(old_done[f as int]);
                            assert(old_order.contains(f));
                            assert(order@.subrange(0, k) =~= old_order);
                        }
                    }
                    proof {
                        lemma_distinct_below_len(order@, n);
                    }
                },
                None => {
                    break;
                },
            }
        }
        let mut v: usize = 0;
        while v < n
            invariant
                self.wf(),
                n == self.actors@.len(),
                done@.len() == n,
                v <= n,
                forall|u: usize| u < v ==> #[trigger] done@[u as int],
                stuck(self.actors@, self.links@, done@),
                order@.no_duplicates(),
                forall|k: int| 0 <= k < order@.len() ==> (#[trigger] order@[k]) < n,
                forall|u: usize| u < n ==> (done@[u as int] <==> #[trigger] order@.contains(u)),
                forall|k: int, j: int|
                    0 <= k < order@.len() && 0 <= j < self.links@.len() && (#[trigger] self.links@[j]).to
                        == #[trigger] order@[k] && live(self.actors@, self.links@[j])
                        ==> order@.subrange(0, k).contains(self.links@[j].from),
            decreases n - v,
        {
            if !done[v] {
                proof {
                    lemma_stuck_has_cycle(self.actors@, self.links@, done@, v, n);
                }
                return Err(v);
            }
            v += 1;
        }
        proof {
            assert forall|u: usize| u < n implies #[trigger] order@.contains(u) by {
                assert(done@[u as int]);
            }
            lemma_covering_len(order@, n);
            lemma_distinct_below_len(order@, n);
        }
        Ok(order)
    }

    /// Validates the graph: every rate period is positive, every input has
    /// exactly one writer or is optional, and every cycle passes through a bootstrapped
    /// actor. The checks run in that order and the first failure is reported.
    pub fn check(self) -> (r: Result<ValidatedGraph, GraphError>)
        requires
            self.wf(),
        ensures
            r is Ok <==> rates_positive(self.actors()) && inputs_resolved(self.actors(), self.links())
                && cycles_bootstrapped(self.actors(), self.links()),
            match r {
                Ok(v) => v.wf() && v.actors() == self.actors() && v.links() == self.links(),
                Err(GraphError::NonPositiveRate { actor }) => actor < self.actors().len()
                    && !self.actors()[actor as int].rate.is_valid()
                    && forall|b: int| 0 <= b < actor ==> (#[trigger] self.actors()[b]).rate.is_valid(),
                Err(GraphError::DanglingInput { actor, input }) => rates_positive(self.actors())
                    && actor < self.actors().len() && input < self.actors()[actor as int].inputs@.len()
                    && !has_producer(self.links(), actor, input) && !self.actors()[actor as int].is_optional(input),
                Err(GraphError::UnbootstrappedCycle { actor }) => rates_positive(self.actors())
                    && inputs_resolved(self.actors(), self.links()) && actor < self.actors().len()
                    && !cycles_bootstrapped(self.actors(), self.links()),
                Err(_) => false,
            },
    {
        match self.first_bad_rate() {
            Some(a) => {
                return Err(GraphError::NonPositiveRate { actor: a });
            },
            None => {},
        }
        match self.first_dangling() {
            Some((a, i)) => {
                assert(!input_resolved(self.actors@, self.links@, a, i));
                return Err(GraphError::DanglingInput { actor: a, input: i });
            },
            None => {},
        }
        match self.schedule_order() {
            Ok(order) => {
                proof {
                    lemma_schedule_breaks_cycles(self.actors@, self.links@, order@);
                }
                Ok(ValidatedGraph { actors: self.actors, links: self.links, order })
            },
            Err(v) => Err(GraphError::UnbootstrappedCycle { actor: v }),
        }
    }
}

} // verus!
