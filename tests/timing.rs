use glao_loop::{ActorConfig, Clock, Graph, Rate, Step};

#[test]
fn rate_due_ticks_are_multiples() {
    for p_in in 1..6u64 {
        for p_out in 1..6u64 {
            let r = Rate::new(p_in, p_out);
            let reads: Vec<u64> = (0..40).filter(|t| r.is_due_to_read(*t)).collect();
            let writes: Vec<u64> = (0..40).filter(|t| r.is_due_to_write(*t)).collect();
            let want_reads: Vec<u64> = (0..40).map(|k| k * p_in).filter(|t| *t < 40).collect();
            let want_writes: Vec<u64> = (0..40).map(|k| k * p_out).filter(|t| *t < 40).collect();
            assert_eq!(reads, want_reads);
            assert_eq!(writes, want_writes);
        }
    }
}

#[test]
fn plan_follows_rates() {
    let mut g = Graph::new();
    let a = g.add_actor(ActorConfig { rate: Rate::new(1, 10), inputs: vec![], optional: vec![], outputs: vec![9], bootstrap: false });
    let b = g.add_actor(ActorConfig { rate: Rate::new(10, 1), inputs: vec![9], optional: vec![], outputs: vec![], bootstrap: false });
    g.connect(a, 0, b, 0).unwrap();
    let v = g.check().unwrap();
    assert_eq!(v.plan(0), vec![Step::Read(a), Step::Update(a), Step::Write(a), Step::Read(b), Step::Update(b), Step::Write(b)]);
    assert_eq!(v.plan(3), vec![Step::Read(a), Step::Update(a), Step::Write(b)]);
    assert_eq!(v.plan(20), vec![Step::Read(a), Step::Update(a), Step::Write(a), Step::Read(b), Step::Update(b), Step::Write(b)]);
}

#[test]
fn multiplexed_clock_delivers_same_tick() {
    let mut clock = Clock::new(10).multiplex(2);
    let mut seen: Vec<Vec<u64>> = vec![vec![], vec![]];
    while let Some(ticks) = clock.deliver() {
        assert_eq!(ticks.len(), 2);
        assert_eq!(ticks[0], ticks[1]);
        for (c, t) in ticks.iter().enumerate() {
            seen[c].push(*t);
        }
    }
    let want: Vec<u64> = (0..10).collect();
    assert_eq!(seen[0], want);
    assert_eq!(seen[1], want);
    assert!(clock.is_finished());
    assert_eq!(clock.deliver(), None);
}

#[test]
fn clock_counts_to_total() {
    let mut clock = Clock::new(3);
    assert_eq!(clock.advance(), Some(0));
    assert_eq!(clock.advance(), Some(1));
    assert_eq!(clock.advance(), Some(2));
    assert_eq!(clock.advance(), None);
    let mut open = Clock::unbounded();
    assert_eq!(open.advance(), Some(0));
    assert!(!open.is_finished());
    assert_eq!(Clock::new(0).advance(), None);
}

#[test]
fn run_hands_out_each_tick_once() {
    let mut g = Graph::new();
    let a = g.add_actor(ActorConfig { rate: Rate::new(1, 2), inputs: vec![], optional: vec![], outputs: vec![], bootstrap: true });
    let mut run = g.check().unwrap().run(3);
    assert_eq!(run.next_tick(), Some((0, vec![Step::Seed(a), Step::Read(a), Step::Update(a), Step::Write(a)])));
    assert_eq!(run.next_tick(), Some((1, vec![Step::Read(a), Step::Update(a)])));
    assert_eq!(run.next_tick(), Some((2, vec![Step::Read(a), Step::Update(a), Step::Write(a)])));
    assert_eq!(run.next_tick(), None);
}
