use glao_loop::{ActorConfig, Channel, ChannelError, Graph, Rate, Step};

#[test]
fn channel_keeps_last_value() {
    let mut c: Channel<Vec<f64>> = Channel::new(4);
    assert_eq!(c.tag(), 4);
    assert_eq!(c.latest(), None);
    assert_eq!(c.write(0, vec![1.0]), Ok(()));
    assert_eq!(c.latest(), Some(&vec![1.0]));
    // a later tick replaces the payload; readers in between see the old one
    assert_eq!(c.latest(), Some(&vec![1.0]));
    assert_eq!(c.write(3, vec![2.0]), Ok(()));
    assert_eq!(c.latest(), Some(&vec![2.0]));
    assert_eq!(c.last_tick(), Some(3));
}

#[test]
fn channel_takes_one_write_per_tick() {
    let mut c: Channel<u64> = Channel::new(1);
    assert_eq!(c.write(2, 7), Ok(()));
    assert_eq!(c.write(2, 8), Err(ChannelError::AlreadyWritten { tick: 2 }));
    assert_eq!(c.write(1, 9), Err(ChannelError::OutOfOrder { tick: 1, last: 2 }));
    assert_eq!(c.latest(), Some(&7));
}

/// Runs Clock -> A -> B, where A and B copy their input to their output,
/// and returns what A read and what B wrote on each tick.
fn run_identity_chain(ticks: u64) -> (Vec<u64>, Vec<u64>) {
    let mut g = Graph::new();
    let clock = g.add_actor(ActorConfig { rate: Rate::every_tick(), inputs: vec![], optional: vec![], outputs: vec![0], bootstrap: false });
    let a = g.add_actor(ActorConfig { rate: Rate::every_tick(), inputs: vec![0], optional: vec![], outputs: vec![0], bootstrap: false });
    let b = g.add_actor(ActorConfig { rate: Rate::every_tick(), inputs: vec![0], optional: vec![], outputs: vec![0], bootstrap: false });
    g.connect(clock, 0, a, 0).unwrap();
    g.connect(a, 0, b, 0).unwrap();
    let mut run = g.check().unwrap().run(ticks);
    let mut out: Vec<Channel<u64>> = vec![Channel::new(0), Channel::new(0), Channel::new(0)];
    let mut state = [0u64; 3];
    let mut a_inputs = vec![];
    let mut b_outputs = vec![];
    while let Some((tick, steps)) = run.next_tick() {
        for step in steps {
            match step {
                Step::Read(x) if x == clock => state[x] = tick,
                Step::Read(x) => {
                    state[x] = *out[x - 1].latest().unwrap();
                    if x == a {
                        a_inputs.push(state[x]);
                    }
                }
                Step::Update(_) => {}
                Step::Write(x) => {
                    out[x].write(tick, state[x]).unwrap();
                    if x == b {
                        b_outputs.push(state[x]);
                    }
                }
                Step::Seed(x) => out[x].write(tick, 0).unwrap(),
            }
        }
    }
    (a_inputs, b_outputs)
}

#[test]
fn identity_chain_passes_values_within_the_tick() {
    let (a_inputs, b_outputs) = run_identity_chain(3);
    assert_eq!(a_inputs, vec![0, 1, 2]);
    assert_eq!(b_outputs, vec![0, 1, 2]);
}
