use glao_loop::{ActorConfig, Graph, GraphError, Rate, Step};

const TICK: u64 = 1;
const MODES: u64 = 2;
const FRAME: u64 = 3;
const COMMAND: u64 = 4;

fn actor(inputs: Vec<u64>, outputs: Vec<u64>, bootstrap: bool) -> ActorConfig {
    ActorConfig { rate: Rate::every_tick(), inputs, optional: vec![], outputs, bootstrap }
}

fn feedback_pair(bootstrap_second: bool) -> Graph {
    let mut g = Graph::new();
    let a = g.add_actor(actor(vec![MODES], vec![MODES], false));
    let b = g.add_actor(actor(vec![MODES], vec![MODES], bootstrap_second));
    g.connect(a, 0, b, 0).unwrap();
    g.connect(b, 0, a, 0).unwrap();
    g
}

#[test]
fn mutual_feedback_without_bootstrap_fails_check() {
    let r = feedback_pair(false).check();
    assert!(matches!(r, Err(GraphError::UnbootstrappedCycle { .. })));
}

#[test]
fn mutual_feedback_with_bootstrap_passes_check() {
    let v = feedback_pair(true).check().unwrap();
    assert_eq!(v.n_actors(), 2);
    // the link out of the bootstrapped actor does not order the tick
    assert_eq!(v.order(), &vec![0, 1]);
}

/// plant -> sensor -> reconstructor -> integrator -> plant, with the
/// integrator optionally bootstrapped.
fn closed_loop(bootstrap: bool) -> (Graph, [usize; 4]) {
    let mut g = Graph::new();
    let plant = g.add_actor(actor(vec![COMMAND], vec![FRAME], false));
    let sensor = g.add_actor(actor(vec![FRAME], vec![MODES], false));
    let recon = g.add_actor(actor(vec![MODES], vec![MODES], false));
    let integ = g.add_actor(actor(vec![MODES], vec![COMMAND], bootstrap));
    g.connect(plant, 0, sensor, 0).unwrap();
    g.connect(sensor, 0, recon, 0).unwrap();
    g.connect(recon, 0, integ, 0).unwrap();
    g.connect(integ, 0, plant, 0).unwrap();
    (g, [plant, sensor, recon, integ])
}

#[test]
fn closed_loop_seed_reaches_plant_before_its_first_update() {
    let (g, [plant, sensor, recon, integ]) = closed_loop(true);
    let v = g.check().unwrap();
    assert_eq!(v.order(), &vec![plant, sensor, recon, integ]);
    let steps = v.plan(0);
    assert_eq!(steps[0], Step::Seed(integ));
    let read_plant = steps.iter().position(|s| *s == Step::Read(plant)).unwrap();
    let update_plant = steps.iter().position(|s| *s == Step::Update(plant)).unwrap();
    assert!(0 < read_plant && read_plant < update_plant);
    assert!(!v.plan(1).contains(&Step::Seed(integ)));
}

#[test]
fn closed_loop_without_bootstrap_fails_check() {
    let (g, _) = closed_loop(false);
    assert!(matches!(g.check(), Err(GraphError::UnbootstrappedCycle { .. })));
}

#[test]
fn chain_without_cycle_passes_check() {
    let mut g = Graph::new();
    let clock = g.add_actor(actor(vec![], vec![TICK], false));
    let a = g.add_actor(actor(vec![TICK], vec![MODES], false));
    let b = g.add_actor(actor(vec![MODES], vec![], false));
    g.connect(clock, 0, a, 0).unwrap();
    g.connect(a, 0, b, 0).unwrap();
    let v = g.check().unwrap();
    assert_eq!(v.order(), &vec![clock, a, b]);
}

#[test]
fn connect_rejects_type_mismatch() {
    let mut g = Graph::new();
    let a = g.add_actor(actor(vec![], vec![FRAME], false));
    let b = g.add_actor(actor(vec![MODES], vec![], false));
    assert_eq!(
        g.connect(a, 0, b, 0),
        Err(GraphError::TypeMismatch { from: a, output: 0, to: b, input: 0 })
    );
    assert_eq!(g.n_links(), 0);
}

#[test]
fn connect_rejects_second_writer() {
    let mut g = Graph::new();
    let a = g.add_actor(actor(vec![], vec![MODES], false));
    let b = g.add_actor(actor(vec![], vec![MODES], false));
    let c = g.add_actor(actor(vec![MODES], vec![], false));
    assert_eq!(g.connect(a, 0, c, 0), Ok(()));
    assert_eq!(g.connect(b, 0, c, 0), Err(GraphError::DuplicateWriter { actor: c, input: 0 }));
    assert_eq!(g.n_links(), 1);
}

#[test]
fn connect_rejects_unknown_ports() {
    let mut g = Graph::new();
    let a = g.add_actor(actor(vec![], vec![MODES], false));
    let b = g.add_actor(actor(vec![MODES], vec![], false));
    assert_eq!(g.connect(a, 0, 7, 0), Err(GraphError::UnknownActor { actor: 7 }));
    assert_eq!(g.connect(5, 0, b, 0), Err(GraphError::UnknownActor { actor: 5 }));
    assert_eq!(g.connect(a, 1, b, 0), Err(GraphError::UnknownOutput { actor: a, output: 1 }));
    assert_eq!(g.connect(a, 0, b, 2), Err(GraphError::UnknownInput { actor: b, input: 2 }));
}

#[test]
fn check_rejects_zero_period() {
    let mut g = Graph::new();
    g.add_actor(actor(vec![], vec![], false));
    g.add_actor(ActorConfig { rate: Rate::new(0, 1), inputs: vec![], optional: vec![], outputs: vec![], bootstrap: false });
    assert!(matches!(g.check(), Err(GraphError::NonPositiveRate { actor: 1 })));
}

#[test]
fn check_rejects_dangling_input() {
    let mut g = Graph::new();
    let a = g.add_actor(actor(vec![], vec![MODES], false));
    let b = g.add_actor(actor(vec![MODES, FRAME], vec![], false));
    g.connect(a, 0, b, 0).unwrap();
    assert!(matches!(g.check(), Err(GraphError::DanglingInput { actor: 1, input: 1 })));
}

#[test]
fn cycle_reports_unschedulable_actor() {
    // a three-cycle fed by a source: the source schedules, the cycle does not
    let mut g = Graph::new();
    let s = g.add_actor(actor(vec![], vec![MODES], false));
    let x = g.add_actor(actor(vec![MODES, MODES], vec![MODES], false));
    let y = g.add_actor(actor(vec![MODES], vec![MODES], false));
    let z = g.add_actor(actor(vec![MODES], vec![MODES], false));
    g.connect(s, 0, x, 0).unwrap();
    g.connect(x, 0, y, 0).unwrap();
    g.connect(y, 0, z, 0).unwrap();
    g.connect(z, 0, x, 1).unwrap();
    match g.check() {
        Err(GraphError::UnbootstrappedCycle { actor }) => assert!(actor == x || actor == y || actor == z),
        _ => panic!("cycle accepted"),
    }
}

#[test]
fn empty_graph_passes_check() {
    let v = Graph::new().check().unwrap();
    assert_eq!(v.n_actors(), 0);
    assert!(v.order().is_empty());
    assert!(v.plan(0).is_empty());
}

#[test]
fn optional_input_may_stay_unconnected() {
    let mut g = Graph::new();
    let a = g.add_actor(actor(vec![], vec![TICK], false));
    let b = g.add_actor(ActorConfig {
        rate: Rate::every_tick(),
        inputs: vec![TICK, MODES],
        optional: vec![false, true],
        outputs: vec![],
        bootstrap: false,
    });
    g.connect(a, 0, b, 0).unwrap();
    assert!(g.actor(b).input_is_optional(1));
    assert!(!g.actor(b).input_is_optional(0));
    assert!(!g.actor(b).input_is_optional(2));
    assert_eq!(g.check().unwrap().n_actors(), 2);
}

#[test]
fn required_input_past_optional_flags_must_be_connected() {
    let mut g = Graph::new();
    g.add_actor(ActorConfig {
        rate: Rate::every_tick(),
        inputs: vec![TICK, MODES],
        optional: vec![true],
        outputs: vec![],
        bootstrap: false,
    });
    assert!(matches!(g.check(), Err(GraphError::DanglingInput { actor: 0, input: 1 })));
}
