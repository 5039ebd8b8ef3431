use logic_sim::{Circuit, Gate, GateBehavior, Wire, World, WorldCreationErr};

fn levels(world: &World) -> Vec<bool> {
    (0..world.junction_count()).map(|j| world.junction_level(j)).collect()
}

#[test]
fn evaluate_and_or_xor_not() {
    assert!(GateBehavior::And.evaluate(&[true, true, true]));
    assert!(!GateBehavior::And.evaluate(&[true, false, true]));
    assert!(GateBehavior::And.evaluate(&[]));
    assert!(GateBehavior::Or.evaluate(&[false, false, true]));
    assert!(!GateBehavior::Or.evaluate(&[false, false]));
    assert!(!GateBehavior::Or.evaluate(&[]));
    assert!(GateBehavior::Xor.evaluate(&[true, true, true]));
    assert!(!GateBehavior::Xor.evaluate(&[true, false, true]));
    assert!(!GateBehavior::Xor.evaluate(&[]));
    assert!(GateBehavior::Not.evaluate(&[false]));
    assert!(!GateBehavior::Not.evaluate(&[true]));
}

#[test]
fn fan_in_wire_and_gate() {
    let wires = vec![Wire::new(0, 3, 1)];
    let gates = vec![Gate::new(vec![1, 2], 3, GateBehavior::And)];
    assert!(matches!(World::new(wires, gates), Err(WorldCreationErr::FanIn)));
}

#[test]
fn fan_in_two_gates() {
    let gates = vec![
        Gate::new(vec![0, 1], 2, GateBehavior::Or),
        Gate::new(vec![0], 2, GateBehavior::Not),
    ];
    assert!(matches!(World::new(vec![], gates), Err(WorldCreationErr::FanIn)));
}

#[test]
fn not_gate_needs_one_input() {
    let two = vec![Gate::new(vec![0, 1], 2, GateBehavior::Not)];
    assert!(matches!(World::new(vec![], two), Err(WorldCreationErr::InvalidGateArity)));
    let none = vec![Gate::new(vec![], 2, GateBehavior::Not)];
    assert!(matches!(World::new(vec![], none), Err(WorldCreationErr::InvalidGateArity)));
}

#[test]
fn fan_in_reported_before_arity() {
    let gates = vec![
        Gate::new(vec![0, 1], 2, GateBehavior::Not),
        Gate::new(vec![0], 2, GateBehavior::Not),
    ];
    assert!(matches!(World::new(vec![], gates), Err(WorldCreationErr::FanIn)));
}

#[test]
fn fresh_world_is_low_and_settled() {
    let world = World::new_half_adder();
    assert_eq!(world.junction_count(), 10);
    assert_eq!(world.time(), 0);
    assert!(world.is_settled());
    assert!(levels(&world).iter().all(|l| !l));
}

#[test]
fn junction_count_of_circuits() {
    assert_eq!(Circuit::new_half_adder().max_junction(), 9);
    assert_eq!(Circuit::new_full_adder().junction_count(), 18);
    assert_eq!(Circuit::new(vec![], vec![]).junction_count(), 1);
    let c = Circuit::new(vec![Wire::new(4, 2, 1)], vec![Gate::new(vec![11, 0], 3, GateBehavior::Or)]);
    assert_eq!(c.max_junction(), 11);
    assert!(!c.has_fan_in());
    assert!(Circuit::new(Circuit::wires_from_tuples(vec![(0, 1, 1), (2, 1, 1)]), vec![]).has_fan_in());
}

#[test]
fn offsets_move_every_junction() {
    let w = Wire::new(1, 2, 7).offset_junctions(10);
    assert_eq!(w, Wire::new(11, 12, 7));
    let g = Gate::new(vec![3, 4], 5, GateBehavior::Xor).offset_junctions(2);
    assert_eq!(g.inputs, vec![5, 6]);
    assert_eq!(g.output, 7);
    assert_eq!(g.behavior, GateBehavior::Xor);
    let c = Circuit::new_half_adder().offset_junctions(5);
    assert_eq!(c.max_junction(), 14);
    assert_eq!(c.wires[0], Wire::new(5, 6, 4));
}

#[test]
fn wire_delays_the_level() {
    let mut world = World::new(Circuit::wires_from_tuples(vec![(0, 1, 5)]), vec![]).ok().unwrap();
    world.set_junction(0, true);
    assert!(!world.is_settled());
    world.step();
    assert_eq!(world.time(), 0);
    assert!(world.junction_level(0));
    assert!(!world.junction_level(1));
    world.step();
    assert_eq!(world.time(), 5);
    assert!(world.junction_level(1));
    assert!(world.is_settled());
}

#[test]
fn last_forcing_at_one_time_wins() {
    let mut world = World::new(Circuit::wires_from_tuples(vec![(0, 1, 2)]), vec![]).ok().unwrap();
    world.set_junction(0, true);
    world.set_junction(0, false);
    world.step_to_settled();
    assert!(!world.junction_level(0));
    assert!(!world.junction_level(1));
    assert_eq!(world.time(), 0);
}

#[test]
fn gates_follow_destiny_of_inputs() {
    // A NOT gate feeding an AND gate with no wire between them.
    let gates = vec![
        Gate::new(vec![0], 1, GateBehavior::Not),
        Gate::new(vec![1, 2], 3, GateBehavior::And),
    ];
    let mut world = World::new(vec![], gates).ok().unwrap();
    world.set_junction(2, true);
    world.step_to_settled();
    assert!(world.junction_level(1));
    assert!(world.junction_level(3));
    assert_eq!(world.time(), 0);
    world.set_junction(0, true);
    world.step_to_settled();
    assert!(!world.junction_level(1));
    assert!(!world.junction_level(3));
}

#[test]
fn settled_after_step_to_settled() {
    let mut world = World::new_full_adder();
    world.set_junction(0, true);
    world.set_junction(2, true);
    world.step_to_settled();
    assert!(world.is_settled());
}

#[test]
fn step_on_settled_world_changes_nothing() {
    let mut world = World::new_half_adder();
    world.set_junction(0, true);
    world.step_to_settled();
    let time = world.time();
    let before = levels(&world);
    world.step();
    assert_eq!(world.time(), time);
    assert_eq!(levels(&world), before);
    assert!(world.is_settled());
}

#[test]
fn same_calls_give_same_state() {
    let run = || {
        let mut world = World::new_full_adder();
        world.set_junction(1, true);
        world.step();
        world.set_junction(2, true);
        world.step_to_settled();
        world.set_junction(0, true);
        world.step();
        world.step();
        (levels(&world), world.time())
    };
    assert_eq!(run(), run());
}

#[test]
fn time_never_goes_back() {
    let mut world = World::new_half_adder();
    world.set_junction(0, true);
    world.set_junction(8, true);
    let mut last = world.time();
    let mut steps = 0;
    while !world.is_settled() {
        world.step();
        assert!(world.time() >= last);
        last = world.time();
        steps += 1;
    }
    assert!(steps > 1);
    assert!(last > 0);
    world.set_junction(8, false);
    assert_eq!(world.time(), last);
}

#[test]
fn half_adder_time_after_settling() {
    let mut world = World::new_half_adder();
    world.set_junction(0, true);
    world.step_to_settled();
    // 0 -> 1 lands at 4. Then the XOR gate reads the level that junction 5
    // is heading for, so 6 rises at 4 and 6 -> 7 lands at 7; 0 -> 5 lands at 8.
    assert_eq!(world.time(), 8);
    assert!(world.junction_level(5));
    assert!(world.junction_level(7));
}

#[test]
fn full_adder_every_input_from_fresh_world() {
    for bits in 0..8u32 {
        let (a, b, c) = (bits & 1 == 1, bits & 2 == 2, bits & 4 == 4);
        let mut world = World::new_full_adder();
        world.set_junction(0, a);
        world.set_junction(1, b);
        world.set_junction(2, c);
        world.step_to_settled();
        let ones = [a, b, c].iter().filter(|x| **x).count();
        assert_eq!(world.junction_level(16), a ^ b ^ c);
        assert_eq!(world.junction_level(17), ones >= 2);
    }
}

#[test]
fn gates_read_the_state_before_the_gate_phase() {
    let gates = vec![
        Gate::new(vec![0], 1, GateBehavior::Not),
        Gate::new(vec![1, 2], 3, GateBehavior::And),
    ];
    let mut world = World::new(vec![], gates).ok().unwrap();
    world.set_junction(2, true);
    world.step();
    world.step();
    assert!(world.junction_level(1));
    assert!(!world.junction_level(3));
    assert!(!world.is_settled());
    world.step();
    assert!(world.junction_level(3));
    assert!(world.is_settled());
}
