use logic_sim::{Circuit, Level, World, WorldCreationErr};

#[test]
pub fn test_fan_in() {
    let world_or_err = World::new(
        Circuit::wires_from_tuples(vec![(0, 2, 1), (1, 2, 1)]),
        vec![],
    );

    if let Err(WorldCreationErr::FanIn) = world_or_err {
        // Good
    } else {
        panic!("World creation should have thrown a FanIn error");
    }
}

#[test]
pub fn test_half_adder() {
    let mut world = World::new_half_adder();
    world.step_to_settled();

    let assert_outputs = |world: &World, msb: Level, lsb: Level| {
        assert_eq!(world.junction_level(3), msb);
        assert_eq!(world.junction_level(7), lsb);
    };

    assert_outputs(&world, false, false);

    // Junctions 0 and 8 are the input bits

    world.set_junction(0, true);
    world.step_to_settled();
    assert_outputs(&world, false, true);

    world.set_junction(8, true);
    world.step_to_settled();
    assert_outputs(&world, true, false);

    world.set_junction(0, false);
    world.step_to_settled();
    assert_outputs(&world, false, true);
}

#[test]
pub fn test_full_adder() {
    let mut world = World::new_full_adder();
    world.step_to_settled();

    let assert_outputs = |world: &mut World, a: Level, b: Level, c: Level, carry: Level, sum: Level| {
        world.set_junction(0, a);
        world.set_junction(1, b);
        world.set_junction(2, c);

        world.step_to_settled();

        assert_eq!(world.junction_level(17), carry);
        assert_eq!(world.junction_level(16), sum);
    };

    // Truth table for a full adder
    assert_outputs(&mut world, false, false, false, false, false);
    assert_outputs(&mut world, false, false, true, false, true);
    assert_outputs(&mut world, false, true, true, true, false);
    assert_outputs(&mut world, false, true, false, false, true);

    assert_outputs(&mut world, true, true, false, true, false);
    assert_outputs(&mut world, true, true, true, true, true);
    assert_outputs(&mut world, true, false, true, true, false);
    assert_outputs(&mut world, true, false, false, false, true);
}

#[test]
pub fn test_ripple_adder() {
    // Two full adders, the second moved up by 18 junctions, with the carry
    // of the first wired to the carry input of the second.
    let low = Circuit::new_full_adder();
    let high = Circuit::new_full_adder().offset_junctions(18);
    let mut wires = low.wires;
    wires.extend(high.wires);
    wires.extend(Circuit::wires_from_tuples(vec![(17, 20, 1)]));
    let mut gates = low.gates;
    gates.extend(high.gates);
    let mut world = match World::new(wires, gates) {
        Ok(world) => world,
        Err(_) => panic!("ripple adder should be a valid circuit"),
    };
    world.step_to_settled();

    for a in 0..4u32 {
        for b in 0..4u32 {
            world.set_junction(0, a & 1 == 1);
            world.set_junction(1, b & 1 == 1);
            world.set_junction(2, false);
            world.set_junction(18, a & 2 == 2);
            world.set_junction(19, b & 2 == 2);
            world.step_to_settled();

            let total = a + b;
            assert_eq!(world.junction_level(16), total & 1 == 1);
            assert_eq!(world.junction_level(34), total & 2 == 2);
            assert_eq!(world.junction_level(35), total & 4 == 4);
        }
    }
}
