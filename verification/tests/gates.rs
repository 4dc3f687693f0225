use logic::{Config, Pin, State};

/// Drives the network until change detection reports a fixed point,
/// leaving the settled snapshot in `state2`.
fn settle(config: &Config, state1: &mut State, state2: &mut State) {
    while config.step_check_changes(state1, state2) {
        config.step(state2, state1);
    }
}

/// Constant pins read their polarity straight from the reserved slot.
#[test]
fn constant_pins() {
    let mut config = Config::new();
    let t = config.true_pin();
    let f = config.false_pin();
    let state = config.empty_state();
    assert!(state.read(t));
    assert!(!state.read(f));
    assert!(!state.read(t.negate()));
    assert_eq!(config.gate_count(), 0);
}

/// A driven input takes the driven value after one step, for both values.
#[test]
fn dummy_input_values() {
    let mut config = Config::new();
    let a = config.dummy_gate();
    let mut state1 = config.empty_state();
    let mut state2 = config.empty_state();

    config.set_dummy_value(a, true);
    config.step(&state1, &mut state2);
    assert!(state2.read(a));

    config.set_dummy_value(a, false);
    config.step(&state2, &mut state1);
    assert!(!state1.read(a));
}

fn one_step_pair(config: &mut Config, a: Pin, b: Pin, av: bool, bv: bool) -> State {
    let mut state1 = config.empty_state();
    let mut state2 = config.empty_state();
    config.set_dummy_value(a, av);
    config.set_dummy_value(b, bv);
    // one step to latch the inputs, one step through the logic layer
    config.step(&state1, &mut state2);
    config.step(&state2, &mut state1);
    state1
}

/// AND: for every input pair, one step after the inputs are latched the
/// output equals their conjunction; NAND is its inversion.
#[test]
fn and_gate_truth_table() {
    let mut config = Config::new();
    let a = config.dummy_gate();
    let b = config.dummy_gate();
    let and = config.and(a, b);
    let nand = and.negate();
    for &(av, bv) in &[(false, false), (false, true), (true, false), (true, true)] {
        let state = one_step_pair(&mut config, a, b, av, bv);
        assert_eq!(state.read(and.pin()), av && bv);
        assert_eq!(state.read(nand.pin()), !(av && bv));
    }
}

/// OR: for every input pair, one step after the inputs are latched the
/// output equals their disjunction; NOR is its inversion.
#[test]
fn or_gate_truth_table() {
    let mut config = Config::new();
    let a = config.dummy_gate();
    let b = config.dummy_gate();
    let or = config.or(a, b);
    let nor = config.nor(a, b);
    for &(av, bv) in &[(false, false), (false, true), (true, false), (true, true)] {
        let state = one_step_pair(&mut config, a, b, av, bv);
        assert_eq!(state.read(or), av || bv);
        assert_eq!(state.read(nor), !(av || bv));
    }
}

/// XOR and XNOR: after the network settles, the outputs match the
/// inequality (and equality) of the inputs.
#[test]
fn xor_gate_truth_table() {
    let mut config = Config::new();
    let a = config.dummy_gate();
    let b = config.dummy_gate();
    let xor = config.xor(a, b);
    let xnor = config.xnor(a, b);
    let mut state1 = config.empty_state();
    let mut state2 = config.empty_state();
    for &(av, bv) in &[(false, false), (false, true), (true, false), (true, true)] {
        config.set_dummy_value(a, av);
        config.set_dummy_value(b, bv);
        settle(&config, &mut state1, &mut state2);
        assert_eq!(state2.read(xor.pin()), av != bv);
        assert_eq!(state2.read(xnor.pin()), av == bv);
    }
}

/// Once change detection reports no change, further stepping keeps
/// reporting no change for the same fixed inputs.
#[test]
fn settling_is_idempotent() {
    let mut config = Config::new();
    let a = config.dummy_gate();
    let b = config.dummy_gate();
    let xor = config.xor(a, b);
    let mut state1 = config.empty_state();
    let mut state2 = config.empty_state();
    config.set_dummy_value(a, true);
    config.set_dummy_value(b, false);
    settle(&config, &mut state1, &mut state2);
    for _ in 0..8 {
        config.step(&state2, &mut state1);
        assert!(!config.step_check_changes(&state1, &mut state2));
        assert!(state2.read(xor.pin()));
    }
}

/// Retargeting an AND construct moves its inputs, not its output slot.
#[test]
fn and_gate_retarget() {
    let mut config = Config::new();
    let a = config.dummy_gate();
    let b = config.dummy_gate();
    let and = config.and(a, b);
    let pin_before = and.pin();

    let state = one_step_pair(&mut config, a, b, true, true);
    assert!(state.read(and.pin()));

    let c = config.dummy_gate();
    let d = config.dummy_gate();
    config.modify_and_pins(and, c, d);
    assert_eq!(and.pin(), pin_before);

    for &(cv, dv) in &[(false, false), (false, true), (true, false), (true, true)] {
        let state = one_step_pair(&mut config, c, d, cv, dv);
        assert_eq!(state.read(and.pin()), cv && dv);
    }
}

/// Retargeting an XOR construct rewires both of its input sub-gates
/// while its output pin index stays put.
#[test]
fn xor_gate_retarget() {
    let mut config = Config::new();
    let a = config.dummy_gate();
    let b = config.dummy_gate();
    let xor = config.xor(a, b);
    let pin_before = xor.pin();

    let c = config.dummy_gate();
    let d = config.dummy_gate();
    config.modify_xor_pins(xor, c, d);
    assert_eq!(xor.pin(), pin_before);

    let mut state1 = config.empty_state();
    let mut state2 = config.empty_state();
    for &(cv, dv) in &[(false, false), (false, true), (true, false), (true, true)] {
        config.set_dummy_value(c, cv);
        config.set_dummy_value(d, dv);
        settle(&config, &mut state1, &mut state2);
        assert_eq!(state2.read(xor.pin()), cv != dv);
    }
}

/// A gate wired back to itself oscillates with the unit-delay semantics:
/// its read value alternates on every step and never settles.
#[test]
fn feedback_oscillates() {
    let mut config = Config::new();
    let clock = config.dummy_gate();
    config.modify_or_pins(clock, clock.negate(), clock.negate());

    let mut state1 = config.empty_state();
    let mut state2 = config.empty_state();
    let mut values = Vec::new();
    for _ in 0..3 {
        config.step(&state1, &mut state2);
        values.push(state2.read(clock));
        config.step(&state2, &mut state1);
        values.push(state1.read(clock));
    }
    assert_eq!(values[0], values[2]);
    assert_eq!(values[2], values[4]);
    assert_eq!(values[1], values[3]);
    assert_ne!(values[0], values[1]);
}

/// The diagnostic accessors expose the stored gate list: a driven input
/// is one gate wired to two copies of the constant slot.
#[test]
fn gate_list_access() {
    let mut config = Config::new();
    let a = config.dummy_gate();
    assert_eq!(config.gate_count(), 1);
    config.set_dummy_value(a, true);
    let g = config.gate_at(0);
    assert_eq!(g.in1, 0);
    assert_eq!(g.in2, 0);
    assert!(g.neg1);
    assert!(g.neg2);
    assert_eq!(a.config_index(), 0);
}
