use logic::adder::{FullAdder, HalfAdder};
use logic::{Config, Pin};

fn half_adder_add(
    config: &mut Config,
    a: Pin,
    b: Pin,
    ha: &HalfAdder,
    av: bool,
    bv: bool,
) -> u32 {
    let mut state1 = config.empty_state();
    let mut state2 = config.empty_state();

    config.set_dummy_value(a, av);
    config.set_dummy_value(b, bv);

    config.step(&state1, &mut state2);
    config.step(&state2, &mut state1);
    config.step(&state1, &mut state2);
    config.step(&state2, &mut state1);
    config.step(&state1, &mut state2);

    let mut res = 0;
    if state2.read(ha.low()) {
        res += 1;
    }
    if state2.read(ha.high()) {
        res += 2;
    }
    res
}

#[test]
fn half_adder() {
    let mut config = Config::new();

    let a = config.dummy_gate();
    let b = config.dummy_gate();
    let half_adder = HalfAdder::create(&mut config, a, b);

    assert_eq!(half_adder_add(&mut config, a, b, &half_adder, false, false), 0);
    assert_eq!(half_adder_add(&mut config, a, b, &half_adder, false, true), 1);
    assert_eq!(half_adder_add(&mut config, a, b, &half_adder, true, false), 1);
    assert_eq!(half_adder_add(&mut config, a, b, &half_adder, true, true), 2);
}

fn full_adder_add(
    config: &mut Config,
    a: Pin,
    b: Pin,
    c: Pin,
    fa: &FullAdder,
    av: bool,
    bv: bool,
    cv: bool,
) -> u32 {
    let mut state1 = config.empty_state();
    let mut state2 = config.empty_state();

    config.set_dummy_value(a, av);
    config.set_dummy_value(b, bv);
    config.set_dummy_value(c, cv);

    config.step(&state1, &mut state2);
    config.step(&state2, &mut state1);
    config.step(&state1, &mut state2);
    config.step(&state2, &mut state1);
    config.step(&state1, &mut state2);

    let mut res = 0;
    if state2.read(fa.sum()) {
        res += 1;
    }
    if state2.read(fa.carry()) {
        res += 2;
    }
    res
}

#[test]
fn full_adder() {
    let mut config = Config::new();

    let a = config.dummy_gate();
    let b = config.dummy_gate();
    let c = config.dummy_gate();
    let full_adder = FullAdder::create(&mut config, a, b, c);

    assert_eq!(full_adder_add(&mut config, a, b, c, &full_adder, false, false, false), 0);
    assert_eq!(full_adder_add(&mut config, a, b, c, &full_adder, false, false, true), 1);
    assert_eq!(full_adder_add(&mut config, a, b, c, &full_adder, false, true, false), 1);
    assert_eq!(full_adder_add(&mut config, a, b, c, &full_adder, true, false, false), 1);
    assert_eq!(full_adder_add(&mut config, a, b, c, &full_adder, false, true, true), 2);
    assert_eq!(full_adder_add(&mut config, a, b, c, &full_adder, true, false, true), 2);
    assert_eq!(full_adder_add(&mut config, a, b, c, &full_adder, true, true, false), 2);
    assert_eq!(full_adder_add(&mut config, a, b, c, &full_adder, true, true, true), 3);
}

/// Retargeting a half adder to a fresh pair of inputs keeps its output
/// pins and reproduces the truth table for the new inputs.
#[test]
fn half_adder_retarget() {
    let mut config = Config::new();

    let a = config.dummy_gate();
    let b = config.dummy_gate();
    let half_adder = HalfAdder::create(&mut config, a, b);
    let low_before = half_adder.low();
    let high_before = half_adder.high();

    assert_eq!(half_adder_add(&mut config, a, b, &half_adder, true, true), 2);

    let c = config.dummy_gate();
    let d = config.dummy_gate();
    half_adder.modify_pins(&mut config, c, d);

    assert_eq!(half_adder.low(), low_before);
    assert_eq!(half_adder.high(), high_before);

    assert_eq!(half_adder_add(&mut config, c, d, &half_adder, false, false), 0);
    assert_eq!(half_adder_add(&mut config, c, d, &half_adder, false, true), 1);
    assert_eq!(half_adder_add(&mut config, c, d, &half_adder, true, false), 1);
    assert_eq!(half_adder_add(&mut config, c, d, &half_adder, true, true), 2);
}

/// Retargeting a full adder rewires all eight cases without moving its
/// carry and sum pins.
#[test]
fn full_adder_retarget() {
    let mut config = Config::new();

    let a = config.dummy_gate();
    let b = config.dummy_gate();
    let c = config.dummy_gate();
    let full_adder = FullAdder::create(&mut config, a, b, c);
    let carry_before = full_adder.carry();
    let sum_before = full_adder.sum();

    assert_eq!(full_adder_add(&mut config, a, b, c, &full_adder, true, true, true), 3);

    let x = config.dummy_gate();
    let y = config.dummy_gate();
    let z = config.dummy_gate();
    full_adder.modify_pins(&mut config, x, y, z);

    assert_eq!(full_adder.carry(), carry_before);
    assert_eq!(full_adder.sum(), sum_before);

    assert_eq!(full_adder_add(&mut config, x, y, z, &full_adder, false, false, false), 0);
    assert_eq!(full_adder_add(&mut config, x, y, z, &full_adder, true, false, true), 2);
    assert_eq!(full_adder_add(&mut config, x, y, z, &full_adder, true, true, true), 3);
}
