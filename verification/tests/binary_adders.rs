use logic::binary::{BinaryAdder, BinaryPin};
use logic::Config;
use rand::Rng;

#[test]
fn binary_adder_small() {
    let mut config = Config::new();
    let bin1 = BinaryPin::create_dummy_and_wrap(2, &mut config);
    let bin2 = BinaryPin::create_dummy_and_wrap(3, &mut config);
    let binadd = BinaryAdder::create(&mut config, &bin1, &bin2);
    assert_eq!(binadd.pins().size(), 4);

    let mut state1 = config.empty_state();
    let mut state2 = config.empty_state();

    let mut rng = rand::thread_rng();

    for _ in 0..512 {
        let r1: u8 = rng.gen();
        let r2: u8 = rng.gen();
        let r1: u8 = r1 & 3;
        let r2: u8 = r2 & 7;
        println!("testing {} + {}", r1, r2);
        bin1.dummy_set_le(&mut config, r1 as u64);
        bin2.dummy_set_le(&mut config, r2 as u64);
        while config.step_check_changes(&state1, &mut state2) {
            config.step(&state2, &mut state1);
        }
        let gate = binadd.pins().read_u32_le(&state2);
        if gate != r1 as u32 + r2 as u32 {
            panic!(
                "addition failed:\n      {:04b}\n    + {:04b}\nreal: {:04b}\ngate: {:04b}",
                r1,
                r2,
                r1 as u32 + r2 as u32,
                gate
            );
        }
    }
}

#[test]
fn binary_adder() {
    let mut config = Config::new();
    let bin1 = BinaryPin::create_dummy_and_wrap(16, &mut config);
    let bin2 = BinaryPin::create_dummy_and_wrap(31, &mut config);
    let binadd = BinaryAdder::create(&mut config, &bin1, &bin2);
    assert_eq!(binadd.pins().size(), 32);

    let mut state1 = config.empty_state();
    let mut state2 = config.empty_state();

    let mut rng = rand::thread_rng();

    for _ in 0..512 {
        let r1: u16 = rng.gen();
        let r2: u32 = rng.gen();
        let r2: u32 = r2 & 0x7fffffff;
        println!("testing {} + {}", r1, r2);
        bin1.dummy_set_le(&mut config, r1 as u64);
        bin2.dummy_set_le(&mut config, r2 as u64);
        while config.step_check_changes(&state1, &mut state2) {
            config.step(&state2, &mut state1);
        }
        let gate = binadd.pins().read_u32_le(&state2);
        if gate != r1 as u32 + r2 {
            panic!(
                "addition failed:\n      {:032b}\n    + {:032b}\nreal: {:032b}\ngate: {:032b}",
                r1,
                r2,
                r1 as u32 + r2,
                gate
            );
        }
    }
}

fn settled_sum_u64(
    config: &mut Config,
    bin1: &BinaryPin,
    bin2: &BinaryPin,
    binadd: &BinaryAdder,
    x: u64,
    y: u64,
) -> u64 {
    let mut state1 = config.empty_state();
    let mut state2 = config.empty_state();
    bin1.dummy_set_le(config, x);
    bin2.dummy_set_le(config, y);
    while config.step_check_changes(&state1, &mut state2) {
        config.step(&state2, &mut state1);
    }
    binadd.pins().read_u64_le(&state2)
}

/// Boundary cases of the round trip: zeros, the spec's width-2 plus
/// width-3 example, and both operands at their width's maximum.
#[test]
fn binary_adder_boundaries() {
    let mut config = Config::new();
    let bin1 = BinaryPin::create_dummy_and_wrap(2, &mut config);
    let bin2 = BinaryPin::create_dummy_and_wrap(3, &mut config);
    let binadd = BinaryAdder::create(&mut config, &bin1, &bin2);
    assert_eq!(binadd.pins().size(), 4);

    assert_eq!(settled_sum_u64(&mut config, &bin1, &bin2, &binadd, 0, 0), 0);
    assert_eq!(settled_sum_u64(&mut config, &bin1, &bin2, &binadd, 0, 7), 7);
    assert_eq!(settled_sum_u64(&mut config, &bin1, &bin2, &binadd, 3, 0), 3);
    assert_eq!(settled_sum_u64(&mut config, &bin1, &bin2, &binadd, 3, 7), 10);
    assert_eq!(settled_sum_u64(&mut config, &bin1, &bin2, &binadd, 2, 5), 7);
}

/// Equal-width operands still get the extra carry-out bit.
#[test]
fn binary_adder_equal_widths() {
    let mut config = Config::new();
    let bin1 = BinaryPin::create_dummy_and_wrap(4, &mut config);
    let bin2 = BinaryPin::create_dummy_and_wrap(4, &mut config);
    let binadd = BinaryAdder::create(&mut config, &bin1, &bin2);
    assert_eq!(binadd.pins().size(), 5);

    assert_eq!(settled_sum_u64(&mut config, &bin1, &bin2, &binadd, 15, 15), 30);
    assert_eq!(settled_sum_u64(&mut config, &bin1, &bin2, &binadd, 9, 6), 15);
    assert_eq!(settled_sum_u64(&mut config, &bin1, &bin2, &binadd, 8, 8), 16);
}

/// One-bit operands: the smallest non-degenerate adder is a single half
/// adder with its carry bit.
#[test]
fn binary_adder_single_bits() {
    let mut config = Config::new();
    let bin1 = BinaryPin::create_dummy_and_wrap(1, &mut config);
    let bin2 = BinaryPin::create_dummy_and_wrap(1, &mut config);
    let binadd = BinaryAdder::create(&mut config, &bin1, &bin2);
    assert_eq!(binadd.pins().size(), 2);

    assert_eq!(settled_sum_u64(&mut config, &bin1, &bin2, &binadd, 0, 0), 0);
    assert_eq!(settled_sum_u64(&mut config, &bin1, &bin2, &binadd, 1, 0), 1);
    assert_eq!(settled_sum_u64(&mut config, &bin1, &bin2, &binadd, 0, 1), 1);
    assert_eq!(settled_sum_u64(&mut config, &bin1, &bin2, &binadd, 1, 1), 2);
}

/// A zero-width operand makes the adder the identity: the output bus is
/// pin for pin the other operand and no gate is created.
#[test]
fn zero_width_operand_identity() {
    let mut config = Config::new();
    let bin1 = BinaryPin::create_dummy_and_wrap(0, &mut config);
    let bin2 = BinaryPin::create_dummy_and_wrap(3, &mut config);
    let gates_before = config.gate_count();

    let binadd = BinaryAdder::create(&mut config, &bin1, &bin2);
    assert_eq!(config.gate_count(), gates_before);
    assert_eq!(binadd.pins().size(), 3);
    assert_eq!(binadd.pins().pins, bin2.pins);

    let other = BinaryAdder::create(&mut config, &bin2, &bin1);
    assert_eq!(config.gate_count(), gates_before);
    assert_eq!(other.pins().pins, bin2.pins);
}

/// Driving a bus and reading it back through every width returns the
/// written value, little-endian.
#[test]
fn bus_write_read_round_trip() {
    let mut config = Config::new();
    let bus = BinaryPin::create_dummy_and_wrap(6, &mut config);
    let mut state1 = config.empty_state();
    let mut state2 = config.empty_state();

    for &v in &[0u64, 1, 0b101100, 63, 42] {
        bus.dummy_set_le(&mut config, v);
        while config.step_check_changes(&state1, &mut state2) {
            config.step(&state2, &mut state1);
        }
        assert_eq!(bus.read_u8_le(&state2) as u64, v);
        assert_eq!(bus.read_u16_le(&state2) as u64, v);
        assert_eq!(bus.read_u32_le(&state2) as u64, v);
        assert_eq!(bus.read_u64_le(&state2), v);
    }
}

/// A narrow read of a wide bus keeps only the low bits.
#[test]
fn bus_narrow_read() {
    let mut config = Config::new();
    let bus = BinaryPin::create_dummy_and_wrap(12, &mut config);
    let mut state1 = config.empty_state();
    let mut state2 = config.empty_state();

    bus.dummy_set_le(&mut config, 0b1010_0000_1101);
    while config.step_check_changes(&state1, &mut state2) {
        config.step(&state2, &mut state1);
    }
    assert_eq!(bus.read_u8_le(&state2), 0b0000_1101);
    assert_eq!(bus.read_u16_le(&state2), 0b1010_0000_1101);
    assert_eq!(bus.read_u64_le(&state2), 0b1010_0000_1101);
}

/// Writes above a bus's width are dropped: only the low bits land.
#[test]
fn bus_write_truncates() {
    let mut config = Config::new();
    let bus = BinaryPin::create_dummy_and_wrap(3, &mut config);
    let mut state1 = config.empty_state();
    let mut state2 = config.empty_state();

    bus.dummy_set_le(&mut config, 0b11_0101);
    while config.step_check_changes(&state1, &mut state2) {
        config.step(&state2, &mut state1);
    }
    assert_eq!(bus.read_u8_le(&state2), 0b101);
}

/// Rewriting a bus overwrites stale high bits from an earlier write.
#[test]
fn bus_rewrite_clears_stale_bits() {
    let mut config = Config::new();
    let bus = BinaryPin::create_dummy_and_wrap(4, &mut config);
    let mut state1 = config.empty_state();
    let mut state2 = config.empty_state();

    bus.dummy_set_le(&mut config, 0b1111);
    while config.step_check_changes(&state1, &mut state2) {
        config.step(&state2, &mut state1);
    }
    assert_eq!(bus.read_u8_le(&state2), 0b1111);

    bus.dummy_set_le(&mut config, 0b0001);
    while config.step_check_changes(&state1, &mut state2) {
        config.step(&state2, &mut state1);
    }
    assert_eq!(bus.read_u8_le(&state2), 0b0001);
}

/// Negating a bus flips every pin's polarity in place, so a settled read
/// returns the bitwise complement within the bus's width.
#[test]
fn bus_negate_reads_complement() {
    let mut config = Config::new();
    let mut bus = BinaryPin::create_dummy_and_wrap(4, &mut config);
    let mut state1 = config.empty_state();
    let mut state2 = config.empty_state();

    bus.dummy_set_le(&mut config, 0b0110);
    while config.step_check_changes(&state1, &mut state2) {
        config.step(&state2, &mut state1);
    }
    assert_eq!(bus.read_u8_le(&state2), 0b0110);
    bus.negate();
    assert_eq!(bus.read_u8_le(&state2), 0b1001);
    assert_eq!(bus.size(), 4);
}
