//! Arithmetic blocks composed from the derived gate library: a half adder
//! (carry = AND, sum from an AND/OR composition equivalent to XOR) and a
//! single-pass combinational full adder (carry as a majority of products,
//! sum as an odd-parity sum of products).

use vstd::prelude::*;

use crate::gate::{lemma_and_after_step, lemma_and_settled, lemma_or_after_step, lemma_or_settled, AndGate};
use crate::{
    cfg_extends, dummy_wired, gate_fire, gate_of, iter_step, lemma_dummy_after_step,
    lemma_iter_wf, settled, step_seq, Config, Gate, Pin,
};

verus! {

/// A half adder: `high` (carry) is AND(a, b); `low` (sum) is
/// AND(NAND(a, b), OR(a, b)), which equals XOR(a, b).
pub struct HalfAdder {
    or: Pin,
    low: Pin,
    high: AndGate,
}

impl HalfAdder {
    /// The sum output pin.
    pub closed spec fn spec_low(self) -> Pin {
        self.low
    }

    /// The carry output pin.
    pub closed spec fn spec_high(self) -> Pin {
        self.high.spec_pin()
    }

    /// The internal OR pin.
    pub closed spec fn spec_or(self) -> Pin {
        self.or
    }

    /// The block's internal layout: the carry AND slot, the OR slot right
    /// after it, then the sum slot combining the two. Retargeting relies
    /// on the sum slot being distinct from the two input slots.
    pub closed spec fn shape(self, cfg: Seq<Gate>) -> bool {
        &&& 1 <= self.high.spec_pin().index
        &&& self.high.spec_pin().index + 2 <= cfg.len()
        &&& self.high.spec_pin().negated == false
        &&& self.or.index == self.high.spec_pin().index + 1
        &&& self.or.negated == true
        &&& self.low.index == self.high.spec_pin().index + 2
        &&& self.low.negated == false
        &&& cfg[self.low.index - 1] == gate_of(self.high.spec_pin(), self.or.spec_flip())
    }

    /// The half adder over `p1` and `p2` is realized in `cfg`.
    pub closed spec fn wired(self, cfg: Seq<Gate>, p1: Pin, p2: Pin) -> bool {
        &&& self.shape(cfg)
        &&& self.high.wired(cfg, p1, p2)
        &&& cfg[self.or.index - 1] == gate_of(p1, p2)
    }

    /// Builds the half adder over `p1` and `p2`: three appended gates.
    pub fn create(config: &mut Config, p1: Pin, p2: Pin) -> (r: HalfAdder)
        requires
            old(config).wf(),
            p1.valid(old(config)@.len()),
            p2.valid(old(config)@.len()),
        ensures
            final(config).wf(),
            cfg_extends(final(config)@, old(config)@),
            final(config)@.len() == old(config)@.len() + 3,
            r.wired(final(config)@, p1, p2),
            r.spec_high().index == old(config)@.len() + 1,
            r.spec_high().negated == false,
            r.spec_low().index == old(config)@.len() + 3,
            r.spec_low().negated == false,
    {
        let high = config.and(p1, p2);
        let hp = high.pin();
        let nand = hp.negate();
        let or = config.or(p1, p2);
        let lowg = config.and(nand, or);
        let low = lowg.pin();
        HalfAdder { high, or, low }
    }

    /// Retargets the block to new inputs by rewiring its carry AND and its
    /// OR; the sum slot, and all three output indices, stay put.
    pub fn modify_pins(&self, config: &mut Config, p1: Pin, p2: Pin)
        requires
            old(config).wf(),
            self.shape(old(config)@),
            p1.valid(old(config)@.len()),
            p2.valid(old(config)@.len()),
        ensures
            final(config).wf(),
            final(config)@.len() == old(config)@.len(),
            self.wired(final(config)@, p1, p2),
            forall|i: int|
                0 <= i < old(config)@.len() && i != self.spec_or().index - 1 && i
                    != self.spec_high().index - 1 ==> final(config)@[i] == old(config)@[i],
    {
        config.modify_or_pins(self.or, p1, p2);
        config.modify_and_pins(self.high, p1, p2);
    }

    /// The sum output pin.
    pub fn low(&self) -> (r: Pin)
        ensures
            r == self.spec_low(),
    {
        self.low
    }

    /// The carry output pin.
    pub fn high(&self) -> (r: Pin)
        ensures
            r == self.spec_high(),
    {
        self.high.pin()
    }
}

/// At any settled snapshot a half adder's outputs follow the canonical
/// truth table: sum is the exclusive or of the inputs, carry their
/// conjunction.
pub proof fn lemma_half_adder_settled(
    ha: HalfAdder,
    cfg: Seq<Gate>,
    p1: Pin,
    p2: Pin,
    s: Seq<bool>,
)
    requires
        ha.wired(cfg, p1, p2),
        settled(cfg, s),
    ensures
        ha.spec_low().value(s) == (p1.value(s) != p2.value(s)),
        ha.spec_high().value(s) == (p1.value(s) && p2.value(s)),
{
    lemma_and_settled(ha.high, cfg, p1, p2, s);
    lemma_or_settled(ha.or, cfg, p1, p2, s);
    assert(s[ha.low.index - 1 + 1] == gate_fire(cfg[ha.low.index - 1], s));
}

/// After any number `k >= 1` of steps, a driven input still reads its
/// driven value (internal step of the settling-bound proof).
proof fn lemma_dummy_after_iter(cfg: Seq<Gate>, p: Pin, v: bool, s0: Seq<bool>, k: nat)
    requires
        dummy_wired(cfg, p, v),
        s0.len() == cfg.len() + 1,
        s0[0] == false,
        k >= 1,
    ensures
        p.value(iter_step(cfg, s0, k)) == v,
{
    lemma_iter_wf(cfg, s0, (k - 1) as nat);
    lemma_dummy_after_step(cfg, p, v, iter_step(cfg, s0, (k - 1) as nat));
    assert(iter_step(cfg, s0, k) == step_seq(cfg, iter_step(cfg, s0, (k - 1) as nat)));
}

/// After any number `k >= 2` of steps, the half adder's carry and OR
/// slots hold the values of the driven inputs (internal step of the
/// settling-bound proof).
proof fn lemma_ha_inner_after_iter(
    ha: HalfAdder,
    cfg: Seq<Gate>,
    a: Pin,
    b: Pin,
    av: bool,
    bv: bool,
    s0: Seq<bool>,
    k: nat,
)
    requires
        ha.wired(cfg, a, b),
        dummy_wired(cfg, a, av),
        dummy_wired(cfg, b, bv),
        s0.len() == cfg.len() + 1,
        s0[0] == false,
        k >= 2,
    ensures
        iter_step(cfg, s0, k)[ha.spec_high().index as int] == (av && bv),
        iter_step(cfg, s0, k)[ha.spec_or().index as int] == !(av || bv),
{
    let s_prev = iter_step(cfg, s0, (k - 1) as nat);
    lemma_dummy_after_iter(cfg, a, av, s0, (k - 1) as nat);
    lemma_dummy_after_iter(cfg, b, bv, s0, (k - 1) as nat);
    lemma_and_after_step(ha.high, cfg, a, b, s_prev);
    lemma_or_after_step(ha.or, cfg, a, b, s_prev);
    assert(iter_step(cfg, s0, k) == step_seq(cfg, s_prev));
}

/// Half-adder settling bound: with both inputs driven, every run reaches
/// the canonical truth table after at most three synchronous steps, from
/// any starting snapshot whose constant slot is reset — so any fixed
/// step budget of at least three (such as the five covering the logic
/// depths used here) suffices, deterministically.
pub proof fn lemma_half_adder_truth_after_steps(
    ha: HalfAdder,
    cfg: Seq<Gate>,
    a: Pin,
    b: Pin,
    av: bool,
    bv: bool,
    s0: Seq<bool>,
    k: nat,
)
    requires
        ha.wired(cfg, a, b),
        dummy_wired(cfg, a, av),
        dummy_wired(cfg, b, bv),
        s0.len() == cfg.len() + 1,
        s0[0] == false,
        k >= 3,
    ensures
        ha.spec_low().value(iter_step(cfg, s0, k)) == (av != bv),
        ha.spec_high().value(iter_step(cfg, s0, k)) == (av && bv),
{
    let s_prev = iter_step(cfg, s0, (k - 1) as nat);
    lemma_ha_inner_after_iter(ha, cfg, a, b, av, bv, s0, (k - 1) as nat);
    lemma_ha_inner_after_iter(ha, cfg, a, b, av, bv, s0, k);
    lemma_step_low(ha, cfg, a, b, av, bv, s_prev);
    assert(iter_step(cfg, s0, k) == step_seq(cfg, s_prev));
}

/// One step computes the half adder's sum slot from already-correct carry
/// and OR slots (internal step of the settling-bound proof).
proof fn lemma_step_low(
    ha: HalfAdder,
    cfg: Seq<Gate>,
    a: Pin,
    b: Pin,
    av: bool,
    bv: bool,
    s: Seq<bool>,
)
    requires
        ha.wired(cfg, a, b),
        s[ha.spec_high().index as int] == (av && bv),
        s[ha.spec_or().index as int] == !(av || bv),
    ensures
        step_seq(cfg, s)[ha.spec_low().index as int] == (av != bv),
        ha.spec_low().value(step_seq(cfg, s)) == (av != bv),
{
    assert(step_seq(cfg, s)[ha.low.index as int] == gate_fire(cfg[ha.low.index - 1], s));
}

/// A full adder: ten AND-family product gates over `a`, `b`, `c` and
/// their complements, ORed into `carry` (the majority function) and
/// `sum` (the odd-parity function).
pub struct FullAdder {
    a_and_b: AndGate,
    a_and_c: AndGate,
    b_and_c: AndGate,
    a_and_b_and_c: AndGate,
    nota_and_notb: AndGate,
    nota_and_notb_and_c: AndGate,
    nota_and_b: AndGate,
    nota_and_b_and_notc: AndGate,
    a_and_notb: AndGate,
    a_and_notb_and_notc: AndGate,
    carry: Pin,
    sum: Pin,
}

impl FullAdder {
    /// The carry output pin.
    pub closed spec fn spec_carry(self) -> Pin {
        self.carry
    }

    /// The sum output pin.
    pub closed spec fn spec_sum(self) -> Pin {
        self.sum
    }

    /// The slot index of the block's first gate; the other fourteen
    /// follow consecutively.
    pub closed spec fn spec_base(self) -> int {
        self.a_and_b.spec_pin().index as int
    }

    /// The block's internal layout: ten product slots, then the five OR
    /// slots combining them into carry and sum, all consecutive.
    /// Retargeting rewrites only the product slots.
    pub closed spec fn shape(self, cfg: Seq<Gate>) -> bool {
        let b0 = self.spec_base();
        &&& 1 <= b0
        &&& b0 + 14 <= cfg.len()
        &&& self.a_and_b.spec_pin().negated == false
        &&& self.a_and_c.spec_pin().index == b0 + 1
        &&& self.a_and_c.spec_pin().negated == false
        &&& self.b_and_c.spec_pin().index == b0 + 2
        &&& self.b_and_c.spec_pin().negated == false
        &&& self.a_and_b_and_c.spec_pin().index == b0 + 3
        &&& self.a_and_b_and_c.spec_pin().negated == false
        &&& self.nota_and_notb.spec_pin().index == b0 + 4
        &&& self.nota_and_notb.spec_pin().negated == false
        &&& self.nota_and_notb_and_c.spec_pin().index == b0 + 5
        &&& self.nota_and_notb_and_c.spec_pin().negated == false
        &&& self.nota_and_b.spec_pin().index == b0 + 6
        &&& self.nota_and_b.spec_pin().negated == false
        &&& self.nota_and_b_and_notc.spec_pin().index == b0 + 7
        &&& self.nota_and_b_and_notc.spec_pin().negated == false
        &&& self.a_and_notb.spec_pin().index == b0 + 8
        &&& self.a_and_notb.spec_pin().negated == false
        &&& self.a_and_notb_and_notc.spec_pin().index == b0 + 9
        &&& self.a_and_notb_and_notc.spec_pin().negated == false
        &&& self.carry.index == b0 + 11
        &&& self.carry.negated == true
        &&& self.sum.index == b0 + 14
        &&& self.sum.negated == true
        &&& cfg[b0 + 9] == gate_of(self.a_and_b.spec_pin(), self.a_and_c.spec_pin())
        &&& cfg[b0 + 10].in1 == b0 + 10
        &&& cfg[b0 + 10].neg1 == true
        &&& cfg[b0 + 10].in2 == b0 + 2
        &&& cfg[b0 + 10].neg2 == false
        &&& cfg[b0 + 11] == gate_of(
            self.nota_and_notb_and_c.spec_pin(),
            self.nota_and_b_and_notc.spec_pin(),
        )
        &&& cfg[b0 + 12] == gate_of(
            self.a_and_notb_and_notc.spec_pin(),
            self.a_and_b_and_c.spec_pin(),
        )
        &&& cfg[b0 + 13].in1 == b0 + 12
        &&& cfg[b0 + 13].neg1 == true
        &&& cfg[b0 + 13].in2 == b0 + 13
        &&& cfg[b0 + 13].neg2 == true
    }

    /// The full adder over `a`, `b` and carry-in `c` is realized in `cfg`.
    pub closed spec fn wired(self, cfg: Seq<Gate>, a: Pin, b: Pin, c: Pin) -> bool {
        &&& self.shape(cfg)
        &&& self.a_and_b.wired(cfg, a, b)
        &&& self.a_and_c.wired(cfg, a, c)
        &&& self.b_and_c.wired(cfg, b, c)
        &&& self.a_and_b_and_c.wired(cfg, self.a_and_b.spec_pin(), c)
        &&& self.nota_and_notb.wired(cfg, a.spec_flip(), b.spec_flip())
        &&& self.nota_and_notb_and_c.wired(cfg, self.nota_and_notb.spec_pin(), c)
        &&& self.nota_and_b.wired(cfg, a.spec_flip(), b)
        &&& self.nota_and_b_and_notc.wired(cfg, self.nota_and_b.spec_pin(), c.spec_flip())
        &&& self.a_and_notb.wired(cfg, a, b.spec_flip())
        &&& self.a_and_notb_and_notc.wired(cfg, self.a_and_notb.spec_pin(), c.spec_flip())
    }

    /// Builds the full adder over `a`, `b` and carry-in `c`: fifteen
    /// appended gates.
    pub fn create(config: &mut Config, a: Pin, b: Pin, c: Pin) -> (r: FullAdder)
        requires
            old(config).wf(),
            a.valid(old(config)@.len()),
            b.valid(old(config)@.len()),
            c.valid(old(config)@.len()),
        ensures
            final(config).wf(),
            cfg_extends(final(config)@, old(config)@),
            final(config)@.len() == old(config)@.len() + 15,
            r.wired(final(config)@, a, b, c),
            r.spec_carry().index == old(config)@.len() + 12,
            r.spec_sum().index == old(config)@.len() + 15,
    {
        let a_and_b = config.and(a, b);
        let a_and_c = config.and(a, c);
        let b_and_c = config.and(b, c);
        let ab_pin = a_and_b.pin();
        let a_and_b_and_c = config.and(ab_pin, c);
        let na = a.negate();
        let nb = b.negate();
        let nc = c.negate();
        let nota_and_notb = config.and(na, nb);
        let nanb_pin = nota_and_notb.pin();
        let nota_and_notb_and_c = config.and(nanb_pin, c);
        let nota_and_b = config.and(na, b);
        let nab_pin = nota_and_b.pin();
        let nota_and_b_and_notc = config.and(nab_pin, nc);
        let a_and_notb = config.and(a, nb);
        let anb_pin = a_and_notb.pin();
        let a_and_notb_and_notc = config.and(anb_pin, nc);

        let ac_pin = a_and_c.pin();
        let a_and_b_or_a_and_c = config.or(ab_pin, ac_pin);
        let bc_pin = b_and_c.pin();
        let carry = config.or(a_and_b_or_a_and_c, bc_pin);
        let u1_pin = nota_and_notb_and_c.pin();
        let u2_pin = nota_and_b_and_notc.pin();
        let u1_or_u2 = config.or(u1_pin, u2_pin);
        let u3_pin = a_and_notb_and_notc.pin();
        let u4_pin = a_and_b_and_c.pin();
        let u3_or_u4 = config.or(u3_pin, u4_pin);
        let sum = config.or(u1_or_u2, u3_or_u4);

        FullAdder {
            a_and_b,
            a_and_c,
            b_and_c,
            a_and_b_and_c,
            nota_and_notb,
            nota_and_notb_and_c,
            nota_and_b,
            nota_and_b_and_notc,
            a_and_notb,
            a_and_notb_and_notc,
            carry,
            sum,
        }
    }

    /// Retargets the block to new inputs by rewiring its ten product
    /// gates; the OR slots and both output indices stay put.
    pub fn modify_pins(&self, config: &mut Config, a: Pin, b: Pin, c: Pin)
        requires
            old(config).wf(),
            self.shape(old(config)@),
            a.valid(old(config)@.len()),
            b.valid(old(config)@.len()),
            c.valid(old(config)@.len()),
        ensures
            final(config).wf(),
            final(config)@.len() == old(config)@.len(),
            self.wired(final(config)@, a, b, c),
            forall|i: int|
                0 <= i < old(config)@.len() && !(self.spec_base() - 1 <= i < self.spec_base() + 9)
                    ==> final(config)@[i] == old(config)@[i],
    {
        let na = a.negate();
        let nb = b.negate();
        let nc = c.negate();
        config.modify_and_pins(self.a_and_b, a, b);
        config.modify_and_pins(self.a_and_c, a, c);
        config.modify_and_pins(self.b_and_c, b, c);
        let ab_pin = self.a_and_b.pin();
        config.modify_and_pins(self.a_and_b_and_c, ab_pin, c);
        config.modify_and_pins(self.nota_and_notb, na, nb);
        let nanb_pin = self.nota_and_notb.pin();
        config.modify_and_pins(self.nota_and_notb_and_c, nanb_pin, c);
        config.modify_and_pins(self.nota_and_b, na, b);
        let nab_pin = self.nota_and_b.pin();
        config.modify_and_pins(self.nota_and_b_and_notc, nab_pin, nc);
        config.modify_and_pins(self.a_and_notb, a, nb);
        let anb_pin = self.a_and_notb.pin();
        config.modify_and_pins(self.a_and_notb_and_notc, anb_pin, nc);
    }

    /// The carry output pin.
    pub fn carry(&self) -> (r: Pin)
        ensures
            r == self.spec_carry(),
    {
        self.carry
    }

    /// The sum output pin.
    pub fn sum(&self) -> (r: Pin)
        ensures
            r == self.spec_sum(),
    {
        self.sum
    }
}

/// At any settled snapshot a full adder's outputs follow the canonical
/// truth table: carry is the majority of the three inputs, sum their
/// odd parity.
pub proof fn lemma_full_adder_settled(
    fa: FullAdder,
    cfg: Seq<Gate>,
    a: Pin,
    b: Pin,
    c: Pin,
    s: Seq<bool>,
)
    requires
        fa.wired(cfg, a, b, c),
        settled(cfg, s),
    ensures
        fa.spec_carry().value(s) == ((a.value(s) && b.value(s)) || (a.value(s) && c.value(s)) || (
        b.value(s) && c.value(s))),
        fa.spec_sum().value(s) == ((a.value(s) != b.value(s)) != c.value(s)),
{
    let b0 = fa.spec_base();
    lemma_and_settled(fa.a_and_b, cfg, a, b, s);
    lemma_and_settled(fa.a_and_c, cfg, a, c, s);
    lemma_and_settled(fa.b_and_c, cfg, b, c, s);
    lemma_and_settled(fa.a_and_b_and_c, cfg, fa.a_and_b.spec_pin(), c, s);
    lemma_and_settled(fa.nota_and_notb, cfg, a.spec_flip(), b.spec_flip(), s);
    lemma_and_settled(fa.nota_and_notb_and_c, cfg, fa.nota_and_notb.spec_pin(), c, s);
    lemma_and_settled(fa.nota_and_b, cfg, a.spec_flip(), b, s);
    lemma_and_settled(fa.nota_and_b_and_notc, cfg, fa.nota_and_b.spec_pin(), c.spec_flip(), s);
    lemma_and_settled(fa.a_and_notb, cfg, a, b.spec_flip(), s);
    lemma_and_settled(fa.a_and_notb_and_notc, cfg, fa.a_and_notb.spec_pin(), c.spec_flip(), s);
    assert(s[b0 + 9 + 1] == gate_fire(cfg[b0 + 9], s));
    assert(s[b0 + 10 + 1] == gate_fire(cfg[b0 + 10], s));
    assert(s[b0 + 11 + 1] == gate_fire(cfg[b0 + 11], s));
    assert(s[b0 + 12 + 1] == gate_fire(cfg[b0 + 12], s));
    assert(s[b0 + 13 + 1] == gate_fire(cfg[b0 + 13], s));
}

/// Wiring facts name fixed slots, so appending gates preserves them.
pub proof fn lemma_half_adder_wired_extends(
    ha: HalfAdder,
    small: Seq<Gate>,
    big: Seq<Gate>,
    p1: Pin,
    p2: Pin,
)
    requires
        ha.wired(small, p1, p2),
        cfg_extends(big, small),
    ensures
        ha.wired(big, p1, p2),
{
}

/// Wiring facts name fixed slots, so appending gates preserves them.
pub proof fn lemma_full_adder_wired_extends(
    fa: FullAdder,
    small: Seq<Gate>,
    big: Seq<Gate>,
    a: Pin,
    b: Pin,
    c: Pin,
)
    requires
        fa.wired(small, a, b, c),
        cfg_extends(big, small),
    ensures
        fa.wired(big, a, b, c),
{
}

/// Retargeting preserves gate identity for the half-adder composite:
/// overwriting its OR and carry slots with new inputs (what retargeting
/// does) keeps all three output pins, and any settled snapshot of the
/// updated network reads the canonical truth table of the new inputs at
/// the same sum and carry pins.
pub proof fn lemma_retarget_half_adder(
    ha: HalfAdder,
    cfg: Seq<Gate>,
    q1: Pin,
    q2: Pin,
    s: Seq<bool>,
)
    requires
        ha.shape(cfg),
        settled(
            cfg.update(ha.spec_or().index - 1, gate_of(q1, q2)).update(
                ha.spec_high().index - 1,
                gate_of(q1.spec_flip(), q2.spec_flip()),
            ),
            s,
        ),
    ensures
        ha.wired(
            cfg.update(ha.spec_or().index - 1, gate_of(q1, q2)).update(
                ha.spec_high().index - 1,
                gate_of(q1.spec_flip(), q2.spec_flip()),
            ),
            q1,
            q2,
        ),
        ha.spec_low().value(s) == (q1.value(s) != q2.value(s)),
        ha.spec_high().value(s) == (q1.value(s) && q2.value(s)),
{
    let cfg1 = cfg.update(ha.spec_or().index - 1, gate_of(q1, q2)).update(
        ha.spec_high().index - 1,
        gate_of(q1.spec_flip(), q2.spec_flip()),
    );
    lemma_half_adder_settled(ha, cfg1, q1, q2, s);
}

} // verus!
