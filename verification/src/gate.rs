//! Derived gates built by composing NOR gates and negated pins: AND and
//! NAND from a single gate over inverted inputs, XOR and XNOR from three.
//! Each handle keeps the pins of its internal gates so the whole construct
//! can later be retargeted to new inputs without moving its output slot.

use vstd::prelude::*;

use crate::{
    cfg_extends, gate_fire, gate_of, settled, step_seq, Config, Gate, Pin,
};

verus! {

/// A derived AND (read inverted: NAND): one NOR gate over the two
/// inverted inputs.
#[derive(Clone, Copy)]
pub struct AndGate(Pin);

impl AndGate {
    /// The construct's output pin.
    pub closed spec fn spec_pin(self) -> Pin {
        self.0
    }

    /// The AND of `p1` and `p2` is realized: the slot behind this handle
    /// NORs the two inverted inputs.
    pub open spec fn wired(self, cfg: Seq<Gate>, p1: Pin, p2: Pin) -> bool {
        &&& 1 <= self.spec_pin().index <= cfg.len()
        &&& cfg[self.spec_pin().index - 1] == gate_of(p1.spec_flip(), p2.spec_flip())
    }

    /// The same construct read inverted: AND becomes NAND and back.
    pub fn negate(&self) -> (r: AndGate)
        ensures
            r.spec_pin() == self.spec_pin().spec_flip(),
    {
        AndGate(self.0.negate())
    }

    /// The construct's output pin.
    pub fn pin(&self) -> (r: Pin)
        ensures
            r == self.spec_pin(),
    {
        self.0
    }
}

/// A derived XOR (read inverted: XNOR): AND(NAND(a, b), OR(a, b)), three
/// NOR gates in consecutive slots.
#[derive(Clone, Copy)]
pub struct XorGate {
    out: Pin,
    nand: AndGate,
    or: Pin,
}

impl XorGate {
    /// The construct's output pin.
    pub closed spec fn spec_out(self) -> Pin {
        self.out
    }

    /// The internal NAND sub-gate.
    pub closed spec fn spec_nand(self) -> AndGate {
        self.nand
    }

    /// The internal OR pin.
    pub closed spec fn spec_or(self) -> Pin {
        self.or
    }

    /// The construct's internal layout: the NAND slot, the OR slot right
    /// after it, then the combining AND slot reading the two, with the
    /// polarities the constructor produced. Retargeting relies on the
    /// combining slot being distinct from the two input slots.
    pub open spec fn shape(self, cfg: Seq<Gate>) -> bool {
        &&& 1 <= self.spec_nand().spec_pin().index
        &&& self.spec_nand().spec_pin().index + 2 <= cfg.len()
        &&& self.spec_nand().spec_pin().negated == true
        &&& self.spec_or().index == self.spec_nand().spec_pin().index + 1
        &&& self.spec_or().negated == true
        &&& self.spec_out().index == self.spec_nand().spec_pin().index + 2
        &&& cfg[self.spec_out().index - 1] == gate_of(
            self.spec_nand().spec_pin().spec_flip(),
            self.spec_or().spec_flip(),
        )
    }

    /// XOR(p1, p2) is realized: the layout above with both input sub-gates
    /// reading `p1` and `p2`.
    pub open spec fn wired(self, cfg: Seq<Gate>, p1: Pin, p2: Pin) -> bool {
        &&& self.shape(cfg)
        &&& self.spec_nand().wired(cfg, p1, p2)
        &&& cfg[self.spec_or().index - 1] == gate_of(p1, p2)
    }

    /// The same construct read inverted: XOR becomes XNOR and back.
    pub fn negate(&self) -> (r: XorGate)
        ensures
            r.spec_out() == self.spec_out().spec_flip(),
            r.spec_nand() == self.spec_nand(),
            r.spec_or() == self.spec_or(),
    {
        XorGate { out: self.out.negate(), nand: self.nand, or: self.or }
    }

    /// The construct's output pin.
    pub fn pin(&self) -> (r: Pin)
        ensures
            r == self.spec_out(),
    {
        self.out
    }
}

impl Config {
    /// AND(p1, p2) = NOR(NOT p1, NOT p2): appends one gate.
    pub fn and(&mut self, p1: Pin, p2: Pin) -> (g: AndGate)
        requires
            old(self).wf(),
            p1.valid(old(self)@.len()),
            p2.valid(old(self)@.len()),
        ensures
            final(self)@ == old(self)@.push(gate_of(p1.spec_flip(), p2.spec_flip())),
            final(self).wf(),
            g.spec_pin().index == old(self)@.len() + 1,
            g.spec_pin().negated == false,
            g.wired(final(self)@, p1, p2),
    {
        let q1 = p1.negate();
        let q2 = p2.negate();
        AndGate(self.nor(q1, q2))
    }

    /// NAND(p1, p2): the AND construct read inverted.
    pub fn nand(&mut self, p1: Pin, p2: Pin) -> (g: AndGate)
        requires
            old(self).wf(),
            p1.valid(old(self)@.len()),
            p2.valid(old(self)@.len()),
        ensures
            final(self)@ == old(self)@.push(gate_of(p1.spec_flip(), p2.spec_flip())),
            final(self).wf(),
            g.spec_pin().index == old(self)@.len() + 1,
            g.spec_pin().negated == true,
            g.wired(final(self)@, p1, p2),
    {
        let g = self.and(p1, p2);
        g.negate()
    }

    /// Retargets an AND construct to new inputs; its output slot, and so
    /// every pin already pointing at it, keeps its index.
    pub fn modify_and_pins(&mut self, gate: AndGate, p1: Pin, p2: Pin)
        requires
            old(self).wf(),
            1 <= gate.spec_pin().index <= old(self)@.len(),
            p1.valid(old(self)@.len()),
            p2.valid(old(self)@.len()),
        ensures
            final(self)@ == old(self)@.update(
                gate.spec_pin().index - 1,
                gate_of(p1.spec_flip(), p2.spec_flip()),
            ),
            final(self).wf(),
            gate.wired(final(self)@, p1, p2),
    {
        let q1 = p1.negate();
        let q2 = p2.negate();
        let pin = gate.pin();
        self.modify_or_pins(pin, q1, q2);
    }

    /// XOR(p1, p2) = AND(NAND(p1, p2), OR(p1, p2)): appends three gates.
    pub fn xor(&mut self, p1: Pin, p2: Pin) -> (g: XorGate)
        requires
            old(self).wf(),
            p1.valid(old(self)@.len()),
            p2.valid(old(self)@.len()),
        ensures
            final(self).wf(),
            cfg_extends(final(self)@, old(self)@),
            final(self)@.len() == old(self)@.len() + 3,
            g.wired(final(self)@, p1, p2),
            g.spec_out().index == old(self)@.len() + 3,
            g.spec_out().negated == false,
    {
        let nand = self.nand(p1, p2);
        let or = self.or(p1, p2);
        let np = nand.pin();
        let outg = self.and(np, or);
        let out = outg.pin();
        XorGate { out, nand, or }
    }

    /// XNOR(p1, p2): the XOR construct read inverted.
    pub fn xnor(&mut self, p1: Pin, p2: Pin) -> (g: XorGate)
        requires
            old(self).wf(),
            p1.valid(old(self)@.len()),
            p2.valid(old(self)@.len()),
        ensures
            final(self).wf(),
            cfg_extends(final(self)@, old(self)@),
            final(self)@.len() == old(self)@.len() + 3,
            g.wired(final(self)@, p1, p2),
            g.spec_out().index == old(self)@.len() + 3,
            g.spec_out().negated == true,
    {
        let g = self.xor(p1, p2);
        g.negate()
    }

    /// Retargets an XOR construct to new inputs by rewiring its two input
    /// sub-gates; the combining gate and the output slot stay put.
    pub fn modify_xor_pins(&mut self, gate: XorGate, p1: Pin, p2: Pin)
        requires
            old(self).wf(),
            gate.shape(old(self)@),
            p1.valid(old(self)@.len()),
            p2.valid(old(self)@.len()),
        ensures
            final(self).wf(),
            final(self)@.len() == old(self)@.len(),
            gate.wired(final(self)@, p1, p2),
            forall|i: int|
                0 <= i < old(self)@.len() && i != gate.spec_or().index - 1 && i
                    != gate.spec_nand().spec_pin().index - 1 ==> final(self)@[i] == old(self)@[i],
    {
        self.modify_or_pins(gate.or, p1, p2);
        self.modify_and_pins(gate.nand, p1, p2);
    }
}

/// One step computes an AND construct's slot as the conjunction of its
/// inputs read from the previous snapshot; the handle's pin applies its
/// own polarity on top (covering NAND).
pub proof fn lemma_and_after_step(g: AndGate, cfg: Seq<Gate>, p1: Pin, p2: Pin, s: Seq<bool>)
    requires
        g.wired(cfg, p1, p2),
    ensures
        step_seq(cfg, s)[g.spec_pin().index as int] == (p1.value(s) && p2.value(s)),
        g.spec_pin().value(step_seq(cfg, s)) == ((p1.value(s) && p2.value(s))
            != g.spec_pin().negated),
{
}

/// One step computes an `or` slot as the NOR of its inputs read from the
/// previous snapshot; an inverted pin over it reads their disjunction.
pub proof fn lemma_or_after_step(p: Pin, cfg: Seq<Gate>, p1: Pin, p2: Pin, s: Seq<bool>)
    requires
        1 <= p.index <= cfg.len(),
        cfg[p.index - 1] == gate_of(p1, p2),
    ensures
        step_seq(cfg, s)[p.index as int] == !(p1.value(s) || p2.value(s)),
        p.value(step_seq(cfg, s)) == (!(p1.value(s) || p2.value(s)) != p.negated),
{
}

/// At any settled snapshot an AND construct's slot holds the conjunction
/// of its inputs.
pub proof fn lemma_and_settled(g: AndGate, cfg: Seq<Gate>, p1: Pin, p2: Pin, s: Seq<bool>)
    requires
        g.wired(cfg, p1, p2),
        settled(cfg, s),
    ensures
        s[g.spec_pin().index as int] == (p1.value(s) && p2.value(s)),
        g.spec_pin().value(s) == ((p1.value(s) && p2.value(s)) != g.spec_pin().negated),
{
    assert(s[g.spec_pin().index - 1 + 1] == gate_fire(cfg[g.spec_pin().index - 1], s));
}

/// At any settled snapshot an `or` slot holds the NOR of its inputs, so
/// an inverted pin over it reads their disjunction.
pub proof fn lemma_or_settled(p: Pin, cfg: Seq<Gate>, p1: Pin, p2: Pin, s: Seq<bool>)
    requires
        1 <= p.index <= cfg.len(),
        cfg[p.index - 1] == gate_of(p1, p2),
        settled(cfg, s),
    ensures
        s[p.index as int] == !(p1.value(s) || p2.value(s)),
        p.value(s) == (!(p1.value(s) || p2.value(s)) != p.negated),
{
    assert(s[p.index - 1 + 1] == gate_fire(cfg[p.index - 1], s));
}

/// At any settled snapshot an XOR construct's output slot holds the
/// exclusive or of its inputs.
pub proof fn lemma_xor_settled(g: XorGate, cfg: Seq<Gate>, p1: Pin, p2: Pin, s: Seq<bool>)
    requires
        g.wired(cfg, p1, p2),
        settled(cfg, s),
    ensures
        s[g.spec_out().index as int] == (p1.value(s) != p2.value(s)),
        g.spec_out().value(s) == ((p1.value(s) != p2.value(s)) != g.spec_out().negated),
{
    lemma_and_settled(g.spec_nand(), cfg, p1, p2, s);
    lemma_or_settled(g.spec_or(), cfg, p1, p2, s);
    assert(s[g.spec_out().index - 1 + 1] == gate_fire(cfg[g.spec_out().index - 1], s));
}

/// Retargeting preserves gate identity: overwriting an AND construct's
/// slot with new inputs (what retargeting does) keeps its output pin,
/// and any settled snapshot of the updated network reads the conjunction
/// of the new inputs at that very pin.
pub proof fn lemma_retarget_and(
    g: AndGate,
    cfg: Seq<Gate>,
    p1: Pin,
    p2: Pin,
    q1: Pin,
    q2: Pin,
    s: Seq<bool>,
)
    requires
        g.wired(cfg, p1, p2),
        settled(cfg.update(g.spec_pin().index - 1, gate_of(q1.spec_flip(), q2.spec_flip())), s),
    ensures
        g.wired(cfg.update(g.spec_pin().index - 1, gate_of(q1.spec_flip(), q2.spec_flip())), q1, q2),
        s[g.spec_pin().index as int] == (q1.value(s) && q2.value(s)),
{
    let cfg1 = cfg.update(g.spec_pin().index - 1, gate_of(q1.spec_flip(), q2.spec_flip()));
    lemma_and_settled(g, cfg1, q1, q2, s);
}

} // verus!
