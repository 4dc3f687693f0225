//! A digital logic circuit simulator built from a single primitive: the
//! two-input NOR gate. A network is a flat, append-only list of gates
//! addressed by stable indices; pins reference a gate's output (or the
//! circuit-wide constant at index 0) together with a free polarity flag.
//! Evaluation is synchronous with unit delay: every gate reads only the
//! previous snapshot, so two state buffers alternate.

use vstd::prelude::*;

pub mod gate;
pub mod adder;
pub mod binary;

verus! {

/// A reference to a boolean signal: the output of whichever gate drives slot
/// `index` (slot 0 is the circuit-wide constant), read inverted when
/// `negated` is set. Negation is free: it lives on the reference, not
/// in the network.
#[derive(Clone, Copy, Debug, PartialEq, Eq, Structural)]
pub struct Pin {
    pub index: usize,
    pub negated: bool,
}

/// The sole primitive: a two-input NOR gate. Each input names a slot and
/// a polarity, exactly as a [`Pin`] does.
#[derive(Clone, Copy, Debug, PartialEq, Eq, Structural)]
pub struct Gate {
    pub in1: usize,
    pub neg1: bool,
    pub in2: usize,
    pub neg2: bool,
}

/// An append-only ordered collection of NOR gates; owns all gate
/// definitions. Gate `i` of the list drives state slot `i + 1`.
pub struct Config {
    config: Vec<Gate>,
}

/// A snapshot of every slot's current value: slot 0 for the constant,
/// then one slot per gate, in gate order.
pub struct State {
    state: Vec<bool>,
}

impl Pin {
    /// The boolean this pin denotes in the snapshot `s`.
    pub open spec fn value(self, s: Seq<bool>) -> bool {
        s[self.index as int] != self.negated
    }

    /// The pin can be read against a network of `n` gates (whose states
    /// have `n + 1` slots).
    pub open spec fn valid(self, n: nat) -> bool {
        self.index <= n
    }

    /// The same signal with the opposite polarity.
    pub open spec fn spec_flip(self) -> Pin {
        Pin { index: self.index, negated: !self.negated }
    }

    /// Reference the same slot with the opposite polarity; no gate is added.
    pub fn negate(&self) -> (r: Pin)
        ensures
            r == self.spec_flip(),
    {
        Pin { index: self.index, negated: !self.negated }
    }

    /// The position in the network's list of this pin's backing gate.
    /// The constant slot (index 0) has no backing gate.
    pub fn config_index(&self) -> (r: usize)
        requires
            self.index >= 1,
        ensures
            r == self.index - 1,
    {
        self.index - 1
    }
}

/// The pin denoting the circuit-wide constant `v`.
pub open spec fn const_pin(v: bool) -> Pin {
    Pin { index: 0, negated: v }
}

/// What the network stores when `p1` and `p2` are wired into a new NOR gate.
pub open spec fn gate_of(p1: Pin, p2: Pin) -> Gate {
    Gate { in1: p1.index, neg1: p1.negated, in2: p2.index, neg2: p2.negated }
}

/// What gate `g` outputs when evaluated against the previous snapshot `s`:
/// the NOR of its two (possibly inverted) referenced values.
pub open spec fn gate_fire(g: Gate, s: Seq<bool>) -> bool {
    !((s[g.in1 as int] != g.neg1) || (s[g.in2 as int] != g.neg2))
}

/// One synchronous step of the whole network: slot 0 is reset to false,
/// and every gate slot is recomputed from the previous snapshot alone.
pub open spec fn step_seq(cfg: Seq<Gate>, s: Seq<bool>) -> Seq<bool> {
    Seq::new(cfg.len() + 1, |i: int| if i == 0 { false } else { gate_fire(cfg[i - 1], s) })
}

/// `k` synchronous steps from `s`.
pub open spec fn iter_step(cfg: Seq<Gate>, s: Seq<bool>, k: nat) -> Seq<bool>
    decreases k,
{
    if k == 0 {
        s
    } else {
        step_seq(cfg, iter_step(cfg, s, (k - 1) as nat))
    }
}

/// Gate `g` only references slots of a network with `n` gates.
pub open spec fn gate_ok(g: Gate, n: nat) -> bool {
    g.in1 <= n && g.in2 <= n
}

/// Every gate of the list references only slots that exist.
pub open spec fn cfg_wf(cfg: Seq<Gate>) -> bool {
    forall|i: int| 0 <= i < cfg.len() ==> gate_ok(#[trigger] cfg[i], cfg.len())
}

/// A settled (fixed-point) snapshot: every gate's stored output already
/// satisfies its NOR equation, so a further step changes nothing.
pub open spec fn settled(cfg: Seq<Gate>, s: Seq<bool>) -> bool {
    &&& s.len() == cfg.len() + 1
    &&& s[0] == false
    &&& forall|i: int| 0 <= i < cfg.len() ==> s[i + 1] == gate_fire(#[trigger] cfg[i], s)
}

/// `big` keeps `small` as an untouched prefix: gates were only appended.
pub open spec fn cfg_extends(big: Seq<Gate>, small: Seq<Gate>) -> bool {
    big.len() >= small.len() && forall|i: int| 0 <= i < small.len() ==> big[i] == small[i]
}

/// Prefix extension of gate lists is transitive.
pub proof fn lemma_cfg_extends_trans(c3: Seq<Gate>, c2: Seq<Gate>, c1: Seq<Gate>)
    requires
        cfg_extends(c3, c2),
        cfg_extends(c2, c1),
    ensures
        cfg_extends(c3, c1),
{
}

/// Whether any gate slot differs between the buffer's previous contents
/// and the freshly written snapshot (the constant slot is not counted).
pub open spec fn any_change(prev: Seq<bool>, next: Seq<bool>) -> bool {
    exists|i: int| 1 <= i < next.len() && prev[i] != next[i]
}

/// Slot `p.index` holds a driven input gate whose value is `v`: reading
/// `p` at any settled state yields `v`.
pub open spec fn dummy_wired(cfg: Seq<Gate>, p: Pin, v: bool) -> bool {
    &&& 1 <= p.index <= cfg.len()
    &&& p.negated == true
    &&& cfg[p.index - 1] == gate_of(const_pin(v), const_pin(v))
}

impl View for Config {
    type V = Seq<Gate>;

    closed spec fn view(&self) -> Seq<Gate> {
        self.config@
    }
}

impl View for State {
    type V = Seq<bool>;

    closed spec fn view(&self) -> Seq<bool> {
        self.state@
    }
}

impl Config {
    /// All stored gates reference only slots that exist.
    pub open spec fn wf(self) -> bool {
        cfg_wf(self@)
    }

    /// A network with no gates.
    pub fn new() -> (c: Config)
        ensures
            c@ == Seq::<Gate>::empty(),
            c.wf(),
    {
        let c = Config { config: Vec::new() };
        proof {
            assert(c@ =~= Seq::<Gate>::empty());
        }
        c
    }

    /// The constant-true pin; no gate is appended.
    pub fn true_pin(&self) -> (r: Pin)
        ensures
            r == const_pin(true),
    {
        Pin { index: 0, negated: true }
    }

    /// The constant-false pin; no gate is appended.
    pub fn false_pin(&self) -> (r: Pin)
        ensures
            r == const_pin(false),
    {
        Pin { index: 0, negated: false }
    }

    /// Appends a NOR gate over `p1` and `p2` and returns a plain pin to
    /// its output slot. Runs in O(1); the slot index is stable forever.
    pub fn nor(&mut self, p1: Pin, p2: Pin) -> (r: Pin)
        requires
            old(self).wf(),
            p1.valid(old(self)@.len()),
            p2.valid(old(self)@.len()),
        ensures
            final(self)@ == old(self)@.push(gate_of(p1, p2)),
            final(self).wf(),
            r.index == old(self)@.len() + 1,
            r.negated == false,
    {
        self.config.push(Gate { in1: p1.index, neg1: p1.negated, in2: p2.index, neg2: p2.negated });
        let r = Pin { index: self.config.len(), negated: false };
        proof {
            assert forall|i: int| 0 <= i < self@.len() implies gate_ok(#[trigger] self@[i], self@.len()) by {
                if i < self@.len() - 1 {
                    assert(gate_ok(self@[i], old(self)@.len()));
                }
            }
        }
        r
    }

    /// An OR of `p1` and `p2`: the same NOR gate, read inverted.
    pub fn or(&mut self, p1: Pin, p2: Pin) -> (r: Pin)
        requires
            old(self).wf(),
            p1.valid(old(self)@.len()),
            p2.valid(old(self)@.len()),
        ensures
            final(self)@ == old(self)@.push(gate_of(p1, p2)),
            final(self).wf(),
            r.index == old(self)@.len() + 1,
            r.negated == true,
    {
        let p = self.nor(p1, p2);
        p.negate()
    }

    /// Retargets `gate`'s backing NOR to read `p1` and `p2`.
    /// The slot keeps its index, so every pin already pointing at it
    /// keeps working.
    pub fn modify_or_pins(&mut self, gate: Pin, p1: Pin, p2: Pin)
        requires
            old(self).wf(),
            1 <= gate.index <= old(self)@.len(),
            p1.valid(old(self)@.len()),
            p2.valid(old(self)@.len()),
        ensures
            final(self)@ == old(self)@.update(gate.index - 1, gate_of(p1, p2)),
            final(self).wf(),
    {
        let i = gate.config_index();
        self.config.set(i, Gate { in1: p1.index, neg1: p1.negated, in2: p2.index, neg2: p2.negated });
    }

    /// A free-standing input: a gate wired to two false constants, to be
    /// driven later through `set_dummy_value`. The returned pin reads the
    /// driven value once a step has run.
    pub fn dummy_gate(&mut self) -> (r: Pin)
        requires
            old(self).wf(),
        ensures
            final(self)@ == old(self)@.push(gate_of(const_pin(false), const_pin(false))),
            final(self).wf(),
            r.index == old(self)@.len() + 1,
            r.negated == true,
            dummy_wired(final(self)@, r, false),
    {
        let p1 = self.false_pin();
        let p2 = self.false_pin();
        self.or(p1, p2)
    }

    /// Drives the input gate behind `pin` to the constant `value` by
    /// retargeting it to two copies of the matching constant pin.
    pub fn set_dummy_value(&mut self, pin: Pin, value: bool)
        requires
            old(self).wf(),
            1 <= pin.index <= old(self)@.len(),
        ensures
            final(self)@ == old(self)@.update(pin.index - 1, gate_of(const_pin(value), const_pin(value))),
            final(self).wf(),
            pin.negated ==> dummy_wired(final(self)@, pin, value),
    {
        let p = Pin { index: 0, negated: value };
        self.modify_or_pins(pin, p, p);
    }

    /// A zero-initialized snapshot sized to the current gate count. It
    /// goes stale if gates are appended afterwards.
    pub fn empty_state(&self) -> (s: State)
        requires
            self@.len() < usize::MAX,
        ensures
            s@.len() == self@.len() + 1,
            forall|i: int| 0 <= i < s@.len() ==> s@[i] == false,
    {
        let n: usize = self.config.len() + 1;
        let mut v: Vec<bool> = Vec::new();
        while v.len() < n
            invariant
                v@.len() <= n,
                forall|i: int| 0 <= i < v@.len() ==> v@[i] == false,
            decreases n - v.len(),
        {
            v.push(false);
        }
        State { state: v }
    }

    /// One synchronous step: recomputes every gate slot of `store` from
    /// the snapshot `state` alone and resets the constant slot.
    pub fn step(&self, state: &State, store: &mut State)
        requires
            self.wf(),
            state@.len() == self@.len() + 1,
            old(store)@.len() == self@.len() + 1,
        ensures
            final(store)@ == step_seq(self@, state@),
    {
        store.state.set(0, false);
        let mut i: usize = 0;
        while i < self.config.len()
            invariant
                self.wf(),
                i <= self.config@.len(),
                state@.len() == self@.len() + 1,
                store.state@.len() == self@.len() + 1,
                store.state@[0] == false,
                forall|j: int| 1 <= j <= i ==> store.state@[j] == gate_fire(self@[j - 1], state@),
            decreases self.config.len() - i,
        {
            let g = self.config[i];
            proof {
                assert(gate_ok(self@[i as int], self@.len()));
            }
            let v1 = state.state[g.in1] != g.neg1;
            let v2 = state.state[g.in2] != g.neg2;
            store.state.set(i + 1, !(v1 || v2));
            i += 1;
        }
        proof {
            assert(store.state@ =~= step_seq(self@, state@));
        }
    }

    /// The same step, additionally reporting whether any gate slot's value
    /// differs from what the buffer held before. Used to re-step a
    /// feedback-free circuit until it settles.
    pub fn step_check_changes(&self, state: &State, store: &mut State) -> (changed: bool)
        requires
            self.wf(),
            state@.len() == self@.len() + 1,
            old(store)@.len() == self@.len() + 1,
        ensures
            final(store)@ == step_seq(self@, state@),
            changed == any_change(old(store)@, final(store)@),
    {
        store.state.set(0, false);
        let mut changed = false;
        let mut i: usize = 0;
        while i < self.config.len()
            invariant
                self.wf(),
                i <= self.config@.len(),
                state@.len() == self@.len() + 1,
                store.state@.len() == self@.len() + 1,
                store.state@[0] == false,
                forall|j: int| 1 <= j <= i ==> store.state@[j] == gate_fire(self@[j - 1], state@),
                forall|j: int| i < j < store.state@.len() ==> store.state@[j] == old(store)@[j],
                changed == exists|j: int| 1 <= j <= i && old(store)@[j] != store.state@[j],
            decreases self.config.len() - i,
        {
            let g = self.config[i];
            proof {
                assert(gate_ok(self@[i as int], self@.len()));
            }
            let prev_out = store.state[i + 1];
            let v1 = state.state[g.in1] != g.neg1;
            let v2 = state.state[g.in2] != g.neg2;
            let result = !(v1 || v2);
            if prev_out != result {
                changed = true;
            }
            store.state.set(i + 1, result);
            proof {
                if prev_out != result {
                    assert(old(store)@[i + 1] != store.state@[i + 1]);
                }
            }
            i += 1;
        }
        proof {
            assert(store.state@ =~= step_seq(self@, state@));
        }
        changed
    }

    /// Diagnostic access: how many gates the network holds.
    pub fn gate_count(&self) -> (n: usize)
        ensures
            n == self@.len(),
    {
        self.config.len()
    }

    /// Diagnostic access: entry `i` of the stored list.
    pub fn gate_at(&self, i: usize) -> (g: Gate)
        requires
            i < self@.len(),
        ensures
            g == self@[i as int],
    {
        self.config[i]
    }
}

impl State {
    /// Reads a pin's value from this snapshot, applying its polarity.
    pub fn read(&self, pin: Pin) -> (r: bool)
        requires
            pin.index < self@.len(),
        ensures
            r == pin.value(self@),
    {
        self.state[pin.index] != pin.negated
    }

    /// How many slots this snapshot holds (gate count plus one).
    pub fn len(&self) -> (n: usize)
        ensures
            n == self@.len(),
    {
        self.state.len()
    }
}

/// A settled snapshot is exactly a fixed point of the step function.
pub proof fn lemma_settled_iff_fixed(cfg: Seq<Gate>, s: Seq<bool>)
    requires
        s.len() == cfg.len() + 1,
    ensures
        settled(cfg, s) <==> step_seq(cfg, s) == s,
{
    if settled(cfg, s) {
        assert(step_seq(cfg, s) =~= s);
    }
    if step_seq(cfg, s) == s {
        assert forall|i: int| 0 <= i < cfg.len() implies s[i + 1] == gate_fire(#[trigger] cfg[i], s) by {
            assert(step_seq(cfg, s)[i + 1] == gate_fire(cfg[i], s));
        }
        assert(s[0] == step_seq(cfg, s)[0]);
    }
}

/// A snapshot produced by a step keeps the length of its network and a
/// reset constant slot; so does any number of iterated steps.
pub proof fn lemma_iter_wf(cfg: Seq<Gate>, s0: Seq<bool>, k: nat)
    requires
        s0.len() == cfg.len() + 1,
        s0[0] == false,
    ensures
        iter_step(cfg, s0, k).len() == cfg.len() + 1,
        iter_step(cfg, s0, k)[0] == false,
    decreases k,
{
    if k > 0 {
        lemma_iter_wf(cfg, s0, (k - 1) as nat);
    }
}

/// A driven input's slot reaches its driven value after a single step
/// (the previous snapshot's constant slot must already be reset).
pub proof fn lemma_dummy_after_step(cfg: Seq<Gate>, p: Pin, v: bool, s: Seq<bool>)
    requires
        dummy_wired(cfg, p, v),
        s[0] == false,
    ensures
        step_seq(cfg, s)[p.index as int] == !v,
        p.value(step_seq(cfg, s)) == v,
{
}

/// A driven input reads its driven value at any settled snapshot.
pub proof fn lemma_dummy_settled(cfg: Seq<Gate>, p: Pin, v: bool, s: Seq<bool>)
    requires
        dummy_wired(cfg, p, v),
        settled(cfg, s),
    ensures
        p.value(s) == v,
{
    assert(s[p.index - 1 + 1] == gate_fire(cfg[p.index - 1], s));
}

/// Idempotence of settling: a settled snapshot stays fixed under any
/// number of further steps, and a change-detecting step out of it
/// reports no change.
pub proof fn lemma_settled_stable(cfg: Seq<Gate>, s: Seq<bool>, k: nat)
    requires
        settled(cfg, s),
    ensures
        step_seq(cfg, s) == s,
        iter_step(cfg, s, k) == s,
        !any_change(s, step_seq(cfg, s)),
    decreases k,
{
    assert(step_seq(cfg, s) =~= s);
    if k > 0 {
        lemma_settled_stable(cfg, s, (k - 1) as nat);
    }
}


} // verus!
