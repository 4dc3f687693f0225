//! Multi-bit buses and the variable-width ripple-carry binary adder.
//! A bus is an ordered little-endian sequence of pins read or driven as
//! an unsigned integer; the adder chains one half adder, full adders
//! over the overlapping bit pairs, and tail half adders over the wider
//! operand's remaining bits, emitting the last carry as the top bit.

use vstd::prelude::*;

use vstd::arithmetic::div_mod::{
    lemma_div_denominator, lemma_fundamental_div_mod, lemma_fundamental_div_mod_converse_mod,
    lemma_mod_bound, lemma_small_mod,
};
use vstd::arithmetic::power2::{
    lemma2_to64, lemma_pow2_pos, lemma_pow2_strictly_increases,
    lemma_pow2_unfold, pow2,
};

use crate::adder::{
    lemma_full_adder_settled, lemma_full_adder_wired_extends, lemma_half_adder_settled,
    lemma_half_adder_wired_extends, FullAdder, HalfAdder,
};
use crate::{
    cfg_extends, const_pin, dummy_wired, gate_of, lemma_cfg_extends_trans, settled, Config, Gate,
    Pin, State,
};

verus! {

/// An ordered little-endian sequence of pins, read and driven as one
/// unsigned integer bus.
#[derive(Clone)]
pub struct BinaryPin {
    pub pins: Vec<Pin>,
}

/// The numeric weight of one pin in snapshot `s`: 1 when it reads true.
pub open spec fn bit_val(p: Pin, s: Seq<bool>) -> nat {
    if p.value(s) {
        1
    } else {
        0
    }
}

/// The unsigned integer a little-endian bus of pins denotes in `s`.
pub open spec fn bus_num(pins: Seq<Pin>, s: Seq<bool>) -> nat
    decreases pins.len(),
{
    if pins.len() == 0 {
        0
    } else {
        bit_val(pins[0], s) + 2 * bus_num(pins.subrange(1, pins.len() as int), s)
    }
}

/// Appending a pin to a bus adds its value at the next binary weight.
pub proof fn lemma_bus_num_snoc(pins: Seq<Pin>, p: Pin, s: Seq<bool>)
    ensures
        bus_num(pins.push(p), s) == bus_num(pins, s) + pow2(pins.len()) * bit_val(p, s),
    decreases pins.len(),
{
    let q = pins.push(p);
    let b = bit_val(p, s) as int;
    if pins.len() == 0 {
        assert(q[0] == p);
        assert(q.subrange(1, q.len() as int) =~= Seq::<Pin>::empty());
        assert(bus_num(q, s) == bit_val(p, s) + 2 * bus_num(q.subrange(1, q.len() as int), s));
        assert(bus_num(pins, s) == 0);
        lemma2_to64();
        assert(pow2(0) * bit_val(p, s) == bit_val(p, s)) by (nonlinear_arith)
            requires
                pow2(0) == 1,
        ;
    } else {
        let rest = pins.subrange(1, pins.len() as int);
        assert(q[0] == pins[0]);
        assert(q.subrange(1, q.len() as int) =~= rest.push(p));
        lemma_bus_num_snoc(rest, p, s);
        lemma_pow2_unfold(pins.len());
        let c = pow2(rest.len()) as int;
        assert(bus_num(q, s) == bit_val(pins[0], s) + 2 * (bus_num(rest, s) + c * b));
        assert(2 * (bus_num(rest, s) + c * b) == 2 * bus_num(rest, s) + pow2(pins.len()) * bit_val(
            p,
            s,
        )) by (nonlinear_arith)
            requires
                pow2(pins.len()) == 2 * c,
                b == bit_val(p, s),
                bus_num(rest, s) >= 0,
        ;
    }
}

/// A bus of `n` pins denotes a value below `2^n`.
pub proof fn lemma_bus_num_bound(pins: Seq<Pin>, s: Seq<bool>)
    ensures
        bus_num(pins, s) < pow2(pins.len()),
    decreases pins.len(),
{
    if pins.len() == 0 {
        lemma2_to64();
    } else {
        lemma_bus_num_bound(pins.subrange(1, pins.len() as int), s);
        lemma_pow2_unfold(pins.len());
    }
}

/// Bit `k` of `v`, little-endian (false above bit 63).
pub open spec fn nth_bit(v: u64, k: nat) -> bool {
    ((v as nat) / pow2(k)) % 2 == 1
}

/// The network's list after driving the first `k` pins of `pins` to the low
/// bits of `v`, one retarget per pin, in bus order.
pub open spec fn set_bus_upto(cfg: Seq<Gate>, pins: Seq<Pin>, v: u64, k: int) -> Seq<Gate>
    decreases k,
{
    if k <= 0 {
        cfg
    } else {
        set_bus_upto(cfg, pins, v, k - 1).update(
            pins[k - 1].index - 1,
            gate_of(const_pin(nth_bit(v, (k - 1) as nat)), const_pin(nth_bit(v, (k - 1) as nat))),
        )
    }
}

/// Driving a bus never changes how many gates exist.
pub proof fn lemma_set_bus_len(cfg: Seq<Gate>, pins: Seq<Pin>, v: u64, k: int)
    requires
        k <= pins.len(),
        forall|i: int| 0 <= i < pins.len() ==> 1 <= (#[trigger] pins[i]).index <= cfg.len(),
    ensures
        set_bus_upto(cfg, pins, v, k).len() == cfg.len(),
    decreases k,
{
    if k > 0 {
        lemma_set_bus_len(cfg, pins, v, k - 1);
        assert(1 <= pins[k - 1].index <= cfg.len());
    }
}

/// After driving a bus of pairwise-distinct input gates, each driven pin
/// is wired to the matching bit of `v`.
pub proof fn lemma_set_bus_wired(cfg: Seq<Gate>, pins: Seq<Pin>, v: u64, k: int, i: int)
    requires
        0 <= i < k <= pins.len(),
        forall|t: int| 0 <= t < pins.len() ==> 1 <= (#[trigger] pins[t]).index <= cfg.len(),
        forall|t: int, u: int| 0 <= t < u < pins.len() ==> pins[t].index != pins[u].index,
        forall|t: int| 0 <= t < pins.len() ==> (#[trigger] pins[t]).negated == true,
    ensures
        dummy_wired(set_bus_upto(cfg, pins, v, k), pins[i], nth_bit(v, i as nat)),
    decreases k,
{
    lemma_set_bus_len(cfg, pins, v, k - 1);
    if i < k - 1 {
        lemma_set_bus_wired(cfg, pins, v, k - 1, i);
    }
}

/// Driving a bus leaves every slot it does not name untouched.
pub proof fn lemma_set_bus_untouched(cfg: Seq<Gate>, pins: Seq<Pin>, v: u64, k: int, t: int)
    requires
        k <= pins.len(),
        0 <= t < cfg.len(),
        forall|i: int| 0 <= i < pins.len() ==> 1 <= (#[trigger] pins[i]).index <= cfg.len(),
        forall|i: int| 0 <= i < k ==> (#[trigger] pins[i]).index - 1 != t,
    ensures
        set_bus_upto(cfg, pins, v, k)[t] == cfg[t],
    decreases k,
{
    if k > 0 {
        lemma_set_bus_untouched(cfg, pins, v, k - 1, t);
        lemma_set_bus_len(cfg, pins, v, k - 1);
        assert(1 <= pins[k - 1].index <= cfg.len());
    }
}

impl BinaryPin {
    /// Bundles an existing ordered pin list into a bus.
    pub fn wrap(pins: Vec<Pin>) -> (r: BinaryPin)
        ensures
            r.pins@ == pins@,
    {
        BinaryPin { pins }
    }

    /// Builds `size` fresh driven-input gates and bundles their pins, in
    /// order, into a bus of primary circuit inputs.
    pub fn create_dummy_and_wrap(size: usize, config: &mut Config) -> (r: BinaryPin)
        requires
            old(config).wf(),
        ensures
            final(config).wf(),
            cfg_extends(final(config)@, old(config)@),
            final(config)@.len() == old(config)@.len() + size,
            r.pins@.len() == size,
            forall|k: int|
                0 <= k < size ==> (#[trigger] r.pins@[k]).index == old(config)@.len() + k + 1,
            forall|k: int| 0 <= k < size ==> (#[trigger] r.pins@[k]).negated == true,
            forall|k: int| 0 <= k < size ==> dummy_wired(final(config)@, #[trigger] r.pins@[k], false),
    {
        let mut pins: Vec<Pin> = Vec::new();
        let mut k: usize = 0;
        while k < size
            invariant
                config.wf(),
                k <= size,
                cfg_extends(config@, old(config)@),
                config@.len() == old(config)@.len() + k,
                pins@.len() == k,
                forall|i: int|
                    0 <= i < k ==> (#[trigger] pins@[i]).index == old(config)@.len() + i + 1,
                forall|i: int| 0 <= i < k ==> (#[trigger] pins@[i]).negated == true,
                forall|i: int| 0 <= i < k ==> dummy_wired(config@, #[trigger] pins@[i], false),
            decreases size - k,
        {
            let ghost pre = config@;
            let p = config.dummy_gate();
            proof {
                assert forall|i: int| 0 <= i < k implies dummy_wired(
                    config@,
                    #[trigger] pins@[i],
                    false,
                ) by {
                    assert(dummy_wired(pre, pins@[i], false));
                }
            }
            pins.push(p);
            k += 1;
        }
        BinaryPin::wrap(pins)
    }

    /// How many bits wide the bus is.
    pub fn size(&self) -> (n: usize)
        ensures
            n == self.pins@.len(),
    {
        self.pins.len()
    }

    /// Inverts the polarity of every pin of the bus, in place.
    pub fn negate(&mut self)
        ensures
            final(self).pins@.len() == old(self).pins@.len(),
            forall|k: int|
                0 <= k < old(self).pins@.len() ==> final(self).pins@[k] == old(self).pins@[
                    k
                ].spec_flip(),
    {
        let mut k: usize = 0;
        while k < self.pins.len()
            invariant
                k <= self.pins@.len(),
                self.pins@.len() == old(self).pins@.len(),
                forall|i: int| 0 <= i < k ==> self.pins@[i] == old(self).pins@[i].spec_flip(),
                forall|i: int| k <= i < self.pins@.len() ==> self.pins@[i] == old(self).pins@[i],
            decreases self.pins@.len() - k,
        {
            let p = self.pins[k];
            let q = p.negate();
            self.pins.set(k, q);
            k += 1;
        }
    }

    /// Reads the low 8 bits of the bus (or all of it, if narrower).
    pub fn read_u8_le(&self, state: &State) -> (r: u8)
        requires
            forall|k: int| 0 <= k < self.pins@.len() ==> (#[trigger] self.pins@[k]).index < state@.len(),
        ensures
            self.pins@.len() >= 8 ==> r as nat == bus_num(self.pins@.take(8), state@),
            self.pins@.len() < 8 ==> r as nat == bus_num(self.pins@, state@),
    {
        let w = read_le(&self.pins, state, 8);
        proof {
            lemma2_to64();
            if self.pins@.len() < 8 {
                lemma_pow2_strictly_increases(self.pins@.len(), 8);
                assert(self.pins@.take(self.pins@.len() as int) =~= self.pins@);
            }
        }
        w as u8
    }

    /// Reads the low 16 bits of the bus (or all of it, if narrower).
    pub fn read_u16_le(&self, state: &State) -> (r: u16)
        requires
            forall|k: int| 0 <= k < self.pins@.len() ==> (#[trigger] self.pins@[k]).index < state@.len(),
        ensures
            self.pins@.len() >= 16 ==> r as nat == bus_num(self.pins@.take(16), state@),
            self.pins@.len() < 16 ==> r as nat == bus_num(self.pins@, state@),
    {
        let w = read_le(&self.pins, state, 16);
        proof {
            lemma2_to64();
            if self.pins@.len() < 16 {
                lemma_pow2_strictly_increases(self.pins@.len(), 16);
                assert(self.pins@.take(self.pins@.len() as int) =~= self.pins@);
            }
        }
        w as u16
    }

    /// Reads the low 32 bits of the bus (or all of it, if narrower).
    pub fn read_u32_le(&self, state: &State) -> (r: u32)
        requires
            forall|k: int| 0 <= k < self.pins@.len() ==> (#[trigger] self.pins@[k]).index < state@.len(),
        ensures
            self.pins@.len() >= 32 ==> r as nat == bus_num(self.pins@.take(32), state@),
            self.pins@.len() < 32 ==> r as nat == bus_num(self.pins@, state@),
    {
        let w = read_le(&self.pins, state, 32);
        proof {
            lemma2_to64();
            if self.pins@.len() < 32 {
                lemma_pow2_strictly_increases(self.pins@.len(), 32);
                assert(self.pins@.take(self.pins@.len() as int) =~= self.pins@);
            }
        }
        w as u32
    }

    /// Reads the low 64 bits of the bus (or all of it, if narrower).
    pub fn read_u64_le(&self, state: &State) -> (r: u64)
        requires
            forall|k: int| 0 <= k < self.pins@.len() ==> (#[trigger] self.pins@[k]).index < state@.len(),
        ensures
            self.pins@.len() >= 64 ==> r as nat == bus_num(self.pins@.take(64), state@),
            self.pins@.len() < 64 ==> r as nat == bus_num(self.pins@, state@),
    {
        let w = read_le(&self.pins, state, 64);
        proof {
            if self.pins@.len() < 64 {
                assert(self.pins@.take(self.pins@.len() as int) =~= self.pins@);
            }
        }
        w
    }

    /// Drives every pin of the bus to the matching little-endian bit of
    /// `v` (bits above the 64th are zero), one retarget per pin.
    pub fn dummy_set_le(&self, config: &mut Config, v: u64)
        requires
            old(config).wf(),
            forall|k: int|
                0 <= k < self.pins@.len() ==> 1 <= (#[trigger] self.pins@[k]).index <= old(
                    config,
                )@.len(),
        ensures
            final(config).wf(),
            final(config)@ == set_bus_upto(old(config)@, self.pins@, v, self.pins@.len() as int),
            final(config)@.len() == old(config)@.len(),
    {
        let mut vv: u64 = v;
        let mut k: usize = 0;
        proof {
            lemma2_to64();
        }
        while k < self.pins.len()
            invariant
                config.wf(),
                k <= self.pins@.len(),
                config@.len() == old(config)@.len(),
                forall|i: int|
                    0 <= i < self.pins@.len() ==> 1 <= (#[trigger] self.pins@[i]).index <= old(
                        config,
                    )@.len(),
                config@ == set_bus_upto(old(config)@, self.pins@, v, k as int),
                vv as nat == (v as nat) / pow2(k as nat),
            decreases self.pins@.len() - k,
        {
            let bit_set = vv & 1 == 1;
            proof {
                assert((vv & 1 == 1) == (vv % 2 == 1)) by (bit_vector);
                lemma_pow2_pos(k as nat);
                assert(bit_set == nth_bit(v, k as nat));
            }
            let p = self.pins[k];
            config.set_dummy_value(p, bit_set);
            proof {
                assert(vv >> 1 == vv / 2) by (bit_vector);
                lemma_div_denominator(v as int, pow2(k as nat) as int, 2);
                lemma_pow2_unfold((k + 1) as nat);
                assert(pow2(k as nat) * 2 == pow2((k + 1) as nat)) by (nonlinear_arith)
                    requires pow2((k + 1) as nat) == 2 * pow2(k as nat);
            }
            vv = vv >> 1;
            k += 1;
        }
    }
}

/// Reads the first `width` pins of a bus (or all, if fewer) as a
/// little-endian unsigned integer: the shared body of the typed reads.
fn read_le(pins: &Vec<Pin>, state: &State, width: usize) -> (r: u64)
    requires
        width <= 64,
        forall|k: int| 0 <= k < pins@.len() ==> (#[trigger] pins@[k]).index < state@.len(),
    ensures
        pins@.len() >= width ==> (r as nat == bus_num(pins@.take(width as int), state@) && (
        r as nat) < pow2(width as nat)),
        pins@.len() < width ==> (r as nat == bus_num(pins@.take(pins@.len() as int), state@) && (
        r as nat) < pow2(pins@.len())),
{
    let n: usize = if pins.len() < width {
        pins.len()
    } else {
        width
    };
    let mut res: u64 = 0;
    let mut j: usize = n;
    proof {
        assert(pins@.subrange(n as int, n as int) =~= Seq::<Pin>::empty());
        lemma2_to64();
    }
    while j > 0
        invariant
            j <= n,
            n <= 64,
            n <= pins@.len(),
            n == if pins@.len() < width as int {
                pins@.len() as int
            } else {
                width as int
            },
            forall|k: int| 0 <= k < pins@.len() ==> (#[trigger] pins@[k]).index < state@.len(),
            res as nat == bus_num(pins@.subrange(j as int, n as int), state@),
            (res as nat) < pow2((n - j) as nat),
        decreases j,
    {
        j -= 1;
        let p = pins[j];
        let b = state.read(p);
        proof {
            let sub = pins@.subrange(j as int, n as int);
            assert(sub.subrange(1, sub.len() as int) =~= pins@.subrange(j + 1, n as int));
            lemma2_to64();
            if (n - j) < 64 {
                lemma_pow2_strictly_increases((n - j) as nat, 64);
            }
            lemma_pow2_unfold((n - j) as nat);
        }
        res = if b {
            2 * res + 1
        } else {
            2 * res
        };
        proof {
            assert(res as nat == bus_num(pins@.subrange(j as int, n as int), state@));
        }
    }
    proof {
        assert(pins@.subrange(0, n as int) =~= pins@.take(n as int));
    }
    res
}

/// The carry pin entering overlap stage `k` of a ripple chain: the
/// first half adder's carry for stage 0, then each full adder's carry.
pub open spec fn mid_carry(first: HalfAdder, mids: Seq<FullAdder>, k: int) -> Pin {
    if k <= 0 {
        first.spec_high()
    } else {
        mids[k - 1].spec_carry()
    }
}

/// The carry pin entering tail stage `k` of a ripple chain: the carry
/// after all overlap stages for stage 0, then each tail half adder's
/// carry.
pub open spec fn tail_carry(
    first: HalfAdder,
    mids: Seq<FullAdder>,
    tails: Seq<HalfAdder>,
    k: int,
) -> Pin {
    if k <= 0 {
        mid_carry(first, mids, mids.len() as int)
    } else {
        tails[k - 1].spec_high()
    }
}

/// The internal ripple chain of a binary adder — the first half adder,
/// the full adders over the overlapping bit pairs, and the tail half
/// adders — kept as ghost state so the adder's wiring can be stated
/// and used after construction.
pub struct AdderChain {
    pub first: HalfAdder,
    pub mids: Seq<FullAdder>,
    pub tails: Seq<HalfAdder>,
}

/// A variable-width ripple-carry adder over two buses. It owns only its
/// ordered output bus (one bit wider than the wider operand, unless an
/// operand is empty), plus the ghost ripple chain behind it.
pub struct BinaryAdder {
    output: BinaryPin,
    chain: Ghost<Option<AdderChain>>,
}

impl BinaryAdder {
    /// The pins of the output bus, least-significant first.
    pub closed spec fn spec_pins(self) -> Seq<Pin> {
        self.output.pins@
    }

    /// The adder is realized in `cfg` over input buses `a` and `b`:
    /// either the degenerate identity (one operand empty, the output is
    /// the other operand, gate for gate), or a ripple chain of one half
    /// adder, full adders over the overlapping bit pairs, tail half
    /// adders over the wider operand's remainder, and the final carry
    /// as the top output bit.
    pub closed spec fn wired(self, cfg: Seq<Gate>, a: Seq<Pin>, b: Seq<Pin>) -> bool {
        let out = self.output.pins@;
        if a.len() == 0 {
            out == b
        } else if b.len() == 0 {
            out == a
        } else {
            match self.chain@ {
                None => false,
                Some(ch) => {
                    let m = if a.len() <= b.len() {
                        a.len() as int
                    } else {
                        b.len() as int
                    };
                    let big = if a.len() > b.len() {
                        a.len() as int
                    } else {
                        b.len() as int
                    };
                    let long = if a.len() > b.len() {
                        a
                    } else {
                        b
                    };
                    &&& ch.mids.len() == m - 1
                    &&& ch.tails.len() == big - m
                    &&& out.len() == big + 1
                    &&& ch.first.wired(cfg, a[0], b[0])
                    &&& out[0] == ch.first.spec_low()
                    &&& forall|k: int|
                        0 <= k < m - 1 ==> (#[trigger] ch.mids[k]).wired(
                            cfg,
                            a[k + 1],
                            b[k + 1],
                            mid_carry(ch.first, ch.mids, k),
                        )
                    &&& forall|k: int|
                        0 <= k < m - 1 ==> out[k + 1] == (#[trigger] ch.mids[k]).spec_sum()
                    &&& forall|k: int|
                        0 <= k < big - m ==> (#[trigger] ch.tails[k]).wired(
                            cfg,
                            long[m + k],
                            tail_carry(ch.first, ch.mids, ch.tails, k),
                        )
                    &&& forall|k: int|
                        0 <= k < big - m ==> out[m + k] == (#[trigger] ch.tails[k]).spec_low()
                    &&& out[big] == tail_carry(ch.first, ch.mids, ch.tails, big - m)
                }
            }
        }
    }

    /// The adder's ordered output bus.
    pub fn pins(&self) -> (r: &BinaryPin)
        ensures
            r.pins@ == self.spec_pins(),
    {
        &self.output
    }
}

/// Copies a bus's pin list (for the width-zero identity cases, which
/// build no gates).
fn copy_bus(src: &BinaryPin) -> (r: BinaryPin)
    ensures
        r.pins@ == src.pins@,
{
    let mut pins: Vec<Pin> = Vec::new();
    let mut k: usize = 0;
    while k < src.pins.len()
        invariant
            k <= src.pins@.len(),
            pins@ == src.pins@.take(k as int),
        decreases src.pins@.len() - k,
    {
        let p = src.pins[k];
        pins.push(p);
        proof {
            assert(pins@ =~= src.pins@.take(k + 1));
        }
        k += 1;
    }
    proof {
        assert(src.pins@.take(src.pins@.len() as int) =~= src.pins@);
    }
    BinaryPin { pins }
}


impl BinaryAdder {
    /// Builds a ripple-carry adder over the buses `n1` and `n2`: a half
    /// adder for the first bit pair, full adders propagating the carry
    /// over the remaining overlapping pairs, half adders consuming the
    /// wider operand's remaining bits, and the final carry as the top
    /// output bit. If either operand is empty the adder is the identity
    /// on the other operand and no gate is built.
    pub fn create(config: &mut Config, n1: &BinaryPin, n2: &BinaryPin) -> (r: BinaryAdder)
        requires
            old(config).wf(),
            forall|k: int|
                0 <= k < n1.pins@.len() ==> (#[trigger] n1.pins@[k]).valid(old(config)@.len()),
            forall|k: int|
                0 <= k < n2.pins@.len() ==> (#[trigger] n2.pins@[k]).valid(old(config)@.len()),
        ensures
            final(config).wf(),
            cfg_extends(final(config)@, old(config)@),
            r.wired(final(config)@, n1.pins@, n2.pins@),
            n1.pins@.len() == 0 ==> (final(config)@ == old(config)@ && r.spec_pins()
                == n2.pins@),
            n1.pins@.len() > 0 && n2.pins@.len() == 0 ==> (final(config)@ == old(config)@
                && r.spec_pins() == n1.pins@),
            n1.pins@.len() > 0 && n2.pins@.len() > 0 ==> r.spec_pins().len() == 1 + (
            if n1.pins@.len() > n2.pins@.len() {
                n1.pins@.len()
            } else {
                n2.pins@.len()
            }),
            forall|k: int|
                0 <= k < r.spec_pins().len() ==> (#[trigger] r.spec_pins()[k]).valid(
                    final(config)@.len(),
                ),
    {
        let ghost a = n1.pins@;
        let ghost b = n2.pins@;
        if n1.size() == 0 {
            let out = copy_bus(n2);
            return BinaryAdder { output: out, chain: Ghost(None) };
        }
        if n2.size() == 0 {
            let out = copy_bus(n1);
            return BinaryAdder { output: out, chain: Ghost(None) };
        }
        let m: usize = if n1.size() <= n2.size() {
            n1.size()
        } else {
            n2.size()
        };
        let mut out: Vec<Pin> = Vec::new();
        let p0 = n1.pins[0];
        let q0 = n2.pins[0];
        let first = HalfAdder::create(config, p0, q0);
        let fl = first.low();
        out.push(fl);
        let mut carry: Pin = first.high();
        let ghost mut mids: Seq<FullAdder> = Seq::empty();
        let mut k: usize = 1;
        while k < m
            invariant
                config.wf(),
                1 <= k <= m,
                m <= a.len(),
                m <= b.len(),
                m == (if a.len() <= b.len() {
                    a.len() as int
                } else {
                    b.len() as int
                }),
                a == n1.pins@,
                b == n2.pins@,
                forall|i: int| 0 <= i < a.len() ==> (#[trigger] a[i]).valid(old(config)@.len()),
                forall|i: int| 0 <= i < b.len() ==> (#[trigger] b[i]).valid(old(config)@.len()),
                cfg_extends(config@, old(config)@),
                first.wired(config@, a[0], b[0]),
                mids.len() == k - 1,
                forall|i: int|
                    0 <= i < k - 1 ==> (#[trigger] mids[i]).wired(
                        config@,
                        a[i + 1],
                        b[i + 1],
                        mid_carry(first, mids, i),
                    ),
                carry == mid_carry(first, mids, k - 1),
                carry.valid(config@.len()),
                out@.len() == k,
                out@[0] == first.spec_low(),
                forall|i: int| 1 <= i < k ==> out@[i] == mids[i - 1].spec_sum(),
                forall|i: int| 0 <= i < k ==> (#[trigger] out@[i]).valid(config@.len()),
            decreases m - k,
        {
            let x = n1.pins[k];
            let y = n2.pins[k];
            let ghost pre = config@;
            let fa = FullAdder::create(config, x, y, carry);
            proof {
                lemma_half_adder_wired_extends(first, pre, config@, a[0], b[0]);
                assert forall|i: int| 0 <= i < k - 1 implies (#[trigger] mids[i]).wired(
                    config@,
                    a[i + 1],
                    b[i + 1],
                    mid_carry(first, mids, i),
                ) by {
                    lemma_full_adder_wired_extends(
                        mids[i],
                        pre,
                        config@,
                        a[i + 1],
                        b[i + 1],
                        mid_carry(first, mids, i),
                    );
                }
                lemma_cfg_extends_trans(config@, pre, old(config)@);
            }
            let ghost old_mids = mids;
            proof {
                mids = mids.push(fa);
                assert(mid_carry(first, mids, k - 1) == mid_carry(first, old_mids, k - 1));
                assert forall|i: int| 0 <= i < k implies (#[trigger] mids[i]).wired(
                    config@,
                    a[i + 1],
                    b[i + 1],
                    mid_carry(first, mids, i),
                ) by {
                    if i < k - 1 {
                        assert(mids[i] == old_mids[i]);
                        assert(mid_carry(first, mids, i) == mid_carry(first, old_mids, i));
                    }
                }
            }
            carry = fa.carry();
            let sp = fa.sum();
            out.push(sp);
            k += 1;
        }
        let longer: &BinaryPin = if n1.size() > n2.size() {
            n1
        } else {
            n2
        };
        let ghost longs = longer.pins@;
        let ghost big = longs.len() as int;
        let mut t: usize = m;
        let ghost mut tails: Seq<HalfAdder> = Seq::empty();
        proof {
            assert(carry == tail_carry(first, mids, tails, 0));
        }
        while t < longer.pins.len()
            invariant
                config.wf(),
                1 <= m <= t <= longs.len(),
                m <= a.len(),
                m <= b.len(),
                m == (if a.len() <= b.len() {
                    a.len() as int
                } else {
                    b.len() as int
                }),
                big == longs.len() as int,
                a == n1.pins@,
                b == n2.pins@,
                longs == (if a.len() > b.len() {
                    a
                } else {
                    b
                }),
                longs == longer.pins@,
                forall|i: int| 0 <= i < longs.len() ==> (#[trigger] longs[i]).valid(old(config)@.len()),
                cfg_extends(config@, old(config)@),
                first.wired(config@, a[0], b[0]),
                mids.len() == m - 1,
                forall|i: int|
                    0 <= i < m - 1 ==> (#[trigger] mids[i]).wired(
                        config@,
                        a[i + 1],
                        b[i + 1],
                        mid_carry(first, mids, i),
                    ),
                tails.len() == t - m,
                forall|i: int|
                    0 <= i < t - m ==> (#[trigger] tails[i]).wired(
                        config@,
                        longs[m + i],
                        tail_carry(first, mids, tails, i),
                    ),
                carry == tail_carry(first, mids, tails, t - m),
                carry.valid(config@.len()),
                out@.len() == t,
                out@[0] == first.spec_low(),
                forall|i: int| 1 <= i < m ==> out@[i] == mids[i - 1].spec_sum(),
                forall|i: int| 0 <= i < t - m ==> out@[m + i] == tails[i].spec_low(),
                forall|i: int| 0 <= i < t ==> (#[trigger] out@[i]).valid(config@.len()),
            decreases longs.len() - t,
        {
            let x = longer.pins[t];
            let ghost pre = config@;
            let ha = HalfAdder::create(config, x, carry);
            proof {
                lemma_half_adder_wired_extends(first, pre, config@, a[0], b[0]);
                assert forall|i: int| 0 <= i < m - 1 implies (#[trigger] mids[i]).wired(
                    config@,
                    a[i + 1],
                    b[i + 1],
                    mid_carry(first, mids, i),
                ) by {
                    lemma_full_adder_wired_extends(
                        mids[i],
                        pre,
                        config@,
                        a[i + 1],
                        b[i + 1],
                        mid_carry(first, mids, i),
                    );
                }
                assert forall|i: int| 0 <= i < t - m implies (#[trigger] tails[i]).wired(
                    config@,
                    longs[m + i],
                    tail_carry(first, mids, tails, i),
                ) by {
                    lemma_half_adder_wired_extends(
                        tails[i],
                        pre,
                        config@,
                        longs[m + i],
                        tail_carry(first, mids, tails, i),
                    );
                }
                lemma_cfg_extends_trans(config@, pre, old(config)@);
            }
            let ghost old_tails = tails;
            proof {
                tails = tails.push(ha);
                assert(tail_carry(first, mids, tails, t - m) == tail_carry(
                    first,
                    mids,
                    old_tails,
                    t - m,
                ));
                assert forall|i: int| 0 <= i < t - m + 1 implies (#[trigger] tails[i]).wired(
                    config@,
                    longs[m + i],
                    tail_carry(first, mids, tails, i),
                ) by {
                    if i < t - m {
                        assert(tails[i] == old_tails[i]);
                        assert(tail_carry(first, mids, tails, i) == tail_carry(
                            first,
                            mids,
                            old_tails,
                            i,
                        ));
                    }
                }
            }
            carry = ha.high();
            let lp = ha.low();
            out.push(lp);
            t += 1;
        }
        out.push(carry);
        let r = BinaryAdder {
            output: BinaryPin::wrap(out),
            chain: Ghost(Some(AdderChain { first, mids, tails })),
        };
        r
    }
}


/// Arithmetic form of the half-adder truth table: sum plus twice carry
/// equals the sum of the two input bits.
proof fn lemma_ha_stage(ha: HalfAdder, cfg: Seq<Gate>, x: Pin, y: Pin, s: Seq<bool>)
    requires
        ha.wired(cfg, x, y),
        settled(cfg, s),
    ensures
        bit_val(ha.spec_low(), s) + 2 * bit_val(ha.spec_high(), s) == bit_val(x, s) + bit_val(
            y,
            s,
        ),
{
    lemma_half_adder_settled(ha, cfg, x, y, s);
}

/// Arithmetic form of the full-adder truth table: sum plus twice carry
/// equals the sum of the three input bits.
proof fn lemma_fa_stage(fa: FullAdder, cfg: Seq<Gate>, x: Pin, y: Pin, c: Pin, s: Seq<bool>)
    requires
        fa.wired(cfg, x, y, c),
        settled(cfg, s),
    ensures
        bit_val(fa.spec_sum(), s) + 2 * bit_val(fa.spec_carry(), s) == bit_val(x, s) + bit_val(
            y,
            s,
        ) + bit_val(c, s),
{
    lemma_full_adder_settled(fa, cfg, x, y, c, s);
}

/// Ripple invariant over the overlap stages: after bits 0 through `j`,
/// the low output bits plus the running carry at weight `2^(j+1)`
/// account exactly for the consumed input bits.
proof fn lemma_mid_chain(
    first: HalfAdder,
    mids: Seq<FullAdder>,
    cfg: Seq<Gate>,
    a: Seq<Pin>,
    b: Seq<Pin>,
    out: Seq<Pin>,
    s: Seq<bool>,
    j: int,
)
    requires
        settled(cfg, s),
        0 <= j < a.len(),
        j < b.len(),
        j <= mids.len(),
        out.len() > j,
        first.wired(cfg, a[0], b[0]),
        out[0] == first.spec_low(),
        forall|k: int|
            0 <= k < mids.len() ==> (#[trigger] mids[k]).wired(
                cfg,
                a[k + 1],
                b[k + 1],
                mid_carry(first, mids, k),
            ),
        forall|k: int| 0 <= k < mids.len() && k < out.len() - 1 ==> out[k + 1] == (
        #[trigger] mids[k]).spec_sum(),
    ensures
        bus_num(out.take(j + 1), s) + pow2((j + 1) as nat) * bit_val(mid_carry(first, mids, j), s)
            == bus_num(a.take(j + 1), s) + bus_num(b.take(j + 1), s),
    decreases j,
{
    lemma2_to64();
    if j == 0 {
        lemma_ha_stage(first, cfg, a[0], b[0], s);
        assert(out.take(1) =~= Seq::<Pin>::empty().push(out[0]));
        assert(a.take(1) =~= Seq::<Pin>::empty().push(a[0]));
        assert(b.take(1) =~= Seq::<Pin>::empty().push(b[0]));
        lemma_bus_num_snoc(Seq::<Pin>::empty(), out[0], s);
        lemma_bus_num_snoc(Seq::<Pin>::empty(), a[0], s);
        lemma_bus_num_snoc(Seq::<Pin>::empty(), b[0], s);
        assert(bus_num(out.take(1), s) + pow2(1) * bit_val(mid_carry(first, mids, 0), s)
            == bus_num(a.take(1), s) + bus_num(b.take(1), s)) by (nonlinear_arith)
            requires
                bus_num(out.take(1), s) == pow2(0) * bit_val(out[0], s),
                bus_num(a.take(1), s) == pow2(0) * bit_val(a[0], s),
                bus_num(b.take(1), s) == pow2(0) * bit_val(b[0], s),
                bit_val(out[0], s) + 2 * bit_val(mid_carry(first, mids, 0), s) == bit_val(a[0], s)
                    + bit_val(b[0], s),
                pow2(0) == 1,
                pow2(1) == 2,
        ;
    } else {
        lemma_mid_chain(first, mids, cfg, a, b, out, s, j - 1);
        let fa = mids[j - 1];
        let cin = mid_carry(first, mids, j - 1);
        lemma_fa_stage(fa, cfg, a[j], b[j], cin, s);
        assert(out.take(j + 1) =~= out.take(j).push(out[j]));
        assert(a.take(j + 1) =~= a.take(j).push(a[j]));
        assert(b.take(j + 1) =~= b.take(j).push(b[j]));
        lemma_bus_num_snoc(out.take(j), out[j], s);
        lemma_bus_num_snoc(a.take(j), a[j], s);
        lemma_bus_num_snoc(b.take(j), b[j], s);
        lemma_pow2_unfold((j + 1) as nat);
        assert(out[j] == fa.spec_sum());
        assert(mid_carry(first, mids, j) == fa.spec_carry());
        assert(bus_num(out.take(j + 1), s) + pow2((j + 1) as nat) * bit_val(
            mid_carry(first, mids, j),
            s,
        ) == bus_num(a.take(j + 1), s) + bus_num(b.take(j + 1), s)) by (nonlinear_arith)
            requires
                bus_num(out.take(j + 1), s) == bus_num(out.take(j), s) + pow2(j as nat) * bit_val(
                    out[j],
                    s,
                ),
                bus_num(a.take(j + 1), s) == bus_num(a.take(j), s) + pow2(j as nat) * bit_val(
                    a[j],
                    s,
                ),
                bus_num(b.take(j + 1), s) == bus_num(b.take(j), s) + pow2(j as nat) * bit_val(
                    b[j],
                    s,
                ),
                bus_num(out.take(j), s) + pow2(j as nat) * bit_val(
                    mid_carry(first, mids, j - 1),
                    s,
                ) == bus_num(a.take(j), s) + bus_num(b.take(j), s),
                bit_val(out[j], s) + 2 * bit_val(mid_carry(first, mids, j), s) == bit_val(a[j], s)
                    + bit_val(b[j], s) + bit_val(mid_carry(first, mids, j - 1), s),
                pow2((j + 1) as nat) == 2 * pow2(j as nat),
        ;
    }
}

/// Ripple invariant over the tail stages: after `j` tail bits, the low
/// output bits plus the running carry at weight `2^(m+j)` account for
/// the narrow operand (contributing `t0`) and the consumed bits of the
/// wide one.
proof fn lemma_tail_chain(
    first: HalfAdder,
    mids: Seq<FullAdder>,
    tails: Seq<HalfAdder>,
    cfg: Seq<Gate>,
    longs: Seq<Pin>,
    out: Seq<Pin>,
    s: Seq<bool>,
    m: int,
    j: int,
    t0: nat,
)
    requires
        settled(cfg, s),
        1 <= m,
        0 <= j <= tails.len(),
        m + tails.len() <= longs.len(),
        out.len() >= m + tails.len(),
        forall|k: int|
            0 <= k < tails.len() ==> (#[trigger] tails[k]).wired(
                cfg,
                longs[m + k],
                tail_carry(first, mids, tails, k),
            ),
        forall|k: int| 0 <= k < tails.len() ==> out[m + k] == (#[trigger] tails[k]).spec_low(),
        bus_num(out.take(m), s) + pow2(m as nat) * bit_val(tail_carry(first, mids, tails, 0), s)
            == t0 + bus_num(longs.take(m), s),
    ensures
        bus_num(out.take(m + j), s) + pow2((m + j) as nat) * bit_val(
            tail_carry(first, mids, tails, j),
            s,
        ) == t0 + bus_num(longs.take(m + j), s),
    decreases j,
{
    if j > 0 {
        lemma_tail_chain(first, mids, tails, cfg, longs, out, s, m, j - 1, t0);
        let ha = tails[j - 1];
        let cin = tail_carry(first, mids, tails, j - 1);
        lemma_ha_stage(ha, cfg, longs[m + j - 1], cin, s);
        assert(out.take(m + j) =~= out.take(m + j - 1).push(out[m + j - 1]));
        assert(longs.take(m + j) =~= longs.take(m + j - 1).push(longs[m + j - 1]));
        lemma_bus_num_snoc(out.take(m + j - 1), out[m + j - 1], s);
        lemma_bus_num_snoc(longs.take(m + j - 1), longs[m + j - 1], s);
        lemma_pow2_unfold((m + j) as nat);
        assert(out[m + j - 1] == ha.spec_low());
        assert(tail_carry(first, mids, tails, j) == ha.spec_high());
        assert(bus_num(out.take(m + j), s) + pow2((m + j) as nat) * bit_val(
            tail_carry(first, mids, tails, j),
            s,
        ) == t0 + bus_num(longs.take(m + j), s)) by (nonlinear_arith)
            requires
                bus_num(out.take(m + j), s) == bus_num(out.take(m + j - 1), s) + pow2(
                    (m + j - 1) as nat,
                ) * bit_val(out[m + j - 1], s),
                bus_num(longs.take(m + j), s) == bus_num(longs.take(m + j - 1), s) + pow2(
                    (m + j - 1) as nat,
                ) * bit_val(longs[m + j - 1], s),
                bus_num(out.take(m + j - 1), s) + pow2((m + j - 1) as nat) * bit_val(
                    tail_carry(first, mids, tails, j - 1),
                    s,
                ) == t0 + bus_num(longs.take(m + j - 1), s),
                bit_val(out[m + j - 1], s) + 2 * bit_val(tail_carry(first, mids, tails, j), s)
                    == bit_val(longs[m + j - 1], s) + bit_val(
                    tail_carry(first, mids, tails, j - 1),
                    s,
                ),
                pow2((m + j) as nat) == 2 * pow2((m + j - 1) as nat),
        ;
    }
}

/// Ripple-carry adder law: at any settled snapshot, a wired binary
/// adder's output bus reads exactly the sum of its two input buses,
/// carry-out included (and, for an empty operand, the identity).
/// The ripple-chain case of the adder law, over the chain's explicit
/// wiring facts (internal step of `lemma_binary_adder_value`).
proof fn lemma_adder_main(
    ch: AdderChain,
    cfg: Seq<Gate>,
    a: Seq<Pin>,
    b: Seq<Pin>,
    out: Seq<Pin>,
    s: Seq<bool>,
)
    requires
        settled(cfg, s),
        a.len() > 0,
        b.len() > 0,
        ch.mids.len() == (if a.len() <= b.len() {
            a.len() as int
        } else {
            b.len() as int
        }) - 1,
        ch.tails.len() == (if a.len() > b.len() {
            a.len() as int
        } else {
            b.len() as int
        }) - ch.mids.len() - 1,
        out.len() == (if a.len() > b.len() {
            a.len() as int
        } else {
            b.len() as int
        }) + 1,
        ch.first.wired(cfg, a[0], b[0]),
        out[0] == ch.first.spec_low(),
        forall|k: int|
            0 <= k < ch.mids.len() ==> (#[trigger] ch.mids[k]).wired(
                cfg,
                a[k + 1],
                b[k + 1],
                mid_carry(ch.first, ch.mids, k),
            ),
        forall|k: int|
            0 <= k < ch.mids.len() ==> out[k + 1] == (#[trigger] ch.mids[k]).spec_sum(),
        forall|k: int|
            0 <= k < ch.tails.len() ==> (#[trigger] ch.tails[k]).wired(
                cfg,
                (if a.len() > b.len() {
                    a
                } else {
                    b
                })[ch.mids.len() + 1 + k],
                tail_carry(ch.first, ch.mids, ch.tails, k),
            ),
        forall|k: int|
            0 <= k < ch.tails.len() ==> out[ch.mids.len() + 1 + k] == (
            #[trigger] ch.tails[k]).spec_low(),
        out[out.len() - 1] == tail_carry(ch.first, ch.mids, ch.tails, ch.tails.len() as int),
    ensures
        bus_num(out, s) == bus_num(a, s) + bus_num(b, s),
{
    let m: int = ch.mids.len() as int + 1;
    let big: int = out.len() as int - 1;
    let longs = if a.len() > b.len() {
        a
    } else {
        b
    };
    let short = if a.len() > b.len() {
        b
    } else {
        a
    };
    lemma_mid_chain(ch.first, ch.mids, cfg, a, b, out, s, m - 1);
    assert(mid_carry(ch.first, ch.mids, m - 1) == tail_carry(ch.first, ch.mids, ch.tails, 0));
    assert(short.take(m) =~= short);
    assert(bus_num(a.take(m), s) + bus_num(b.take(m), s) == bus_num(short, s) + bus_num(
        longs.take(m),
        s,
    ));
    lemma_tail_chain(ch.first, ch.mids, ch.tails, cfg, longs, out, s, m, big - m, bus_num(short, s));
    assert(longs.take(big) =~= longs);
    assert(out.take(big).push(out[big]) =~= out);
    lemma_bus_num_snoc(out.take(big), out[big], s);
    assert(out[big] == tail_carry(ch.first, ch.mids, ch.tails, big - m));
}

/// Ripple-carry adder law: at any settled snapshot, a wired binary
/// adder's output bus reads exactly the sum of its two input buses,
/// carry-out included (and, for an empty operand, the identity).
pub proof fn lemma_binary_adder_value(
    ba: BinaryAdder,
    cfg: Seq<Gate>,
    a: Seq<Pin>,
    b: Seq<Pin>,
    s: Seq<bool>,
)
    requires
        ba.wired(cfg, a, b),
        settled(cfg, s),
    ensures
        bus_num(ba.spec_pins(), s) == bus_num(a, s) + bus_num(b, s),
{
    let out = ba.spec_pins();
    if a.len() == 0 {
        assert(bus_num(a, s) == 0);
    } else if b.len() == 0 {
        assert(bus_num(b, s) == 0);
    } else {
        match ba.chain@ {
            None => {
                assert(false);
            },
            Some(ch) => {
                lemma_adder_main(ch, cfg, a, b, out, s);
            },
        }
    }
}
/// A bus whose pin values are the little-endian binary digits of `w`
/// reads back `w` reduced modulo the bus's width (internal step of the
/// driven-bus law).
proof fn lemma_bus_of_bits(pins: Seq<Pin>, s: Seq<bool>, w: nat)
    requires
        forall|k: int|
            0 <= k < pins.len() ==> (#[trigger] pins[k]).value(s) == ((w / pow2(k as nat)) % 2
                == 1),
    ensures
        bus_num(pins, s) == w % pow2(pins.len()),
    decreases pins.len(),
{
    lemma2_to64();
    if pins.len() == 0 {
        lemma_small_mod(0, 1);
        assert(w % pow2(0) == 0) by (nonlinear_arith)
            requires
                pow2(0) == 1,
        ;
    } else {
        let n = pins.len();
        let rest = pins.subrange(1, n as int);
        let w2 = w / 2;
        assert forall|k: int| 0 <= k < rest.len() implies (#[trigger] rest[k]).value(s) == ((w2
            / pow2(k as nat)) % 2 == 1) by {
            assert(rest[k] == pins[k + 1]);
            assert(pins[k + 1].value(s) == ((w / pow2((k + 1) as nat)) % 2 == 1));
            lemma_pow2_pos(k as nat);
            lemma_div_denominator(w as int, 2, pow2(k as nat) as int);
            lemma_pow2_unfold((k + 1) as nat);
            assert(2 * pow2(k as nat) == pow2((k + 1) as nat));
        }
        lemma_bus_of_bits(rest, s, w2);
        assert(pins[0].value(s) == ((w / pow2(0)) % 2 == 1));
        assert(w / pow2(0) == w) by (nonlinear_arith)
            requires
                pow2(0) == 1,
        ;
        let r2: int = (w2 % pow2((n - 1) as nat)) as int;
        let q2: int = (w2 / pow2((n - 1) as nat)) as int;
        lemma_pow2_pos((n - 1) as nat);
        lemma_fundamental_div_mod(w2 as int, pow2((n - 1) as nat) as int);
        lemma_fundamental_div_mod(w as int, 2);
        lemma_mod_bound(w2 as int, pow2((n - 1) as nat) as int);
        lemma_mod_bound(w as int, 2);
        lemma_pow2_unfold(n);
        // w == pow2(n) * q2 + (2 * r2 + w % 2), with the remainder in range
        assert(w as int == pow2(n) as int * q2 + (2 * r2 + w as int % 2)) by (nonlinear_arith)
            requires
                w2 as int == pow2((n - 1) as nat) as int * q2 + r2,
                w as int == 2 * w2 + w as int % 2,
                pow2(n) == 2 * pow2((n - 1) as nat),
        ;
        lemma_pow2_pos(n);
        lemma_fundamental_div_mod_converse_mod(
            w as int,
            pow2(n) as int,
            q2,
            2 * r2 + w as int % 2,
        );
        assert(bus_num(pins, s) == bit_val(pins[0], s) + 2 * bus_num(rest, s));
        assert(bit_val(pins[0], s) as int == w as int % 2);
    }
}

/// Driven-bus law: once every pin of a bus is driven to the matching
/// little-endian bit of `v` (as `dummy_set_le` leaves them), any settled
/// snapshot reads the bus back as `v` reduced modulo the bus's width.
pub proof fn lemma_driven_bus_reads(cfg: Seq<Gate>, pins: Seq<Pin>, v: u64, s: Seq<bool>)
    requires
        forall|k: int|
            0 <= k < pins.len() ==> dummy_wired(cfg, #[trigger] pins[k], nth_bit(v, k as nat)),
        settled(cfg, s),
    ensures
        bus_num(pins, s) == (v as nat) % pow2(pins.len()),
{
    assert forall|k: int| 0 <= k < pins.len() implies (#[trigger] pins[k]).value(s) == (((
    v as nat) / pow2(k as nat)) % 2 == 1) by {
        crate::lemma_dummy_settled(cfg, pins[k], nth_bit(v, k as nat), s);
    }
    lemma_bus_of_bits(pins, s, v as nat);
}

/// Round-trip law: with the adder wired over two driven input buses,
/// any settled snapshot reads the output bus as exactly the sum of the
/// two written integers (each reduced to its bus's width), carry-out
/// included.
pub proof fn lemma_adder_round_trip(
    ba: BinaryAdder,
    cfg: Seq<Gate>,
    a: Seq<Pin>,
    b: Seq<Pin>,
    x: u64,
    y: u64,
    s: Seq<bool>,
)
    requires
        ba.wired(cfg, a, b),
        forall|k: int| 0 <= k < a.len() ==> dummy_wired(cfg, #[trigger] a[k], nth_bit(x, k as nat)),
        forall|k: int| 0 <= k < b.len() ==> dummy_wired(cfg, #[trigger] b[k], nth_bit(y, k as nat)),
        settled(cfg, s),
    ensures
        bus_num(ba.spec_pins(), s) == (x as nat) % pow2(a.len()) + (y as nat) % pow2(b.len()),
{
    lemma_driven_bus_reads(cfg, a, x, s);
    lemma_driven_bus_reads(cfg, b, y, s);
    lemma_binary_adder_value(ba, cfg, a, b, s);
}

} // verus!
