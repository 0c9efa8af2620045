//! The boolean constraint graph and its construction interface.
//!
//! A [`CircuitBuilder`] owns an append-only list of gates over GF(2) — inputs,
//! constants, exclusive-or and logical-and — together with a valuation that
//! assigns every wire the value it evaluates to under the input assignment
//! chosen at construction time.  Gadgets only ever append gates, so a wire's
//! value never changes once allocated.

use vstd::prelude::*;

verus! {

/// One node of the constraint graph.  `Xor` and `And` hold the indices of
/// their two operand wires, which always precede it in the list.
#[derive(Clone, Copy, PartialEq, Eq, Debug)]
pub enum Gate {
    /// A wire carrying a fixed constant.
    Constant(bool),
    /// A free input wire; its value is chosen when the wire is allocated.
    Input,
    /// Exclusive-or (addition in GF(2)) of two earlier wires.
    Xor(usize, usize),
    /// Logical-and (multiplication in GF(2)) of two earlier wires.
    And(usize, usize),
}

/// An opaque handle to one wire of the constraint graph.
#[derive(Clone, Copy, Debug)]
pub struct Bit {
    pub wire: usize,
}

/// The construction context: the list of gates, the valuation, and the
/// equality constraints registered so far.
pub struct CircuitBuilder {
    pub gates: Vec<Gate>,
    pub vals: Vec<bool>,
    pub constraints: Vec<(usize, usize)>,
}

impl CircuitBuilder {
    /// Number of wires allocated so far.
    pub open spec fn wires(self) -> nat {
        self.gates@.len()
    }

    /// The value the valuation assigns to `b`.
    pub open spec fn val(self, b: Bit) -> bool {
        self.vals@[b.wire as int]
    }

    /// `b` is a wire this builder has allocated.
    pub open spec fn live(self, b: Bit) -> bool {
        b.wire < self.gates@.len()
    }

    /// A node at index `i` names only earlier wires and its value agrees
    /// with the values of its operands.
    pub open spec fn gate_ok(self, i: int) -> bool {
        match self.gates@[i] {
            Gate::Constant(c) => self.vals@[i] == c,
            Gate::Input => true,
            Gate::Xor(x, y) => x < i && y < i && self.vals@[i] == (self.vals@[x as int]
                != self.vals@[y as int]),
            Gate::And(x, y) => x < i && y < i && self.vals@[i] == (self.vals@[x as int]
                && self.vals@[y as int]),
        }
    }

    /// The builder is well formed: one value per gate, every gate acyclic and
    /// consistent with the valuation, every constraint between allocated wires.
    pub open spec fn wf(self) -> bool {
        &&& self.vals@.len() == self.gates@.len()
        &&& forall|i: int| 0 <= i < self.gates@.len() ==> self.gate_ok(i)
        &&& forall|i: int|
            0 <= i < self.constraints@.len() ==> self.constraints@[i].0 < self.gates@.len()
                && self.constraints@[i].1 < self.gates@.len()
    }

    /// `self` is `pre` with zero or more gates and constraints appended; no
    /// existing wire or value has changed.
    pub open spec fn extends(self, pre: Self) -> bool {
        &&& pre.gates@.len() <= self.gates@.len()
        &&& pre.vals@.len() <= self.vals@.len()
        &&& pre.constraints@.len() <= self.constraints@.len()
        &&& forall|i: int| 0 <= i < pre.gates@.len() ==> self.gates@[i] == pre.gates@[i]
        &&& forall|i: int| 0 <= i < pre.vals@.len() ==> self.vals@[i] == pre.vals@[i]
        &&& forall|i: int|
            0 <= i < pre.constraints@.len() ==> self.constraints@[i] == pre.constraints@[i]
    }

    /// Every registered equality constraint is satisfied by the valuation.
    pub open spec fn constraints_hold(self) -> bool {
        forall|i: int|
            0 <= i < self.constraints@.len() ==> self.vals@[self.constraints@[i].0 as int]
                == self.vals@[self.constraints@[i].1 as int]
    }

    /// Appending one consistent gate keeps the builder well formed.
    proof fn lemma_push_gate(pre: CircuitBuilder, post: CircuitBuilder, g: Gate, v: bool)
        requires
            pre.wf(),
            post.gates@ == pre.gates@.push(g),
            post.vals@ == pre.vals@.push(v),
            post.constraints@ == pre.constraints@,
            match g {
                Gate::Constant(c) => v == c,
                Gate::Input => true,
                Gate::Xor(x, y) => x < pre.gates@.len() && y < pre.gates@.len() && v == (
                pre.vals@[x as int] != pre.vals@[y as int]),
                Gate::And(x, y) => x < pre.gates@.len() && y < pre.gates@.len() && v == (
                pre.vals@[x as int] && pre.vals@[y as int]),
            },
        ensures
            post.wf(),
            post.extends(pre),
    {
        assert forall|i: int| 0 <= i < post.gates@.len() implies post.gate_ok(i) by {
            if i < pre.gates@.len() {
                assert(pre.gate_ok(i));
            }
        }
    }

    /// An empty graph.
    pub fn new() -> (r: CircuitBuilder)
        ensures
            r.wf(),
            r.wires() == 0,
            r.constraints@.len() == 0,
            r.constraints_hold(),
    {
        CircuitBuilder { gates: Vec::new(), vals: Vec::new(), constraints: Vec::new() }
    }

    /// Allocate a wire holding the fixed constant `value`.
    pub fn constant(&mut self, value: bool) -> (r: Bit)
        requires
            old(self).wf(),
        ensures
            final(self).wf(),
            final(self).extends(*old(self)),
            final(self).gates@ == old(self).gates@.push(Gate::Constant(value)),
            final(self).vals@ == old(self).vals@.push(value),
            final(self).constraints@ == old(self).constraints@,
            r.wire == old(self).wires(),
            final(self).live(r),
            final(self).val(r) == value,
    {
        let ghost pre = *self;
        let w = self.gates.len();
        self.gates.push(Gate::Constant(value));
        self.vals.push(value);
        proof {
            Self::lemma_push_gate(pre, *self, Gate::Constant(value), value);
        }
        Bit { wire: w }
    }

    /// Allocate a fresh input wire carrying `value` under the builder's
    /// valuation.  The circuit itself leaves the wire unconstrained.
    pub fn input(&mut self, value: bool) -> (r: Bit)
        requires
            old(self).wf(),
        ensures
            final(self).wf(),
            final(self).extends(*old(self)),
            final(self).gates@ == old(self).gates@.push(Gate::Input),
            final(self).vals@ == old(self).vals@.push(value),
            final(self).constraints@ == old(self).constraints@,
            r.wire == old(self).wires(),
            final(self).live(r),
            final(self).val(r) == value,
    {
        let ghost pre = *self;
        let w = self.gates.len();
        self.gates.push(Gate::Input);
        self.vals.push(value);
        proof {
            Self::lemma_push_gate(pre, *self, Gate::Input, value);
        }
        Bit { wire: w }
    }

    /// Allocate the exclusive-or of two earlier wires.
    pub fn xor_gate(&mut self, x: Bit, y: Bit) -> (r: Bit)
        requires
            old(self).wf(),
            old(self).live(x),
            old(self).live(y),
        ensures
            final(self).wf(),
            final(self).extends(*old(self)),
            final(self).wires() == old(self).wires() + 1,
            final(self).constraints@ == old(self).constraints@,
            r.wire == old(self).wires(),
            final(self).live(r),
            final(self).val(r) == (old(self).val(x) != old(self).val(y)),
    {
        let ghost pre = *self;
        let w = self.gates.len();
        let v = self.vals[x.wire] != self.vals[y.wire];
        self.gates.push(Gate::Xor(x.wire, y.wire));
        self.vals.push(v);
        proof {
            Self::lemma_push_gate(pre, *self, Gate::Xor(x.wire, y.wire), v);
        }
        Bit { wire: w }
    }

    /// Allocate the logical-and of two earlier wires.
    pub fn and_gate(&mut self, x: Bit, y: Bit) -> (r: Bit)
        requires
            old(self).wf(),
            old(self).live(x),
            old(self).live(y),
        ensures
            final(self).wf(),
            final(self).extends(*old(self)),
            final(self).wires() == old(self).wires() + 1,
            final(self).constraints@ == old(self).constraints@,
            r.wire == old(self).wires(),
            final(self).live(r),
            final(self).val(r) == (old(self).val(x) && old(self).val(y)),
    {
        let ghost pre = *self;
        let w = self.gates.len();
        let v = self.vals[x.wire] && self.vals[y.wire];
        self.gates.push(Gate::And(x.wire, y.wire));
        self.vals.push(v);
        proof {
            Self::lemma_push_gate(pre, *self, Gate::And(x.wire, y.wire), v);
        }
        Bit { wire: w }
    }

    /// Register the hard constraint that `x` and `y` carry equal values.
    pub fn assert_equal(&mut self, x: Bit, y: Bit)
        requires
            old(self).wf(),
            old(self).live(x),
            old(self).live(y),
        ensures
            final(self).wf(),
            final(self).extends(*old(self)),
            final(self).gates@ == old(self).gates@,
            final(self).vals@ == old(self).vals@,
            final(self).constraints@ == old(self).constraints@.push((x.wire, y.wire)),
            final(self).constraints_hold() <==> old(self).constraints_hold() && old(self).val(x)
                == old(self).val(y),
    {
        let ghost pre = *self;
        self.constraints.push((x.wire, y.wire));
        proof {
            assert forall|i: int| 0 <= i < self.gates@.len() implies self.gate_ok(i) by {
                assert(pre.gate_ok(i));
            }
            if pre.constraints_hold() && pre.val(x) == pre.val(y) {
                assert forall|i: int|
                    0 <= i < self.constraints@.len() implies self.vals@[self.constraints@[i].0 as int]
                    == self.vals@[self.constraints@[i].1 as int] by {
                    if i < pre.constraints@.len() {
                        assert(pre.vals@[pre.constraints@[i].0 as int] == pre.vals@[pre.constraints@[i].1 as int]);
                    }
                }
            }
            if self.constraints_hold() {
                assert(self.vals@[self.constraints@[pre.constraints@.len() as int].0 as int]
                    == self.vals@[self.constraints@[pre.constraints@.len() as int].1 as int]);
                assert forall|i: int|
                    0 <= i < pre.constraints@.len() implies pre.vals@[pre.constraints@[i].0 as int]
                    == pre.vals@[pre.constraints@[i].1 as int] by {
                    assert(self.vals@[self.constraints@[i].0 as int] == self.vals@[self.constraints@[i].1 as int]);
                }
            }
        }
    }

    /// Read the value the valuation assigns to `b`.
    pub fn value(&self, b: Bit) -> (r: bool)
        requires
            self.wf(),
            self.live(b),
        ensures
            r == self.val(b),
    {
        self.vals[b.wire]
    }

    /// Number of wires allocated so far.
    pub fn wire_count(&self) -> (r: usize)
        ensures
            r == self.wires(),
    {
        self.gates.len()
    }
}

/// Every handle in `bs` is a wire `cb` has allocated.
pub open spec fn live_seq(cb: CircuitBuilder, bs: Seq<Bit>) -> bool {
    forall|i: int| 0 <= i < bs.len() ==> cb.live(bs[i])
}

/// The values `cb` assigns to the wires of `bs`, in order.
pub open spec fn vals_of(cb: CircuitBuilder, bs: Seq<Bit>) -> Seq<bool> {
    Seq::new(bs.len(), |i: int| cb.val(bs[i]))
}

/// Growing the graph changes no existing wire: liveness and values of earlier
/// handles carry over to the extended builder.
pub broadcast proof fn lemma_vals_of_stable(post: CircuitBuilder, pre: CircuitBuilder, bs: Seq<Bit>)
    requires
        #[trigger] post.extends(pre),
        pre.wf(),
        live_seq(pre, bs),
    ensures
        live_seq(post, bs),
        #[trigger] vals_of(post, bs) == vals_of(pre, bs),
{
    assert(vals_of(post, bs) =~= vals_of(pre, bs));
}

/// Extension is transitive.
pub broadcast proof fn lemma_extends_trans(c: CircuitBuilder, b: CircuitBuilder, a: CircuitBuilder)
    requires
        #[trigger] c.extends(b),
        #[trigger] b.extends(a),
    ensures
        c.extends(a),
{
}

} // verus!
