use vstd::prelude::*;

verus! {

/// Bit pattern of the single-precision number `1.0`.
pub const ONE: u32 = 0x3f80_0000;

/// Bit pattern of the single-precision number `+0.0`.
pub const ZERO: u32 = 0;

/// Operation symbols of the four binary operators.
pub const ADD: char = '+';
pub const SUB: char = '-';
pub const MUL: char = '*';
pub const DIV: char = '/';

/// A single-precision number is zero when every bit but the sign is clear.
pub open spec fn is_zero_bits(b: u32) -> bool {
    b == 0u32 || b == 0x8000_0000u32
}

/// `c` is the symbol of one of the four binary operators.
pub open spec fn is_arith_op(c: char) -> bool {
    c == ADD || c == SUB || c == MUL || c == DIV
}

/// Errors reported while building a graph or running the backward pass.
#[derive(Debug, Clone, Copy, PartialEq, Eq, Structural)]
pub enum GraphError {
    /// A division whose divisor is zero.
    DivisionByZero,
    /// An operand index that names no node of the graph.
    UnknownNode(usize),
    /// An operator node whose operand count is not two.
    Malformed(usize),
    /// A node whose operation symbol has no derivative rule.
    Unsupported(usize),
}

/// A scalar node: its forward value, its gradient accumulator, the operation
/// that produced it (`None` for a leaf) and the indices of its operands.
#[derive(Debug, Clone)]
pub struct Value {
    pub number: u32,
    pub gradient: u32,
    pub operation: Option<char>,
    pub children: Vec<usize>,
}

impl Value {
    /// A leaf holding `number`, with a zero gradient.
    pub fn new(number: u32) -> (r: Value)
        ensures
            r.number == number,
            r.gradient == ZERO,
            r.operation is None,
            r.children@ == Seq::<usize>::empty(),
    {
        Value { number, gradient: ZERO, operation: None, children: Vec::new() }
    }

    /// A node with every field given by the caller.
    pub fn new_manual(number: u32, children: Vec<usize>, operation: Option<char>, gradient: u32) -> (r: Value)
        ensures
            r.number == number,
            r.gradient == gradient,
            r.operation == operation,
            r.children@ == children@,
    {
        Value { number, gradient, operation, children }
    }

    /// The forward value.
    pub fn get(&self) -> (r: u32)
        ensures
            r == self.number,
    {
        self.number
    }
}

/// `v` is the node that applying `op` to nodes `a` and `b` yields, with
/// forward value `number` and a zero gradient.
pub open spec fn is_composite(v: Value, op: char, a: usize, b: usize, number: u32) -> bool {
    &&& v.number == number
    &&& v.gradient == ZERO
    &&& v.operation == Some(op)
    &&& v.children@ == seq![a, b]
}

/// Every operand of node `i` was built before it.
pub open spec fn operands_precede(nodes: Seq<Value>, i: int) -> bool {
    forall|j: int| 0 <= j < nodes[i].children@.len() ==> (#[trigger] nodes[i].children@[j]) < i
}

/// Every node's operands were built before it.
pub open spec fn graph_wf(nodes: Seq<Value>) -> bool {
    forall|i: int| 0 <= i < nodes.len() ==> #[trigger] operands_precede(nodes, i)
}

/// An arena of nodes; operands always refer to earlier nodes.
pub struct Graph {
    nodes: Vec<Value>,
}

impl View for Graph {
    type V = Seq<Value>;

    closed spec fn view(&self) -> Seq<Value> {
        self.nodes@
    }
}

impl Graph {
    pub open spec fn wf(&self) -> bool {
        graph_wf(self@)
    }

    /// An empty graph.
    pub fn new() -> (r: Graph)
        ensures
            r.wf(),
            r@ == Seq::<Value>::empty(),
    {
        Graph { nodes: Vec::new() }
    }

    pub fn len(&self) -> (r: usize)
        ensures
            r == self@.len(),
    {
        self.nodes.len()
    }

    /// The node at index `i`.
    pub fn node(&self, i: usize) -> (r: &Value)
        requires
            i < self@.len(),
        ensures
            *r == self@[i as int],
    {
        &self.nodes[i]
    }

    /// Adds `v` as a new node and returns its index; fails, leaving the graph
    /// unchanged, when an operand index names no existing node.
    pub fn insert(&mut self, v: Value) -> (r: Result<usize, GraphError>)
        requires
            old(self).wf(),
        ensures
            final(self).wf(),
            match r {
                Ok(i) => {
                    &&& i == old(self)@.len()
                    &&& final(self)@ == old(self)@.push(v)
                    &&& forall|j: int| 0 <= j < v.children@.len() ==> #[trigger] v.children@[j] < i
                },
                Err(e) => {
                    &&& final(self)@ == old(self)@
                    &&& e is UnknownNode
                    &&& v.children@.contains(e->UnknownNode_0)
                    &&& e->UnknownNode_0 >= old(self)@.len()
                },
            },
    {
        let n = self.nodes.len();
        let mut k: usize = 0;
        while k < v.children.len()
            invariant
                self@ == old(self)@,
                self.wf(),
                n == self@.len(),
                k <= v.children@.len(),
                forall|j: int| 0 <= j < k ==> #[trigger] v.children@[j] < n,
            decreases v.children@.len() - k,
        {
            let c = v.children[k];
            if c >= n {
                return Err(GraphError::UnknownNode(c));
            }
            k += 1;
        }
        self.nodes.push(v);
        proof {
            assert forall|i: int| 0 <= i < self@.len() implies #[trigger] operands_precede(self@, i) by {
                if i < n {
                    assert(operands_precede(old(self)@, i));
                    assert(self@[i] == old(self)@[i]);
                }
            }
        }
        Ok(n)
    }

    /// Adds a leaf holding `number` and returns its index.
    pub fn leaf(&mut self, number: u32) -> (r: usize)
        requires
            old(self).wf(),
        ensures
            final(self).wf(),
            r == old(self)@.len(),
            final(self)@ == old(self)@.push(final(self)@[r as int]),
            final(self)@[r as int].number == number,
            final(self)@[r as int].gradient == ZERO,
            final(self)@[r as int].operation is None,
            final(self)@[r as int].children@ == Seq::<usize>::empty(),
    {
        let r = self.insert(Value::new(number));
        match r {
            Ok(i) => i,
            Err(_) => {
                proof { assert(false); }
                0
            }
        }
    }

    /// Appends the node `op(a, b)` whose forward value the caller computed.
    pub(crate) fn apply(&mut self, op: char, a: usize, b: usize, number: u32) -> (r: usize)
        requires
            old(self).wf(),
            a < old(self)@.len(),
            b < old(self)@.len(),
        ensures
            final(self).wf(),
            r == old(self)@.len(),
            final(self)@ == old(self)@.push(final(self)@[r as int]),
            is_composite(final(self)@[r as int], op, a, b, number),
    {
        let v = Value::new_manual(number, vec![a, b], Some(op), ZERO);
        let r = self.insert(v);
        match r {
            Ok(i) => i,
            Err(e) => {
                proof {
                    let c = e->UnknownNode_0;
                    assert(v.children@ =~= seq![a, b]);
                    assert(v.children@.contains(c));
                    let j = choose|j: int| 0 <= j < v.children@.len() && v.children@[j] == c;
                    assert(j == 0 || j == 1);
                }
                0
            },
        }
    }

    /// The gradient accumulated in node `i`.
    pub fn gradient(&self, i: usize) -> (r: u32)
        requires
            i < self@.len(),
        ensures
            r == self@[i as int].gradient,
    {
        self.nodes[i].gradient
    }

    /// Overwrites the gradient of node `i`; nothing else changes.
    pub fn set_gradient(&mut self, i: usize, gradient: u32)
        requires
            old(self).wf(),
            i < old(self)@.len(),
        ensures
            final(self).wf(),
            final(self)@.len() == old(self)@.len(),
            final(self)@[i as int].gradient == gradient,
            final(self)@[i as int].number == old(self)@[i as int].number,
            final(self)@[i as int].operation == old(self)@[i as int].operation,
            final(self)@[i as int].children@ == old(self)@[i as int].children@,
            forall|j: int| 0 <= j < old(self)@.len() && j != i ==> final(self)@[j] == old(self)@[j],
    {
        let children = self.nodes[i].children.clone();
        proof {
            assert(children@ =~= self@[i as int].children@);
        }
        let v = Value {
            number: self.nodes[i].number,
            gradient,
            operation: self.nodes[i].operation,
            children,
        };
        self.nodes.set(i, v);
        proof {
            assert forall|j: int| 0 <= j < self@.len() implies #[trigger] operands_precede(self@, j) by {
                assert(operands_precede(old(self)@, j));
                assert(self@[j].children@ == old(self)@[j].children@);
            }
        }
    }
}

/// A handle on a node of a [`Graph`]: its index.
#[derive(Debug, Clone, Copy, PartialEq, Eq, Structural)]
pub struct V(pub usize);

impl V {
    /// Adds a leaf holding `number` to `g`.
    pub fn new(g: &mut Graph, number: u32) -> (r: V)
        requires
            old(g).wf(),
        ensures
            final(g).wf(),
            r.0 == old(g)@.len(),
            final(g)@ == old(g)@.push(final(g)@[r.0 as int]),
            final(g)@[r.0 as int].number == number,
            final(g)@[r.0 as int].gradient == ZERO,
            final(g)@[r.0 as int].operation is None,
            final(g)@[r.0 as int].children@ == Seq::<usize>::empty(),
    {
        V(g.leaf(number))
    }

    /// Appends the sum of this node and `other`; `number` is its forward value.
    pub fn add(&self, g: &mut Graph, other: &V, number: u32) -> (r: V)
        requires
            old(g).wf(),
            self.0 < old(g)@.len(),
            other.0 < old(g)@.len(),
        ensures
            final(g).wf(),
            r.0 == old(g)@.len(),
            final(g)@ == old(g)@.push(final(g)@[r.0 as int]),
            is_composite(final(g)@[r.0 as int], ADD, self.0, other.0, number),
    {
        V(g.apply(ADD, self.0, other.0, number))
    }

    /// Appends the difference of this node and `other`; `number` is its forward value.
    pub fn sub(&self, g: &mut Graph, other: &V, number: u32) -> (r: V)
        requires
            old(g).wf(),
            self.0 < old(g)@.len(),
            other.0 < old(g)@.len(),
        ensures
            final(g).wf(),
            r.0 == old(g)@.len(),
            final(g)@ == old(g)@.push(final(g)@[r.0 as int]),
            is_composite(final(g)@[r.0 as int], SUB, self.0, other.0, number),
    {
        V(g.apply(SUB, self.0, other.0, number))
    }

    /// Appends the product of this node and `other`; `number` is its forward value.
    pub fn mul(&self, g: &mut Graph, other: &V, number: u32) -> (r: V)
        requires
            old(g).wf(),
            self.0 < old(g)@.len(),
            other.0 < old(g)@.len(),
        ensures
            final(g).wf(),
            r.0 == old(g)@.len(),
            final(g)@ == old(g)@.push(final(g)@[r.0 as int]),
            is_composite(final(g)@[r.0 as int], MUL, self.0, other.0, number),
    {
        V(g.apply(MUL, self.0, other.0, number))
    }

    /// Appends the quotient of this node and `other`; `number` is its forward
    /// value. A zero divisor is rejected and no node is added.
    pub fn div(&self, g: &mut Graph, other: &V, number: u32) -> (r: Result<V, GraphError>)
        requires
            old(g).wf(),
            self.0 < old(g)@.len(),
            other.0 < old(g)@.len(),
        ensures
            final(g).wf(),
            is_zero_bits(old(g)@[other.0 as int].number) <==> r is Err,
            match r {
                Ok(v) => {
                    &&& v.0 == old(g)@.len()
                    &&& final(g)@ == old(g)@.push(final(g)@[v.0 as int])
                    &&& is_composite(final(g)@[v.0 as int], DIV, self.0, other.0, number)
                },
                Err(e) => {
                    &&& e == GraphError::DivisionByZero
                    &&& final(g)@ == old(g)@
                },
            },
    {
        let d = g.node(other.0).number;
        if d == 0u32 || d == 0x8000_0000u32 {
            return Err(GraphError::DivisionByZero);
        }
        Ok(V(g.apply(DIV, self.0, other.0, number)))
    }

    /// The gradient accumulated in this node.
    pub fn grad(&self, g: &Graph) -> (r: u32)
        requires
            self.0 < g@.len(),
        ensures
            r == g@[self.0 as int].gradient,
    {
        g.gradient(self.0)
    }
}

} // verus!
