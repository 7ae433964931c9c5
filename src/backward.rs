use vstd::prelude::*;
use crate::value::{Graph, GraphError, Value, V, graph_wf, operands_precede, is_arith_op, ADD, SUB, MUL, DIV, ONE};

verus! {

/// Node `i` can be reached from `root` by following operand links.
///
/// Operands always have smaller indices than their parents, so a path from
/// `root` to `i` ends in a parent `p` with `i < p <= root`.
pub open spec fn reachable(nodes: Seq<Value>, root: int, i: int) -> bool
    decreases root - i,
{
    if i == root {
        0 <= root < nodes.len()
    } else if i < 0 || i > root {
        false
    } else {
        exists|p: int| i < p <= root && #[trigger] nodes[p].children@.contains(i as usize) && reachable(nodes, root, p)
    }
}

/// Some reachable node with index in `lo..=root` has `j` as an operand.
pub open spec fn reached_from_above(nodes: Seq<Value>, root: int, lo: int, j: int) -> bool {
    exists|p: int| lo <= p <= root && #[trigger] nodes[p].children@.contains(j as usize) && reachable(nodes, root, p)
}

/// `j` is among the first `m` elements of `s`.
pub open spec fn in_prefix(s: Seq<usize>, m: int, j: int) -> bool {
    exists|q: int| 0 <= q < m && s[q] == j
}

/// The nodes below index `hi` that are reachable from `root`, by descending index.
pub open spec fn reach_desc(nodes: Seq<Value>, root: int, hi: int) -> Seq<usize>
    decreases hi,
{
    if hi <= 0 {
        Seq::empty()
    } else if reachable(nodes, root, hi - 1) {
        seq![(hi - 1) as usize] + reach_desc(nodes, root, hi - 1)
    } else {
        reach_desc(nodes, root, hi - 1)
    }
}

/// Every node reachable from `root`, each once, parents before their operands.
pub open spec fn topo_order(nodes: Seq<Value>, root: int) -> Seq<usize> {
    reach_desc(nodes, root, root + 1)
}

pub open spec fn strictly_descending(s: Seq<usize>) -> bool {
    forall|a: int, b: int| 0 <= a < b < s.len() ==> s[a] > s[b]
}

proof fn lemma_reach_desc(nodes: Seq<Value>, root: int, hi: int)
    requires
        0 <= hi <= usize::MAX,
    ensures
        strictly_descending(reach_desc(nodes, root, hi)),
        forall|k: int| 0 <= k < reach_desc(nodes, root, hi).len() ==> #[trigger] reach_desc(nodes, root, hi)[k] < hi,
        forall|i: usize| i < hi ==> (reach_desc(nodes, root, hi).contains(i) <==> reachable(nodes, root, i as int)),
        forall|k: int| 0 <= k < reach_desc(nodes, root, hi).len() ==> reachable(nodes, root, #[trigger] reach_desc(nodes, root, hi)[k] as int),
    decreases hi,
{
    if hi > 0 {
        lemma_reach_desc(nodes, root, hi - 1);
        let rest = reach_desc(nodes, root, hi - 1);
        if reachable(nodes, root, hi - 1) {
            let s = seq![(hi - 1) as usize] + rest;
            assert(reach_desc(nodes, root, hi) == s);
            assert forall|k: int| 0 < k < s.len() implies s[k] == rest[k - 1] by {}
            assert forall|i: usize| i < hi implies (s.contains(i) <==> reachable(nodes, root, i as int)) by {
                if i < hi - 1 {
                    if rest.contains(i) {
                        let k = choose|k: int| 0 <= k < rest.len() && rest[k] == i;
                        assert(s[k + 1] == i);
                    }
                    if s.contains(i) {
                        let k = choose|k: int| 0 <= k < s.len() && s[k] == i;
                        assert(k != 0);
                        assert(rest[k - 1] == i);
                    }
                } else {
                    assert(s[0] == i);
                }
            }
        } else {
            assert forall|i: usize| i < hi implies (rest.contains(i) <==> reachable(nodes, root, i as int)) by {
                if i == hi - 1 && rest.contains(i) {
                    let k = choose|k: int| 0 <= k < rest.len() && rest[k] == i;
                }
            }
        }
    }
}

/// The order is strictly descending, starts at `root`, and holds exactly the
/// nodes reachable from `root`.
pub proof fn lemma_topo_order(nodes: Seq<Value>, root: int)
    requires
        0 <= root < nodes.len(),
        root < usize::MAX,
    ensures
        strictly_descending(topo_order(nodes, root)),
        topo_order(nodes, root).len() > 0,
        topo_order(nodes, root)[0] == root,
        forall|k: int| 0 <= k < topo_order(nodes, root).len() ==> #[trigger] topo_order(nodes, root)[k] <= root,
        forall|i: usize| topo_order(nodes, root).contains(i) <==> reachable(nodes, root, i as int),
{
    lemma_reach_desc(nodes, root, root + 1);
    assert(reachable(nodes, root, root));
    assert(topo_order(nodes, root) == seq![root as usize] + reach_desc(nodes, root, root));
    assert forall|i: usize| topo_order(nodes, root).contains(i) <==> reachable(nodes, root, i as int) by {
        if reachable(nodes, root, i as int) {
            assert(i <= root);
        }
        if topo_order(nodes, root).contains(i) {
            let k = choose|k: int| 0 <= k < topo_order(nodes, root).len() && topo_order(nodes, root)[k] == i;
            assert(topo_order(nodes, root)[k] <= root);
        }
    }
}

/// The local derivative of a node with respect to one operand, in terms of
/// the forward values of the nodes it names.
#[derive(Debug, Clone, Copy, PartialEq, Eq, Structural)]
pub enum Factor {
    /// The constant one.
    One,
    /// The constant minus one.
    MinusOne,
    /// The value of the node at this index.
    ValueOf(usize),
    /// One over the value of the node at this index.
    Reciprocal(usize),
    /// Minus the first node's value over the square of the second's.
    NegQuotientBySquare(usize, usize),
}

/// One accumulation of the backward pass:
/// `gradient[target] += gradient[source] * factor`.
#[derive(Debug, Clone, Copy, PartialEq, Eq, Structural)]
pub struct Step {
    pub source: usize,
    pub target: usize,
    pub factor: Factor,
}

/// The derivative of `l op r` with respect to `l`.
pub open spec fn left_factor(op: char, l: usize, r: usize) -> Factor {
    if op == ADD || op == SUB {
        Factor::One
    } else if op == MUL {
        Factor::ValueOf(r)
    } else {
        Factor::Reciprocal(r)
    }
}

/// The derivative of `l op r` with respect to `r`.
pub open spec fn right_factor(op: char, l: usize, r: usize) -> Factor {
    if op == ADD {
        Factor::One
    } else if op == SUB {
        Factor::MinusOne
    } else if op == MUL {
        Factor::ValueOf(l)
    } else {
        Factor::NegQuotientBySquare(l, r)
    }
}

/// The steps by which node `v`, at `index`, passes its gradient on to its
/// operands; a leaf passes nothing on.
pub open spec fn local_rule(v: Value, index: usize) -> Result<Seq<Step>, GraphError> {
    match v.operation {
        None => Ok(Seq::empty()),
        Some(op) => if !is_arith_op(op) {
            Err(GraphError::Unsupported(index))
        } else if v.children@.len() != 2 {
            Err(GraphError::Malformed(index))
        } else {
            let l = v.children@[0];
            let r = v.children@[1];
            Ok(seq![
                Step { source: index, target: l, factor: left_factor(op, l, r) },
                Step { source: index, target: r, factor: right_factor(op, l, r) },
            ])
        },
    }
}

/// The local steps of the nodes of `order`, one node after the other, or the
/// error of the first node that has no valid rule.
pub open spec fn schedule(nodes: Seq<Value>, order: Seq<usize>) -> Result<Seq<Step>, GraphError>
    decreases order.len(),
{
    if order.len() == 0 {
        Ok(Seq::empty())
    } else {
        match schedule(nodes, order.drop_last()) {
            Err(e) => Err(e),
            Ok(s) => match local_rule(nodes[order.last() as int], order.last()) {
                Err(e) => Err(e),
                Ok(t) => Ok(s + t),
            },
        }
    }
}

/// Two nodes that differ at most in their gradients.
pub open spec fn same_structure(a: Value, b: Value) -> bool {
    &&& a.number == b.number
    &&& a.operation == b.operation
    &&& a.children@ == b.children@
}

proof fn lemma_schedule_prefix_err(nodes: Seq<Value>, s: Seq<usize>, i: int)
    requires
        0 <= i <= s.len(),
        schedule(nodes, s.subrange(0, i)) is Err,
    ensures
        schedule(nodes, s) == schedule(nodes, s.subrange(0, i)),
    decreases s.len(),
{
    if i == s.len() {
        assert(s.subrange(0, i) == s);
    } else {
        assert(s.drop_last().subrange(0, i) == s.subrange(0, i));
        lemma_schedule_prefix_err(nodes, s.drop_last(), i);
    }
}

proof fn lemma_schedule_shape(nodes: Seq<Value>, order: Seq<usize>)
    requires
        graph_wf(nodes),
        strictly_descending(order),
        forall|k: int| 0 <= k < order.len() ==> #[trigger] order[k] < nodes.len(),
        schedule(nodes, order) is Ok,
    ensures
        ({
            let steps = schedule(nodes, order)->Ok_0;
            &&& forall|k: int| 0 <= k < steps.len() ==> {
                &&& order.contains(#[trigger] steps[k].source)
                &&& nodes[steps[k].source as int].children@.contains(steps[k].target)
                &&& steps[k].target < steps[k].source
            }
            &&& forall|a: int, b: int| 0 <= a <= b < steps.len() ==> #[trigger] steps[b].target < #[trigger] steps[a].source
        }),
    decreases order.len(),
{
    if order.len() > 0 {
        let prefix = order.drop_last();
        let n = order.last();
        assert forall|k: int| 0 <= k < prefix.len() implies #[trigger] prefix[k] > n by {
            assert(order[k] > order[order.len() - 1]);
        }
        lemma_schedule_shape(nodes, prefix);
        let s = schedule(nodes, prefix)->Ok_0;
        let t = local_rule(nodes[n as int], n)->Ok_0;
        let steps = schedule(nodes, order)->Ok_0;
        assert(steps == s + t);
        assert(operands_precede(nodes, n as int));
        assert forall|k: int| 0 <= k < t.len() implies {
            &&& (#[trigger] t[k]).source == n
            &&& nodes[n as int].children@.contains(t[k].target)
            &&& t[k].target < n
        } by {
            assert(nodes[n as int].children@[k] == t[k].target);
        }
        assert forall|k: int| 0 <= k < steps.len() implies {
            &&& order.contains(#[trigger] steps[k].source)
            &&& nodes[steps[k].source as int].children@.contains(steps[k].target)
            &&& steps[k].target < steps[k].source
        } by {
            if k < s.len() {
                assert(steps[k] == s[k]);
                let q = choose|q: int| 0 <= q < prefix.len() && prefix[q] == s[k].source;
                assert(order[q] == s[k].source);
            } else {
                assert(steps[k] == t[k - s.len()]);
                assert(order[order.len() - 1] == n);
            }
        }
        assert forall|a: int, b: int| 0 <= a <= b < steps.len() implies #[trigger] steps[b].target < #[trigger] steps[a].source by {
            if b < s.len() {
                assert(steps[a] == s[a] && steps[b] == s[b]);
            } else if a < s.len() {
                assert(steps[a] == s[a] && steps[b] == t[b - s.len()]);
                let q = choose|q: int| 0 <= q < prefix.len() && prefix[q] == s[a].source;
                assert(prefix[q] > n);
            } else {
                assert(steps[a] == t[a - s.len()] && steps[b] == t[b - s.len()]);
            }
        }
    }
}

/// In the backward schedule from `root`, every step runs from a reachable node
/// to one of its operands, and no step reads a node's gradient before every
/// step that adds into that node has run: a step's source is greater than the
/// target of that step and of every later step. In particular no step adds
/// into the root, whose gradient thus stays at one through the pass.
pub proof fn lemma_parents_before_operands(nodes: Seq<Value>, root: int)
    requires
        graph_wf(nodes),
        0 <= root < nodes.len(),
        root < usize::MAX,
        schedule(nodes, topo_order(nodes, root)) is Ok,
    ensures
        ({
            let steps = schedule(nodes, topo_order(nodes, root))->Ok_0;
            &&& forall|k: int| 0 <= k < steps.len() ==> {
                &&& reachable(nodes, root, (#[trigger] steps[k]).source as int)
                &&& reachable(nodes, root, steps[k].target as int)
                &&& nodes[steps[k].source as int].children@.contains(steps[k].target)
                &&& steps[k].target != root
            }
            &&& forall|a: int, b: int| 0 <= a <= b < steps.len() ==> #[trigger] steps[b].target < #[trigger] steps[a].source
        }),
{
    let order = topo_order(nodes, root);
    lemma_topo_order(nodes, root);
    assert forall|k: int| 0 <= k < order.len() implies #[trigger] order[k] < nodes.len() by {
        assert(order[k] <= root);
    }
    lemma_schedule_shape(nodes, order);
    let steps = schedule(nodes, order)->Ok_0;
    assert forall|k: int| 0 <= k < steps.len() implies {
        &&& reachable(nodes, root, (#[trigger] steps[k]).source as int)
        &&& reachable(nodes, root, steps[k].target as int)
        &&& nodes[steps[k].source as int].children@.contains(steps[k].target)
        &&& steps[k].target != root
    } by {
        let src = steps[k].source;
        let tgt = steps[k].target;
        assert(order.contains(src));
        assert(reachable(nodes, root, src as int));
        let q = choose|q: int| 0 <= q < order.len() && order[q] == src;
        assert(order[q] <= root);
        assert(nodes[src as int].children@.contains(tgt));
        assert(tgt < src);
        assert(nodes[src as int].children@.contains((tgt as int) as usize));
        assert(reachable(nodes, root, tgt as int));
    }
}

proof fn lemma_reachable_same(a: Seq<Value>, b: Seq<Value>, root: int, i: int)
    requires
        a.len() == b.len(),
        root < a.len(),
        forall|j: int| 0 <= j < a.len() ==> same_structure(#[trigger] a[j], b[j]),
    ensures
        reachable(a, root, i) == reachable(b, root, i),
    decreases root - i,
{
    if i < root && 0 <= i {
        assert forall|p: int| i < p <= root implies #[trigger] reachable(a, root, p) == reachable(b, root, p) by {
            lemma_reachable_same(a, b, root, p);
        }
        if reachable(a, root, i) {
            let p = choose|p: int| i < p <= root && #[trigger] a[p].children@.contains(i as usize) && reachable(a, root, p);
            assert(same_structure(a[p], b[p]));
            assert(b[p].children@.contains(i as usize));
            assert(reachable(b, root, p));
            assert(reachable(b, root, i));
        }
        if reachable(b, root, i) {
            let p = choose|p: int| i < p <= root && #[trigger] b[p].children@.contains(i as usize) && reachable(b, root, p);
            if p < a.len() {
                assert(same_structure(a[p], b[p]));
            }
            assert(a[p].children@.contains(i as usize));
            assert(reachable(a, root, p));
            assert(reachable(a, root, i));
        }
    }
}

proof fn lemma_reach_desc_same(a: Seq<Value>, b: Seq<Value>, root: int, hi: int)
    requires
        a.len() == b.len(),
        root < a.len(),
        forall|j: int| 0 <= j < a.len() ==> same_structure(#[trigger] a[j], b[j]),
    ensures
        reach_desc(a, root, hi) == reach_desc(b, root, hi),
    decreases hi,
{
    if hi > 0 {
        lemma_reachable_same(a, b, root, hi - 1);
        lemma_reach_desc_same(a, b, root, hi - 1);
    }
}

proof fn lemma_schedule_same(a: Seq<Value>, b: Seq<Value>, order: Seq<usize>)
    requires
        a.len() == b.len(),
        forall|j: int| 0 <= j < a.len() ==> same_structure(#[trigger] a[j], b[j]),
        forall|k: int| 0 <= k < order.len() ==> #[trigger] order[k] < a.len(),
    ensures
        schedule(a, order) == schedule(b, order),
    decreases order.len(),
{
    if order.len() > 0 {
        let n = order.last();
        assert(order[order.len() - 1] == n);
        assert(same_structure(a[n as int], b[n as int]));
        assert(local_rule(a[n as int], n) == local_rule(b[n as int], n));
        lemma_schedule_same(a, b, order.drop_last());
    }
}

/// Gradients play no part in the order or the schedule: over two graphs that
/// differ only in their gradients, for instance the same graph before and
/// after a backward pass, both are the same. A second pass without a reset
/// therefore replays every step of the first and adds on top of its result.
pub proof fn lemma_schedule_ignores_gradients(a: Seq<Value>, b: Seq<Value>, root: int)
    requires
        a.len() == b.len(),
        forall|j: int| 0 <= j < a.len() ==> same_structure(#[trigger] a[j], b[j]),
        0 <= root < a.len(),
        root < usize::MAX,
    ensures
        topo_order(a, root) == topo_order(b, root),
        schedule(a, topo_order(a, root)) == schedule(b, topo_order(b, root)),
{
    lemma_reach_desc_same(a, b, root, root + 1);
    lemma_topo_order(a, root);
    assert forall|k: int| 0 <= k < topo_order(a, root).len() implies #[trigger] topo_order(a, root)[k] < a.len() by {
        assert(topo_order(a, root)[k] <= root);
    }
    lemma_schedule_same(a, b, topo_order(a, root));
}

/// The effect of a backward pass from `root` that returned `r`: on success,
/// the schedule of the graph and the root's gradient set to one, nothing else
/// changed; on failure, the schedule's error and no change at all.
pub open spec fn backpropagated(before: Seq<Value>, after: Seq<Value>, root: int, r: Result<Vec<Step>, GraphError>) -> bool {
    match r {
        Ok(steps) => {
            &&& schedule(before, topo_order(before, root)) == Ok::<Seq<Step>, GraphError>(steps@)
            &&& after == before.update(root, after[root])
            &&& after[root].gradient == ONE
            &&& same_structure(after[root], before[root])
        },
        Err(e) => {
            &&& schedule(before, topo_order(before, root)) == Err::<Seq<Step>, GraphError>(e)
            &&& after == before
        },
    }
}

impl V {
    /// Starts a backward pass from this node: see [`Graph::backpropagate`].
    pub fn backpropagate(&self, g: &mut Graph) -> (r: Result<Vec<Step>, GraphError>)
        requires
            old(g).wf(),
            self.0 < old(g)@.len(),
        ensures
            final(g).wf(),
            backpropagated(old(g)@, final(g)@, self.0 as int, r),
    {
        g.backpropagate(self.0)
    }
}

impl Value {
    /// The steps by which this node, stored at `index`, passes its gradient
    /// on to its operands.
    pub fn backward(&self, index: usize) -> (r: Result<Vec<Step>, GraphError>)
        ensures
            match r {
                Ok(steps) => local_rule(*self, index) == Ok::<Seq<Step>, GraphError>(steps@),
                Err(e) => local_rule(*self, index) == Err::<Seq<Step>, GraphError>(e),
            },
    {
        match self.operation {
            None => Ok(Vec::new()),
            Some(op) => {
                if !(op == ADD || op == SUB || op == MUL || op == DIV) {
                    return Err(GraphError::Unsupported(index));
                }
                if self.children.len() != 2 {
                    return Err(GraphError::Malformed(index));
                }
                let l = self.children[0];
                let r = self.children[1];
                let (lf, rf) = if op == ADD {
                    (Factor::One, Factor::One)
                } else if op == SUB {
                    (Factor::One, Factor::MinusOne)
                } else if op == MUL {
                    (Factor::ValueOf(r), Factor::ValueOf(l))
                } else {
                    (Factor::Reciprocal(r), Factor::NegQuotientBySquare(l, r))
                };
                let steps = vec![
                    Step { source: index, target: l, factor: lf },
                    Step { source: index, target: r, factor: rf },
                ];
                proof {
                    assert(steps@ =~= seq![
                        Step { source: index, target: l, factor: left_factor(op, l, r) },
                        Step { source: index, target: r, factor: right_factor(op, l, r) },
                    ]);
                }
                Ok(steps)
            },
        }
    }
}

impl Graph {
    /// Marks, for every index up to `root`, whether it is reachable from `root`.
    fn mark_reachable(&self, root: usize) -> (r: Vec<bool>)
        requires
            self.wf(),
            root < self@.len(),
        ensures
            r@.len() == root + 1,
            forall|j: int| 0 <= j <= root ==> r@[j] == reachable(self@, root as int, j),
    {
        let ghost nodes = self@;
        let n = self.len();
        let mut marked: Vec<bool> = Vec::new();
        let mut i: usize = 0;
        while i <= root
            invariant
                i <= root + 1,
                root < n,
                marked@.len() == i,
                forall|j: int| 0 <= j < i ==> !marked@[j],
            decreases root + 1 - i,
        {
            marked.push(false);
            i += 1;
        }
        marked.set(root, true);
        let mut k: usize = root + 1;
        while k > 0
            invariant
                nodes == self@,
                self.wf(),
                root < nodes.len(),
                k <= root + 1,
                marked@.len() == root + 1,
                forall|j: int| k <= j <= root ==> marked@[j] == reachable(nodes, root as int, j),
                forall|j: int| 0 <= j < k ==> (marked@[j] <==> (j == root || reached_from_above(nodes, root as int, k as int, j))),
            decreases k,
        {
            let t = k - 1;
            proof {
                if t as int == root as int {
                    assert(reachable(nodes, root as int, t as int));
                } else {
                    assert(reached_from_above(nodes, root as int, k as int, t as int) == reachable(nodes, root as int, t as int));
                }
            }
            if marked[t] {
                let children = &self.node(t).children;
                let ghost before = marked@;
                assert(before.len() == root + 1);
                assert(reachable(nodes, root as int, t as int));
                let mut m: usize = 0;
                while m < children.len()
                    invariant
                        nodes == self@,
                        self.wf(),
                        t < nodes.len(),
                        t <= root,
                        *children == nodes[t as int].children,
                        m <= children@.len(),
                        marked@.len() == root + 1,
                        before.len() == root + 1,
                        marked@[t as int] == before[t as int],
                        forall|j: int| t < j <= root ==> marked@[j] == before[j],
                        forall|j: int| 0 <= j < t ==> (marked@[j] <==> (before[j] || in_prefix(children@, m as int, j))),
                    decreases children@.len() - m,
                {
                    let c = children[m];
                    proof {
                        assert(operands_precede(nodes, t as int));
                        assert(children@[m as int] == c);
                    }
                    let ghost prev = marked@;
                    let ghost m0 = m;
                    marked.set(c, true);
                    m += 1;
                    proof {
                        assert forall|j: int| 0 <= j < t implies (marked@[j] <==> (before[j] || in_prefix(children@, m as int, j))) by {
                            assert(prev[j] <==> (before[j] || in_prefix(children@, m0 as int, j)));
                            if j == c {
                                assert(children@[m0 as int] == j);
                            }
                        }
                    }
                }
                proof {
                    assert forall|j: int| 0 <= j < t implies (marked@[j] <==> (j == root || reached_from_above(nodes, root as int, t as int, j))) by {
                        assert(before[j] <==> (j == root || reached_from_above(nodes, root as int, k as int, j)));
                        if in_prefix(children@, m as int, j) {
                            let q = choose|q: int| 0 <= q < m && children@[q] == j;
                            assert(nodes[t as int].children@.contains(j as usize));
                            assert(reached_from_above(nodes, root as int, t as int, j));
                        }
                        if reached_from_above(nodes, root as int, t as int, j) && !reached_from_above(nodes, root as int, k as int, j) {
                            let p = choose|p: int| t <= p <= root && #[trigger] nodes[p].children@.contains(j as usize) && reachable(nodes, root as int, p);
                            assert(p == t);
                            let q = choose|q: int| 0 <= q < children@.len() && children@[q] == j as usize;
                            assert(0 <= q < m && children@[q] == j);
                            assert(in_prefix(children@, m as int, j));
                        }
                        if reached_from_above(nodes, root as int, k as int, j) {
                            let p = choose|p: int| k <= p <= root && #[trigger] nodes[p].children@.contains(j as usize) && reachable(nodes, root as int, p);
                            assert(reached_from_above(nodes, root as int, t as int, j));
                        }
                    }
                }
            } else {
                proof {
                    assert forall|j: int| 0 <= j < t implies (marked@[j] <==> (j == root || reached_from_above(nodes, root as int, t as int, j))) by {
                        if reached_from_above(nodes, root as int, t as int, j) {
                            let p = choose|p: int| t <= p <= root && #[trigger] nodes[p].children@.contains(j as usize) && reachable(nodes, root as int, p);
                            assert(p != t);
                            assert(reached_from_above(nodes, root as int, k as int, j));
                        }
                        if reached_from_above(nodes, root as int, k as int, j) {
                            let p = choose|p: int| k <= p <= root && #[trigger] nodes[p].children@.contains(j as usize) && reachable(nodes, root as int, p);
                            assert(reached_from_above(nodes, root as int, t as int, j));
                        }
                    }
                }
            }
            k = t;
        }
        marked
    }

    /// Every node reachable from `root`, each once, by descending index: as
    /// operands precede the nodes built from them, every node comes before
    /// all of its operands.
    pub fn order(&self, root: usize) -> (r: Vec<usize>)
        requires
            self.wf(),
            root < self@.len(),
        ensures
            r@ == topo_order(self@, root as int),
    {
        let ghost nodes = self@;
        let marked = self.mark_reachable(root);
        let len = self.len();
        assert(root < len);
        let mut out: Vec<usize> = Vec::new();
        let mut k: usize = root + 1;
        while k > 0
            invariant
                k <= root + 1,
                marked@.len() == root + 1,
                forall|j: int| 0 <= j <= root ==> marked@[j] == reachable(nodes, root as int, j),
                out@ + reach_desc(nodes, root as int, k as int) == topo_order(nodes, root as int),
            decreases k,
        {
            let t = k - 1;
            if marked[t] {
                proof {
                    assert(out@.push(t) + reach_desc(nodes, root as int, t as int) =~= out@ + reach_desc(nodes, root as int, k as int));
                }
                out.push(t);
            }
            k = t;
        }
        proof {
            assert(out@ + reach_desc(nodes, root as int, 0) =~= out@);
        }
        out
    }

    /// The backward schedule from `root`: the derivative steps of every
    /// reachable node, taken in [`Graph::order`]. Fails at the first node, in
    /// that order, that has no derivative rule or a wrong operand count.
    pub fn backward_plan(&self, root: usize) -> (r: Result<Vec<Step>, GraphError>)
        requires
            self.wf(),
            root < self@.len(),
        ensures
            match r {
                Ok(steps) => schedule(self@, topo_order(self@, root as int)) == Ok::<Seq<Step>, GraphError>(steps@),
                Err(e) => schedule(self@, topo_order(self@, root as int)) == Err::<Seq<Step>, GraphError>(e),
            },
    {
        let ghost nodes = self@;
        let order = self.order(root);
        let len = self.len();
        assert(root < len);
        proof {
            lemma_topo_order(nodes, root as int);
        }
        let mut steps: Vec<Step> = Vec::new();
        let mut i: usize = 0;
        while i < order.len()
            invariant
                nodes == self@,
                i <= order@.len(),
                order@ == topo_order(nodes, root as int),
                forall|k: int| 0 <= k < order@.len() ==> #[trigger] order@[k] <= root,
                root < nodes.len(),
                schedule(nodes, order@.subrange(0, i as int)) == Ok::<Seq<Step>, GraphError>(steps@),
            decreases order@.len() - i,
        {
            let n = order[i];
            proof {
                assert(order@.subrange(0, i + 1).drop_last() == order@.subrange(0, i as int));
                assert(order@.subrange(0, i + 1).last() == n);
            }
            match self.node(n).backward(n) {
                Ok(local) => {
                    let mut local = local;
                    steps.append(&mut local);
                },
                Err(e) => {
                    proof {
                        lemma_schedule_prefix_err(nodes, order@, i + 1);
                        assert(order@.subrange(0, order@.len() as int) == order@);
                    }
                    return Err(e);
                },
            }
            i += 1;
        }
        proof {
            assert(order@.subrange(0, order@.len() as int) == order@);
        }
        Ok(steps)
    }

    /// Starts a backward pass from `root`: sets the root's gradient to one and
    /// returns the schedule that accumulates every other gradient. Other
    /// gradients are not reset, so a second pass adds on top of the first. On
    /// failure nothing changes.
    pub fn backpropagate(&mut self, root: usize) -> (r: Result<Vec<Step>, GraphError>)
        requires
            old(self).wf(),
            root < old(self)@.len(),
        ensures
            final(self).wf(),
            backpropagated(old(self)@, final(self)@, root as int, r),
    {
        let plan = self.backward_plan(root);
        match plan {
            Ok(steps) => {
                self.set_gradient(root, ONE);
                proof {
                    assert(self@ =~= old(self)@.update(root as int, self@[root as int]));
                }
                Ok(steps)
            },
            Err(e) => Err(e),
        }
    }
}

} // verus!
