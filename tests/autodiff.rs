use autograd::backward::{Factor, Step};
use autograd::graph::{build_dot, build_graph, DotStmt, Endpoint};
use autograd::value::{Graph, GraphError, Value, V, ONE, ZERO};

fn value_of(g: &Graph, v: V) -> f32 {
    f32::from_bits(g.node(v.0).get())
}

fn grad_of(g: &Graph, v: V) -> f32 {
    f32::from_bits(v.grad(g))
}

fn leaf(g: &mut Graph, x: f32) -> V {
    V::new(g, x.to_bits())
}

fn add(g: &mut Graph, a: V, b: V) -> V {
    let n = value_of(g, a) + value_of(g, b);
    a.add(g, &b, n.to_bits())
}

fn sub(g: &mut Graph, a: V, b: V) -> V {
    let n = value_of(g, a) - value_of(g, b);
    a.sub(g, &b, n.to_bits())
}

fn mul(g: &mut Graph, a: V, b: V) -> V {
    let n = value_of(g, a) * value_of(g, b);
    a.mul(g, &b, n.to_bits())
}

fn div(g: &mut Graph, a: V, b: V) -> Result<V, GraphError> {
    let n = value_of(g, a) / value_of(g, b);
    a.div(g, &b, n.to_bits())
}

fn factor(g: &Graph, f: Factor) -> f32 {
    let at = |i: usize| f32::from_bits(g.node(i).get());
    match f {
        Factor::One => 1.0,
        Factor::MinusOne => -1.0,
        Factor::ValueOf(i) => at(i),
        Factor::Reciprocal(i) => 1.0 / at(i),
        Factor::NegQuotientBySquare(l, r) => -at(l) / (at(r) * at(r)),
    }
}

fn run(g: &mut Graph, steps: &[Step]) {
    for s in steps {
        let f = factor(g, s.factor);
        let source = f32::from_bits(g.gradient(s.source));
        let target = f32::from_bits(g.gradient(s.target));
        g.set_gradient(s.target, (target + source * f).to_bits());
    }
}

fn backward(g: &mut Graph, root: V) {
    let steps = root.backpropagate(g).expect("well-formed graph");
    run(g, &steps);
}

fn close(a: f32, b: f32) -> bool {
    (a - b).abs() < 1e-5
}

#[test]
fn forward_values_of_the_four_operators() {
    let mut g = Graph::new();
    let a = leaf(&mut g, 6.0);
    let b = leaf(&mut g, 3.0);
    let s = add(&mut g, a, b);
    let d = sub(&mut g, a, b);
    let p = mul(&mut g, a, b);
    let q = div(&mut g, a, b).unwrap();
    assert_eq!(value_of(&g, s), 9.0);
    assert_eq!(value_of(&g, d), 3.0);
    assert_eq!(value_of(&g, p), 18.0);
    assert_eq!(value_of(&g, q), 2.0);
    assert_eq!(g.node(q.0).operation, Some('/'));
    assert_eq!(g.node(q.0).children, vec![a.0, b.0]);
    assert_eq!(g.node(q.0).gradient, ZERO);
    assert_eq!(g.len(), 6);
}

#[test]
fn leaf_has_no_operation_and_zero_gradient() {
    let v = Value::new(2.5f32.to_bits());
    assert_eq!(v.get(), 2.5f32.to_bits());
    assert_eq!(v.gradient, ZERO);
    assert_eq!(v.operation, None);
    assert!(v.children.is_empty());
}

#[test]
fn root_gradient_is_one_after_backward() {
    let mut g = Graph::new();
    let x = leaf(&mut g, 4.0);
    let y = leaf(&mut g, 5.0);
    let z = sub(&mut g, x, y);
    backward(&mut g, z);
    assert_eq!(z.grad(&g), ONE);
    assert_eq!(grad_of(&g, x), 1.0);
    assert_eq!(grad_of(&g, y), -1.0);
}

#[test]
fn backward_on_a_leaf_sets_only_its_gradient() {
    let mut g = Graph::new();
    let x = leaf(&mut g, 7.0);
    let steps = x.backpropagate(&mut g).unwrap();
    assert!(steps.is_empty());
    assert_eq!(grad_of(&g, x), 1.0);
}

#[test]
fn square_accumulates_both_edges() {
    let mut g = Graph::new();
    let x = leaf(&mut g, 3.0);
    let y = mul(&mut g, x, x);
    backward(&mut g, y);
    assert_eq!(grad_of(&g, x), 6.0);
}

#[test]
fn diamond_sharing_sums_both_paths() {
    let mut g = Graph::new();
    let x = leaf(&mut g, 2.0);
    let p = add(&mut g, x, x);
    let q = mul(&mut g, p, x);
    assert_eq!(value_of(&g, p), 4.0);
    assert_eq!(value_of(&g, q), 8.0);
    backward(&mut g, q);
    assert_eq!(grad_of(&g, q), 1.0);
    assert_eq!(grad_of(&g, p), 2.0);
    assert_eq!(grad_of(&g, x), 8.0);
}

#[test]
fn quotient_rule() {
    let mut g = Graph::new();
    let a = leaf(&mut g, 6.0);
    let b = leaf(&mut g, 3.0);
    let r = div(&mut g, a, b).unwrap();
    backward(&mut g, r);
    assert_eq!(grad_of(&g, r), 1.0);
    assert!(close(grad_of(&g, a), 1.0 / 3.0));
    assert!(close(grad_of(&g, b), -6.0 / 9.0));
}

#[test]
fn second_pass_without_reset_doubles_operand_gradients() {
    let mut g = Graph::new();
    let a = leaf(&mut g, 2.0);
    let b = leaf(&mut g, 5.0);
    let y = mul(&mut g, a, b);
    let first = y.backpropagate(&mut g).unwrap();
    run(&mut g, &first);
    let (ga, gb) = (grad_of(&g, a), grad_of(&g, b));
    let second = y.backpropagate(&mut g).unwrap();
    assert_eq!(first, second);
    run(&mut g, &second);
    assert_eq!(grad_of(&g, a), 2.0 * ga);
    assert_eq!(grad_of(&g, b), 2.0 * gb);
    assert_eq!(grad_of(&g, y), 1.0);
}

#[test]
fn division_by_zero_is_rejected() {
    let mut g = Graph::new();
    let a = leaf(&mut g, 1.0);
    let z = leaf(&mut g, 0.0);
    let nz = leaf(&mut g, -0.0);
    assert_eq!(div(&mut g, a, z), Err(GraphError::DivisionByZero));
    assert_eq!(div(&mut g, a, nz), Err(GraphError::DivisionByZero));
    assert_eq!(g.len(), 3);
}

#[test]
fn operand_count_is_checked_by_backward() {
    let mut g = Graph::new();
    let a = leaf(&mut g, 1.0);
    let bad = g.insert(Value::new_manual(1.0f32.to_bits(), vec![a.0], Some('+'), ZERO)).unwrap();
    let top = add(&mut g, V(bad), a);
    assert_eq!(top.backpropagate(&mut g), Err(GraphError::Malformed(bad)));
    assert_eq!(top.grad(&g), ZERO);
}

#[test]
fn unknown_operation_is_reported() {
    let mut g = Graph::new();
    let a = leaf(&mut g, 2.0);
    let odd = g.insert(Value::new_manual(4.0f32.to_bits(), vec![a.0, a.0], Some('^'), ZERO)).unwrap();
    assert_eq!(g.backward_plan(odd), Err(GraphError::Unsupported(odd)));
}

#[test]
fn operands_must_exist() {
    let mut g = Graph::new();
    let a = leaf(&mut g, 2.0);
    let r = g.insert(Value::new_manual(0, vec![a.0, 5], Some('+'), ZERO));
    assert_eq!(r, Err(GraphError::UnknownNode(5)));
    assert_eq!(g.len(), 1);
}

#[test]
fn local_rules_of_each_operator() {
    let mut g = Graph::new();
    let a = leaf(&mut g, 6.0);
    let b = leaf(&mut g, 3.0);
    let s = add(&mut g, a, b);
    let d = sub(&mut g, a, b);
    let p = mul(&mut g, a, b);
    let q = div(&mut g, a, b).unwrap();
    let steps = |v: V| g.node(v.0).backward(v.0).unwrap();
    let f = |v: V| steps(v).iter().map(|s| s.factor).collect::<Vec<_>>();
    assert_eq!(f(s), vec![Factor::One, Factor::One]);
    assert_eq!(f(d), vec![Factor::One, Factor::MinusOne]);
    assert_eq!(f(p), vec![Factor::ValueOf(b.0), Factor::ValueOf(a.0)]);
    assert_eq!(f(q), vec![Factor::Reciprocal(b.0), Factor::NegQuotientBySquare(a.0, b.0)]);
    assert_eq!(steps(q)[0], Step { source: q.0, target: a.0, factor: Factor::Reciprocal(b.0) });
    assert!(g.node(a.0).backward(a.0).unwrap().is_empty());
}

#[test]
fn order_puts_parents_before_operands() {
    let mut g = Graph::new();
    let x = leaf(&mut g, 2.0);
    let unused = leaf(&mut g, 9.0);
    let p = add(&mut g, x, x);
    let q = mul(&mut g, p, x);
    assert_eq!(g.order(q.0), vec![q.0, p.0, x.0]);
    assert_eq!(g.order(p.0), vec![p.0, x.0]);
    assert_eq!(g.order(unused.0), vec![unused.0]);
    let plan = g.backward_plan(q.0).unwrap();
    let targets: Vec<usize> = plan.iter().map(|s| s.target).collect();
    assert_eq!(targets, vec![p.0, x.0, x.0, x.0]);
}

#[test]
fn enumeration_of_nodes_and_edges() {
    let mut g = Graph::new();
    let x = leaf(&mut g, 2.0);
    let p = add(&mut g, x, x);
    let q = mul(&mut g, p, x);
    let (nodes, edges) = build_graph(&g, q.0);
    assert_eq!(nodes, vec![q.0, p.0, x.0]);
    assert_eq!(edges, vec![(p.0, q.0), (x.0, q.0), (x.0, p.0), (x.0, p.0)]);
}

#[test]
fn diagram_layout() {
    let mut g = Graph::new();
    let a = leaf(&mut g, 1.0);
    let b = leaf(&mut g, 2.0);
    let s = add(&mut g, a, b);
    let (nodes, edges) = build_graph(&g, s.0);
    let stmts = build_dot(&g, &nodes, &edges);
    assert_eq!(
        stmts,
        vec![
            DotStmt::OpNode(s.0),
            DotStmt::Edge(Endpoint::Operator(s.0), Endpoint::Record(s.0)),
            DotStmt::ValueNode(s.0),
            DotStmt::ValueNode(b.0),
            DotStmt::ValueNode(a.0),
            DotStmt::Edge(Endpoint::Record(a.0), Endpoint::Operator(s.0)),
            DotStmt::Edge(Endpoint::Record(b.0), Endpoint::Operator(s.0)),
        ]
    );
    let plain = build_dot(&g, &vec![a.0], &vec![(a.0, b.0)]);
    assert_eq!(plain, vec![DotStmt::ValueNode(a.0), DotStmt::Edge(Endpoint::Record(a.0), Endpoint::Record(b.0))]);
}

#[test]
fn test_display_graph() {
    let mut g = Graph::new();
    let a = leaf(&mut g, 5.0);
    let b = leaf(&mut g, 5.0);
    let c = leaf(&mut g, 10.0);
    let d = leaf(&mut g, 3.0);
    let e = leaf(&mut g, 8.0);
    let f = leaf(&mut g, 10.0);
    let ab = add(&mut g, a, b);
    let ef = add(&mut g, e, f);
    let left = mul(&mut g, ab, c);
    let right = div(&mut g, d, ef).unwrap();
    let result = add(&mut g, left, right);
    backward(&mut g, result);
    assert!(close(grad_of(&g, a), 10.0));
    assert!(close(grad_of(&g, b), 10.0));
    assert!(close(grad_of(&g, c), 10.0));
    assert!(close(grad_of(&g, d), 1.0 / 18.0));
    assert!(close(grad_of(&g, e), -3.0 / 324.0));
    assert!(close(grad_of(&g, f), -3.0 / 324.0));
    let (nodes, edges) = build_graph(&g, result.0);
    assert_eq!(nodes.len(), 11);
    assert_eq!(edges.len(), 10);
    let stmts = build_dot(&g, &nodes, &edges);
    assert_eq!(stmts.len(), 5 * 3 + 6 + 10);
}
