//! The apply engine: shortcuts, memoization, canonicity, and the three
//! variable if-then-else scenario.

use bcdd::apply::{apply_bin, apply_ite};
use bcdd::edge::{get_terminal, not_owned, BCDDEdge, NodeRef};
use bcdd::ops::BCDDOp;
use bcdd::rules::reduce;
use bcdd::shortcuts::{terminal_and, terminal_xor, NodesOrDone};
use bcdd::store::BCDDManager;
use bcdd::tag::EdgeTag;

fn term(val: bool) -> BCDDEdge {
    get_terminal(val)
}

/// A manager holding variables x0, x1, x2 at levels 0, 1, 2.
fn setup() -> (BCDDManager, BCDDEdge, BCDDEdge, BCDDEdge) {
    let mut m = BCDDManager::new(1024);
    let x0 = reduce(&mut m, 0, term(true), term(false), BCDDOp::And).unwrap();
    let x1 = reduce(&mut m, 1, term(true), term(false), BCDDOp::And).unwrap();
    let x2 = reduce(&mut m, 2, term(true), term(false), BCDDOp::And).unwrap();
    (m, x0, x1, x2)
}

fn done(r: NodesOrDone) -> BCDDEdge {
    match r {
        NodesOrDone::Done(e) => e,
        NodesOrDone::Nodes(..) => panic!("expected the shortcut to resolve"),
    }
}

#[test]
fn shortcut_and_same_node() {
    let (m, x0, _, _) = setup();
    assert_eq!(done(terminal_and(&m, x0, x0)), x0);
    assert_eq!(done(terminal_and(&m, x0, not_owned(x0))), term(false));
}

#[test]
fn shortcut_and_terminal_operands() {
    let (m, x0, _, _) = setup();
    assert_eq!(done(terminal_and(&m, term(true), x0)), x0);
    assert_eq!(done(terminal_and(&m, term(false), x0)), term(false));
    assert_eq!(done(terminal_and(&m, x0, term(true))), x0);
    assert_eq!(done(terminal_and(&m, x0, term(false))), term(false));
    assert_eq!(done(terminal_and(&m, term(true), term(true))), term(true));
    assert_eq!(done(terminal_and(&m, term(true), term(false))), term(false));
}

#[test]
fn shortcut_and_continues_on_distinct_nodes() {
    let (m, x0, x1, _) = setup();
    match terminal_and(&m, x0, x1) {
        NodesOrDone::Nodes(fi, gi) => {
            assert_eq!(x0.node, NodeRef::Inner(fi));
            assert_eq!(x1.node, NodeRef::Inner(gi));
        }
        NodesOrDone::Done(..) => panic!("distinct inner nodes must continue"),
    }
}

#[test]
fn shortcut_xor_same_node() {
    let (m, x0, _, _) = setup();
    assert_eq!(done(terminal_xor(&m, x0, x0)), term(false));
    assert_eq!(done(terminal_xor(&m, x0, not_owned(x0))), term(true));
    assert_eq!(done(terminal_xor(&m, term(true), term(false))), term(true));
}

#[test]
fn shortcut_xor_terminal_negates() {
    let (m, x0, _, _) = setup();
    assert_eq!(done(terminal_xor(&m, term(true), x0)), not_owned(x0));
    assert_eq!(done(terminal_xor(&m, term(false), x0)), x0);
    assert_eq!(done(terminal_xor(&m, x0, term(true))), not_owned(x0));
    assert_eq!(done(terminal_xor(&m, x0, term(false))), x0);
}

#[test]
fn apply_and_self_shortcuts() {
    let (mut m, x0, _, _) = setup();
    let before = m.node_count();
    assert_eq!(apply_bin(&mut m, BCDDOp::And, x0, x0).unwrap(), x0);
    assert_eq!(apply_bin(&mut m, BCDDOp::And, x0, not_owned(x0)).unwrap(), term(false));
    assert_eq!(apply_bin(&mut m, BCDDOp::Xor, x0, x0).unwrap(), term(false));
    assert_eq!(apply_bin(&mut m, BCDDOp::Xor, x0, not_owned(x0)).unwrap(), term(true));
    assert_eq!(m.node_count(), before);
}

#[test]
fn apply_and_terminal_absorption() {
    let (mut m, x0, x1, _) = setup();
    let f = apply_bin(&mut m, BCDDOp::And, x0, x1).unwrap();
    assert_eq!(apply_bin(&mut m, BCDDOp::And, term(false), f).unwrap(), term(false));
    assert_eq!(apply_bin(&mut m, BCDDOp::And, term(true), f).unwrap(), f);
    assert_eq!(apply_bin(&mut m, BCDDOp::And, f, term(false)).unwrap(), term(false));
    assert_eq!(apply_bin(&mut m, BCDDOp::And, f, term(true)).unwrap(), f);
}

#[test]
fn apply_and_structure() {
    let (mut m, x0, x1, _) = setup();
    let f = apply_bin(&mut m, BCDDOp::And, x0, x1).unwrap();
    // x0 and x1: a fresh node at level 0 with children x1 and "false"
    assert_eq!(f.tag, EdgeTag::Unchanged);
    match f.node {
        NodeRef::Inner(i) => {
            assert_eq!(m.nodes[i].level, 0);
            assert_eq!(m.nodes[i].t, x1);
            assert_eq!(m.nodes[i].e, term(false));
        }
        NodeRef::Terminal => panic!("conjunction of variables is no constant"),
    }
}

#[test]
fn apply_xor_structure() {
    let (mut m, x0, x1, _) = setup();
    let f = apply_bin(&mut m, BCDDOp::Xor, x0, x1).unwrap();
    // x0 xor x1 stores the complement-edge form: the edge is complemented,
    // the node holds (x1, not x1)
    assert_eq!(f.tag, EdgeTag::Complemented);
    match f.node {
        NodeRef::Inner(i) => {
            assert_eq!(m.nodes[i].level, 0);
            assert_eq!(m.nodes[i].t, x1);
            assert_eq!(m.nodes[i].e, not_owned(x1));
        }
        NodeRef::Terminal => panic!("xor of variables is no constant"),
    }
}

#[test]
fn apply_is_canonical_under_repetition() {
    let (mut m, x0, x1, _) = setup();
    let r1 = apply_bin(&mut m, BCDDOp::And, x0, x1).unwrap();
    let count = m.node_count();
    let r2 = apply_bin(&mut m, BCDDOp::And, x0, x1).unwrap();
    assert_eq!(r1, r2);
    assert_eq!(m.node_count(), count);
    let r3 = apply_bin(&mut m, BCDDOp::Xor, x0, x1).unwrap();
    let r4 = apply_bin(&mut m, BCDDOp::Xor, x0, x1).unwrap();
    assert_eq!(r3, r4);
}

#[test]
fn apply_is_commutative() {
    let (mut m, x0, x1, x2) = setup();
    let ab = apply_bin(&mut m, BCDDOp::And, x0, x1).unwrap();
    let ba = apply_bin(&mut m, BCDDOp::And, x1, x0).unwrap();
    assert_eq!(ab, ba);
    let xa = apply_bin(&mut m, BCDDOp::Xor, x1, x2).unwrap();
    let xb = apply_bin(&mut m, BCDDOp::Xor, x2, x1).unwrap();
    assert_eq!(xa, xb);
}

#[test]
fn apply_de_morgan() {
    // x0 xor x1 == (x0 and not x1) or (not x0 and x1), with "or" built
    // from and/not: equal functions come out as the identical edge
    let (mut m, x0, x1, _) = setup();
    let lhs = apply_bin(&mut m, BCDDOp::Xor, x0, x1).unwrap();
    let a = apply_bin(&mut m, BCDDOp::And, x0, not_owned(x1)).unwrap();
    let b = apply_bin(&mut m, BCDDOp::And, not_owned(x0), x1).unwrap();
    // a or b == not (not a and not b)
    let rhs = not_owned(apply_bin(&mut m, BCDDOp::And, not_owned(a), not_owned(b)).unwrap());
    assert_eq!(lhs, rhs);
}

#[test]
fn apply_ite_constant_condition() {
    let (mut m, _, x1, x2) = setup();
    let before = m.node_count();
    assert_eq!(apply_ite(&mut m, term(true), x1, x2).unwrap(), x1);
    assert_eq!(apply_ite(&mut m, term(false), x1, x2).unwrap(), x2);
    assert_eq!(apply_ite(&mut m, x1, x2, x2).unwrap(), x2);
    assert_eq!(m.node_count(), before);
}

#[test]
fn apply_ite_matches_and() {
    let (mut m, x0, x1, _) = setup();
    let via_ite = apply_ite(&mut m, x0, x1, term(false)).unwrap();
    let via_and = apply_bin(&mut m, BCDDOp::And, x0, x1).unwrap();
    assert_eq!(via_ite, via_and);
}

#[test]
fn three_variable_ite_scenario() {
    let (mut m, x0, x1, x2) = setup();
    assert_eq!(m.node_count(), 3);
    let r = apply_ite(&mut m, x0, x1, x2).unwrap();
    // one fresh root at level 0 over the shared variable nodes: the result
    // diagram has three inner nodes (root, x1's, x2's)
    assert_eq!(m.node_count(), 4);
    assert_eq!(r.tag, EdgeTag::Unchanged);
    match r.node {
        NodeRef::Inner(i) => {
            assert_eq!(m.nodes[i].level, 0);
            assert_eq!(m.nodes[i].t, x1);
            assert_eq!(m.nodes[i].e, x2);
        }
        NodeRef::Terminal => panic!("the scenario's root is an inner node"),
    }
    // xor of the result with itself resolves by shortcut: no recursion, no
    // new node, straight to the "false" constant
    let count = m.node_count();
    let z = apply_bin(&mut m, BCDDOp::Xor, r, r).unwrap();
    assert_eq!(z, term(false));
    assert_eq!(m.node_count(), count);
}

#[test]
fn ite_with_negated_condition_swaps_branches() {
    let (mut m, x0, x1, x2) = setup();
    let a = apply_ite(&mut m, not_owned(x0), x1, x2).unwrap();
    let b = apply_ite(&mut m, x0, x2, x1).unwrap();
    assert_eq!(a, b);
}

#[test]
fn ite_of_complementary_branches_is_xor() {
    let (mut m, x0, x1, _) = setup();
    let via_ite = apply_ite(&mut m, x0, not_owned(x1), x1).unwrap();
    let via_xor = apply_bin(&mut m, BCDDOp::Xor, x0, x1).unwrap();
    assert_eq!(via_ite, via_xor);
}

#[test]
fn apply_reports_exhaustion_and_keeps_partial_work() {
    let mut m = BCDDManager::new(2);
    let x0 = reduce(&mut m, 0, term(true), term(false), BCDDOp::And).unwrap();
    let x1 = reduce(&mut m, 1, term(true), term(false), BCDDOp::And).unwrap();
    // x0 and x1 needs a third node: the store is full
    assert!(apply_bin(&mut m, BCDDOp::And, x0, x1).is_err());
    // already canonicalized nodes stay valid
    assert_eq!(m.node_count(), 2);
    assert_eq!(m.nodes[0].level, 0);
    assert_eq!(m.nodes[1].level, 1);
    // shortcut inputs still succeed on the full store
    assert_eq!(apply_bin(&mut m, BCDDOp::And, x0, x0).unwrap(), x0);
}
