//! Tag algebra, edges, terminals, cofactors, and the reduction rule on
//! concrete values.

use bcdd::edge::{get_terminal, not_owned, BCDDEdge, NodeRef};
use bcdd::node::BCDDNode;
use bcdd::ops::{BCDDOp, OP_COUNT};
use bcdd::rules::{collect_cofactors, reduce, BCDDRules, ReducedOrNew};
use bcdd::store::BCDDManager;
use bcdd::tag::EdgeTag;

fn term(val: bool) -> BCDDEdge {
    get_terminal(val)
}

#[test]
fn tag_not_flips() {
    assert_eq!(EdgeTag::Unchanged.not(), EdgeTag::Complemented);
    assert_eq!(EdgeTag::Complemented.not(), EdgeTag::Unchanged);
}

#[test]
fn tag_bitxor_table() {
    let u = EdgeTag::Unchanged;
    let c = EdgeTag::Complemented;
    assert_eq!(u.bitxor(u), u);
    assert_eq!(u.bitxor(c), c);
    assert_eq!(c.bitxor(u), c);
    assert_eq!(c.bitxor(c), u);
}

#[test]
fn double_negation_on_edges() {
    let edges = [
        term(true),
        term(false),
        BCDDEdge { node: NodeRef::Inner(7), tag: EdgeTag::Unchanged },
        BCDDEdge { node: NodeRef::Inner(7), tag: EdgeTag::Complemented },
    ];
    for e in edges {
        assert_eq!(not_owned(not_owned(e)), e);
        if e != not_owned(e) {
            // inverting changes the tag and only the tag
            assert_eq!(not_owned(e).node, e.node);
        }
    }
}

#[test]
fn terminal_edges() {
    assert_eq!(term(true), BCDDEdge { node: NodeRef::Terminal, tag: EdgeTag::Unchanged });
    assert_eq!(term(false), BCDDEdge { node: NodeRef::Terminal, tag: EdgeTag::Complemented });
    assert_eq!(not_owned(term(true)), term(false));
}

#[test]
fn operator_catalog_indices() {
    let ops = [
        BCDDOp::And,
        BCDDOp::Xor,
        BCDDOp::Ite,
        BCDDOp::Restrict,
        BCDDOp::Forall,
        BCDDOp::Exist,
        BCDDOp::Unique,
    ];
    assert_eq!(ops.len(), OP_COUNT);
    for (k, op) in ops.iter().enumerate() {
        assert_eq!(op.index(), k);
    }
}

#[test]
fn rules_reduce_equal_children() {
    let t = term(true);
    match BCDDRules::reduce(3, t, t) {
        ReducedOrNew::Reduced(e) => assert_eq!(e, t),
        ReducedOrNew::New(..) => panic!("equal children must not create a node"),
    }
}

#[test]
fn rules_reduce_pushes_complement_up() {
    // true-branch child carries a complement: both children are inverted
    // and the complement moves to the resulting edge
    let t = term(false);
    let e = term(true);
    match BCDDRules::reduce(0, t, e) {
        ReducedOrNew::New(node, tag) => {
            assert_eq!(tag, EdgeTag::Complemented);
            assert_eq!(node.t, term(true));
            assert_eq!(node.e, term(false));
            assert_eq!(node.t.tag, EdgeTag::Unchanged);
        }
        ReducedOrNew::Reduced(..) => panic!("distinct children must build a node"),
    }
}

#[test]
fn rules_reduce_keeps_untagged_children() {
    let t = term(true);
    let e = term(false);
    match BCDDRules::reduce(2, t, e) {
        ReducedOrNew::New(node, tag) => {
            assert_eq!(tag, EdgeTag::Unchanged);
            assert_eq!(node, BCDDNode { level: 2, t, e });
        }
        ReducedOrNew::Reduced(..) => panic!("distinct children must build a node"),
    }
}

#[test]
fn cofactor_untagged_passes_children_through() {
    let node = BCDDNode { level: 1, t: term(true), e: term(false) };
    assert_eq!(BCDDRules::cofactor(EdgeTag::Unchanged, &node, 0), term(true));
    assert_eq!(BCDDRules::cofactor(EdgeTag::Unchanged, &node, 1), term(false));
    assert_eq!(collect_cofactors(EdgeTag::Unchanged, &node), (term(true), term(false)));
}

#[test]
fn cofactor_complemented_flips_on_the_fly() {
    let node = BCDDNode { level: 1, t: term(true), e: term(false) };
    assert_eq!(BCDDRules::cofactor(EdgeTag::Complemented, &node, 0), term(false));
    assert_eq!(BCDDRules::cofactor(EdgeTag::Complemented, &node, 1), term(true));
    assert_eq!(collect_cofactors(EdgeTag::Complemented, &node), (term(false), term(true)));
    // the stored node is untouched
    assert_eq!(node.t, term(true));
    assert_eq!(node.e, term(false));
}

#[test]
fn manager_reduce_counts_short_circuits() {
    let mut m = BCDDManager::new(16);
    let t = term(true);
    let r = reduce(&mut m, 0, t, t, BCDDOp::Xor).unwrap();
    assert_eq!(r, t);
    assert_eq!(m.node_count(), 0);
    assert_eq!(m.reduced_count(BCDDOp::Xor), 1);
    assert_eq!(m.reduced_count(BCDDOp::And), 0);
}

#[test]
fn manager_reduce_deduplicates() {
    let mut m = BCDDManager::new(16);
    let v1 = reduce(&mut m, 0, term(true), term(false), BCDDOp::And).unwrap();
    let v2 = reduce(&mut m, 0, term(true), term(false), BCDDOp::And).unwrap();
    assert_eq!(v1, v2);
    assert_eq!(m.node_count(), 1);
}

#[test]
fn manager_reduce_enforces_invariant() {
    let mut m = BCDDManager::new(16);
    // negated variable: complement pushed onto the resulting edge
    let nv = reduce(&mut m, 0, term(false), term(true), BCDDOp::And).unwrap();
    assert_eq!(nv.tag, EdgeTag::Complemented);
    assert_eq!(nv.node, NodeRef::Inner(0));
    assert_eq!(m.nodes[0].t.tag, EdgeTag::Unchanged);
    // the same node also stands for the plain variable
    let v = reduce(&mut m, 0, term(true), term(false), BCDDOp::And).unwrap();
    assert_eq!(v.node, nv.node);
    assert_eq!(v.tag, EdgeTag::Unchanged);
    assert_eq!(m.node_count(), 1);
}

#[test]
fn manager_reduce_reports_exhaustion() {
    let mut m = BCDDManager::new(0);
    let r = reduce(&mut m, 0, term(true), term(false), BCDDOp::And);
    assert!(r.is_err());
    assert_eq!(m.node_count(), 0);

    let mut m1 = BCDDManager::new(1);
    let v0 = reduce(&mut m1, 0, term(true), term(false), BCDDOp::And).unwrap();
    // a duplicate still succeeds: no fresh node is needed
    assert_eq!(reduce(&mut m1, 0, term(true), term(false), BCDDOp::And).unwrap(), v0);
    // a fresh triple fails, and the partial work stays valid
    assert!(reduce(&mut m1, 1, term(true), term(false), BCDDOp::And).is_err());
    assert_eq!(m1.node_count(), 1);
    assert_eq!(m1.nodes[0], BCDDNode { level: 0, t: term(true), e: term(false) });
}
