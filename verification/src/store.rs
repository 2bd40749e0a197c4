//! The concrete node store: a content-addressed table of canonical nodes
//! with a bounded capacity, the memoization caches for the apply engine,
//! and per-operator reduction statistics.

use vstd::prelude::*;
use crate::tag::EdgeTag;
use crate::edge::{BCDDEdge, NodeRef, edge_rank};
use crate::node::{
    BCDDNode, valid_edge, edge_level, edge_sem, node_ok, wf_nodes, canonical_nodes,
    extends, level_min, lemma_extends_index, lemma_extends_edge_all, lemma_extends_refl,
};
use crate::ops::{BCDDOp, OP_COUNT, bin_op_sem};

verus! {

/// Allocation failure in the node store: the capacity it was created with
/// is exhausted.  The single error condition of this engine.
#[derive(Clone, Copy, PartialEq, Eq, Structural, Debug)]
pub struct OutOfMemory;

/// Result of an operation that may need to allocate a node.
pub type AllocResult<T> = Result<T, OutOfMemory>;

/// A memoized binary apply result.
#[derive(Clone, Copy, PartialEq, Eq, Structural, Debug)]
pub struct BinCacheEntry {
    pub op: BCDDOp,
    pub f: BCDDEdge,
    pub g: BCDDEdge,
    pub r: BCDDEdge,
}

/// A memoized if-then-else apply result.
#[derive(Clone, Copy, PartialEq, Eq, Structural, Debug)]
pub struct IteCacheEntry {
    pub f: BCDDEdge,
    pub g: BCDDEdge,
    pub h: BCDDEdge,
    pub r: BCDDEdge,
}

/// A cached binary result is only ever a correct one: the stored edge
/// denotes exactly the operator applied to the operands' functions, and
/// references a node no higher than the operands reach.
pub open spec fn bin_entry_ok(nodes: Seq<BCDDNode>, en: BinCacheEntry) -> bool {
    &&& en.op.is_binary()
    &&& valid_edge(nodes, en.f)
    &&& valid_edge(nodes, en.g)
    &&& valid_edge(nodes, en.r)
    &&& edge_level(nodes, en.r) >= level_min(edge_level(nodes, en.f), edge_level(nodes, en.g))
    &&& forall|a: Map<u32, bool>|
        #[trigger] edge_sem(nodes, en.r, a) == bin_op_sem(
            en.op,
            edge_sem(nodes, en.f, a),
            edge_sem(nodes, en.g, a),
        )
}

pub open spec fn bin_cache_ok(nodes: Seq<BCDDNode>, cache: Seq<BinCacheEntry>) -> bool {
    forall|k: int| 0 <= k < cache.len() ==> #[trigger] bin_entry_ok(nodes, cache[k])
}

/// A cached if-then-else result is only ever a correct one.
pub open spec fn ite_entry_ok(nodes: Seq<BCDDNode>, en: IteCacheEntry) -> bool {
    &&& valid_edge(nodes, en.f)
    &&& valid_edge(nodes, en.g)
    &&& valid_edge(nodes, en.h)
    &&& valid_edge(nodes, en.r)
    &&& edge_level(nodes, en.r) >= level_min(
        edge_level(nodes, en.f),
        level_min(edge_level(nodes, en.g), edge_level(nodes, en.h)),
    )
    &&& forall|a: Map<u32, bool>|
        #[trigger] edge_sem(nodes, en.r, a) == (if edge_sem(nodes, en.f, a) {
            edge_sem(nodes, en.g, a)
        } else {
            edge_sem(nodes, en.h, a)
        })
}

pub open spec fn ite_cache_ok(nodes: Seq<BCDDNode>, cache: Seq<IteCacheEntry>) -> bool {
    forall|k: int| 0 <= k < cache.len() ==> #[trigger] ite_entry_ok(nodes, cache[k])
}

/// The node store together with the apply caches and the per-operator
/// count of reduction short-circuits.
pub struct BCDDManager {
    /// The stored inner nodes; children always precede their parent.
    pub nodes: Vec<BCDDNode>,
    /// How many nodes the store may ever hold.
    pub capacity: usize,
    /// Memoized binary apply results.
    pub bin_cache: Vec<BinCacheEntry>,
    /// Memoized if-then-else apply results.
    pub ite_cache: Vec<IteCacheEntry>,
    /// Per-operator count of `Reduced` outcomes of the reduction rule.
    pub reduced: Vec<u64>,
}

impl BCDDManager {
    /// The manager's invariant: a well-formed, canonical store, caches that
    /// hold only correct results, and one counter per operator.
    pub open spec fn wf(self) -> bool {
        &&& wf_nodes(self.nodes@)
        &&& canonical_nodes(self.nodes@)
        &&& bin_cache_ok(self.nodes@, self.bin_cache@)
        &&& ite_cache_ok(self.nodes@, self.ite_cache@)
        &&& self.reduced@.len() == OP_COUNT
    }

    /// An empty store that may grow to `capacity` nodes.
    pub fn new(capacity: usize) -> (m: BCDDManager)
        ensures
            m.wf(),
            m.nodes@.len() == 0,
            m.capacity == capacity,
            forall|k: int| 0 <= k < OP_COUNT ==> m.reduced@[k] == 0,
    {
        BCDDManager {
            nodes: Vec::new(),
            capacity,
            bin_cache: Vec::new(),
            ite_cache: Vec::new(),
            reduced: vec![0u64, 0u64, 0u64, 0u64, 0u64, 0u64, 0u64],
        }
    }

    /// How many nodes the store holds.
    pub fn node_count(&self) -> (n: usize)
        ensures
            n == self.nodes@.len(),
    {
        self.nodes.len()
    }

    /// How often the reduction rule short-circuited for this operator.
    pub fn reduced_count(&self, op: BCDDOp) -> (n: u64)
        requires
            self.wf(),
        ensures
            n == self.reduced@[op.spec_index()],
    {
        self.reduced[op.index()]
    }

    /// Note one more reduction short-circuit for this operator.  The
    /// counter saturates; it is a diagnostic, never part of correctness.
    pub fn count_reduced(&mut self, op: BCDDOp)
        requires
            old(self).wf(),
        ensures
            final(self).wf(),
            final(self).nodes@ == old(self).nodes@,
            final(self).capacity == old(self).capacity,
            final(self).bin_cache@ == old(self).bin_cache@,
            final(self).ite_cache@ == old(self).ite_cache@,
            final(self).reduced@ == old(self).reduced@.update(
                op.spec_index(),
                (if old(self).reduced@[op.spec_index()] < u64::MAX {
                    (old(self).reduced@[op.spec_index()] + 1) as u64
                } else {
                    old(self).reduced@[op.spec_index()]
                }),
            ),
    {
        let i = op.index();
        let c = self.reduced[i];
        let v: u64 = if c < u64::MAX {
            c + 1
        } else {
            c
        };
        self.reduced[i] = v;
    }

    /// Linear probe of the content-addressed table for an exact
    /// (level, children) triple.
    pub(crate) fn find_node(&self, level: u32, t: BCDDEdge, e: BCDDEdge) -> (r: Option<usize>)
        ensures
            r matches Some(ix) ==> ix < self.nodes@.len() && self.nodes@[ix as int] == (BCDDNode {
                level,
                t,
                e,
            }),
            r is None ==> forall|k: int|
                0 <= k < self.nodes@.len() ==> self.nodes@[k] != (BCDDNode { level, t, e }),
    {
        let probe = BCDDNode { level, t, e };
        let n = self.nodes.len();
        let mut i: usize = 0;
        while i < n
            invariant
                n == self.nodes@.len(),
                i <= n,
                probe == (BCDDNode { level, t, e }),
                forall|k: int| 0 <= k < i ==> self.nodes@[k] != probe,
            decreases n - i,
        {
            let cur = self.nodes[i];
            if cur == probe {
                assert(self.nodes@[i as int] == probe);
                return Some(i);
            }
            i = i + 1;
        }
        None
    }

    /// Look up a memoized binary apply result.  A hit is always a correct,
    /// currently valid edge; a miss promises nothing — the recursive path
    /// recomputes.
    pub(crate) fn bin_cache_get(&self, op: BCDDOp, f: BCDDEdge, g: BCDDEdge) -> (r: Option<
        BCDDEdge,
    >)
        requires
            self.wf(),
        ensures
            r matches Some(res) ==> valid_edge(self.nodes@, res) && edge_level(self.nodes@, res)
                >= level_min(edge_level(self.nodes@, f), edge_level(self.nodes@, g)) && forall|
                a: Map<u32, bool>,
            |
                #[trigger] edge_sem(self.nodes@, res, a) == bin_op_sem(
                    op,
                    edge_sem(self.nodes@, f, a),
                    edge_sem(self.nodes@, g, a),
                ),
    {
        let n = self.bin_cache.len();
        let mut i: usize = 0;
        while i < n
            invariant
                self.wf(),
                n == self.bin_cache@.len(),
                i <= n,
            decreases n - i,
        {
            let en = self.bin_cache[i];
            if en.op == op && en.f == f && en.g == g {
                proof {
                    assert(bin_entry_ok(self.nodes@, self.bin_cache@[i as int]));
                }
                return Some(en.r);
            }
            i = i + 1;
        }
        None
    }

    /// Memoize a binary apply result; only a correct result may enter.
    pub(crate) fn bin_cache_put(&mut self, op: BCDDOp, f: BCDDEdge, g: BCDDEdge, res: BCDDEdge)
        requires
            old(self).wf(),
            op.is_binary(),
            valid_edge(old(self).nodes@, f),
            valid_edge(old(self).nodes@, g),
            valid_edge(old(self).nodes@, res),
            edge_level(old(self).nodes@, res) >= level_min(
                edge_level(old(self).nodes@, f),
                edge_level(old(self).nodes@, g),
            ),
            forall|a: Map<u32, bool>|
                #[trigger] edge_sem(old(self).nodes@, res, a) == bin_op_sem(
                    op,
                    edge_sem(old(self).nodes@, f, a),
                    edge_sem(old(self).nodes@, g, a),
                ),
        ensures
            final(self).wf(),
            final(self).nodes@ == old(self).nodes@,
            final(self).capacity == old(self).capacity,
            final(self).ite_cache@ == old(self).ite_cache@,
            final(self).reduced@ == old(self).reduced@,
    {
        let en = BinCacheEntry { op, f, g, r: res };
        self.bin_cache.push(en);
        proof {
            assert forall|k: int| 0 <= k < self.bin_cache@.len() implies #[trigger] bin_entry_ok(
                self.nodes@,
                self.bin_cache@[k],
            ) by {
                if k < old(self).bin_cache@.len() {
                    assert(bin_entry_ok(self.nodes@, old(self).bin_cache@[k]));
                }
            }
        }
    }

    /// Look up a memoized if-then-else result.
    pub(crate) fn ite_cache_get(&self, f: BCDDEdge, g: BCDDEdge, h: BCDDEdge) -> (r: Option<
        BCDDEdge,
    >)
        requires
            self.wf(),
        ensures
            r matches Some(res) ==> valid_edge(self.nodes@, res) && edge_level(self.nodes@, res)
                >= level_min(
                edge_level(self.nodes@, f),
                level_min(edge_level(self.nodes@, g), edge_level(self.nodes@, h)),
            ) && forall|a: Map<u32, bool>|
                #[trigger] edge_sem(self.nodes@, res, a) == (if edge_sem(self.nodes@, f, a) {
                    edge_sem(self.nodes@, g, a)
                } else {
                    edge_sem(self.nodes@, h, a)
                }),
    {
        let n = self.ite_cache.len();
        let mut i: usize = 0;
        while i < n
            invariant
                self.wf(),
                n == self.ite_cache@.len(),
                i <= n,
            decreases n - i,
        {
            let en = self.ite_cache[i];
            if en.f == f && en.g == g && en.h == h {
                proof {
                    assert(ite_entry_ok(self.nodes@, self.ite_cache@[i as int]));
                }
                return Some(en.r);
            }
            i = i + 1;
        }
        None
    }

    /// Memoize an if-then-else result; only a correct result may enter.
    pub(crate) fn ite_cache_put(&mut self, f: BCDDEdge, g: BCDDEdge, h: BCDDEdge, res: BCDDEdge)
        requires
            old(self).wf(),
            valid_edge(old(self).nodes@, f),
            valid_edge(old(self).nodes@, g),
            valid_edge(old(self).nodes@, h),
            valid_edge(old(self).nodes@, res),
            edge_level(old(self).nodes@, res) >= level_min(
                edge_level(old(self).nodes@, f),
                level_min(edge_level(old(self).nodes@, g), edge_level(old(self).nodes@, h)),
            ),
            forall|a: Map<u32, bool>|
                #[trigger] edge_sem(old(self).nodes@, res, a) == (if edge_sem(
                    old(self).nodes@,
                    f,
                    a,
                ) {
                    edge_sem(old(self).nodes@, g, a)
                } else {
                    edge_sem(old(self).nodes@, h, a)
                }),
        ensures
            final(self).wf(),
            final(self).nodes@ == old(self).nodes@,
            final(self).capacity == old(self).capacity,
            final(self).bin_cache@ == old(self).bin_cache@,
            final(self).reduced@ == old(self).reduced@,
    {
        let en = IteCacheEntry { f, g, h, r: res };
        self.ite_cache.push(en);
        proof {
            assert forall|k: int| 0 <= k < self.ite_cache@.len() implies #[trigger] ite_entry_ok(
                self.nodes@,
                self.ite_cache@[k],
            ) by {
                if k < old(self).ite_cache@.len() {
                    assert(ite_entry_ok(self.nodes@, old(self).ite_cache@[k]));
                }
            }
        }
    }

    /// Register a candidate node: return the existing equal node's index if
    /// the table already holds the triple, otherwise append the candidate.
    /// Fails exactly when a fresh node is needed and the store is full.
    pub(crate) fn register_node(&mut self, node: BCDDNode) -> (r: AllocResult<usize>)
        requires
            old(self).wf(),
            valid_edge(old(self).nodes@, node.t),
            valid_edge(old(self).nodes@, node.e),
            edge_rank(node.t) <= old(self).nodes@.len(),
            edge_rank(node.e) <= old(self).nodes@.len(),
            node.t.tag == EdgeTag::Unchanged,
            node.t != node.e,
            edge_level(old(self).nodes@, node.t) > node.level,
            edge_level(old(self).nodes@, node.e) > node.level,
        ensures
            final(self).wf(),
            extends(old(self).nodes@, final(self).nodes@),
            final(self).capacity == old(self).capacity,
            final(self).bin_cache@ == old(self).bin_cache@,
            final(self).ite_cache@ == old(self).ite_cache@,
            final(self).reduced@ == old(self).reduced@,
            match r {
                Ok(i) => i < final(self).nodes@.len() && final(self).nodes@[i as int] == node,
                Err(_) => old(self).nodes@.len() == old(self).capacity && *final(self) == *old(
                    self,
                ),
            },
            old(self).nodes@.len() < old(self).capacity ==> r is Ok,
    {
        match self.find_node(node.level, node.t, node.e) {
            Some(i) => {
                proof {
                    lemma_extends_refl(self.nodes@);
                }
                Ok(i)
            }
            None => {
                if self.nodes.len() == self.capacity {
                    proof {
                        lemma_extends_refl(self.nodes@);
                    }
                    Err(OutOfMemory)
                } else {
                    let ghost pre = self.nodes@;
                    let i = self.nodes.len();
                    self.nodes.push(node);
                    proof {
                        let post = self.nodes@;
                        assert(extends(pre, post)) by {
                            assert(post.subrange(0, pre.len() as int) =~= pre);
                        }
                        assert forall|k: int| 0 <= k < post.len() implies #[trigger] node_ok(
                            post,
                            k,
                        ) by {
                            if k < pre.len() {
                                assert(node_ok(pre, k));
                                lemma_extends_index(pre, post, k);
                                preserve_node_ok(pre, post, k);
                            } else {
                                assert(post[k] == node);
                                lemma_extends_edge_all(pre, post, node.t);
                                lemma_extends_edge_all(pre, post, node.e);
                            }
                        }
                        assert forall|k1: int, k2: int|
                            0 <= k1 < post.len() && 0 <= k2 < post.len() && #[trigger] post[k1]
                                == #[trigger] post[k2] implies k1 == k2 by {
                            if k1 < pre.len() {
                                lemma_extends_index(pre, post, k1);
                            }
                            if k2 < pre.len() {
                                lemma_extends_index(pre, post, k2);
                            }
                        }
                        preserve_bin_cache(pre, post, self.bin_cache@);
                        preserve_ite_cache(pre, post, self.ite_cache@);
                    }
                    Ok(i)
                }
            }
        }
    }
}

/// A node judged well-formed stays so when the store grows.
proof fn preserve_node_ok(pre: Seq<BCDDNode>, post: Seq<BCDDNode>, k: int)
    requires
        extends(pre, post),
        0 <= k < pre.len(),
        node_ok(pre, k),
    ensures
        node_ok(post, k),
{
    lemma_extends_index(pre, post, k);
    let n = pre[k];
    assert(valid_edge(pre, n.t)) by {
        if n.t.node is Inner {
            assert(edge_rank(n.t) <= k);
        }
    }
    assert(valid_edge(pre, n.e)) by {
        if n.e.node is Inner {
            assert(edge_rank(n.e) <= k);
        }
    }
    lemma_extends_edge_all(pre, post, n.t);
    lemma_extends_edge_all(pre, post, n.e);
}

/// Cached binary results stay correct when the store grows.
proof fn preserve_bin_cache(pre: Seq<BCDDNode>, post: Seq<BCDDNode>, cache: Seq<BinCacheEntry>)
    requires
        extends(pre, post),
        bin_cache_ok(pre, cache),
    ensures
        bin_cache_ok(post, cache),
{
    assert forall|k: int| 0 <= k < cache.len() implies #[trigger] bin_entry_ok(post, cache[k]) by {
        let en = cache[k];
        assert(bin_entry_ok(pre, en));
        lemma_extends_edge_all(pre, post, en.f);
        lemma_extends_edge_all(pre, post, en.g);
        lemma_extends_edge_all(pre, post, en.r);
    }
}

/// Cached if-then-else results stay correct when the store grows.
proof fn preserve_ite_cache(pre: Seq<BCDDNode>, post: Seq<BCDDNode>, cache: Seq<IteCacheEntry>)
    requires
        extends(pre, post),
        ite_cache_ok(pre, cache),
    ensures
        ite_cache_ok(post, cache),
{
    assert forall|k: int| 0 <= k < cache.len() implies #[trigger] ite_entry_ok(post, cache[k]) by {
        let en = cache[k];
        assert(ite_entry_ok(pre, en));
        lemma_extends_edge_all(pre, post, en.f);
        lemma_extends_edge_all(pre, post, en.g);
        lemma_extends_edge_all(pre, post, en.h);
        lemma_extends_edge_all(pre, post, en.r);
    }
}

} // verus!
