//! The directed graph itself: `u32` node identifiers, each owning an ordered
//! list of outgoing edges with a payload of type `T`.
//!
//! The adjacency mapping is stored as a vector of entries kept strictly
//! sorted by node identifier.  The abstract model (the `view`) is the map
//! from node identifier to its sequence of `(destination, payload)` pairs.
//!
//! Policy: the strict variant.  Inserting a node that exists, relating nodes
//! that do not both exist, or inserting a second relation with the same
//! source and destination is refused with a [`GraphError`]; deletions are
//! idempotent no-ops on missing targets and cannot fail.

use vstd::prelude::*;
use vstd::seq_lib::group_filter_ensures;

verus! {

broadcast use group_filter_ensures;

/// The closed set of conditions the mutation and decoding operations report.
#[derive(Clone, Copy, Debug, PartialEq, Eq)]
pub enum GraphError {
    /// The node inserted is already present.
    NodeAlreadyExists,
    /// An endpoint of the relation, or the start of a traversal, is absent.
    NodeNotFound,
    /// A relation with this source and destination is already present.
    RelationAlreadyExists,
    /// A line of the text encoding cannot be decoded.
    MalformedRecord,
}

/// A directed edge: destination node and payload.
#[derive(Debug)]
pub struct Edge<T> {
    pub to_node: u32,
    pub value: T,
}

/// A node identifier with its outgoing edge list.
#[derive(Debug)]
pub struct NodeEntry<T> {
    pub id: u32,
    pub edges: Vec<Edge<T>>,
}

/// The graph: adjacency entries, strictly sorted by node identifier.
#[derive(Debug)]
pub struct Graph<T> {
    pub nodes: Vec<NodeEntry<T>>,
}

/// The `(destination, payload)` pairs of an edge list.
pub open spec fn edge_pairs<T>(s: Seq<Edge<T>>) -> Seq<(u32, T)> {
    s.map_values(|e: Edge<T>| (e.to_node, e.value))
}

/// Some edge of `es` points at `to`.
pub open spec fn has_dest<T>(es: Seq<(u32, T)>, to: u32) -> bool {
    exists|j: int| 0 <= j < es.len() && (#[trigger] es[j]).0 == to
}

/// No two edges of `es` share a destination.
pub open spec fn distinct_dests<T>(es: Seq<(u32, T)>) -> bool {
    forall|j: int, k: int| 0 <= j < k < es.len() ==> (#[trigger] es[j]).0 != (#[trigger] es[k]).0
}

/// Some entry of `s` carries the identifier `k`.
pub open spec fn has_id<T>(s: Seq<NodeEntry<T>>, k: u32) -> bool {
    exists|i: int| 0 <= i < s.len() && (#[trigger] s[i]).id == k
}

/// No two entries of `s` share an identifier.
pub open spec fn unique_ids<T>(s: Seq<NodeEntry<T>>) -> bool {
    forall|i: int, j: int| 0 <= i < j < s.len() ==> (#[trigger] s[i]).id != (#[trigger] s[j]).id
}

/// The edge pairs of the first entry of `s` carrying `k`, if any.
pub open spec fn find_edges<T>(s: Seq<NodeEntry<T>>, k: u32) -> Option<Seq<(u32, T)>>
    decreases s.len(),
{
    if s.len() == 0 {
        None
    } else if s[0].id == k {
        Some(edge_pairs(s[0].edges@))
    } else {
        find_edges(s.skip(1), k)
    }
}

/// Keeps the pairs whose destination is not `tgt`.
pub open spec fn drop_to<T>(tgt: u32) -> spec_fn((u32, T)) -> bool {
    |p: (u32, T)| p.0 != tgt
}

/// Keeps the edges whose destination is not `tgt`.
pub open spec fn drop_edge_to<T>(tgt: u32) -> spec_fn(Edge<T>) -> bool {
    |e: Edge<T>| e.to_node != tgt
}

impl<T> View for Graph<T> {
    type V = Map<u32, Seq<(u32, T)>>;

    open spec fn view(&self) -> Map<u32, Seq<(u32, T)>> {
        Map::new(
            |k: u32| find_edges(self.nodes@, k) is Some,
            |k: u32| find_edges(self.nodes@, k)->Some_0,
        )
    }
}

impl<T> Graph<T> {
    /// Structural soundness: entries strictly sorted by identifier, every
    /// edge destination an existing node, and per node no two edges with the
    /// same destination.
    pub open spec fn wf(self) -> bool {
        &&& forall|i: int, j: int|
            0 <= i < j < self.nodes@.len() ==> (#[trigger] self.nodes@[i]).id < (
            #[trigger] self.nodes@[j]).id
        &&& forall|i: int, j: int|
            0 <= i < self.nodes@.len() && 0 <= j < self.nodes@[i].edges@.len() ==> has_id(
                self.nodes@,
                (#[trigger] self.nodes@[i].edges@[j]).to_node,
            )
        &&& forall|i: int|
            0 <= i < self.nodes@.len() ==> distinct_dests(
                edge_pairs((#[trigger] self.nodes@[i]).edges@),
            )
    }
}

proof fn lemma_unique_skip<T>(s: Seq<NodeEntry<T>>)
    requires
        unique_ids(s),
        s.len() > 0,
    ensures
        unique_ids(s.skip(1)),
{
    assert forall|i: int, j: int| 0 <= i < j < s.skip(1).len() implies (#[trigger] s.skip(1)[i]).id
        != (#[trigger] s.skip(1)[j]).id by {
        assert(s.skip(1)[i] == s[i + 1]);
        assert(s.skip(1)[j] == s[j + 1]);
    }
}

/// `find_edges` answers `Some` exactly on the identifiers present.
pub proof fn lemma_find_some<T>(s: Seq<NodeEntry<T>>, k: u32)
    ensures
        (find_edges(s, k) is Some) <==> has_id(s, k),
    decreases s.len(),
{
    if s.len() > 0 && s[0].id != k {
        lemma_find_some(s.skip(1), k);
        assert forall|i: int| 0 <= i < s.skip(1).len() implies s.skip(1)[i] == s[i + 1] by {}
        if has_id(s, k) {
            let i = choose|i: int| 0 <= i < s.len() && (#[trigger] s[i]).id == k;
            assert(s.skip(1)[i - 1] == s[i]);
            assert(has_id(s.skip(1), k));
        }
        if has_id(s.skip(1), k) {
            let i = choose|i: int| 0 <= i < s.skip(1).len() && (#[trigger] s.skip(1)[i]).id == k;
            assert(s[i + 1] == s.skip(1)[i]);
        }
    }
}

/// On a duplicate-free entry sequence, `find_edges` returns the edge pairs
/// of the entry at any index carrying the identifier looked up.
pub proof fn lemma_find_present<T>(s: Seq<NodeEntry<T>>, i: int)
    requires
        unique_ids(s),
        0 <= i < s.len(),
    ensures
        find_edges(s, s[i].id) == Some(edge_pairs(s[i].edges@)),
    decreases s.len(),
{
    if i > 0 {
        assert(s[0].id != s[i].id);
        lemma_unique_skip(s);
        lemma_find_present(s.skip(1), i - 1);
        assert(s.skip(1)[i - 1] == s[i]);
    }
}

/// Pointwise update of one entry, keeping its identifier: the lookup of that
/// identifier changes, every other lookup is untouched.
proof fn lemma_find_pointwise<T>(s: Seq<NodeEntry<T>>, s2: Seq<NodeEntry<T>>, p: int, k: u32)
    requires
        s2.len() == s.len(),
        0 <= p < s.len(),
        unique_ids(s),
        s2[p].id == s[p].id,
        forall|i: int| 0 <= i < s.len() && i != p ==> s2[i] == s[i],
    ensures
        find_edges(s2, k) == if k == s[p].id {
            Some(edge_pairs(s2[p].edges@))
        } else {
            find_edges(s, k)
        },
    decreases s.len(),
{
    if p == 0 {
        if k != s[0].id {
            assert(s2.skip(1) =~= s.skip(1));
        }
    } else {
        assert(s2[0] == s[0]);
        if k == s[0].id {
            assert(s[0].id != s[p].id);
        } else {
            lemma_unique_skip(s);
            assert(s2.skip(1).len() == s.skip(1).len());
            assert forall|i: int| 0 <= i < s.skip(1).len() && i != p - 1 implies s2.skip(1)[i]
                == s.skip(1)[i] by {
                assert(s2.skip(1)[i] == s2[i + 1]);
                assert(s.skip(1)[i] == s[i + 1]);
            }
            assert(s2.skip(1)[p - 1] == s2[p]);
            assert(s.skip(1)[p - 1] == s[p]);
            lemma_find_pointwise(s.skip(1), s2.skip(1), p - 1, k);
        }
    }
}

/// Inserting an entry with a fresh identifier: its lookup now answers, every
/// other lookup is untouched.
proof fn lemma_find_insert<T>(s: Seq<NodeEntry<T>>, p: int, ne: NodeEntry<T>, k: u32)
    requires
        0 <= p <= s.len(),
        forall|i: int| 0 <= i < s.len() ==> (#[trigger] s[i]).id != ne.id,
    ensures
        find_edges(s.insert(p, ne), k) == if k == ne.id {
            Some(edge_pairs(ne.edges@))
        } else {
            find_edges(s, k)
        },
    decreases s.len(),
{
    let s2 = s.insert(p, ne);
    if p == 0 {
        assert(s2[0] == ne);
        if k != ne.id {
            assert(s2.skip(1) =~= s);
        }
    } else {
        assert(s2[0] == s[0]);
        assert(s[0].id != ne.id);
        if k != s[0].id {
            assert(s2.skip(1) =~= s.skip(1).insert(p - 1, ne));
            assert forall|i: int| 0 <= i < s.skip(1).len() implies (#[trigger] s.skip(1)[i]).id
                != ne.id by {
                assert(s.skip(1)[i] == s[i + 1]);
            }
            lemma_find_insert(s.skip(1), p - 1, ne, k);
        }
    }
}

/// Removing the entry at an index: its identifier's lookup stops answering,
/// every other lookup is untouched.
proof fn lemma_find_remove<T>(s: Seq<NodeEntry<T>>, p: int, k: u32)
    requires
        0 <= p < s.len(),
        unique_ids(s),
    ensures
        find_edges(s.remove(p), k) == if k == s[p].id {
            None::<Seq<(u32, T)>>
        } else {
            find_edges(s, k)
        },
    decreases s.len(),
{
    let s2 = s.remove(p);
    if p == 0 {
        assert(s2 =~= s.skip(1));
        if k == s[0].id {
            lemma_find_some(s.skip(1), k);
            if has_id(s.skip(1), k) {
                let i = choose|i: int|
                    0 <= i < s.skip(1).len() && (#[trigger] s.skip(1)[i]).id == k;
                assert(s.skip(1)[i] == s[i + 1]);
            }
        }
    } else {
        assert(s2[0] == s[0]);
        assert(s[0].id != s[p].id);
        if k != s[0].id {
            lemma_unique_skip(s);
            assert(s2.skip(1) =~= s.skip(1).remove(p - 1));
            assert(s.skip(1)[p - 1] == s[p]);
            lemma_find_remove(s.skip(1), p - 1, k);
        }
    }
}

/// Filtering one destination out of every entry's edge list filters every
/// lookup's answer the same way.
proof fn lemma_find_filtered<T>(s: Seq<NodeEntry<T>>, s2: Seq<NodeEntry<T>>, tgt: u32, k: u32)
    requires
        s2.len() == s.len(),
        forall|i: int|
            0 <= i < s.len() ==> (#[trigger] s2[i]).id == s[i].id && edge_pairs(s2[i].edges@)
                == edge_pairs(s[i].edges@).filter(drop_to::<T>(tgt)),
    ensures
        find_edges(s2, k) == match find_edges(s, k) {
            Some(es) => Some(es.filter(drop_to::<T>(tgt))),
            None => None,
        },
    decreases s.len(),
{
    if s.len() > 0 {
        assert(s2[0].id == s[0].id);
        if k != s[0].id {
            assert forall|i: int| 0 <= i < s.skip(1).len() implies (#[trigger] s2.skip(1)[i]).id
                == s.skip(1)[i].id && edge_pairs(s2.skip(1)[i].edges@) == edge_pairs(
                s.skip(1)[i].edges@,
            ).filter(drop_to::<T>(tgt)) by {
                assert(s2.skip(1)[i] == s2[i + 1]);
                assert(s.skip(1)[i] == s[i + 1]);
            }
            lemma_find_filtered(s.skip(1), s2.skip(1), tgt, k);
        }
    }
}

/// Everything a filter keeps was in the sequence and satisfies the test.
proof fn lemma_filter_subset<A>(s: Seq<A>, p: spec_fn(A) -> bool, x: A)
    requires
        s.filter(p).contains(x),
    ensures
        s.contains(x),
        p(x),
    decreases s.len(),
{
    reveal(Seq::filter);
    if s.len() > 0 {
        if p(s.last()) && x == s.last() {
            assert(s[s.len() - 1] == x);
        } else {
            lemma_filter_subset(s.drop_last(), p, x);
            let m = choose|m: int| 0 <= m < s.drop_last().len() && s.drop_last()[m] == x;
            assert(s[m] == x);
        }
    }
}

/// A filter keeps destinations distinct.
proof fn lemma_filter_distinct<T>(es: Seq<(u32, T)>, p: spec_fn((u32, T)) -> bool)
    requires
        distinct_dests(es),
    ensures
        distinct_dests(es.filter(p)),
    decreases es.len(),
{
    reveal(Seq::filter);
    if es.len() > 0 {
        assert(distinct_dests(es.drop_last()));
        lemma_filter_distinct(es.drop_last(), p);
        let sub = es.drop_last().filter(p);
        if p(es.last()) {
            assert forall|j: int, k: int| 0 <= j < k < es.filter(p).len() implies (
            #[trigger] es.filter(p)[j]).0 != (#[trigger] es.filter(p)[k]).0 by {
                if k == es.filter(p).len() - 1 {
                    assert(es.filter(p)[k] == es.last());
                    assert(es.filter(p)[j] == sub[j]);
                    assert(sub.contains(sub[j]));
                    lemma_filter_subset(es.drop_last(), p, sub[j]);
                    let m = choose|m: int|
                        0 <= m < es.drop_last().len() && es.drop_last()[m] == sub[j];
                    assert(es[m] == sub[j]);
                    assert(es[m].0 != es[es.len() - 1].0);
                } else {
                    assert(es.filter(p)[j] == sub[j]);
                    assert(es.filter(p)[k] == sub[k]);
                }
            }
        }
    }
}

/// Mapping edges to pairs commutes with filtering a destination out.
proof fn lemma_edge_pairs_filter<T>(s: Seq<Edge<T>>, tgt: u32)
    ensures
        edge_pairs(s.filter(drop_edge_to::<T>(tgt))) == edge_pairs(s).filter(drop_to::<T>(tgt)),
    decreases s.len(),
{
    reveal(Seq::filter);
    if s.len() == 0 {
        assert(edge_pairs(s.filter(drop_edge_to::<T>(tgt))) =~= edge_pairs(s).filter(
            drop_to::<T>(tgt),
        ));
    } else {
        lemma_edge_pairs_filter(s.drop_last(), tgt);
        assert(edge_pairs(s).drop_last() =~= edge_pairs(s.drop_last()));
        assert(edge_pairs(s).last() == (s.last().to_node, s.last().value));
        if s.last().to_node != tgt {
            assert(edge_pairs(s.filter(drop_edge_to::<T>(tgt))) =~= edge_pairs(
                s.drop_last().filter(drop_edge_to::<T>(tgt)),
            ).push((s.last().to_node, s.last().value)));
        } else {
            assert(edge_pairs(s.filter(drop_edge_to::<T>(tgt))) =~= edge_pairs(
                s.drop_last().filter(drop_edge_to::<T>(tgt)),
            ));
        }
    }
}

/// Removes in place every edge whose destination is `tgt`.
fn retain_without<T>(v: &mut Vec<Edge<T>>, tgt: u32)
    ensures
        final(v)@ == old(v)@.filter(drop_edge_to::<T>(tgt)),
{
    broadcast use Seq::lemma_filter_push;

    let ghost orig = old(v)@;
    let n0 = v.len();
    proof {
        assert(orig.len() == n0);
    }
    let mut i: usize = 0;
    let ghost k: int = 0;
    proof {
        reveal(Seq::filter);
        assert(orig.take(0) =~= Seq::<Edge<T>>::empty());
        assert(orig.skip(0) =~= orig);
        assert(v@ =~= orig.take(0).filter(drop_edge_to::<T>(tgt)) + orig.skip(0));
    }
    let mut kk: usize = 0;
    while i < v.len()
        invariant
            0 <= kk <= orig.len(),
            orig.len() <= usize::MAX,
            i == orig.take(kk as int).filter(drop_edge_to::<T>(tgt)).len(),
            v@ == orig.take(kk as int).filter(drop_edge_to::<T>(tgt)) + orig.skip(kk as int),
        decreases orig.len() - kk,
    {
        proof {
            assert(v@.len() == i + orig.skip(kk as int).len());
            assert(kk < orig.len());
            assert(v@[i as int] == orig.skip(kk as int)[0]);
            assert(orig.skip(kk as int)[0] == orig[kk as int]);
            assert(orig.take(kk as int + 1) =~= orig.take(kk as int).push(orig[kk as int]));
        }
        proof {
            orig.take(kk as int).lemma_filter_push(orig[kk as int], drop_edge_to::<T>(tgt));
            assert(orig.take(kk as int).push(orig[kk as int]).filter(drop_edge_to::<T>(tgt))
                == if drop_edge_to::<T>(tgt)(orig[kk as int]) {
                    orig.take(kk as int).filter(drop_edge_to::<T>(tgt)).push(orig[kk as int])
                } else {
                    orig.take(kk as int).filter(drop_edge_to::<T>(tgt))
                });
            assert(orig.take(kk as int + 1).filter(drop_edge_to::<T>(tgt)) == orig.take(
                kk as int,
            ).push(orig[kk as int]).filter(drop_edge_to::<T>(tgt)));
        }
        if v[i].to_node == tgt {
            proof {
                assert(!drop_edge_to::<T>(tgt)(orig[kk as int]));
            }
            v.remove(i);
            proof {
                assert(v@ =~= orig.take(kk as int + 1).filter(drop_edge_to::<T>(tgt)) + orig.skip(
                    kk as int + 1,
                ));
            }
        } else {
            proof {
                assert(drop_edge_to::<T>(tgt)(orig[kk as int]));
                assert(v@ =~= orig.take(kk as int + 1).filter(drop_edge_to::<T>(tgt)) + orig.skip(
                    kk as int + 1,
                ));
            }
            i = i + 1;
        }
        kk = kk + 1;
    }
    proof {
        assert(orig.take(kk as int) =~= orig);
        assert(orig.skip(kk as int) =~= Seq::<Edge<T>>::empty());
        assert(v@ =~= orig.filter(drop_edge_to::<T>(tgt)));
    }
}

impl<T> Graph<T> {
    /// Index of the entry carrying `k`, if one does.
    pub(crate) fn find_index(&self, k: u32) -> (r: Option<usize>)
        ensures
            match r {
                Some(i) => i < self.nodes@.len() && self.nodes@[i as int].id == k,
                None => !has_id(self.nodes@, k),
            },
    {
        let mut i: usize = 0;
        while i < self.nodes.len()
            invariant
                0 <= i <= self.nodes@.len(),
                forall|j: int| 0 <= j < i ==> (#[trigger] self.nodes@[j]).id != k,
            decreases self.nodes@.len() - i,
        {
            if self.nodes[i].id == k {
                return Some(i);
            }
            i = i + 1;
        }
        None
    }


    /// Removes from `node`'s list (if `node` exists) every edge aimed at
    /// `tgt`; everything else is untouched.
    fn remove_edges_from(&mut self, node: u32, tgt: u32)
        requires
            old(self).wf(),
        ensures
            final(self).wf(),
            final(self)@.dom() == old(self)@.dom(),
            forall|k: u32| #[trigger]
                old(self)@.dom().contains(k) ==> final(self)@[k] == (if k == node {
                    old(self)@[k].filter(drop_to::<T>(tgt))
                } else {
                    old(self)@[k]
                }),
    {
        let ghost pre = self.nodes@;
        proof {
            assert(unique_ids(pre));
        }
        match self.find_index(node) {
            Some(i) => {
                proof {
                    lemma_find_present(pre, i as int);
                }
                let entry = &mut self.nodes[i];
                retain_without(&mut entry.edges, tgt);
                proof {
                    let post = self.nodes@;
                    assert(post.len() == pre.len());
                    assert(post[i as int].id == pre[i as int].id);
                    assert(post[i as int].edges@ == pre[i as int].edges@.filter(
                        drop_edge_to::<T>(tgt),
                    ));
                    lemma_edge_pairs_filter(pre[i as int].edges@, tgt);
                    assert forall|k: u32|
                        find_edges(post, k) == if k == node {
                            Some(edge_pairs(pre[i as int].edges@).filter(drop_to::<T>(tgt)))
                        } else {
                            find_edges(pre, k)
                        } by {
                        lemma_find_pointwise(pre, post, i as int, k);
                    }
                    assert(final(self)@.dom() =~= old(self)@.dom());
                    assert(final(self).wf()) by {
                        assert forall|a: int, b: int| 0 <= a < b < post.len() implies (
                        #[trigger] post[a]).id < (#[trigger] post[b]).id by {
                            assert(post[a].id == pre[a].id);
                            assert(post[b].id == pre[b].id);
                        }
                        assert forall|a: int, m: int|
                            0 <= a < post.len() && 0 <= m < post[a].edges@.len() implies has_id(
                            post,
                            (#[trigger] post[a].edges@[m]).to_node,
                        ) by {
                            let e = post[a].edges@[m];
                            if a == i {
                                assert(post[a].edges@.contains(e));
                                lemma_filter_subset(pre[a].edges@, drop_edge_to::<T>(tgt), e);
                                let mm = choose|mm: int|
                                    0 <= mm < pre[a].edges@.len() && pre[a].edges@[mm] == e;
                                assert(has_id(pre, e.to_node));
                            } else {
                                assert(post[a].edges@[m] == pre[a].edges@[m]);
                                assert(has_id(pre, e.to_node));
                            }
                            let w = choose|w: int|
                                0 <= w < pre.len() && (#[trigger] pre[w]).id == e.to_node;
                            assert(post[w].id == e.to_node);
                        }
                        assert forall|a: int| 0 <= a < post.len() implies distinct_dests(
                            edge_pairs((#[trigger] post[a]).edges@),
                        ) by {
                            if a == i {
                                lemma_filter_distinct(
                                    edge_pairs(pre[a].edges@),
                                    drop_to::<T>(tgt),
                                );
                            } else {
                                assert(post[a].edges@ == pre[a].edges@);
                            }
                        }
                    }
                }
            },
            None => {
                proof {
                    lemma_find_some(pre, node);
                    assert(final(self)@.dom() =~= old(self)@.dom());
                }
            },
        }
    }

    /// Removes any edge from `from_node` to `to_node` and any edge from
    /// `to_node` to `from_node`: relation deletion is symmetric, whichever
    /// direction actually existed.  A no-op on absent nodes or relations.
    pub fn delete_relation(&mut self, from_node: u32, to_node: u32)
        requires
            old(self).wf(),
        ensures
            final(self).wf(),
            final(self)@.dom() == old(self)@.dom(),
            forall|k: u32| #[trigger]
                old(self)@.dom().contains(k) ==> final(self)@[k] == (if k == from_node {
                    old(self)@[k].filter(drop_to::<T>(to_node))
                } else if k == to_node {
                    old(self)@[k].filter(drop_to::<T>(from_node))
                } else {
                    old(self)@[k]
                }),
            old(self)@.dom().contains(from_node) ==> !has_dest(
                final(self)@[from_node],
                to_node,
            ),
            old(self)@.dom().contains(to_node) ==> !has_dest(final(self)@[to_node], from_node),
    {
        if from_node == to_node {
            self.remove_edges_from(from_node, to_node);
        } else {
            self.remove_edges_from(from_node, to_node);
            self.remove_edges_from(to_node, from_node);
        }
        proof {
            if old(self)@.dom().contains(from_node) {
                let es = self@[from_node];
                if has_dest(es, to_node) {
                    let j = choose|j: int| 0 <= j < es.len() && (#[trigger] es[j]).0 == to_node;
                    assert(drop_to::<T>(to_node)(es[j]));
                }
            }
            if old(self)@.dom().contains(to_node) {
                let es = self@[to_node];
                if has_dest(es, from_node) {
                    let j = choose|j: int| 0 <= j < es.len() && (#[trigger] es[j]).0 == from_node;
                    assert(drop_to::<T>(from_node)(es[j]));
                }
            }
        }
    }

    /// Deletes the node: its entry (and with it its outgoing edges) goes,
    /// and every remaining node's edge list is stripped of edges aimed at
    /// it.  Deleting an absent node only performs the stripping, which then
    /// finds nothing.
    pub fn delete_node(&mut self, node_id: u32)
        requires
            old(self).wf(),
        ensures
            final(self).wf(),
            final(self)@.dom() == old(self)@.dom().remove(node_id),
            !final(self)@.dom().contains(node_id),
            forall|k: u32| #[trigger]
                final(self)@.dom().contains(k) ==> final(self)@[k] == old(self)@[k].filter(
                    drop_to::<T>(node_id),
                ),
            forall|k: u32| #[trigger]
                final(self)@.dom().contains(k) ==> !has_dest(final(self)@[k], node_id),
    {
        let ghost pre = self.nodes@;
        let ghost mut ri: int = 0;
        proof {
            assert(unique_ids(pre));
        }
        match self.find_index(node_id) {
            Some(i) => {
                proof {
                    ri = i as int;
                }
                self.nodes.remove(i);
            },
            None => {
                proof {
                    lemma_find_some(pre, node_id);
                }
            },
        }
        let ghost mid = self.nodes@;
        proof {
            if has_id(pre, node_id) {
                assert(mid == pre.remove(ri));
                assert forall|k: u32|
                    find_edges(mid, k) == if k == node_id {
                        None::<Seq<(u32, T)>>
                    } else {
                        find_edges(pre, k)
                    } by {
                    lemma_find_remove(pre, ri, k);
                }
                assert forall|a: int, b: int| 0 <= a < b < mid.len() implies (
                #[trigger] mid[a]).id < (#[trigger] mid[b]).id by {
                    assert(mid[a] == if a < ri {
                        pre[a]
                    } else {
                        pre[a + 1]
                    });
                    assert(mid[b] == if b < ri {
                        pre[b]
                    } else {
                        pre[b + 1]
                    });
                }
            } else {
                assert(mid == pre);
                assert forall|k: u32|
                    find_edges(mid, k) == if k == node_id {
                        None::<Seq<(u32, T)>>
                    } else {
                        find_edges(pre, k)
                    } by {
                    lemma_find_some(pre, k);
                }
            }
        }
        let n = self.nodes.len();
        let mut j: usize = 0;
        while j < n
            invariant
                0 <= j <= mid.len(),
                n == mid.len(),
                self.nodes@.len() == mid.len(),
                pre == old(self).nodes@,
                old(self).wf(),
                forall|a: int, b: int|
                    0 <= a < b < mid.len() ==> (#[trigger] mid[a]).id < (#[trigger] mid[b]).id,
                forall|k: u32|
                    find_edges(mid, k) == if k == node_id {
                        None::<Seq<(u32, T)>>
                    } else {
                        find_edges(pre, k)
                    },
                has_id(pre, node_id) ==> 0 <= ri < pre.len() && pre[ri].id == node_id && mid
                    == pre.remove(ri),
                !has_id(pre, node_id) ==> mid == pre,
                forall|m: int|
                    0 <= m < j ==> (#[trigger] self.nodes@[m]).id == mid[m].id
                        && self.nodes@[m].edges@ == mid[m].edges@.filter(
                        drop_edge_to::<T>(node_id),
                    ),
                forall|m: int| j <= m < mid.len() ==> (#[trigger] self.nodes@[m]) == mid[m],
            decreases mid.len() - j,
        {
            let entry = &mut self.nodes[j];
            retain_without(&mut entry.edges, node_id);
            j = j + 1;
        }
        proof {
            let post = self.nodes@;
            assert forall|m: int| 0 <= m < mid.len() implies (#[trigger] post[m]).id == mid[m].id
                && edge_pairs(post[m].edges@) == edge_pairs(mid[m].edges@).filter(
                drop_to::<T>(node_id),
            ) by {
                lemma_edge_pairs_filter(mid[m].edges@, node_id);
            }
            assert forall|k: u32|
                find_edges(post, k) == match find_edges(mid, k) {
                    Some(es) => Some(es.filter(drop_to::<T>(node_id))),
                    None => None::<Seq<(u32, T)>>,
                } by {
                lemma_find_filtered(mid, post, node_id, k);
            }
            assert(final(self)@.dom() =~= old(self)@.dom().remove(node_id));
            assert forall|k: u32| #[trigger]
                final(self)@.dom().contains(k) implies !has_dest(final(self)@[k], node_id) by {
                let es = final(self)@[k];
                if has_dest(es, node_id) {
                    let jj = choose|jj: int| 0 <= jj < es.len() && (#[trigger] es[jj]).0 == node_id;
                    assert(drop_to::<T>(node_id)(es[jj]));
                }
            }
            assert(final(self).wf()) by {
                assert forall|a: int, b: int| 0 <= a < b < post.len() implies (
                #[trigger] post[a]).id < (#[trigger] post[b]).id by {
                    assert(post[a].id == mid[a].id);
                    assert(post[b].id == mid[b].id);
                }
                assert forall|a: int, m: int|
                    0 <= a < post.len() && 0 <= m < post[a].edges@.len() implies has_id(
                    post,
                    (#[trigger] post[a].edges@[m]).to_node,
                ) by {
                    let e = post[a].edges@[m];
                    assert(post[a].edges@ == mid[a].edges@.filter(drop_edge_to::<T>(node_id)));
                    assert(post[a].edges@.contains(e));
                    lemma_filter_subset(mid[a].edges@, drop_edge_to::<T>(node_id), e);
                    assert(e.to_node != node_id);
                    let pa: int = if has_id(pre, node_id) && a >= ri {
                        a + 1
                    } else {
                        a
                    };
                    assert(mid[a] == pre[pa]);
                    assert(has_id(pre, e.to_node));
                    let w = choose|w: int|
                        0 <= w < pre.len() && (#[trigger] pre[w]).id == e.to_node;
                    if has_id(pre, node_id) {
                        assert(w != ri);
                        if w < ri {
                            assert(mid[w] == pre[w]);
                        } else {
                            assert(mid[w - 1] == pre[w]);
                        }
                    } else {
                        assert(mid[w] == pre[w]);
                    }
                    assert(has_id(mid, e.to_node));
                    let w2 = choose|w2: int|
                        0 <= w2 < mid.len() && (#[trigger] mid[w2]).id == e.to_node;
                    assert(post[w2].id == e.to_node);
                }
                assert forall|a: int| 0 <= a < post.len() implies distinct_dests(
                    edge_pairs((#[trigger] post[a]).edges@),
                ) by {
                    let pa: int = if has_id(pre, node_id) && a >= ri {
                        a + 1
                    } else {
                        a
                    };
                    assert(mid[a] == pre[pa]);
                    assert(distinct_dests(edge_pairs(mid[a].edges@)));
                    lemma_filter_distinct(edge_pairs(mid[a].edges@), drop_to::<T>(node_id));
                }
            }
        }
    }


    /// The node is present in the graph.
    pub fn contains_node(&self, node_id: u32) -> (r: bool)
        ensures
            r == self@.dom().contains(node_id),
    {
        proof {
            lemma_find_some(self.nodes@, node_id);
        }
        self.find_index(node_id).is_some()
    }

    /// How many outgoing edges the node has, or `None` if it is absent.
    pub fn edge_count(&self, node_id: u32) -> (r: Option<usize>)
        requires
            self.wf(),
        ensures
            match r {
                Some(c) => self@.dom().contains(node_id) && c == self@[node_id].len(),
                None => !self@.dom().contains(node_id),
            },
    {
        proof {
            lemma_find_some(self.nodes@, node_id);
            assert(unique_ids(self.nodes@));
        }
        match self.find_index(node_id) {
            Some(i) => {
                proof {
                    lemma_find_present(self.nodes@, i as int);
                }
                Some(self.nodes[i].edges.len())
            },
            None => None,
        }
    }

    /// The graph holds an edge from `from_node` to `to_node`.
    pub fn has_relation(&self, from_node: u32, to_node: u32) -> (r: bool)
        requires
            self.wf(),
        ensures
            r == (self@.dom().contains(from_node) && has_dest(self@[from_node], to_node)),
    {
        proof {
            lemma_find_some(self.nodes@, from_node);
            assert(unique_ids(self.nodes@));
        }
        match self.find_index(from_node) {
            Some(i) => {
                proof {
                    lemma_find_present(self.nodes@, i as int);
                }
                let m = self.nodes[i].edges.len();
                let mut j: usize = 0;
                while j < m
                    invariant
                        i < self.nodes@.len(),
                        m == self.nodes@[i as int].edges@.len(),
                        0 <= j <= m,
                        self@.dom().contains(from_node),
                        self@[from_node] == edge_pairs(self.nodes@[i as int].edges@),
                        forall|mm: int|
                            0 <= mm < j ==> (#[trigger] self.nodes@[i as int].edges@[mm]).to_node
                                != to_node,
                    decreases m - j,
                {
                    if self.nodes[i].edges[j].to_node == to_node {
                        proof {
                            assert(edge_pairs(self.nodes@[i as int].edges@)[j as int] == (
                                self.nodes@[i as int].edges@[j as int].to_node,
                                self.nodes@[i as int].edges@[j as int].value,
                            ));
                        }
                        return true;
                    }
                    j = j + 1;
                }
                proof {
                    assert forall|mm: int|
                        0 <= mm < edge_pairs(self.nodes@[i as int].edges@).len() implies (
                    #[trigger] edge_pairs(self.nodes@[i as int].edges@)[mm]).0 != to_node by {
                        assert(edge_pairs(self.nodes@[i as int].edges@)[mm] == (
                            self.nodes@[i as int].edges@[mm].to_node,
                            self.nodes@[i as int].edges@[mm].value,
                        ));
                    }
                }
                false
            },
            None => false,
        }
    }

    /// The node identifiers, in ascending order.
    pub fn node_ids(&self) -> (r: Vec<u32>)
        ensures
            r@.len() == self.nodes@.len(),
            forall|i: int| 0 <= i < r@.len() ==> (#[trigger] r@[i]) == self.nodes@[i].id,
            forall|k: u32| r@.contains(k) <==> self@.dom().contains(k),
    {
        let mut out: Vec<u32> = Vec::new();
        let n = self.nodes.len();
        let mut i: usize = 0;
        while i < n
            invariant
                n == self.nodes@.len(),
                0 <= i <= n,
                out@.len() == i,
                forall|j: int| 0 <= j < i ==> (#[trigger] out@[j]) == self.nodes@[j].id,
            decreases n - i,
        {
            let id = self.nodes[i].id;
            out.push(id);
            i = i + 1;
        }
        proof {
            assert forall|k: u32| out@.contains(k) <==> self@.dom().contains(k) by {
                lemma_find_some(self.nodes@, k);
                if out@.contains(k) {
                    let w = choose|w: int| 0 <= w < out@.len() && out@[w] == k;
                    assert(self.nodes@[w].id == k);
                    assert(has_id(self.nodes@, k));
                }
                if has_id(self.nodes@, k) {
                    let w = choose|w: int|
                        0 <= w < self.nodes@.len() && (#[trigger] self.nodes@[w]).id == k;
                    assert(out@[w] == k);
                }
            }
        }
        out
    }

    /// An empty graph: no nodes, no edges.
    pub fn new_graph() -> (r: Graph<T>)
        ensures
            r@ == Map::<u32, Seq<(u32, T)>>::empty(),
            r.wf(),
            r.nodes@.len() == 0,
    {
        let r = Graph { nodes: Vec::new() };
        proof {
            assert forall|k: u32| !(#[trigger] r@.dom().contains(k)) by {}
            assert(r@ =~= Map::<u32, Seq<(u32, T)>>::empty());
        }
        r
    }

    /// Inserts an isolated node.  Refuses an identifier already present
    /// (`NodeAlreadyExists`) and changes nothing in that case.
    pub fn add_node(&mut self, node_id: u32) -> (r: Result<(), GraphError>)
        requires
            old(self).wf(),
        ensures
            final(self).wf(),
            match r {
                Ok(()) => !old(self)@.dom().contains(node_id) && final(self)@ == old(
                    self,
                )@.insert(node_id, Seq::<(u32, T)>::empty()),
                Err(e) => e == GraphError::NodeAlreadyExists && old(self)@.dom().contains(node_id)
                    && *final(self) == *old(self),
            },
    {
        let mut i: usize = 0;
        while i < self.nodes.len() && self.nodes[i].id < node_id
            invariant
                0 <= i <= self.nodes@.len(),
                forall|j: int| 0 <= j < i ==> (#[trigger] self.nodes@[j]).id < node_id,
                *self == *old(self),
            decreases self.nodes@.len() - i,
        {
            i = i + 1;
        }
        if i < self.nodes.len() && self.nodes[i].id == node_id {
            proof {
                lemma_find_some(self.nodes@, node_id);
            }
            return Err(GraphError::NodeAlreadyExists);
        }
        proof {
            assert forall|j: int| 0 <= j < self.nodes@.len() implies (#[trigger] self.nodes@[j]).id
                != node_id by {
                if j >= i {
                    if i < self.nodes@.len() {
                        if j > i {
                            assert(self.nodes@[i as int].id < self.nodes@[j].id);
                        }
                    }
                }
            }
            lemma_find_some(self.nodes@, node_id);
        }
        let entry = NodeEntry { id: node_id, edges: Vec::new() };
        let ghost pre = self.nodes@;
        self.nodes.insert(i, entry);
        proof {
            let post = self.nodes@;
            assert forall|k: u32|
                find_edges(post, k) == if k == node_id {
                    Some(Seq::<(u32, T)>::empty())
                } else {
                    find_edges(pre, k)
                } by {
                lemma_find_insert(pre, i as int, post[i as int], k);
                assert(post[i as int].edges@ =~= Seq::<Edge<T>>::empty());
                assert(post =~= pre.insert(i as int, post[i as int]));
                assert(edge_pairs(post[i as int].edges@) =~= Seq::<(u32, T)>::empty());
            }
            assert(final(self)@ =~= old(self)@.insert(node_id, Seq::<(u32, T)>::empty()));
            assert(final(self).wf()) by {
                assert forall|a: int, b: int| 0 <= a < b < post.len() implies (
                #[trigger] post[a]).id < (#[trigger] post[b]).id by {
                    if b < i {
                    } else if a < i && b == i {
                        assert(post[a] == pre[a]);
                    } else if a < i && b > i {
                        assert(post[a] == pre[a] && post[b] == pre[b - 1]);
                        if b - 1 == i {
                            assert(pre[b - 1].id >= node_id);
                            assert(pre[b - 1].id != node_id);
                        } else {
                            assert(pre[i as int].id > node_id || i as int == pre.len());
                        }
                    } else if a == i && b > i {
                        assert(post[b] == pre[b - 1]);
                        assert(pre[b - 1].id != node_id);
                        if b - 1 > i {
                            assert(pre[i as int].id < pre[b - 1].id);
                            assert(pre[i as int].id >= node_id);
                        } else {
                            assert(pre[b - 1].id >= node_id);
                        }
                    } else {
                        assert(post[a] == pre[a - 1] && post[b] == pre[b - 1]);
                    }
                }
                assert forall|a: int, j: int|
                    0 <= a < post.len() && 0 <= j < post[a].edges@.len() implies has_id(
                    post,
                    (#[trigger] post[a].edges@[j]).to_node,
                ) by {
                    let pa = if a < i {
                        a
                    } else {
                        a - 1
                    };
                    assert(a != i);
                    assert(post[a] == pre[pa]);
                    assert(has_id(pre, pre[pa].edges@[j].to_node));
                    let w = choose|w: int|
                        0 <= w < pre.len() && (#[trigger] pre[w]).id == pre[pa].edges@[j].to_node;
                    if w < i {
                        assert(post[w] == pre[w]);
                    } else {
                        assert(post[w + 1] == pre[w]);
                    }
                }
                assert forall|a: int| 0 <= a < post.len() implies distinct_dests(
                    edge_pairs((#[trigger] post[a]).edges@),
                ) by {
                    if a != i {
                        let pa = if a < i {
                            a
                        } else {
                            a - 1
                        };
                        assert(post[a] == pre[pa]);
                    }
                }
            }
        }
        Ok(())
    }

    /// Inserts the directed relation `begin_node -> end_node` carrying
    /// `edge_value`.  Refuses it when either endpoint is absent
    /// (`NodeNotFound`) or when an edge from `begin_node` to `end_node` is
    /// already present, whatever its payload (`RelationAlreadyExists`);
    /// nothing changes in either case.
    pub fn add_relation_to_node(&mut self, begin_node: u32, end_node: u32, edge_value: T) -> (r:
        Result<(), GraphError>)
        requires
            old(self).wf(),
        ensures
            final(self).wf(),
            match r {
                Ok(()) => old(self)@.dom().contains(begin_node) && old(self)@.dom().contains(
                    end_node,
                ) && !has_dest(old(self)@[begin_node], end_node) && final(self)@ == old(
                    self,
                )@.insert(begin_node, old(self)@[begin_node].push((end_node, edge_value))),
                Err(e) => *final(self) == *old(self) && ((e == GraphError::NodeNotFound && !(old(
                    self,
                )@.dom().contains(begin_node) && old(self)@.dom().contains(end_node))) || (e
                    == GraphError::RelationAlreadyExists && old(self)@.dom().contains(begin_node)
                    && old(self)@.dom().contains(end_node) && has_dest(
                    old(self)@[begin_node],
                    end_node,
                ))),
            },
    {
        proof {
            lemma_find_some(self.nodes@, begin_node);
            lemma_find_some(self.nodes@, end_node);
        }
        let i_opt = self.find_index(begin_node);
        let e_opt = self.find_index(end_node);
        let i = match i_opt {
            Some(i) => i,
            None => {
                return Err(GraphError::NodeNotFound);
            },
        };
        if e_opt.is_none() {
            return Err(GraphError::NodeNotFound);
        }
        proof {
            lemma_find_present(self.nodes@, i as int);
            assert(old(self)@[begin_node] == edge_pairs(self.nodes@[i as int].edges@));
        }
        let n_edges = self.nodes[i].edges.len();
        let mut j: usize = 0;
        while j < n_edges
            invariant
                0 <= j <= self.nodes@[i as int].edges@.len(),
                n_edges == self.nodes@[i as int].edges@.len(),
                i < self.nodes@.len(),
                forall|m: int|
                    0 <= m < j ==> (#[trigger] self.nodes@[i as int].edges@[m]).to_node
                        != end_node,
                *self == *old(self),
                old(self).wf(),
                old(self)@.dom().contains(begin_node),
                old(self)@.dom().contains(end_node),
                old(self)@[begin_node] == edge_pairs(self.nodes@[i as int].edges@),
            decreases n_edges - j,
        {
            if self.nodes[i].edges[j].to_node == end_node {
                proof {
                    assert(edge_pairs(self.nodes@[i as int].edges@)[j as int].0 == end_node);
                    assert(has_dest(old(self)@[begin_node], end_node));
                }
                return Err(GraphError::RelationAlreadyExists);
            }
            j = j + 1;
        }
        proof {
            assert forall|m: int| 0 <= m < edge_pairs(self.nodes@[i as int].edges@).len() implies (
            #[trigger] edge_pairs(self.nodes@[i as int].edges@)[m]).0 != end_node by {
                assert(edge_pairs(self.nodes@[i as int].edges@)[m] == (
                    self.nodes@[i as int].edges@[m].to_node,
                    self.nodes@[i as int].edges@[m].value,
                ));
            }
            assert(!has_dest(old(self)@[begin_node], end_node));
        }
        let ghost pre = self.nodes@;
        let entry = &mut self.nodes[i];
        entry.edges.push(Edge { to_node: end_node, value: edge_value });
        proof {
            let post = self.nodes@;
            assert(post.len() == pre.len());
            assert(post[i as int].id == pre[i as int].id);
            assert(post[i as int].edges@ =~= pre[i as int].edges@.push(
                Edge { to_node: end_node, value: edge_value },
            ));
            assert(edge_pairs(post[i as int].edges@) =~= edge_pairs(pre[i as int].edges@).push(
                (end_node, edge_value),
            ));
            assert forall|k: u32|
                find_edges(post, k) == if k == begin_node {
                    Some(edge_pairs(pre[i as int].edges@).push((end_node, edge_value)))
                } else {
                    find_edges(pre, k)
                } by {
                lemma_find_pointwise(pre, post, i as int, k);
            }
            assert(final(self)@ =~= old(self)@.insert(
                begin_node,
                old(self)@[begin_node].push((end_node, edge_value)),
            ));
            assert(final(self).wf()) by {
                assert forall|a: int, b: int| 0 <= a < b < post.len() implies (
                #[trigger] post[a]).id < (#[trigger] post[b]).id by {
                    assert(post[a].id == pre[a].id);
                    assert(post[b].id == pre[b].id);
                }
                assert forall|a: int, m: int|
                    0 <= a < post.len() && 0 <= m < post[a].edges@.len() implies has_id(
                    post,
                    (#[trigger] post[a].edges@[m]).to_node,
                ) by {
                    let t = post[a].edges@[m].to_node;
                    if a == i && m == post[a].edges@.len() - 1 {
                        assert(t == end_node);
                        lemma_find_some(pre, end_node);
                        let w = choose|w: int| 0 <= w < pre.len() && (#[trigger] pre[w]).id == t;
                        assert(post[w].id == t);
                    } else {
                        assert(post[a].edges@[m] == pre[a].edges@[m]);
                        assert(has_id(pre, t));
                        let w = choose|w: int| 0 <= w < pre.len() && (#[trigger] pre[w]).id == t;
                        assert(post[w].id == t);
                    }
                }
                assert forall|a: int| 0 <= a < post.len() implies distinct_dests(
                    edge_pairs((#[trigger] post[a]).edges@),
                ) by {
                    if a == i {
                        let es = edge_pairs(post[a].edges@);
                        let old_es = edge_pairs(pre[a].edges@);
                        assert forall|x: int, y: int| 0 <= x < y < es.len() implies (
                        #[trigger] es[x]).0 != (#[trigger] es[y]).0 by {
                            if y == es.len() - 1 {
                                assert(es[y].0 == end_node);
                                assert(es[x] == old_es[x]);
                                assert(old_es[x].0 != end_node);
                            } else {
                                assert(es[x] == old_es[x]);
                                assert(es[y] == old_es[y]);
                            }
                        }
                    } else {
                        assert(post[a].edges@ == pre[a].edges@);
                    }
                }
            }
        }
        Ok(())
    }
}

} // verus!
