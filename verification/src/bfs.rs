//! Breadth-first traversal.  The result is characterised exactly: starting
//! from a present node, the visit order begins with the start node, repeats
//! no node even across cycles, and holds precisely the nodes reachable from
//! the start.

use vstd::prelude::*;
use vstd::pervasive::unreached;
use vstd::set_lib::lemma_len_subset;
use crate::graph::{
    Graph, GraphError, NodeEntry, edge_pairs, has_dest, has_id, lemma_find_present,
    lemma_find_some, unique_ids,
};

verus! {

broadcast use vstd::seq_lib::group_seq_properties;

/// One directed step of `m`: `a` is a node of `m` with an edge aimed at `b`.
pub open spec fn step<T>(m: Map<u32, Seq<(u32, T)>>, a: u32, b: u32) -> bool {
    m.dom().contains(a) && has_dest(m[a], b)
}

/// `p` walks `m`: nonempty, and each element steps to the next.
pub open spec fn is_path<T>(m: Map<u32, Seq<(u32, T)>>, p: Seq<u32>) -> bool {
    p.len() > 0 && forall|i: int| 0 <= i < p.len() - 1 ==> step(m, #[trigger] p[i], p[i + 1])
}

/// Some walk of `m` leads from `a` to `b`.  Every node reaches itself.
pub open spec fn reachable<T>(m: Map<u32, Seq<(u32, T)>>, a: u32, b: u32) -> bool {
    exists|p: Seq<u32>| #[trigger] is_path(m, p) && p.first() == a && p.last() == b
}

pub proof fn lemma_reachable_refl<T>(m: Map<u32, Seq<(u32, T)>>, a: u32)
    ensures
        reachable(m, a, a),
{
    let p = seq![a];
    assert(is_path(m, p));
    assert(p.first() == a && p.last() == a);
}

pub proof fn lemma_reachable_step<T>(m: Map<u32, Seq<(u32, T)>>, a: u32, b: u32, c: u32)
    requires
        reachable(m, a, b),
        step(m, b, c),
    ensures
        reachable(m, a, c),
{
    let p = choose|p: Seq<u32>| #[trigger] is_path(m, p) && p.first() == a && p.last() == b;
    let p2 = p.push(c);
    assert(is_path(m, p2)) by {
        assert forall|i: int| 0 <= i < p2.len() - 1 implies step(m, #[trigger] p2[i], p2[i + 1]) by {
            if i < p.len() - 1 {
                assert(p2[i] == p[i] && p2[i + 1] == p[i + 1]);
            } else {
                assert(p2[i] == p.last() && p2[i + 1] == c);
            }
        }
    }
    assert(p2.first() == a && p2.last() == c);
}

/// A set of nodes that holds the head of a walk and is closed under steps
/// holds its tail.
proof fn lemma_path_stays<T>(m: Map<u32, Seq<(u32, T)>>, vs: Seq<u32>, p: Seq<u32>)
    requires
        is_path(m, p),
        vs.contains(p.first()),
        forall|x: u32, y: u32| vs.contains(x) && #[trigger] step(m, x, y) ==> vs.contains(y),
    ensures
        vs.contains(p.last()),
    decreases p.len(),
{
    if p.len() > 1 {
        assert(step(m, p[0], p[1]));
        let p2 = p.skip(1);
        assert(is_path(m, p2)) by {
            assert forall|i: int| 0 <= i < p2.len() - 1 implies step(
                m,
                #[trigger] p2[i],
                p2[i + 1],
            ) by {
                assert(p2[i] == p[i + 1] && p2[i + 1] == p[i + 2]);
            }
        }
        assert(p2.first() == p[1]);
        assert(vs.contains(p2.first()));
        lemma_path_stays(m, vs, p2);
        assert(p2.last() == p.last());
    }
}

/// A duplicate-free list of node identifiers all present among `s`'s
/// entries is no longer than `s`.
proof fn lemma_visited_bound<T>(s: Seq<NodeEntry<T>>, vs: Seq<u32>)
    requires
        vs.no_duplicates(),
        forall|v: u32| vs.contains(v) ==> has_id(s, v),
    ensures
        vs.len() <= s.len(),
{
    broadcast use vstd::seq_lib::seq_to_set_is_finite;

    let ids = Seq::new(s.len(), |i: int| s[i].id);
    assert forall|x: u32| vs.to_set().contains(x) implies ids.to_set().contains(x) by {
        assert(vs.contains(x));
        assert(has_id(s, x));
        let w = choose|w: int| 0 <= w < s.len() && (#[trigger] s[w]).id == x;
        assert(ids[w] == x);
        assert(ids.contains(x));
    }
    vs.unique_seq_to_set();
    ids.lemma_cardinality_of_set();
    lemma_len_subset(vs.to_set(), ids.to_set());
}

/// `r` holds `x`, decided by a scan.
fn vec_contains_u32(v: &Vec<u32>, x: u32) -> (r: bool)
    ensures
        r == v@.contains(x),
{
    let mut i: usize = 0;
    while i < v.len()
        invariant
            0 <= i <= v@.len(),
            forall|j: int| 0 <= j < i ==> v@[j] != x,
        decreases v@.len() - i,
    {
        if v[i] == x {
            return true;
        }
        i = i + 1;
    }
    false
}

impl<T> Graph<T> {
    /// Queue-based breadth-first traversal from `start`.  Refuses an absent
    /// start node (`NodeNotFound`).  On success the visit order begins with
    /// `start`, repeats no node, and holds exactly the nodes reachable from
    /// `start` along directed edges.
    pub fn bfs(&self, start: u32) -> (r: Result<Vec<u32>, GraphError>)
        requires
            self.wf(),
        ensures
            match r {
                Ok(order) => self@.dom().contains(start) && order@.len() > 0 && order@[0] == start
                    && order@.no_duplicates() && (forall|x: u32| #[trigger]
                    order@.contains(x) ==> reachable(self@, start, x)) && (forall|x: u32| #[trigger]
                    reachable(self@, start, x) ==> order@.contains(x)),
                Err(e) => e == GraphError::NodeNotFound && !self@.dom().contains(start),
            },
    {
        proof {
            lemma_find_some(self.nodes@, start);
        }
        if self.find_index(start).is_none() {
            return Err(GraphError::NodeNotFound);
        }
        let mut queue: Vec<u32> = Vec::new();
        let mut visited: Vec<u32> = Vec::new();
        queue.push(start);
        visited.push(start);
        proof {
            lemma_reachable_refl(self@, start);
            assert(visited@ =~= seq![start]);
            assert(queue@ =~= seq![start]);
        }
        while queue.len() > 0
            invariant
                self.wf(),
                self@.dom().contains(start),
                visited@.len() > 0,
                visited@[0] == start,
                visited@.no_duplicates(),
                visited@.len() <= self.nodes@.len(),
                forall|q: u32| #[trigger] queue@.contains(q) ==> visited@.contains(q),
                forall|v: u32| #[trigger] visited@.contains(v) ==> self@.dom().contains(v),
                forall|v: u32| #[trigger] visited@.contains(v) ==> reachable(self@, start, v),
                forall|v: u32, y: u32|
                    visited@.contains(v) && !queue@.contains(v) && #[trigger] step(self@, v, y)
                        ==> visited@.contains(y),
            decreases self.nodes@.len() - visited@.len(), queue@.len(),
        {
            let ghost qpre = queue@;
            let node = queue.remove(0);
            let ghost vis0 = visited@;
            let ghost q0 = queue@;
            proof {
                assert(qpre[0] == node);
                assert(qpre.contains(node));
                assert(vis0.contains(node));
                assert(self@.dom().contains(node));
                lemma_find_some(self.nodes@, node);
                assert(unique_ids(self.nodes@));
                assert(queue@ =~= qpre.skip(1));
                assert forall|q: u32| #[trigger] queue@.contains(q) implies visited@.contains(
                    q,
                ) by {
                    let w = choose|w: int| 0 <= w < queue@.len() && queue@[w] == q;
                    assert(qpre[w + 1] == q);
                    assert(qpre.contains(q));
                }
                assert forall|v: u32, y: u32|
                    visited@.contains(v) && !queue@.contains(v) && v != node && #[trigger] step(
                        self@,
                        v,
                        y,
                    ) implies visited@.contains(y) by {
                    if qpre.contains(v) {
                        let w = choose|w: int| 0 <= w < qpre.len() && qpre[w] == v;
                        assert(w != 0);
                        assert(queue@[w - 1] == v);
                        assert(queue@.contains(v));
                    }
                }
            }
            let idx = match self.find_index(node) {
                Some(i) => i,
                None => {
                    proof {
                        assert(false);
                    }
                    unreached()
                },
            };
            proof {
                lemma_find_present(self.nodes@, idx as int);
                assert(self@[node] == edge_pairs(self.nodes@[idx as int].edges@));
            }
            let m = self.nodes[idx].edges.len();
            let mut e: usize = 0;
            while e < m
                invariant
                    self.wf(),
                    self@.dom().contains(start),
                    idx < self.nodes@.len(),
                    self.nodes@[idx as int].id == node,
                    m == self.nodes@[idx as int].edges@.len(),
                    0 <= e <= m,
                    self@[node] == edge_pairs(self.nodes@[idx as int].edges@),
                    visited@.len() > 0,
                    visited@[0] == start,
                    visited@.no_duplicates(),
                    visited@.len() <= self.nodes@.len(),
                    visited@.contains(node),
                    vis0.len() <= visited@.len(),
                    visited@.len() - vis0.len() == queue@.len() - q0.len(),
                    forall|q: u32| #[trigger] queue@.contains(q) ==> visited@.contains(q),
                    forall|v: u32| #[trigger] visited@.contains(v) ==> self@.dom().contains(v),
                    forall|v: u32| #[trigger] visited@.contains(v) ==> reachable(self@, start, v),
                    forall|mi: int|
                        0 <= mi < e ==> visited@.contains(
                            (#[trigger] self.nodes@[idx as int].edges@[mi]).to_node,
                        ),
                    forall|v: u32, y: u32|
                        visited@.contains(v) && !queue@.contains(v) && v != node && #[trigger] step(
                            self@,
                            v,
                            y,
                        ) ==> visited@.contains(y),
                decreases m - e,
            {
                let t = self.nodes[idx].edges[e].to_node;
                if !vec_contains_u32(&visited, t) {
                    proof {
                        assert(has_id(self.nodes@, t));
                        lemma_find_some(self.nodes@, t);
                        assert(self@.dom().contains(t));
                        assert(edge_pairs(self.nodes@[idx as int].edges@)[e as int] == (
                            self.nodes@[idx as int].edges@[e as int].to_node,
                            self.nodes@[idx as int].edges@[e as int].value,
                        ));
                        assert(has_dest(self@[node], t));
                        assert(step(self@, node, t));
                        lemma_reachable_step(self@, start, node, t);
                        assert(visited@.push(t).no_duplicates()) by {
                            assert forall|a: int, b: int|
                                0 <= a < b < visited@.push(t).len() implies visited@.push(t)[a]
                                != visited@.push(t)[b] by {
                                if b < visited@.len() {
                                    assert(visited@.push(t)[a] == visited@[a]);
                                    assert(visited@.push(t)[b] == visited@[b]);
                                } else {
                                    assert(visited@.push(t)[b] == t);
                                    assert(visited@.push(t)[a] == visited@[a]);
                                    assert(visited@.contains(visited@[a]));
                                }
                            }
                        }
                        assert forall|v: u32| #[trigger]
                            visited@.push(t).contains(v) implies self@.dom().contains(v)
                            && has_id(self.nodes@, v) by {
                            let w = choose|w: int|
                                0 <= w < visited@.push(t).len() && visited@.push(t)[w] == v;
                            if w < visited@.len() {
                                assert(visited@.contains(v));
                            }
                            lemma_find_some(self.nodes@, v);
                        }
                        lemma_visited_bound(self.nodes@, visited@.push(t));
                    }
                    visited.push(t);
                    queue.push(t);
                }
                e = e + 1;
            }
            proof {
                assert forall|v: u32, y: u32|
                    visited@.contains(v) && !queue@.contains(v) && #[trigger] step(self@, v, y)
                        implies visited@.contains(y) by {
                    if v == node {
                        assert(has_dest(self@[node], y));
                        let j = choose|j: int|
                            0 <= j < self@[node].len() && (#[trigger] self@[node][j]).0 == y;
                        assert(edge_pairs(self.nodes@[idx as int].edges@)[j] == (
                            self.nodes@[idx as int].edges@[j].to_node,
                            self.nodes@[idx as int].edges@[j].value,
                        ));
                        assert(self.nodes@[idx as int].edges@[j].to_node == y);
                        assert(visited@.contains(y));
                    }
                }
            }
        }
        proof {
            assert forall|x: u32| #[trigger]
                reachable(self@, start, x) implies visited@.contains(x) by {
                let p = choose|p: Seq<u32>| #[trigger]
                    is_path(self@, p) && p.first() == start && p.last() == x;
                assert(visited@.contains(start));
                lemma_path_stays(self@, visited@, p);
            }
            assert(visited@.contains(visited@[0]));
        }
        Ok(visited)
    }
}

} // verus!
