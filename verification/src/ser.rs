//! The line-oriented text encoding of a graph, and its exact decoder.
//!
//! The encoding has two sections: one line per node identifier in ascending
//! order, a separator line holding the single character `#`, then one line
//! per edge — source, destination and payload text, tab-separated — in the
//! same node order, each node's edges in stored order.  `deserialize` reads
//! the same format back by replaying `add_node` and `add_relation_to_node`
//! line by line, so an edge may only refer to nodes already listed.

use vstd::prelude::*;
use crate::graph::{Graph, GraphError, NodeEntry, edge_pairs, has_dest, has_id, unique_ids};
use crate::num::{dec_digits, parse_u32, parse_u32_spec, push_dec_digits};
use crate::text::{HASH, NL, TAB, free_of, is_token, split_bytes, split_on};
use crate::value::EdgeValue;

verus! {

broadcast use vstd::seq_lib::group_seq_properties;

/// The node section: each identifier's decimal digits, newline-terminated.
pub open spec fn ser_nodes<T>(s: Seq<NodeEntry<T>>) -> Seq<u8>
    decreases s.len(),
{
    if s.len() == 0 {
        Seq::empty()
    } else {
        dec_digits(s[0].id as nat) + seq![NL] + ser_nodes(s.skip(1))
    }
}

/// One edge line: source, destination and payload text, tab-separated.
pub open spec fn ser_edge_line<T: EdgeValue>(from: u32, p: (u32, T)) -> Seq<u8> {
    dec_digits(from as nat) + seq![TAB] + dec_digits(p.0 as nat) + seq![TAB] + p.1.text_of()
        + seq![NL]
}

/// The edge lines of one node, in stored order.
pub open spec fn ser_edges_of<T: EdgeValue>(from: u32, es: Seq<(u32, T)>) -> Seq<u8>
    decreases es.len(),
{
    if es.len() == 0 {
        Seq::empty()
    } else {
        ser_edge_line(from, es[0]) + ser_edges_of(from, es.skip(1))
    }
}

/// The edge section: every node's edge lines, in entry order.
pub open spec fn ser_edges<T: EdgeValue>(s: Seq<NodeEntry<T>>) -> Seq<u8>
    decreases s.len(),
{
    if s.len() == 0 {
        Seq::empty()
    } else {
        ser_edges_of(s[0].id, edge_pairs(s[0].edges@)) + ser_edges(s.skip(1))
    }
}

/// The whole encoding: node section, `#` line, edge section.
pub open spec fn ser_graph<T: EdgeValue>(s: Seq<NodeEntry<T>>) -> Seq<u8> {
    ser_nodes(s) + seq![HASH, NL] + ser_edges(s)
}

/// Appends a byte slice.
fn append_bytes(out: &mut Vec<u8>, s: &[u8])
    ensures
        final(out)@ == old(out)@ + s@,
{
    let mut i: usize = 0;
    proof {
        assert(out@ =~= old(out)@ + s@.take(0));
    }
    while i < s.len()
        invariant
            0 <= i <= s@.len(),
            out@ == old(out)@ + s@.take(i as int),
        decreases s@.len() - i,
    {
        out.push(s[i]);
        proof {
            assert(s@.take(i as int + 1) =~= s@.take(i as int).push(s@[i as int]));
            assert(out@ =~= old(out)@ + s@.take(i as int + 1));
        }
        i = i + 1;
    }
    proof {
        assert(s@.take(i as int) =~= s@);
    }
}

impl<T: EdgeValue> Graph<T> {
    /// Produces the text encoding of the graph, byte for byte the
    /// `ser_graph` form of its entries.
    pub fn serialize(&self) -> (r: Vec<u8>)
        ensures
            r@ == ser_graph(self.nodes@),
    {
        let all = &self.nodes;
        let n = all.len();
        let mut out: Vec<u8> = Vec::new();
        let mut i: usize = 0;
        proof {
            assert(self.nodes@.skip(0) =~= self.nodes@);
            assert(out@ + ser_nodes(self.nodes@) =~= ser_nodes(self.nodes@));
        }
        while i < n
            invariant
                0 <= i <= self.nodes@.len(),
                n == self.nodes@.len(),
                out@ + ser_nodes(self.nodes@.skip(i as int)) == ser_nodes(self.nodes@),
            decreases n - i,
        {
            let ghost pre = out@;
            push_dec_digits(self.nodes[i].id, &mut out);
            out.push(NL);
            proof {
                let rest = self.nodes@.skip(i as int);
                assert(rest[0] == self.nodes@[i as int]);
                assert(rest.skip(1) =~= self.nodes@.skip(i as int + 1));
                assert(ser_nodes(rest) == dec_digits(self.nodes@[i as int].id as nat) + seq![NL]
                    + ser_nodes(self.nodes@.skip(i as int + 1)));
                assert(out@ =~= pre + (dec_digits(self.nodes@[i as int].id as nat) + seq![NL]));
                assert(out@ + ser_nodes(self.nodes@.skip(i as int + 1)) =~= pre + ser_nodes(rest));
            }
            i = i + 1;
        }
        proof {
            assert(self.nodes@.skip(i as int) =~= Seq::<NodeEntry<T>>::empty());
            assert(out@ + ser_nodes(self.nodes@.skip(i as int)) =~= out@);
        }
        out.push(HASH);
        out.push(NL);
        proof {
            assert(out@ =~= ser_nodes(self.nodes@) + seq![HASH, NL]);
            assert(out@ + ser_edges(self.nodes@.skip(0)) =~= out@ + ser_edges(self.nodes@));
            assert(self.nodes@.skip(0) =~= self.nodes@);
        }
        let mut i: usize = 0;
        while i < n
            invariant
                0 <= i <= self.nodes@.len(),
                n == self.nodes@.len(),
                out@ + ser_edges(self.nodes@.skip(i as int)) == ser_graph(self.nodes@),
            decreases n - i,
        {
            let from = self.nodes[i].id;
            let m = self.nodes[i].edges.len();
            let ghost pairs = edge_pairs(self.nodes@[i as int].edges@);
            let mut j: usize = 0;
            proof {
                let rest = self.nodes@.skip(i as int);
                assert(rest[0] == self.nodes@[i as int]);
                assert(rest.skip(1) =~= self.nodes@.skip(i as int + 1));
                assert(ser_edges(rest) == ser_edges_of(from, pairs) + ser_edges(
                    self.nodes@.skip(i as int + 1),
                ));
                assert(pairs.skip(0) =~= pairs);
            }
            while j < m
                invariant
                    0 <= j <= pairs.len(),
                    m == pairs.len(),
                    i < self.nodes@.len(),
                    m == self.nodes@[i as int].edges@.len(),
                    from == self.nodes@[i as int].id,
                    pairs == edge_pairs(self.nodes@[i as int].edges@),
                    out@ + ser_edges_of(from, pairs.skip(j as int)) + ser_edges(
                        self.nodes@.skip(i as int + 1),
                    ) == ser_graph(self.nodes@),
                decreases m - j,
            {
                let ghost pre = out@;
                push_dec_digits(from, &mut out);
                out.push(TAB);
                push_dec_digits(self.nodes[i].edges[j].to_node, &mut out);
                out.push(TAB);
                let vt = self.nodes[i].edges[j].value.to_text();
                append_bytes(&mut out, vt.as_slice());
                out.push(NL);
                proof {
                    let e = self.nodes@[i as int].edges@[j as int];
                    assert(pairs[j as int] == (e.to_node, e.value));
                    let erest = pairs.skip(j as int);
                    assert(erest[0] == pairs[j as int]);
                    assert(erest.skip(1) =~= pairs.skip(j as int + 1));
                    assert(ser_edges_of(from, erest) == ser_edge_line(from, pairs[j as int])
                        + ser_edges_of(from, pairs.skip(j as int + 1)));
                    assert(out@ =~= pre + ser_edge_line(from, pairs[j as int]));
                    assert(out@ + ser_edges_of(from, pairs.skip(j as int + 1)) + ser_edges(
                        self.nodes@.skip(i as int + 1),
                    ) =~= pre + ser_edges_of(from, erest) + ser_edges(
                        self.nodes@.skip(i as int + 1),
                    ));
                }
                j = j + 1;
            }
            proof {
                assert(pairs.skip(j as int) =~= Seq::<(u32, T)>::empty());
                assert(out@ + ser_edges(self.nodes@.skip(i as int + 1)) =~= out@ + ser_edges_of(
                    from,
                    pairs.skip(j as int),
                ) + ser_edges(self.nodes@.skip(i as int + 1)));
            }
            i = i + 1;
        }
        proof {
            assert(self.nodes@.skip(i as int) =~= Seq::<NodeEntry<T>>::empty());
            assert(out@ =~= out@ + ser_edges(self.nodes@.skip(i as int)));
        }
        out
    }
}


/// The decoder, one line at a time.  Starting from graph model `m` and the
/// given section (`in_edges`), it returns the first error (`None` on clean
/// success) together with the model after the lines processed so far: a
/// failure keeps the mutations already made, exactly as the executable
/// decoder does.
pub open spec fn parse_rest<T: EdgeValue>(
    lines: Seq<Seq<u8>>,
    in_edges: bool,
    m: Map<u32, Seq<(u32, T)>>,
) -> (Option<GraphError>, Map<u32, Seq<(u32, T)>>)
    decreases lines.len(),
{
    if lines.len() == 0 {
        (None, m)
    } else {
        let line = lines[0];
        let rest = lines.skip(1);
        if line == seq![HASH] {
            parse_rest(rest, true, m)
        } else if !in_edges {
            if parse_u32_spec(line) is Some {
                let id = parse_u32_spec(line)->Some_0;
                if m.dom().contains(id) {
                    (Some(GraphError::NodeAlreadyExists), m)
                } else {
                    parse_rest(rest, false, m.insert(id, Seq::empty()))
                }
            } else {
                (Some(GraphError::MalformedRecord), m)
            }
        } else {
            let toks = split_on(line, TAB);
            if toks.len() == 3 && parse_u32_spec(toks[0]) is Some && parse_u32_spec(toks[1]) is Some
                && T::of_text(toks[2]) is Some {
                let f = parse_u32_spec(toks[0])->Some_0;
                let to = parse_u32_spec(toks[1])->Some_0;
                let v = T::of_text(toks[2])->Some_0;
                if !(m.dom().contains(f) && m.dom().contains(to)) {
                    (Some(GraphError::NodeNotFound), m)
                } else if has_dest(m[f], to) {
                    (Some(GraphError::RelationAlreadyExists), m)
                } else {
                    parse_rest(rest, true, m.insert(f, m[f].push((to, v))))
                }
            } else {
                (Some(GraphError::MalformedRecord), m)
            }
        }
    }
}

impl<T: EdgeValue> Graph<T> {
    /// Reads a text encoding into this graph by replaying `add_node` for
    /// each line before the `#` separator and `add_relation_to_node` for
    /// each line after it, stopping at the first line that is malformed or
    /// refused.  The graph ends in the state `parse_rest` describes: on an
    /// error, the lines already processed stay applied.
    pub fn deserialize(&mut self, data: &[u8]) -> (r: Result<(), GraphError>)
        requires
            old(self).wf(),
        ensures
            final(self).wf(),
            final(self)@ == parse_rest::<T>(split_on(data@, NL), false, old(self)@).1,
            match r {
                Ok(()) => parse_rest::<T>(split_on(data@, NL), false, old(self)@).0 is None,
                Err(e) => parse_rest::<T>(split_on(data@, NL), false, old(self)@).0 == Some(e),
            },
    {
        let ghost all = split_on(data@, NL);
        let lines = split_bytes(data, NL);
        let nlines = lines.len();
        let mut in_edges = false;
        let mut li: usize = 0;
        proof {
            assert(all.skip(0) =~= all);
        }
        while li < nlines
            invariant
                all == split_on(data@, NL),
                0 <= li <= all.len(),
                nlines == all.len(),
                lines@.len() == all.len(),
                forall|i: int| 0 <= i < all.len() ==> (#[trigger] lines@[i])@ == all[i],
                self.wf(),
                parse_rest::<T>(all, false, old(self)@) == parse_rest::<T>(
                    all.skip(li as int),
                    in_edges,
                    self@,
                ),
            decreases all.len() - li,
        {
            let line = &lines[li];
            proof {
                assert(all.skip(li as int)[0] == line@);
                assert(all.skip(li as int).skip(1) =~= all.skip(li as int + 1));
            }
            let is_hash = line.len() == 1 && line[0] == HASH;
            proof {
                if is_hash {
                    assert(line@ =~= seq![HASH]);
                } else {
                    assert(line@ != seq![HASH]) by {
                        if line@ == seq![HASH] {
                            assert(line@.len() == 1);
                            assert(line@[0] == HASH);
                        }
                    }
                }
            }
            if is_hash {
                in_edges = true;
            } else if !in_edges {
                match parse_u32(line.as_slice()) {
                    None => {
                        return Err(GraphError::MalformedRecord);
                    },
                    Some(id) => {
                        match self.add_node(id) {
                            Ok(()) => {},
                            Err(e) => {
                                return Err(e);
                            },
                        }
                    },
                }
            } else {
                let toks = split_bytes(line.as_slice(), TAB);
                proof {
                    assert forall|k: int| 0 <= k < toks@.len() implies (#[trigger] toks@[k])@
                        == split_on(line@, TAB)[k] by {}
                }
                if toks.len() != 3 {
                    return Err(GraphError::MalformedRecord);
                }
                let f = match parse_u32(toks[0].as_slice()) {
                    Some(f) => f,
                    None => {
                        return Err(GraphError::MalformedRecord);
                    },
                };
                let to = match parse_u32(toks[1].as_slice()) {
                    Some(to) => to,
                    None => {
                        return Err(GraphError::MalformedRecord);
                    },
                };
                let v = match T::from_text(toks[2].as_slice()) {
                    Some(v) => v,
                    None => {
                        return Err(GraphError::MalformedRecord);
                    },
                };
                match self.add_relation_to_node(f, to, v) {
                    Ok(()) => {},
                    Err(e) => {
                        return Err(e);
                    },
                }
            }
            li = li + 1;
        }
        proof {
            assert(all.skip(li as int) =~= Seq::<Seq<u8>>::empty());
        }
        Ok(())
    }
}


/// The node section as lines (without terminators).
pub open spec fn node_lines<T>(s: Seq<NodeEntry<T>>) -> Seq<Seq<u8>>
    decreases s.len(),
{
    if s.len() == 0 {
        Seq::empty()
    } else {
        seq![dec_digits(s[0].id as nat)] + node_lines(s.skip(1))
    }
}

/// One edge line without its terminator.
pub open spec fn edge_line_body<T: EdgeValue>(from: u32, p: (u32, T)) -> Seq<u8> {
    dec_digits(from as nat) + seq![TAB] + dec_digits(p.0 as nat) + seq![TAB] + p.1.text_of()
}

/// One node's edge lines (without terminators).
pub open spec fn edge_lines_of<T: EdgeValue>(from: u32, es: Seq<(u32, T)>) -> Seq<Seq<u8>>
    decreases es.len(),
{
    if es.len() == 0 {
        Seq::empty()
    } else {
        seq![edge_line_body(from, es[0])] + edge_lines_of(from, es.skip(1))
    }
}

/// The edge section as lines (without terminators).
pub open spec fn edge_lines<T: EdgeValue>(s: Seq<NodeEntry<T>>) -> Seq<Seq<u8>>
    decreases s.len(),
{
    if s.len() == 0 {
        Seq::empty()
    } else {
        edge_lines_of(s[0].id, edge_pairs(s[0].edges@)) + edge_lines(s.skip(1))
    }
}

/// A decimal line is digits only: free of both separators, and not the `#`
/// line.
proof fn lemma_dec_line_facts(n: nat)
    ensures
        free_of(dec_digits(n), NL),
        free_of(dec_digits(n), TAB),
        dec_digits(n) != seq![HASH],
        n <= u32::MAX ==> parse_u32_spec(dec_digits(n)) == Some(n as u32),
{
    crate::num::lemma_dec_digits_ok(n);
    let s = dec_digits(n);
    assert forall|i: int| 0 <= i < s.len() implies (#[trigger] s[i]) != NL && s[i] != TAB by {
        assert(crate::num::is_digit(s[i]));
    }
    if s == seq![HASH] {
        assert(crate::num::is_digit(s[0]));
    }
}

/// Splitting the node section off the front of a text.
proof fn lemma_split_ser_nodes<T: EdgeValue>(s: Seq<NodeEntry<T>>, rest: Seq<u8>)
    ensures
        split_on(ser_nodes(s) + rest, NL) == node_lines(s) + split_on(rest, NL),
    decreases s.len(),
{
    if s.len() == 0 {
        assert(ser_nodes(s) + rest =~= rest);
        assert(node_lines(s) + split_on(rest, NL) =~~= split_on(rest, NL));
    } else {
        let line = dec_digits(s[0].id as nat);
        lemma_dec_line_facts(s[0].id as nat);
        lemma_split_ser_nodes::<T>(s.skip(1), rest);
        assert(ser_nodes(s) + rest =~= line + seq![NL] + (ser_nodes(s.skip(1)) + rest));
        crate::text::lemma_split_on_cons(line, NL, ser_nodes(s.skip(1)) + rest);
        assert(split_on(ser_nodes(s) + rest, NL) =~~= node_lines(s) + split_on(rest, NL));
    }
}

/// An edge line is free of newlines and longer than the `#` line.
proof fn lemma_edge_line_facts<T: EdgeValue>(from: u32, p: (u32, T))
    ensures
        free_of(edge_line_body(from, p), NL),
        edge_line_body(from, p) != seq![HASH],
        split_on(edge_line_body(from, p), TAB) == seq![
            dec_digits(from as nat),
            dec_digits(p.0 as nat),
            p.1.text_of(),
        ],
{
    let a = dec_digits(from as nat);
    let b = dec_digits(p.0 as nat);
    let c = p.1.text_of();
    let line = edge_line_body(from, p);
    lemma_dec_line_facts(from as nat);
    lemma_dec_line_facts(p.0 as nat);
    p.1.lemma_text_round_trip();
    assert(is_token(c));
    assert forall|i: int| 0 <= i < line.len() implies (#[trigger] line[i]) != NL by {
        if i < a.len() {
            assert(line[i] == a[i]);
        } else if i == a.len() {
            assert(line[i] == TAB);
        } else if i < a.len() + 1 + b.len() {
            assert(line[i] == b[i - a.len() - 1]);
        } else if i == a.len() + 1 + b.len() {
            assert(line[i] == TAB);
        } else {
            assert(line[i] == c[i - a.len() - 1 - b.len() - 1]);
        }
    }
    assert(line.len() >= 2);
    assert(free_of(a, TAB));
    assert(free_of(b, TAB));
    assert(free_of(c, TAB)) by {
        assert forall|i: int| 0 <= i < c.len() implies (#[trigger] c[i]) != TAB by {}
    }
    assert(line =~= a + seq![TAB] + (b + seq![TAB] + c));
    crate::text::lemma_split_on_cons(a, TAB, b + seq![TAB] + c);
    assert(b + seq![TAB] + c =~= b + seq![TAB] + c);
    crate::text::lemma_split_on_cons(b, TAB, c);
    assert(c.len() > 0);
    crate::text::lemma_split_on_whole(c, TAB);
    assert(split_on(line, TAB) =~~= seq![a] + (seq![b] + seq![c]));
    assert(seq![a] + (seq![b] + seq![c]) =~~= seq![a, b, c]);
}

/// Splitting one node's edge section off the front of a text.
proof fn lemma_split_ser_edges_of<T: EdgeValue>(from: u32, es: Seq<(u32, T)>, rest: Seq<u8>)
    ensures
        split_on(ser_edges_of(from, es) + rest, NL) == edge_lines_of(from, es) + split_on(
            rest,
            NL,
        ),
    decreases es.len(),
{
    if es.len() == 0 {
        assert(ser_edges_of(from, es) + rest =~= rest);
        assert(edge_lines_of(from, es) + split_on(rest, NL) =~~= split_on(rest, NL));
    } else {
        let line = edge_line_body(from, es[0]);
        lemma_edge_line_facts(from, es[0]);
        lemma_split_ser_edges_of::<T>(from, es.skip(1), rest);
        assert(ser_edge_line(from, es[0]) =~= line + seq![NL]);
        assert(ser_edges_of(from, es) + rest =~= line + seq![NL] + (ser_edges_of(
            from,
            es.skip(1),
        ) + rest));
        crate::text::lemma_split_on_cons(line, NL, ser_edges_of(from, es.skip(1)) + rest);
        assert(split_on(ser_edges_of(from, es) + rest, NL) =~~= edge_lines_of(from, es)
            + split_on(rest, NL));
    }
}

/// Splitting the whole edge section off the front of a text.
proof fn lemma_split_ser_edges<T: EdgeValue>(s: Seq<NodeEntry<T>>, rest: Seq<u8>)
    ensures
        split_on(ser_edges(s) + rest, NL) == edge_lines(s) + split_on(rest, NL),
    decreases s.len(),
{
    if s.len() == 0 {
        assert(ser_edges(s) + rest =~= rest);
        assert(edge_lines(s) + split_on(rest, NL) =~~= split_on(rest, NL));
    } else {
        lemma_split_ser_edges::<T>(s.skip(1), rest);
        lemma_split_ser_edges_of::<T>(
            s[0].id,
            edge_pairs(s[0].edges@),
            ser_edges(s.skip(1)) + rest,
        );
        assert(ser_edges(s) + rest =~= ser_edges_of(s[0].id, edge_pairs(s[0].edges@)) + (
        ser_edges(s.skip(1)) + rest));
        assert(split_on(ser_edges(s) + rest, NL) =~~= edge_lines(s) + split_on(rest, NL));
    }
}

/// The encoding splits back into its lines: node lines, the `#` line, edge
/// lines.
proof fn lemma_split_ser_graph<T: EdgeValue>(s: Seq<NodeEntry<T>>)
    ensures
        split_on(ser_graph(s), NL) == node_lines(s) + seq![seq![HASH]] + edge_lines(s),
{
    lemma_split_ser_edges::<T>(s, Seq::empty());
    assert(ser_edges(s) + Seq::<u8>::empty() =~= ser_edges(s));
    assert(split_on(Seq::<u8>::empty(), NL) =~~= Seq::<Seq<u8>>::empty());
    assert(split_on(ser_edges(s), NL) =~~= edge_lines(s) + Seq::<Seq<u8>>::empty());
    assert(split_on(ser_edges(s), NL) =~~= edge_lines(s));
    assert(free_of(seq![HASH], NL));
    crate::text::lemma_split_on_cons(seq![HASH], NL, ser_edges(s));
    lemma_split_ser_nodes::<T>(s, seq![HASH, NL] + ser_edges(s));
    assert(ser_graph(s) =~= ser_nodes(s) + (seq![HASH, NL] + ser_edges(s)));
    assert(seq![HASH, NL] + ser_edges(s) =~= seq![HASH] + seq![NL] + ser_edges(s));
    assert(split_on(ser_graph(s), NL) =~~= node_lines(s) + (seq![seq![HASH]] + edge_lines(s)));
    assert(node_lines(s) + (seq![seq![HASH]] + edge_lines(s)) =~~= node_lines(s) + seq![
        seq![HASH],
    ] + edge_lines(s));
}


/// The model after the node section: each listed identifier bound to an
/// empty edge list, in order.
pub open spec fn add_ids<T>(m: Map<u32, Seq<(u32, T)>>, s: Seq<NodeEntry<T>>) -> Map<
    u32,
    Seq<(u32, T)>,
>
    decreases s.len(),
{
    if s.len() == 0 {
        m
    } else {
        add_ids(m.insert(s[0].id, Seq::empty()), s.skip(1))
    }
}

/// The model after the edge section: each entry's pairs appended to its
/// identifier's list, in order.
pub open spec fn add_all_edges<T>(m: Map<u32, Seq<(u32, T)>>, s: Seq<NodeEntry<T>>) -> Map<
    u32,
    Seq<(u32, T)>,
>
    decreases s.len(),
{
    if s.len() == 0 {
        m
    } else {
        add_all_edges(m.insert(s[0].id, m[s[0].id] + edge_pairs(s[0].edges@)), s.skip(1))
    }
}

/// What `add_ids` does, identifier by identifier.
proof fn lemma_add_ids<T>(m: Map<u32, Seq<(u32, T)>>, s: Seq<NodeEntry<T>>)
    ensures
        forall|k: u32|
            (#[trigger] add_ids(m, s).dom().contains(k)) <==> (m.dom().contains(k) || has_id(
                s,
                k,
            )),
        forall|k: u32|
            (#[trigger] add_ids(m, s).dom().contains(k)) ==> add_ids(m, s)[k] == (if has_id(
                s,
                k,
            ) {
                Seq::<(u32, T)>::empty()
            } else {
                m[k]
            }),
    decreases s.len(),
{
    if s.len() > 0 {
        let m2 = m.insert(s[0].id, Seq::<(u32, T)>::empty());
        lemma_add_ids(m2, s.skip(1));
        assert forall|k: u32| has_id(s, k) <==> (k == s[0].id || has_id(s.skip(1), k)) by {
            if has_id(s, k) && k != s[0].id {
                let w = choose|w: int| 0 <= w < s.len() && (#[trigger] s[w]).id == k;
                assert(s.skip(1)[w - 1] == s[w]);
            }
            if has_id(s.skip(1), k) {
                let w = choose|w: int|
                    0 <= w < s.skip(1).len() && (#[trigger] s.skip(1)[w]).id == k;
                assert(s[w + 1] == s.skip(1)[w]);
            }
            if k == s[0].id {
                assert(s[0].id == k);
                assert(has_id(s, k));
            }
        }
        assert(add_ids(m, s) == add_ids(m2, s.skip(1)));
        assert forall|k: u32|
            add_ids(m, s).dom().contains(k) <==> (m.dom().contains(k) || has_id(s, k)) by {
            assert(add_ids(m2, s.skip(1)).dom().contains(k) <==> (m2.dom().contains(k)
                || has_id(s.skip(1), k)));
        }
        assert forall|k: u32| #[trigger]
            add_ids(m, s).dom().contains(k) implies add_ids(m, s)[k] == (if has_id(s, k) {
            Seq::<(u32, T)>::empty()
        } else {
            m[k]
        }) by {
            assert(add_ids(m2, s.skip(1))[k] == if has_id(s.skip(1), k) {
                Seq::<(u32, T)>::empty()
            } else {
                m2[k]
            });
        }
    }
}

/// What `add_all_edges` does: on identifiers of `s`, the entry's pairs are
/// appended; elsewhere nothing changes.
proof fn lemma_add_all_edges<T>(m: Map<u32, Seq<(u32, T)>>, s: Seq<NodeEntry<T>>)
    requires
        unique_ids(s),
        forall|i: int| 0 <= i < s.len() ==> m.dom().contains((#[trigger] s[i]).id),
    ensures
        forall|k: u32|
            (#[trigger] add_all_edges(m, s).dom().contains(k)) <==> m.dom().contains(k),
        forall|i: int|
            0 <= i < s.len() ==> add_all_edges(m, s)[(#[trigger] s[i]).id] == m[s[i].id]
                + edge_pairs(s[i].edges@),
        forall|k: u32|
            m.dom().contains(k) && !has_id(s, k) ==> (#[trigger] add_all_edges(m, s)[k]) == m[k],
    decreases s.len(),
{
    if s.len() > 0 {
        let m2 = m.insert(s[0].id, m[s[0].id] + edge_pairs(s[0].edges@));
        assert forall|i: int| 0 <= i < s.skip(1).len() implies m2.dom().contains(
            (#[trigger] s.skip(1)[i]).id,
        ) by {
            assert(s.skip(1)[i] == s[i + 1]);
        }
        assert(unique_ids(s.skip(1))) by {
            assert forall|a: int, b: int| 0 <= a < b < s.skip(1).len() implies (
            #[trigger] s.skip(1)[a]).id != (#[trigger] s.skip(1)[b]).id by {
                assert(s.skip(1)[a] == s[a + 1]);
                assert(s.skip(1)[b] == s[b + 1]);
            }
        }
        lemma_add_all_edges(m2, s.skip(1));
        assert(add_all_edges(m, s) == add_all_edges(m2, s.skip(1)));
        assert forall|k: u32|
            add_all_edges(m, s).dom().contains(k) <==> m.dom().contains(k) by {
            assert(add_all_edges(m2, s.skip(1)).dom().contains(k) <==> m2.dom().contains(k));
        }
        assert forall|i: int| 0 <= i < s.len() implies add_all_edges(m, s)[(
        #[trigger] s[i]).id] == m[s[i].id] + edge_pairs(s[i].edges@) by {
            if i == 0 {
                assert(!has_id(s.skip(1), s[0].id)) by {
                    if has_id(s.skip(1), s[0].id) {
                        let w = choose|w: int|
                            0 <= w < s.skip(1).len() && (#[trigger] s.skip(1)[w]).id == s[0].id;
                        assert(s[w + 1] == s.skip(1)[w]);
                    }
                }
                assert(add_all_edges(m2, s.skip(1))[s[0].id] == m2[s[0].id]);
            } else {
                assert(s.skip(1)[i - 1] == s[i]);
                assert(add_all_edges(m, s)[s[i].id] == m2[s[i].id] + edge_pairs(
                    s[i].edges@,
                ));
                assert(s[0].id != s[i].id);
                assert(m2[s[i].id] == m[s[i].id]);
            }
        }
        assert forall|k: u32|
            m.dom().contains(k) && !has_id(s, k) implies add_all_edges(m, s)[k] == m[k] by {
            assert(k != s[0].id);
            assert(!has_id(s.skip(1), k)) by {
                if has_id(s.skip(1), k) {
                    let w = choose|w: int|
                        0 <= w < s.skip(1).len() && (#[trigger] s.skip(1)[w]).id == k;
                    assert(s[w + 1] == s.skip(1)[w]);
                }
            }
        }
    }
}

/// The decoder walks the node section: each line adds its identifier.
proof fn lemma_parse_nodes<T: EdgeValue>(
    s: Seq<NodeEntry<T>>,
    more: Seq<Seq<u8>>,
    m: Map<u32, Seq<(u32, T)>>,
)
    requires
        unique_ids(s),
        forall|i: int| 0 <= i < s.len() ==> !m.dom().contains((#[trigger] s[i]).id),
    ensures
        parse_rest::<T>(node_lines(s) + more, false, m) == parse_rest::<T>(
            more,
            false,
            add_ids(m, s),
        ),
    decreases s.len(),
{
    if s.len() == 0 {
        assert(node_lines(s) + more =~~= more);
    } else {
        let line = dec_digits(s[0].id as nat);
        lemma_dec_line_facts(s[0].id as nat);
        let all = node_lines(s) + more;
        assert(all[0] == line);
        assert(all.skip(1) =~~= node_lines(s.skip(1)) + more);
        assert(parse_u32_spec(line) == Some(s[0].id));
        let m2 = m.insert(s[0].id, Seq::<(u32, T)>::empty());
        assert(unique_ids(s.skip(1))) by {
            assert forall|a: int, b: int| 0 <= a < b < s.skip(1).len() implies (
            #[trigger] s.skip(1)[a]).id != (#[trigger] s.skip(1)[b]).id by {
                assert(s.skip(1)[a] == s[a + 1]);
                assert(s.skip(1)[b] == s[b + 1]);
            }
        }
        assert forall|i: int| 0 <= i < s.skip(1).len() implies !m2.dom().contains(
            (#[trigger] s.skip(1)[i]).id,
        ) by {
            assert(s.skip(1)[i] == s[i + 1]);
        }
        lemma_parse_nodes::<T>(s.skip(1), more, m2);
        assert(parse_rest::<T>(all, false, m) == parse_rest::<T>(all.skip(1), false, m2));
    }
}

/// The decoder walks one node's edge lines: each appends its pair.
proof fn lemma_parse_edges_of<T: EdgeValue>(
    from: u32,
    es: Seq<(u32, T)>,
    more: Seq<Seq<u8>>,
    m: Map<u32, Seq<(u32, T)>>,
)
    requires
        m.dom().contains(from),
        forall|j: int| 0 <= j < es.len() ==> m.dom().contains((#[trigger] es[j]).0),
        forall|j: int| 0 <= j < es.len() ==> !has_dest(m[from], (#[trigger] es[j]).0),
        crate::graph::distinct_dests(es),
    ensures
        parse_rest::<T>(edge_lines_of(from, es) + more, true, m) == parse_rest::<T>(
            more,
            true,
            m.insert(from, m[from] + es),
        ),
    decreases es.len(),
{
    if es.len() == 0 {
        assert(edge_lines_of(from, es) + more =~~= more);
        assert(m[from] + es =~= m[from]);
        assert(m.insert(from, m[from]) =~= m);
    } else {
        let line = edge_line_body(from, es[0]);
        lemma_edge_line_facts(from, es[0]);
        lemma_dec_line_facts(from as nat);
        lemma_dec_line_facts(es[0].0 as nat);
        es[0].1.lemma_text_round_trip();
        let all = edge_lines_of(from, es) + more;
        assert(all[0] == line);
        assert(all.skip(1) =~~= edge_lines_of(from, es.skip(1)) + more);
        let toks = split_on(line, TAB);
        assert(toks.len() == 3);
        assert(parse_u32_spec(toks[0]) == Some(from));
        assert(parse_u32_spec(toks[1]) == Some(es[0].0));
        assert(T::of_text(toks[2]) == Some(es[0].1));
        assert(!has_dest(m[from], es[0].0));
        let m2 = m.insert(from, m[from].push(es[0]));
        assert(m2.dom() =~= m.dom());
        assert(unique_ids(Seq::<NodeEntry<T>>::empty()));
        assert(crate::graph::distinct_dests(es.skip(1))) by {
            assert forall|a: int, b: int| 0 <= a < b < es.skip(1).len() implies (
            #[trigger] es.skip(1)[a]).0 != (#[trigger] es.skip(1)[b]).0 by {
                assert(es.skip(1)[a] == es[a + 1]);
                assert(es.skip(1)[b] == es[b + 1]);
            }
        }
        assert forall|j: int| 0 <= j < es.skip(1).len() implies m2.dom().contains(
            (#[trigger] es.skip(1)[j]).0,
        ) && !has_dest(m2[from], es.skip(1)[j].0) by {
            assert(es.skip(1)[j] == es[j + 1]);
            assert(m.dom().contains(es[j + 1].0));
            assert(!has_dest(m[from], es[j + 1].0));
            assert(es[0].0 != es[j + 1].0);
            if has_dest(m2[from], es[j + 1].0) {
                let w = choose|w: int|
                    0 <= w < m2[from].len() && (#[trigger] m2[from][w]).0 == es[j + 1].0;
                if w < m[from].len() {
                    assert(m[from][w] == m2[from][w]);
                } else {
                    assert(m2[from][w] == es[0]);
                }
            }
        }
        lemma_parse_edges_of::<T>(from, es.skip(1), more, m2);
        assert(parse_rest::<T>(all, true, m) == parse_rest::<T>(all.skip(1), true, m2));
        assert(m2[from] + es.skip(1) =~= m[from] + es);
        assert(m2.insert(from, m2[from] + es.skip(1)) =~= m.insert(from, m[from] + es));
    }
}

/// The decoder walks the whole edge section, entry by entry.
proof fn lemma_parse_edges<T: EdgeValue>(
    s: Seq<NodeEntry<T>>,
    more: Seq<Seq<u8>>,
    m: Map<u32, Seq<(u32, T)>>,
)
    requires
        unique_ids(s),
        forall|i: int| 0 <= i < s.len() ==> m.dom().contains((#[trigger] s[i]).id),
        forall|i: int|
            0 <= i < s.len() ==> m[(#[trigger] s[i]).id] == Seq::<(u32, T)>::empty(),
        forall|i: int, j: int|
            0 <= i < s.len() && 0 <= j < s[i].edges@.len() ==> m.dom().contains(
                (#[trigger] s[i].edges@[j]).to_node,
            ),
        forall|i: int|
            0 <= i < s.len() ==> crate::graph::distinct_dests(
                edge_pairs((#[trigger] s[i]).edges@),
            ),
    ensures
        parse_rest::<T>(edge_lines(s) + more, true, m) == parse_rest::<T>(
            more,
            true,
            add_all_edges(m, s),
        ),
    decreases s.len(),
{
    if s.len() == 0 {
        assert(edge_lines(s) + more =~~= more);
    } else {
        let from = s[0].id;
        let es = edge_pairs(s[0].edges@);
        assert forall|j: int| 0 <= j < es.len() implies m.dom().contains(
            (#[trigger] es[j]).0,
        ) by {
            assert(es[j] == (s[0].edges@[j].to_node, s[0].edges@[j].value));
        }
        assert forall|j: int| 0 <= j < es.len() implies !has_dest(m[from], (
        #[trigger] es[j]).0) by {}
        lemma_parse_edges_of::<T>(from, es, edge_lines(s.skip(1)) + more, m);
        assert(edge_lines(s) + more =~~= edge_lines_of(from, es) + (edge_lines(s.skip(1))
            + more));
        let m2 = m.insert(from, m[from] + es);
        assert(m[from] + es =~= es);
        assert(unique_ids(s.skip(1))) by {
            assert forall|a: int, b: int| 0 <= a < b < s.skip(1).len() implies (
            #[trigger] s.skip(1)[a]).id != (#[trigger] s.skip(1)[b]).id by {
                assert(s.skip(1)[a] == s[a + 1]);
                assert(s.skip(1)[b] == s[b + 1]);
            }
        }
        assert forall|i: int| 0 <= i < s.skip(1).len() implies m2.dom().contains(
            (#[trigger] s.skip(1)[i]).id,
        ) && m2[s.skip(1)[i].id] == Seq::<(u32, T)>::empty() by {
            assert(s.skip(1)[i] == s[i + 1]);
            assert(s[0].id != s[i + 1].id);
        }
        assert forall|i: int, j: int|
            0 <= i < s.skip(1).len() && 0 <= j < s.skip(1)[i].edges@.len() implies m2.dom(
        ).contains((#[trigger] s.skip(1)[i].edges@[j]).to_node) by {
            assert(s.skip(1)[i] == s[i + 1]);
            assert(m.dom().contains(s[i + 1].edges@[j].to_node));
            assert(m2.dom() =~= m.dom());
        }
        assert forall|i: int| 0 <= i < s.skip(1).len() implies crate::graph::distinct_dests(
            edge_pairs((#[trigger] s.skip(1)[i]).edges@),
        ) by {
            assert(s.skip(1)[i] == s[i + 1]);
        }
        lemma_parse_edges::<T>(s.skip(1), more, m2);
    }
}

/// The round-trip law: decoding the encoding of a well-formed graph into an
/// empty model succeeds and rebuilds exactly the graph's own model — the
/// same node set and, per node, the same edge pairs in the same order.
pub proof fn lemma_serialize_round_trip<T: EdgeValue>(g: Graph<T>)
    requires
        g.wf(),
    ensures
        parse_rest::<T>(
            split_on(ser_graph(g.nodes@), NL),
            false,
            Map::<u32, Seq<(u32, T)>>::empty(),
        ).0 is None,
        parse_rest::<T>(
            split_on(ser_graph(g.nodes@), NL),
            false,
            Map::<u32, Seq<(u32, T)>>::empty(),
        ).1 == g@,
{
    let s = g.nodes@;
    let m0 = Map::<u32, Seq<(u32, T)>>::empty();
    assert(unique_ids(s));
    lemma_split_ser_graph::<T>(s);
    let lines = node_lines(s) + seq![seq![HASH]] + edge_lines(s);
    assert(lines =~~= node_lines(s) + (seq![seq![HASH]] + edge_lines(s)));
    lemma_parse_nodes::<T>(s, seq![seq![HASH]] + edge_lines(s), m0);
    let m1 = add_ids(m0, s);
    lemma_add_ids(m0, s);
    let mid = seq![seq![HASH]] + edge_lines(s);
    assert(mid[0] == seq![HASH]);
    assert(mid.skip(1) =~~= edge_lines(s));
    assert(parse_rest::<T>(mid, false, m1) == parse_rest::<T>(edge_lines(s), true, m1));
    assert(edge_lines(s) =~~= edge_lines(s) + Seq::<Seq<u8>>::empty());
    assert forall|i: int| 0 <= i < s.len() implies m1.dom().contains((#[trigger] s[i]).id)
        && m1[s[i].id] == Seq::<(u32, T)>::empty() by {
        assert(has_id(s, s[i].id));
    }
    assert forall|i: int, j: int|
        0 <= i < s.len() && 0 <= j < s[i].edges@.len() implies m1.dom().contains(
        (#[trigger] s[i].edges@[j]).to_node,
    ) by {
        assert(has_id(s, s[i].edges@[j].to_node));
    }
    lemma_parse_edges::<T>(s, Seq::empty(), m1);
    let m2 = add_all_edges(m1, s);
    lemma_add_all_edges(m1, s);
    assert(parse_rest::<T>(Seq::<Seq<u8>>::empty(), true, m2) == (
        None::<GraphError>,
        m2,
    ));
    assert(m2 =~= g@) by {
        assert forall|k: u32| m2.dom().contains(k) <==> g@.dom().contains(k) by {
            crate::graph::lemma_find_some(s, k);
        }
        assert forall|k: u32| #[trigger] m2.dom().contains(k) implies m2[k] == g@[k] by {
            crate::graph::lemma_find_some(s, k);
            let w = choose|w: int| 0 <= w < s.len() && (#[trigger] s[w]).id == k;
            crate::graph::lemma_find_present(s, w);
            assert(m2[s[w].id] == m1[s[w].id] + edge_pairs(s[w].edges@));
            assert(Seq::<(u32, T)>::empty() + edge_pairs(s[w].edges@) =~= edge_pairs(
                s[w].edges@,
            ));
        }
    }
}


impl<T: EdgeValue> Graph<T> {
    /// A human-readable dump of the graph, node by node.  Per the design,
    /// its exact text is not part of the machine contract; only that it is
    /// produced without failing for every graph.
    pub fn print_graph(&self) -> (r: Vec<u8>) {
        let mut out: Vec<u8> = Vec::new();
        let n = self.nodes.len();
        let mut i: usize = 0;
        while i < n
            invariant
                n == self.nodes@.len(),
            decreases n - i,
        {
            // "Vertex id: "
            out.push(0x56);
            out.push(0x65);
            out.push(0x72);
            out.push(0x74);
            out.push(0x65);
            out.push(0x78);
            out.push(0x20);
            out.push(0x69);
            out.push(0x64);
            out.push(0x3a);
            out.push(0x20);
            push_dec_digits(self.nodes[i].id, &mut out);
            out.push(NL);
            // "\tRelations: "
            out.push(TAB);
            out.push(0x52);
            out.push(0x65);
            out.push(0x6c);
            out.push(0x61);
            out.push(0x74);
            out.push(0x69);
            out.push(0x6f);
            out.push(0x6e);
            out.push(0x73);
            out.push(0x3a);
            out.push(0x20);
            out.push(NL);
            let m = self.nodes[i].edges.len();
            let mut j: usize = 0;
            while j < m
                invariant
                    n == self.nodes@.len(),
                    i < n,
                    m == self.nodes@[i as int].edges@.len(),
                decreases m - j,
            {
                // "\t\tTo node: "
                out.push(TAB);
                out.push(TAB);
                out.push(0x54);
                out.push(0x6f);
                out.push(0x20);
                out.push(0x6e);
                out.push(0x6f);
                out.push(0x64);
                out.push(0x65);
                out.push(0x3a);
                out.push(0x20);
                push_dec_digits(self.nodes[i].edges[j].to_node, &mut out);
                // "\tEdge value: "
                out.push(TAB);
                out.push(0x45);
                out.push(0x64);
                out.push(0x67);
                out.push(0x65);
                out.push(0x20);
                out.push(0x76);
                out.push(0x61);
                out.push(0x6c);
                out.push(0x75);
                out.push(0x65);
                out.push(0x3a);
                out.push(0x20);

                let vt = self.nodes[i].edges[j].value.to_text();
                append_bytes(&mut out, vt.as_slice());
                out.push(NL);
                j = j + 1;
            }
            i = i + 1;
        }
        out
    }
}

} // verus!
