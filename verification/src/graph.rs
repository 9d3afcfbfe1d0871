//! The graph store itself: two ordered collections (nodes, edges) and an
//! identifier-to-position index, kept consistent by every operation.
//!
//! The store is built empty-or-from-a-buffer and mutated one record at a
//! time. Construction from a buffer is strict (the caller owes a
//! well-formed buffer); wholesale replacement is tolerant (truncated
//! records are skipped). Identifiers are unique among live nodes and among
//! live edges; removing a node cascades to every edge touching it; an edge
//! whose endpoint is missing is retained but excluded from the render
//! buffer.

use crate::model::{
    decoded_edge, decoded_edges, decoded_node, decoded_nodes, distinct_edge_ids,
    distinct_node_ids, edge_record, edges_avoiding, edges_excluding, edges_flat, find_node,
    has_edge_id, has_node_id, initial_buffer, lemma_edges_avoiding_properties,
    lemma_edges_excluding_properties, lemma_edges_flat_index, lemma_edges_flat_len,
    lemma_find_node_absent, lemma_find_node_present, lemma_nodes_flat_index,
    lemma_nodes_flat_len, node_index_of, node_record, nodes_flat, render_buffer,
    render_edge_record, render_edges, render_node_record, render_nodes, touches, Edge, Node,
    EDGE_TAG,
};
use crate::scalar::{int_scalar, int_to_scalar, lemma_scalar_round_trip, scalar_int,
    scalar_to_int};
use std::collections::BTreeMap;
use vstd::prelude::*;

verus! {

broadcast use vstd::laws_cmp::group_laws_cmp;

/// The in-memory graph store.
pub struct Graph {
    pub nodes: Vec<Node>,
    pub edges: Vec<Edge>,
    pub nodes_lookup: BTreeMap<u32, usize>,
}

/// The index is exactly right: every stored node's identifier maps to that
/// node's current position, and nothing else is mapped.
pub open spec fn lookup_matches(m: Map<u32, usize>, nodes: Seq<Node>) -> bool {
    &&& forall|i: int|
        0 <= i < nodes.len() ==> m.contains_key(#[trigger] nodes[i].id) && m[nodes[i].id] as int
            == i
    &&& forall|id: u32| #[trigger] m.contains_key(id) ==> has_node_id(nodes, id)
}

/// Declared record count of an initial-format buffer.
pub open spec fn spec_node_count(buf: Seq<u32>) -> int {
    scalar_int(buf[0]) as int
}

pub open spec fn spec_edge_count(buf: Seq<u32>) -> int {
    scalar_int(buf[1]) as int
}

/// Offset of the first edge record in a well-formed buffer.
pub open spec fn edges_base(buf: Seq<u32>) -> int {
    2 + 7 * spec_node_count(buf)
}

/// What strict construction owes: the declared counts fit the buffer, and
/// the records carry distinct identifiers.
pub open spec fn well_formed_buffer(buf: Seq<u32>) -> bool {
    &&& buf.len() >= 2
    &&& 2 + 7 * spec_node_count(buf) + 7 * spec_edge_count(buf) <= buf.len()
    &&& distinct_node_ids(decoded_nodes(buf, spec_node_count(buf)))
    &&& distinct_edge_ids(decoded_edges(buf, edges_base(buf), spec_edge_count(buf)))
}

/// How many declared node records a tolerant parse takes: all of them, or
/// as many complete 7-scalar records as the buffer holds, whichever is less.
pub open spec fn taken_node_count(buf: Seq<u32>) -> int {
    if buf.len() < 2 {
        0
    } else if spec_node_count(buf) <= (buf.len() - 2) / 7 {
        spec_node_count(buf)
    } else {
        (buf.len() - 2) / 7
    }
}

pub open spec fn taken_edges_base(buf: Seq<u32>) -> int {
    2 + 7 * taken_node_count(buf)
}

/// How many declared edge records a tolerant parse takes from what remains
/// after the node records.
pub open spec fn taken_edge_count(buf: Seq<u32>) -> int {
    if buf.len() < 2 {
        0
    } else if spec_edge_count(buf) <= (buf.len() - taken_edges_base(buf)) / 7 {
        spec_edge_count(buf)
    } else {
        (buf.len() - taken_edges_base(buf)) / 7
    }
}

/// What a tolerant replacement owes: the records it will take carry
/// distinct identifiers.
pub open spec fn replace_buffer_ok(buf: Seq<u32>) -> bool {
    &&& distinct_node_ids(decoded_nodes(buf, taken_node_count(buf)))
    &&& distinct_edge_ids(decoded_edges(buf, taken_edges_base(buf), taken_edge_count(buf)))
}

/// Build the identifier-to-position index of `nodes` from scratch.
#[verifier::loop_isolation(false)]
fn build_lookup(nodes: &Vec<Node>) -> (m: BTreeMap<u32, usize>)
    requires
        distinct_node_ids(nodes@),
    ensures
        lookup_matches(m@, nodes@),
{
    let mut m: BTreeMap<u32, usize> = BTreeMap::new();
    let mut i: usize = 0;
    while i < nodes.len()
        invariant
            i <= nodes@.len(),
            distinct_node_ids(nodes@),
            forall|k: int|
                0 <= k < i ==> m@.contains_key(#[trigger] nodes@[k].id) && m@[nodes@[k].id] as int
                    == k,
            forall|id: u32| #[trigger]
                m@.contains_key(id) ==> exists|k: int| 0 <= k < i && nodes@[k].id == id,
        decreases nodes@.len() - i,
    {
        m.insert(nodes[i].id, i);
        i = i + 1;
    }
    m
}

impl Graph {
    /// The store's invariant: identifiers are unique among live nodes and
    /// among live edges, and the index maps every live node identifier to
    /// that node's current position, with no stale entries.
    pub open spec fn inv(&self) -> bool {
        &&& distinct_node_ids(self.nodes@)
        &&& distinct_edge_ids(self.edges@)
        &&& lookup_matches(self.nodes_lookup@, self.nodes@)
    }

    /// Strict construction from an initial-format buffer:
    /// `[nodeCount, edgeCount, nodeCount records of 7, edgeCount records of 7]`.
    /// The caller owes a buffer whose declared counts fit its length.
    #[verifier::loop_isolation(false)]
    pub fn new(buffer: &[u32]) -> (g: Graph)
        requires
            well_formed_buffer(buffer@),
        ensures
            g.inv(),
            g.nodes@ == decoded_nodes(buffer@, spec_node_count(buffer@)),
            g.edges@ == decoded_edges(buffer@, edges_base(buffer@), spec_edge_count(buffer@)),
    {
        let buffer_len: usize = buffer.len();
        let node_count: usize = scalar_to_int(buffer[0]) as usize;
        let edge_count: usize = scalar_to_int(buffer[1]) as usize;
        let mut nodes: Vec<Node> = Vec::new();
        let mut edges: Vec<Edge> = Vec::new();
        let mut i: usize = 0;
        while i < node_count
            invariant
                i <= node_count,
                buffer_len == buffer@.len(),
                node_count as int == spec_node_count(buffer@),
                edge_count as int == spec_edge_count(buffer@),
                2 + 7 * (node_count as int) + 7 * (edge_count as int) <= buffer@.len(),
                nodes@.len() == i,
                forall|j: int| 0 <= j < i ==> nodes@[j] == decoded_node(buffer@, 2 + 7 * j),
            decreases node_count - i,
        {
            let off: usize = 2 + 7 * i;
            let n = Node {
                id: scalar_to_int(buffer[off]),
                x: buffer[off + 1],
                y: buffer[off + 2],
                r: buffer[off + 3],
                color_r: buffer[off + 4],
                color_g: buffer[off + 5],
                color_b: buffer[off + 6],
            };
            nodes.push(n);
            i = i + 1;
        }
        let mut j: usize = 0;
        while j < edge_count
            invariant
                j <= edge_count,
                buffer_len == buffer@.len(),
                node_count as int == spec_node_count(buffer@),
                edge_count as int == spec_edge_count(buffer@),
                2 + 7 * (node_count as int) + 7 * (edge_count as int) <= buffer@.len(),
                edges@.len() == j,
                forall|k: int|
                    0 <= k < j ==> edges@[k] == decoded_edge(
                        buffer@,
                        2 + 7 * (node_count as int) + 7 * k,
                    ),
            decreases edge_count - j,
        {
            let off: usize = 2 + 7 * node_count + 7 * j;
            let e = Edge {
                id: scalar_to_int(buffer[off]),
                source: scalar_to_int(buffer[off + 1]),
                target: scalar_to_int(buffer[off + 2]),
                width: buffer[off + 3],
                color_r: buffer[off + 4],
                color_g: buffer[off + 5],
                color_b: buffer[off + 6],
            };
            edges.push(e);
            j = j + 1;
        }
        proof {
            assert(nodes@ =~= decoded_nodes(buffer@, spec_node_count(buffer@)));
            assert(edges@ =~= decoded_edges(buffer@, edges_base(buffer@), spec_edge_count(
                buffer@,
            )));
        }
        let nodes_lookup = build_lookup(&nodes);
        Graph { nodes, edges, nodes_lookup }
    }

    /// Tolerant wholesale replacement: the store is reset and re-decoded
    /// from `data`. A declared record for which fewer than 7 scalars remain
    /// is skipped, together with everything after it.
    #[verifier::loop_isolation(false)]
    pub fn set_graph(&mut self, data: &[u32])
        requires
            replace_buffer_ok(data@),
        ensures
            final(self).inv(),
            final(self).nodes@ == decoded_nodes(data@, taken_node_count(data@)),
            final(self).edges@ == decoded_edges(
                data@,
                taken_edges_base(data@),
                taken_edge_count(data@),
            ),
    {
        let data_len: usize = data.len();
        self.nodes = Vec::new();
        self.edges = Vec::new();
        if data_len < 2 {
            self.nodes_lookup = BTreeMap::new();
            proof {
                assert(self.nodes@ =~= decoded_nodes(data@, taken_node_count(data@)));
                assert(self.edges@ =~= decoded_edges(
                    data@,
                    taken_edges_base(data@),
                    taken_edge_count(data@),
                ));
            }
            return ;
        }
        let node_count: usize = scalar_to_int(data[0]) as usize;
        let edge_count: usize = scalar_to_int(data[1]) as usize;
        let mut i: usize = 0;
        let mut offset: usize = 2;
        while i < node_count && data_len - offset >= 7
            invariant
                data_len == data@.len(),
                data@.len() >= 2,
                node_count as int == spec_node_count(data@),
                i <= node_count,
                offset == 2 + 7 * i,
                offset <= data@.len(),
                self.nodes@.len() == i,
                forall|j: int| 0 <= j < i ==> self.nodes@[j] == decoded_node(data@, 2 + 7 * j),
                self.edges@.len() == 0,
            decreases node_count - i,
        {
            let n = Node {
                id: scalar_to_int(data[offset]),
                x: data[offset + 1],
                y: data[offset + 2],
                r: data[offset + 3],
                color_r: data[offset + 4],
                color_g: data[offset + 5],
                color_b: data[offset + 6],
            };
            self.nodes.push(n);
            offset = offset + 7;
            i = i + 1;
        }
        proof {
            if i < node_count {
                // The parse stopped on a truncated record: exactly
                // (len - 2) / 7 full records fit before this point.
                vstd::arithmetic::div_mod::lemma_fundamental_div_mod_converse(
                    data@.len() - 2,
                    7,
                    i as int,
                    data@.len() - 2 - 7 * (i as int),
                );
            } else {
                // All declared records fit: i <= (len - 2) / 7.
                vstd::arithmetic::div_mod::lemma_div_is_ordered(
                    7 * (i as int),
                    data@.len() - 2,
                    7,
                );
                vstd::arithmetic::div_mod::lemma_div_by_multiple(i as int, 7);
            }
            assert(i as int == taken_node_count(data@));
            assert(self.nodes@ =~= decoded_nodes(data@, taken_node_count(data@)));
        }
        let mut j: usize = 0;
        while j < edge_count && data_len - offset >= 7
            invariant
                data_len == data@.len(),
                data@.len() >= 2,
                edge_count as int == spec_edge_count(data@),
                j <= edge_count,
                offset == taken_edges_base(data@) + 7 * j,
                offset <= data@.len(),
                self.nodes@ == decoded_nodes(data@, taken_node_count(data@)),
                self.edges@.len() == j,
                forall|k: int|
                    0 <= k < j ==> self.edges@[k] == decoded_edge(
                        data@,
                        taken_edges_base(data@) + 7 * k,
                    ),
            decreases edge_count - j,
        {
            let e = Edge {
                id: scalar_to_int(data[offset]),
                source: scalar_to_int(data[offset + 1]),
                target: scalar_to_int(data[offset + 2]),
                width: data[offset + 3],
                color_r: data[offset + 4],
                color_g: data[offset + 5],
                color_b: data[offset + 6],
            };
            self.edges.push(e);
            offset = offset + 7;
            j = j + 1;
        }
        proof {
            if j < edge_count {
                vstd::arithmetic::div_mod::lemma_fundamental_div_mod_converse(
                    data@.len() - taken_edges_base(data@),
                    7,
                    j as int,
                    data@.len() - taken_edges_base(data@) - 7 * (j as int),
                );
            } else {
                vstd::arithmetic::div_mod::lemma_div_is_ordered(
                    7 * (j as int),
                    data@.len() - taken_edges_base(data@),
                    7,
                );
                vstd::arithmetic::div_mod::lemma_div_by_multiple(j as int, 7);
            }
            assert(j as int == taken_edge_count(data@));
            assert(self.edges@ =~= decoded_edges(
                data@,
                taken_edges_base(data@),
                taken_edge_count(data@),
            ));
        }
        self.nodes_lookup = build_lookup(&self.nodes);
    }

    /// Append a node. A duplicate identifier is rejected: the call returns
    /// false and mutates nothing.
    #[verifier::loop_isolation(false)]
    pub fn add_node(&mut self, id: u32, x: u32, y: u32, r: u32, color: &[u32]) -> (added: bool)
        requires
            old(self).inv(),
            color@.len() >= 3,
        ensures
            final(self).inv(),
            added == !has_node_id(old(self).nodes@, id),
            added ==> final(self).nodes@ == old(self).nodes@.push(
                Node {
                    id,
                    x,
                    y,
                    r,
                    color_r: color@[0],
                    color_g: color@[1],
                    color_b: color@[2],
                },
            ),
            added ==> final(self).nodes_lookup@ == old(self).nodes_lookup@.insert(
                id,
                old(self).nodes@.len() as usize,
            ),
            !added ==> final(self).nodes@ == old(self).nodes@ && final(self).nodes_lookup@ == old(self).nodes_lookup@,
            final(self).edges@ == old(self).edges@,
    {
        let mut i: usize = 0;
        while i < self.nodes.len()
            invariant
                *self == *old(self),
                i <= self.nodes@.len(),
                forall|k: int| 0 <= k < i ==> self.nodes@[k].id != id,
            decreases self.nodes@.len() - i,
        {
            if self.nodes[i].id == id {
                proof {
                    assert(has_node_id(self.nodes@, id));
                }
                return false;
            }
            i = i + 1;
        }
        let position: usize = self.nodes.len();
        self.nodes.push(Node { id, x, y, r, color_r: color[0], color_g: color[1], color_b: color[2] });
        self.nodes_lookup.insert(id, position);
        proof {
            assert(!has_node_id(old(self).nodes@, id));
            assert forall|a: int, b: int| 0 <= a < b < self.nodes@.len() implies self.nodes@[a].id
                != self.nodes@[b].id by {
                if b < position as int {
                    assert(old(self).nodes@[a].id != old(self).nodes@[b].id);
                } else {
                    assert(self.nodes@[a] == old(self).nodes@[a]);
                }
            }
            assert forall|k: u32| #[trigger] self.nodes_lookup@.contains_key(k) implies has_node_id(
                self.nodes@,
                k,
            ) by {
                if k == id {
                    assert(self.nodes@[position as int].id == k);
                } else {
                    let j = choose|j: int|
                        0 <= j < old(self).nodes@.len() && old(self).nodes@[j].id == k;
                    assert(self.nodes@[j].id == k);
                }
            }
            assert forall|a: int| 0 <= a < self.nodes@.len() implies self.nodes_lookup@.contains_key(
                #[trigger] self.nodes@[a].id,
            ) && self.nodes_lookup@[self.nodes@[a].id] as int == a by {
                if a < position as int {
                    assert(self.nodes@[a] == old(self).nodes@[a]);
                    assert(old(self).nodes@[a].id != id);
                }
            }
        }
        true
    }

    /// Append an edge. A duplicate identifier is rejected; the endpoints
    /// need not exist.
    #[verifier::loop_isolation(false)]
    pub fn add_edge(&mut self, id: u32, source: u32, target: u32, width: u32, color: &[u32]) -> (added: bool)
        requires
            old(self).inv(),
            color@.len() >= 3,
        ensures
            final(self).inv(),
            added == !has_edge_id(old(self).edges@, id),
            added ==> final(self).edges@ == old(self).edges@.push(
                Edge {
                    id,
                    source,
                    target,
                    width,
                    color_r: color@[0],
                    color_g: color@[1],
                    color_b: color@[2],
                },
            ),
            !added ==> final(self).edges@ == old(self).edges@,
            final(self).nodes@ == old(self).nodes@,
            final(self).nodes_lookup@ == old(self).nodes_lookup@,
    {
        let mut i: usize = 0;
        while i < self.edges.len()
            invariant
                *self == *old(self),
                i <= self.edges@.len(),
                forall|k: int| 0 <= k < i ==> self.edges@[k].id != id,
            decreases self.edges@.len() - i,
        {
            if self.edges[i].id == id {
                proof {
                    assert(has_edge_id(self.edges@, id));
                }
                return false;
            }
            i = i + 1;
        }
        let position: usize = self.edges.len();
        self.edges.push(
            Edge { id, source, target, width, color_r: color[0], color_g: color[1], color_b: color[2] },
        );
        proof {
            assert(!has_edge_id(old(self).edges@, id));
            assert forall|a: int, b: int| 0 <= a < b < self.edges@.len() implies self.edges@[a].id
                != self.edges@[b].id by {
                if b < position as int {
                    assert(old(self).edges@[a].id != old(self).edges@[b].id);
                } else {
                    assert(self.edges@[a] == old(self).edges@[a]);
                }
            }
        }
        true
    }

    /// Overwrite the position, radius and color of the node with this
    /// identifier, found through the index; its identifier and position are
    /// unchanged. Returns false, mutating nothing, if the node is absent.
    pub fn update_node(&mut self, id: u32, x: u32, y: u32, r: u32, color: &[u32]) -> (updated: bool)
        requires
            old(self).inv(),
            color@.len() >= 3,
        ensures
            final(self).inv(),
            updated == has_node_id(old(self).nodes@, id),
            final(self).nodes@.len() == old(self).nodes@.len(),
            forall|j: int|
                0 <= j < old(self).nodes@.len() && old(self).nodes@[j].id != id ==> final(self).nodes@[j] == old(self).nodes@[j],
            forall|j: int|
                0 <= j < old(self).nodes@.len() && old(self).nodes@[j].id == id ==> final(self).nodes@[j] == (Node {
                    id,
                    x,
                    y,
                    r,
                    color_r: color@[0],
                    color_g: color@[1],
                    color_b: color@[2],
                }),
            final(self).edges@ == old(self).edges@,
            final(self).nodes_lookup@ == old(self).nodes_lookup@,
    {
        let index: usize = match self.nodes_lookup.get(&id) {
            None => {
                proof {
                    if has_node_id(self.nodes@, id) {
                        let i = choose|i: int|
                            0 <= i < self.nodes@.len() && self.nodes@[i].id == id;
                        assert(self.nodes_lookup@.contains_key(self.nodes@[i].id));
                    }
                }
                return false;
            },
            Some(ix) => *ix,
        };
        proof {
            let i = choose|i: int| 0 <= i < self.nodes@.len() && self.nodes@[i].id == id;
            assert(self.nodes_lookup@[self.nodes@[i].id] as int == i);
            assert(index as int == i);
        }
        let node = self.nodes[index];
        if node.id == id {
            let updated_node = Node {
                id: node.id,
                x,
                y,
                r,
                color_r: color[0],
                color_g: color[1],
                color_b: color[2],
            };
            self.nodes[index] = updated_node;
            proof {
                assert(has_node_id(old(self).nodes@, id));
                assert forall|a: int, b: int| 0 <= a < b < self.nodes@.len() implies self.nodes@[a].id
                    != self.nodes@[b].id by {
                    assert(self.nodes@[a].id == old(self).nodes@[a].id);
                    assert(self.nodes@[b].id == old(self).nodes@[b].id);
                }
                assert forall|a: int| 0 <= a < self.nodes@.len()
                    implies self.nodes_lookup@.contains_key(#[trigger] self.nodes@[a].id)
                        && self.nodes_lookup@[self.nodes@[a].id] as int == a by {
                    assert(self.nodes@[a].id == old(self).nodes@[a].id);
                }
                assert forall|k: u32| #[trigger] self.nodes_lookup@.contains_key(k)
                    implies has_node_id(self.nodes@, k) by {
                    let j = choose|j: int|
                        0 <= j < old(self).nodes@.len() && old(self).nodes@[j].id == k;
                    assert(self.nodes@[j].id == k);
                }
                assert forall|j: int|
                    0 <= j < old(self).nodes@.len() && old(self).nodes@[j].id == id
                    implies self.nodes@[j] == updated_node by {
                    assert(j == index as int);
                }
            }
            true
        } else {
            false
        }
    }

    /// Overwrite the width and color of the edge with this identifier,
    /// found by a linear scan. Returns false, mutating nothing, if absent.
    #[verifier::loop_isolation(false)]
    pub fn update_edge(&mut self, id: u32, width: u32, color: &[u32]) -> (updated: bool)
        requires
            old(self).inv(),
            color@.len() >= 3,
        ensures
            final(self).inv(),
            updated == has_edge_id(old(self).edges@, id),
            final(self).edges@.len() == old(self).edges@.len(),
            forall|j: int|
                0 <= j < old(self).edges@.len() && old(self).edges@[j].id != id ==> final(self).edges@[j] == old(self).edges@[j],
            forall|j: int|
                0 <= j < old(self).edges@.len() && old(self).edges@[j].id == id ==> final(self).edges@[j] == (Edge {
                    id,
                    source: old(self).edges@[j].source,
                    target: old(self).edges@[j].target,
                    width,
                    color_r: color@[0],
                    color_g: color@[1],
                    color_b: color@[2],
                }),
            final(self).nodes@ == old(self).nodes@,
            final(self).nodes_lookup@ == old(self).nodes_lookup@,
    {
        let mut i: usize = 0;
        while i < self.edges.len()
            invariant
                *self == *old(self),
                color@.len() >= 3,
                i <= self.edges@.len(),
                forall|k: int| 0 <= k < i ==> self.edges@[k].id != id,
            decreases self.edges@.len() - i,
        {
            if self.edges[i].id == id {
                let edge = self.edges[i];
                let updated_edge = Edge {
                    id: edge.id,
                    source: edge.source,
                    target: edge.target,
                    width,
                    color_r: color[0],
                    color_g: color[1],
                    color_b: color[2],
                };
                self.edges[i] = updated_edge;
                proof {
                    assert(has_edge_id(old(self).edges@, id));
                    assert forall|a: int, b: int| 0 <= a < b < self.edges@.len()
                        implies self.edges@[a].id != self.edges@[b].id by {
                        assert(self.edges@[a].id == old(self).edges@[a].id);
                        assert(self.edges@[b].id == old(self).edges@[b].id);
                    }
                    assert forall|j: int|
                        0 <= j < old(self).edges@.len() && old(self).edges@[j].id == id
                        implies self.edges@[j] == updated_edge by {
                        if j != i as int {
                            assert(old(self).edges@[j].id != old(self).edges@[i as int].id);
                        }
                    }
                }
                return true;
            }
            i = i + 1;
        }
        false
    }

    /// Remove the node with this identifier, if present, and every edge
    /// touching `id` as source or target, present or not; repair the index
    /// so every remaining node maps to its shifted position. Returns true
    /// iff a node was removed.
    #[verifier::loop_isolation(false)]
    pub fn remove_node(&mut self, id: u32) -> (removed: bool)
        requires
            old(self).inv(),
        ensures
            final(self).inv(),
            removed == has_node_id(old(self).nodes@, id),
            removed ==> final(self).nodes@ == old(self).nodes@.remove(
                node_index_of(old(self).nodes@, id),
            ),
            !removed ==> final(self).nodes@ == old(self).nodes@,
            !has_node_id(final(self).nodes@, id),
            final(self).edges@ == edges_avoiding(old(self).edges@, id),
            forall|e: Edge| #[trigger]
                final(self).edges@.contains(e) <==> old(self).edges@.contains(e) && !touches(
                    e,
                    id,
                ),
    {
        let ghost old_nodes = self.nodes@;
        let removed: bool = match self.nodes_lookup.get(&id) {
            None => {
                proof {
                    if has_node_id(self.nodes@, id) {
                        let i = choose|i: int|
                            0 <= i < self.nodes@.len() && self.nodes@[i].id == id;
                        assert(self.nodes_lookup@.contains_key(self.nodes@[i].id));
                    }
                }
                false
            },
            Some(ix) => {
                let index: usize = *ix;
                proof {
                    let i = choose|i: int| 0 <= i < self.nodes@.len() && self.nodes@[i].id == id;
                    assert(self.nodes_lookup@[self.nodes@[i].id] as int == i);
                    assert(index as int == i);
                    lemma_find_node_present(self.nodes@, i);
                }
                self.nodes.remove(index);
                true
            },
        };
        proof {
            assert(distinct_node_ids(self.nodes@));
            assert(!has_node_id(self.nodes@, id)) by {
                if has_node_id(self.nodes@, id) {
                    let i = choose|i: int| 0 <= i < self.nodes@.len() && self.nodes@[i].id == id;
                    if removed {
                        let r = node_index_of(old_nodes, id);
                        if i < r {
                            assert(old_nodes[i].id == old_nodes[r].id);
                        } else {
                            assert(old_nodes[i + 1].id == old_nodes[r].id);
                        }
                    } else {
                        assert(has_node_id(old_nodes, id));
                    }
                }
            }
        }
        let ghost old_edges = self.edges@;
        let mut kept: Vec<Edge> = Vec::new();
        let mut j: usize = 0;
        while j < self.edges.len()
            invariant
                self.edges@ == old_edges,
                j <= old_edges.len(),
                kept@ == edges_avoiding(old_edges.take(j as int), id),
            decreases old_edges.len() - j,
        {
            let e = self.edges[j];
            if !(e.source == id || e.target == id) {
                kept.push(e);
            }
            proof {
                assert(old_edges.take(j as int + 1).drop_last() =~= old_edges.take(j as int));
                assert(old_edges.take(j as int + 1).last() == old_edges[j as int]);
            }
            j = j + 1;
        }
        proof {
            assert(old_edges.take(old_edges.len() as int) =~= old_edges);
            lemma_edges_avoiding_properties(old_edges, id);
        }
        self.edges = kept;
        self.nodes_lookup = build_lookup(&self.nodes);
        removed
    }

    /// Remove the edge with this identifier. Returns true iff found.
    #[verifier::loop_isolation(false)]
    pub fn remove_edge(&mut self, id: u32) -> (removed: bool)
        requires
            old(self).inv(),
        ensures
            final(self).inv(),
            removed == has_edge_id(old(self).edges@, id),
            final(self).edges@ == edges_excluding(old(self).edges@, id),
            forall|e: Edge| #[trigger]
                final(self).edges@.contains(e) <==> old(self).edges@.contains(e) && e.id != id,
            final(self).nodes@ == old(self).nodes@,
            final(self).nodes_lookup@ == old(self).nodes_lookup@,
    {
        let ghost old_edges = self.edges@;
        let mut kept: Vec<Edge> = Vec::new();
        let mut found: bool = false;
        let mut j: usize = 0;
        while j < self.edges.len()
            invariant
                self.edges@ == old_edges,
                j <= old_edges.len(),
                kept@ == edges_excluding(old_edges.take(j as int), id),
                found == has_edge_id(old_edges.take(j as int), id),
            decreases old_edges.len() - j,
        {
            let e = self.edges[j];
            if e.id == id {
                found = true;
            } else {
                kept.push(e);
            }
            proof {
                assert(old_edges.take(j as int + 1).drop_last() =~= old_edges.take(j as int));
                assert(old_edges.take(j as int + 1).last() == old_edges[j as int]);
                if has_edge_id(old_edges.take(j as int), id) {
                    let k = choose|k: int|
                        0 <= k < j && old_edges.take(j as int)[k].id == id;
                    assert(old_edges.take(j as int + 1)[k].id == id);
                }
            }
            j = j + 1;
        }
        proof {
            assert(old_edges.take(old_edges.len() as int) =~= old_edges);
            lemma_edges_excluding_properties(old_edges, id);
        }
        self.edges = kept;
        found
    }

    /// One 7-scalar wire record per node, in storage order.
    #[verifier::loop_isolation(false)]
    pub fn get_nodes(&self) -> (r: Vec<u32>)
        ensures
            r@ == nodes_flat(self.nodes@),
    {
        let mut data: Vec<u32> = Vec::new();
        let mut i: usize = 0;
        while i < self.nodes.len()
            invariant
                i <= self.nodes@.len(),
                data@ == nodes_flat(self.nodes@.take(i as int)),
            decreases self.nodes@.len() - i,
        {
            let n = self.nodes[i];
            data.push(int_to_scalar(n.id));
            data.push(n.x);
            data.push(n.y);
            data.push(n.r);
            data.push(n.color_r);
            data.push(n.color_g);
            data.push(n.color_b);
            proof {
                assert(self.nodes@.take(i as int + 1).drop_last() =~= self.nodes@.take(i as int));
                assert(self.nodes@.take(i as int + 1).last() == self.nodes@[i as int]);
                assert(data@ =~= nodes_flat(self.nodes@.take(i as int)) + node_record(
                    self.nodes@[i as int],
                ));
            }
            i = i + 1;
        }
        proof {
            assert(self.nodes@.take(self.nodes@.len() as int) =~= self.nodes@);
        }
        data
    }

    /// One 7-scalar wire record per edge, in storage order.
    #[verifier::loop_isolation(false)]
    pub fn get_edges(&self) -> (r: Vec<u32>)
        ensures
            r@ == edges_flat(self.edges@),
    {
        let mut data: Vec<u32> = Vec::new();
        let mut i: usize = 0;
        while i < self.edges.len()
            invariant
                i <= self.edges@.len(),
                data@ == edges_flat(self.edges@.take(i as int)),
            decreases self.edges@.len() - i,
        {
            let e = self.edges[i];
            data.push(int_to_scalar(e.id));
            data.push(int_to_scalar(e.source));
            data.push(int_to_scalar(e.target));
            data.push(e.width);
            data.push(e.color_r);
            data.push(e.color_g);
            data.push(e.color_b);
            proof {
                assert(self.edges@.take(i as int + 1).drop_last() =~= self.edges@.take(i as int));
                assert(self.edges@.take(i as int + 1).last() == self.edges@[i as int]);
                assert(data@ =~= edges_flat(self.edges@.take(i as int)) + edge_record(
                    self.edges@[i as int],
                ));
            }
            i = i + 1;
        }
        proof {
            assert(self.edges@.take(self.edges@.len() as int) =~= self.edges@);
        }
        data
    }

    pub fn node_count(&self) -> (n: usize)
        ensures
            n == self.nodes@.len(),
    {
        self.nodes.len()
    }

    pub fn edge_count(&self) -> (n: usize)
        ensures
            n == self.edges@.len(),
    {
        self.edges.len()
    }

    /// The render-ready packed buffer: a 7-scalar record tagged 0.0 per
    /// node, then a 9-scalar record tagged 1.0 per edge whose endpoints
    /// both resolve through the index. An edge with an unresolved endpoint
    /// is skipped entirely.
    #[verifier::loop_isolation(false)]
    pub fn get_buffer(&self) -> (r: Vec<u32>)
        requires
            self.inv(),
        ensures
            r@ == render_buffer(self.nodes@, self.edges@),
    {
        let mut buffer: Vec<u32> = Vec::new();
        let mut i: usize = 0;
        while i < self.nodes.len()
            invariant
                i <= self.nodes@.len(),
                buffer@ == render_nodes(self.nodes@.take(i as int)),
            decreases self.nodes@.len() - i,
        {
            let n = self.nodes[i];
            buffer.push(0);
            buffer.push(n.x);
            buffer.push(n.y);
            buffer.push(n.r);
            buffer.push(n.color_r);
            buffer.push(n.color_g);
            buffer.push(n.color_b);
            proof {
                assert(self.nodes@.take(i as int + 1).drop_last() =~= self.nodes@.take(i as int));
                assert(self.nodes@.take(i as int + 1).last() == self.nodes@[i as int]);
                assert(buffer@ =~= render_nodes(self.nodes@.take(i as int)) + render_node_record(
                    self.nodes@[i as int],
                ));
            }
            i = i + 1;
        }
        proof {
            assert(self.nodes@.take(self.nodes@.len() as int) =~= self.nodes@);
        }
        let mut j: usize = 0;
        while j < self.edges.len()
            invariant
                self.inv(),
                j <= self.edges@.len(),
                buffer@ == render_nodes(self.nodes@) + render_edges(
                    self.nodes@,
                    self.edges@.take(j as int),
                ),
            decreases self.edges@.len() - j,
        {
            let e = self.edges[j];
            let source_index = self.nodes_lookup.get(&e.source);
            let target_index = self.nodes_lookup.get(&e.target);
            match (source_index, target_index) {
                (Some(si), Some(ti)) => {
                    let si: usize = *si;
                    let ti: usize = *ti;
                    proof {
                        let a = choose|a: int|
                            0 <= a < self.nodes@.len() && self.nodes@[a].id == e.source;
                        assert(self.nodes_lookup@[self.nodes@[a].id] as int == a);
                        assert(si as int == a);
                        lemma_find_node_present(self.nodes@, a);
                        let b = choose|b: int|
                            0 <= b < self.nodes@.len() && self.nodes@[b].id == e.target;
                        assert(self.nodes_lookup@[self.nodes@[b].id] as int == b);
                        assert(ti as int == b);
                        lemma_find_node_present(self.nodes@, b);
                    }
                    let s = self.nodes[si];
                    let t = self.nodes[ti];
                    buffer.push(EDGE_TAG);
                    buffer.push(s.x);
                    buffer.push(s.y);
                    buffer.push(t.x);
                    buffer.push(t.y);
                    buffer.push(e.width);
                    buffer.push(e.color_r);
                    buffer.push(e.color_g);
                    buffer.push(e.color_b);
                },
                _ => {
                    proof {
                        if source_index is None {
                            if has_node_id(self.nodes@, e.source) {
                                let a = choose|a: int|
                                    0 <= a < self.nodes@.len() && self.nodes@[a].id == e.source;
                                assert(self.nodes_lookup@.contains_key(self.nodes@[a].id));
                            }
                            lemma_find_node_absent(self.nodes@, e.source);
                        } else {
                            if has_node_id(self.nodes@, e.target) {
                                let b = choose|b: int|
                                    0 <= b < self.nodes@.len() && self.nodes@[b].id == e.target;
                                assert(self.nodes_lookup@.contains_key(self.nodes@[b].id));
                            }
                            lemma_find_node_absent(self.nodes@, e.target);
                        }
                    }
                },
            }
            proof {
                assert(self.edges@.take(j as int + 1).drop_last() =~= self.edges@.take(j as int));
                assert(self.edges@.take(j as int + 1).last() == self.edges@[j as int]);
                assert(buffer@ =~= render_nodes(self.nodes@) + render_edges(
                    self.nodes@,
                    self.edges@.take(j as int),
                ) + render_edge_record(self.nodes@, self.edges@[j as int]));
            }
            j = j + 1;
        }
        proof {
            assert(self.edges@.take(self.edges@.len() as int) =~= self.edges@);
        }
        buffer
    }

    /// Total number of stored elements, nodes and edges together.
    pub fn get_total_elements(&self) -> (n: usize)
        requires
            self.nodes@.len() + self.edges@.len() <= usize::MAX,
        ensures
            n == self.nodes@.len() + self.edges@.len(),
    {
        self.nodes.len() + self.edges.len()
    }

    /// `(nodesOffset, edgesOffset, edgeCount)` for the node-only 7-scalar
    /// stride: the edge offset deliberately ignores the 9-scalar stride of
    /// edge records in the packed buffer.
    pub fn get_buffer_info(&self) -> (info: (usize, usize, usize))
        requires
            self.nodes@.len() * 7 <= usize::MAX,
        ensures
            info.0 == 0,
            info.1 == self.nodes@.len() * 7,
            info.2 == self.edges@.len(),
    {
        let nodes_offset: usize = 0;
        let edges_offset: usize = self.nodes.len() * 7;
        (nodes_offset, edges_offset, self.edges.len())
    }

    /// Offset of the first edge record in the node-only 7-scalar layout.
    pub fn get_edges_offset(&self) -> (n: usize)
        requires
            self.nodes@.len() * 7 <= usize::MAX,
        ensures
            n == self.nodes@.len() * 7,
    {
        self.nodes.len() * 7
    }
}

/// Law: re-decoding the initial-format buffer rebuilt from a store's own
/// records (counts, then `get_nodes`, then `get_edges`) reproduces the same
/// node and edge sequences, provided every identifier fits losslessly in a
/// wire scalar, that is, lies below 2^24.
pub proof fn lemma_initial_buffer_round_trip(nodes: Seq<Node>, edges: Seq<Edge>)
    requires
        nodes.len() < 0x1000000,
        edges.len() < 0x1000000,
        distinct_node_ids(nodes),
        distinct_edge_ids(edges),
        forall|i: int| 0 <= i < nodes.len() ==> (#[trigger] nodes[i]).id < 0x1000000,
        forall|i: int|
            0 <= i < edges.len() ==> (#[trigger] edges[i]).id < 0x1000000 && edges[i].source
                < 0x1000000 && edges[i].target < 0x1000000,
    ensures
        well_formed_buffer(initial_buffer(nodes, edges)),
        spec_node_count(initial_buffer(nodes, edges)) == nodes.len(),
        spec_edge_count(initial_buffer(nodes, edges)) == edges.len(),
        decoded_nodes(initial_buffer(nodes, edges), nodes.len() as int) == nodes,
        decoded_edges(
            initial_buffer(nodes, edges),
            2 + 7 * nodes.len() as int,
            edges.len() as int,
        ) == edges,
{
    let buf = initial_buffer(nodes, edges);
    lemma_nodes_flat_len(nodes);
    lemma_edges_flat_len(edges);
    assert(buf.len() == 2 + 7 * nodes.len() + 7 * edges.len());
    lemma_scalar_round_trip(nodes.len() as u32);
    lemma_scalar_round_trip(edges.len() as u32);
    assert(buf[0] == int_scalar(nodes.len() as u32));
    assert(buf[1] == int_scalar(edges.len() as u32));
    assert(spec_node_count(buf) == nodes.len());
    assert(spec_edge_count(buf) == edges.len());
    assert forall|j: int| 0 <= j < nodes.len() implies decoded_node(buf, 2 + 7 * j) == nodes[j] by {
        let off = 2 + 7 * j;
        lemma_nodes_flat_index(nodes, j, 0);
        lemma_nodes_flat_index(nodes, j, 1);
        lemma_nodes_flat_index(nodes, j, 2);
        lemma_nodes_flat_index(nodes, j, 3);
        lemma_nodes_flat_index(nodes, j, 4);
        lemma_nodes_flat_index(nodes, j, 5);
        lemma_nodes_flat_index(nodes, j, 6);
        assert(buf[off] == nodes_flat(nodes)[7 * j + 0]);
        assert(buf[off + 1] == nodes_flat(nodes)[7 * j + 1]);
        assert(buf[off + 2] == nodes_flat(nodes)[7 * j + 2]);
        assert(buf[off + 3] == nodes_flat(nodes)[7 * j + 3]);
        assert(buf[off + 4] == nodes_flat(nodes)[7 * j + 4]);
        assert(buf[off + 5] == nodes_flat(nodes)[7 * j + 5]);
        assert(buf[off + 6] == nodes_flat(nodes)[7 * j + 6]);
        lemma_scalar_round_trip(nodes[j].id);
    }
    assert(decoded_nodes(buf, nodes.len() as int) =~= nodes);
    assert forall|j: int| 0 <= j < edges.len() implies decoded_edge(buf, 2 + 7 * nodes.len() + 7 * j)
        == edges[j] by {
        let off = 2 + 7 * nodes.len() + 7 * j;
        lemma_edges_flat_index(edges, j, 0);
        lemma_edges_flat_index(edges, j, 1);
        lemma_edges_flat_index(edges, j, 2);
        lemma_edges_flat_index(edges, j, 3);
        lemma_edges_flat_index(edges, j, 4);
        lemma_edges_flat_index(edges, j, 5);
        lemma_edges_flat_index(edges, j, 6);
        assert(buf[off] == edges_flat(edges)[7 * j + 0]);
        assert(buf[off + 1] == edges_flat(edges)[7 * j + 1]);
        assert(buf[off + 2] == edges_flat(edges)[7 * j + 2]);
        assert(buf[off + 3] == edges_flat(edges)[7 * j + 3]);
        assert(buf[off + 4] == edges_flat(edges)[7 * j + 4]);
        assert(buf[off + 5] == edges_flat(edges)[7 * j + 5]);
        assert(buf[off + 6] == edges_flat(edges)[7 * j + 6]);
        lemma_scalar_round_trip(edges[j].id);
        lemma_scalar_round_trip(edges[j].source);
        lemma_scalar_round_trip(edges[j].target);
    }
    assert(decoded_edges(buf, 2 + 7 * nodes.len() as int, edges.len() as int) =~= edges);
}

} // verus!
