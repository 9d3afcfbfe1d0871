//! The mathematical model of the store: node and edge values, the flat
//! record layouts, and the specification functions that the contracts in
//! [`crate::graph`] are stated over.
//!
//! Every attribute (`x`, `y`, `r`, `width`, color components) is a wire
//! scalar held as its raw bit pattern; identifiers are plain integers and
//! cross the wire through [`crate::scalar`].

use crate::scalar::{int_scalar, scalar_int};
use vstd::prelude::*;

verus! {

/// A node: caller-assigned identifier, position, radius and RGB color.
/// All fields but `id` are wire-scalar bit patterns.
#[derive(Clone, Copy)]
pub struct Node {
    pub id: u32,
    pub x: u32,
    pub y: u32,
    pub r: u32,
    pub color_r: u32,
    pub color_g: u32,
    pub color_b: u32,
}

/// An edge: caller-assigned identifier, endpoint node identifiers, width
/// and RGB color. An edge may reference a node id that is not currently
/// stored. All fields but the three identifiers are wire-scalar bit patterns.
#[derive(Clone, Copy)]
pub struct Edge {
    pub id: u32,
    pub source: u32,
    pub target: u32,
    pub width: u32,
    pub color_r: u32,
    pub color_g: u32,
    pub color_b: u32,
}

/// Wire scalar 1.0, the leading tag of an edge record in the render buffer.
/// (The node tag, scalar 0.0, has bit pattern 0.)
pub const EDGE_TAG: u32 = 0x3f800000;

pub open spec fn has_node_id(nodes: Seq<Node>, id: u32) -> bool {
    exists|i: int| 0 <= i < nodes.len() && nodes[i].id == id
}

pub open spec fn has_edge_id(edges: Seq<Edge>, id: u32) -> bool {
    exists|i: int| 0 <= i < edges.len() && edges[i].id == id
}

pub open spec fn distinct_node_ids(nodes: Seq<Node>) -> bool {
    forall|i: int, j: int| 0 <= i < j < nodes.len() ==> nodes[i].id != nodes[j].id
}

pub open spec fn distinct_edge_ids(edges: Seq<Edge>) -> bool {
    forall|i: int, j: int| 0 <= i < j < edges.len() ==> edges[i].id != edges[j].id
}

/// Whether `id` is one of the edge's endpoints.
pub open spec fn touches(e: Edge, id: u32) -> bool {
    e.source == id || e.target == id
}

/// The first stored node with identifier `id`, if any.
pub open spec fn find_node(nodes: Seq<Node>, id: u32) -> Option<Node>
    decreases nodes.len(),
{
    if nodes.len() == 0 {
        None
    } else if nodes[0].id == id {
        Some(nodes[0])
    } else {
        find_node(nodes.drop_first(), id)
    }
}

/// Index of the first stored node with identifier `id`.
pub open spec fn node_index_of(nodes: Seq<Node>, id: u32) -> int
    decreases nodes.len(),
{
    if nodes.len() == 0 {
        0
    } else if nodes[0].id == id {
        0
    } else {
        1 + node_index_of(nodes.drop_first(), id)
    }
}

/// The edges that do not touch `id`, in their stored order.
pub open spec fn edges_avoiding(edges: Seq<Edge>, id: u32) -> Seq<Edge>
    decreases edges.len(),
{
    if edges.len() == 0 {
        Seq::empty()
    } else {
        edges_avoiding(edges.drop_last(), id) + (if touches(edges.last(), id) {
            Seq::empty()
        } else {
            seq![edges.last()]
        })
    }
}

/// The edges whose identifier is not `id`, in their stored order.
pub open spec fn edges_excluding(edges: Seq<Edge>, id: u32) -> Seq<Edge>
    decreases edges.len(),
{
    if edges.len() == 0 {
        Seq::empty()
    } else {
        edges_excluding(edges.drop_last(), id) + (if edges.last().id == id {
            Seq::empty()
        } else {
            seq![edges.last()]
        })
    }
}

/// The 7-scalar wire record of a node: `[id, x, y, r, colorR, colorG, colorB]`.
pub open spec fn node_record(n: Node) -> Seq<u32> {
    seq![int_scalar(n.id), n.x, n.y, n.r, n.color_r, n.color_g, n.color_b]
}

/// The 7-scalar wire record of an edge:
/// `[id, source, target, width, colorR, colorG, colorB]`.
pub open spec fn edge_record(e: Edge) -> Seq<u32> {
    seq![
        int_scalar(e.id),
        int_scalar(e.source),
        int_scalar(e.target),
        e.width,
        e.color_r,
        e.color_g,
        e.color_b,
    ]
}

/// All node records, concatenated in storage order.
pub open spec fn nodes_flat(nodes: Seq<Node>) -> Seq<u32>
    decreases nodes.len(),
{
    if nodes.len() == 0 {
        Seq::empty()
    } else {
        nodes_flat(nodes.drop_last()) + node_record(nodes.last())
    }
}

/// All edge records, concatenated in storage order.
pub open spec fn edges_flat(edges: Seq<Edge>) -> Seq<u32>
    decreases edges.len(),
{
    if edges.len() == 0 {
        Seq::empty()
    } else {
        edges_flat(edges.drop_last()) + edge_record(edges.last())
    }
}

/// The initial-format buffer that reproduces the store:
/// `[nodeCount, edgeCount, node records, edge records]`, counts as scalars.
pub open spec fn initial_buffer(nodes: Seq<Node>, edges: Seq<Edge>) -> Seq<u32> {
    seq![int_scalar(nodes.len() as u32), int_scalar(edges.len() as u32)] + nodes_flat(nodes)
        + edges_flat(edges)
}

/// The node decoded from the 7 scalars starting at `off`: the identifier is
/// truncated from its scalar, the attributes pass through as bit patterns.
pub open spec fn decoded_node(buf: Seq<u32>, off: int) -> Node {
    Node {
        id: scalar_int(buf[off]),
        x: buf[off + 1],
        y: buf[off + 2],
        r: buf[off + 3],
        color_r: buf[off + 4],
        color_g: buf[off + 5],
        color_b: buf[off + 6],
    }
}

/// The edge decoded from the 7 scalars starting at `off`.
pub open spec fn decoded_edge(buf: Seq<u32>, off: int) -> Edge {
    Edge {
        id: scalar_int(buf[off]),
        source: scalar_int(buf[off + 1]),
        target: scalar_int(buf[off + 2]),
        width: buf[off + 3],
        color_r: buf[off + 4],
        color_g: buf[off + 5],
        color_b: buf[off + 6],
    }
}

/// The first `count` node records of `buf`, decoded from offset 2 on.
pub open spec fn decoded_nodes(buf: Seq<u32>, count: int) -> Seq<Node> {
    Seq::new(count as nat, |j: int| decoded_node(buf, 2 + 7 * j))
}

/// `count` edge records of `buf`, decoded from offset `base` on.
pub open spec fn decoded_edges(buf: Seq<u32>, base: int, count: int) -> Seq<Edge> {
    Seq::new(count as nat, |j: int| decoded_edge(buf, base + 7 * j))
}

/// The 7-scalar render record of a node: `[0.0, x, y, r, colorR, colorG, colorB]`.
pub open spec fn render_node_record(n: Node) -> Seq<u32> {
    seq![0u32, n.x, n.y, n.r, n.color_r, n.color_g, n.color_b]
}

/// The 9-scalar render record of an edge whose endpoints both resolve:
/// `[1.0, sourceX, sourceY, targetX, targetY, width, colorR, colorG, colorB]`.
/// An edge with an unresolved endpoint contributes nothing.
pub open spec fn render_edge_record(nodes: Seq<Node>, e: Edge) -> Seq<u32> {
    match (find_node(nodes, e.source), find_node(nodes, e.target)) {
        (Some(s), Some(t)) => seq![
            EDGE_TAG,
            s.x,
            s.y,
            t.x,
            t.y,
            e.width,
            e.color_r,
            e.color_g,
            e.color_b,
        ],
        _ => Seq::empty(),
    }
}

/// All node render records, concatenated in storage order.
pub open spec fn render_nodes(nodes: Seq<Node>) -> Seq<u32>
    decreases nodes.len(),
{
    if nodes.len() == 0 {
        Seq::empty()
    } else {
        render_nodes(nodes.drop_last()) + render_node_record(nodes.last())
    }
}

/// All edge render records, concatenated in storage order.
pub open spec fn render_edges(nodes: Seq<Node>, edges: Seq<Edge>) -> Seq<u32>
    decreases edges.len(),
{
    if edges.len() == 0 {
        Seq::empty()
    } else {
        render_edges(nodes, edges.drop_last()) + render_edge_record(nodes, edges.last())
    }
}

/// The render-ready packed buffer: node records, then resolvable edge records.
pub open spec fn render_buffer(nodes: Seq<Node>, edges: Seq<Edge>) -> Seq<u32> {
    render_nodes(nodes) + render_edges(nodes, edges)
}

pub proof fn lemma_nodes_flat_len(nodes: Seq<Node>)
    ensures
        nodes_flat(nodes).len() == 7 * nodes.len(),
    decreases nodes.len(),
{
    if nodes.len() > 0 {
        lemma_nodes_flat_len(nodes.drop_last());
    }
}

pub proof fn lemma_edges_flat_len(edges: Seq<Edge>)
    ensures
        edges_flat(edges).len() == 7 * edges.len(),
    decreases edges.len(),
{
    if edges.len() > 0 {
        lemma_edges_flat_len(edges.drop_last());
    }
}

pub proof fn lemma_nodes_flat_index(nodes: Seq<Node>, j: int, c: int)
    requires
        0 <= j < nodes.len(),
        0 <= c < 7,
    ensures
        nodes_flat(nodes)[7 * j + c] == node_record(nodes[j])[c],
    decreases nodes.len(),
{
    lemma_nodes_flat_len(nodes.drop_last());
    if j == nodes.len() - 1 {
    } else {
        lemma_nodes_flat_index(nodes.drop_last(), j, c);
    }
}

pub proof fn lemma_edges_flat_index(edges: Seq<Edge>, j: int, c: int)
    requires
        0 <= j < edges.len(),
        0 <= c < 7,
    ensures
        edges_flat(edges)[7 * j + c] == edge_record(edges[j])[c],
    decreases edges.len(),
{
    lemma_edges_flat_len(edges.drop_last());
    if j == edges.len() - 1 {
    } else {
        lemma_edges_flat_index(edges.drop_last(), j, c);
    }
}

/// If position `i` holds the identifier `id` and identifiers are distinct,
/// the lookup by `id` yields exactly that node.
pub proof fn lemma_find_node_present(nodes: Seq<Node>, i: int)
    requires
        distinct_node_ids(nodes),
        0 <= i < nodes.len(),
    ensures
        find_node(nodes, nodes[i].id) == Some(nodes[i]),
        node_index_of(nodes, nodes[i].id) == i,
    decreases nodes.len(),
{
    if nodes[0].id == nodes[i].id {
        assert(i == 0);
    } else {
        lemma_find_node_present(nodes.drop_first(), i - 1);
    }
}

/// A lookup for an identifier that no stored node carries yields nothing.
pub proof fn lemma_find_node_absent(nodes: Seq<Node>, id: u32)
    requires
        !has_node_id(nodes, id),
    ensures
        find_node(nodes, id) == None::<Node>,
    decreases nodes.len(),
{
    if nodes.len() > 0 {
        assert(nodes[0].id != id);
        assert(!has_node_id(nodes.drop_first(), id)) by {
            if has_node_id(nodes.drop_first(), id) {
                let i = choose|i: int|
                    0 <= i < nodes.drop_first().len() && nodes.drop_first()[i].id == id;
                assert(nodes[i + 1].id == id);
            }
        }
        lemma_find_node_absent(nodes.drop_first(), id);
    }
}

/// Removing the edges that touch `id` keeps exactly the edges that do not
/// touch it, and keeps distinct identifiers distinct.
pub proof fn lemma_edges_avoiding_properties(edges: Seq<Edge>, id: u32)
    ensures
        forall|e: Edge| #[trigger]
            edges_avoiding(edges, id).contains(e) <==> edges.contains(e) && !touches(e, id),
        distinct_edge_ids(edges) ==> distinct_edge_ids(edges_avoiding(edges, id)),
    decreases edges.len(),
{
    let res = edges_avoiding(edges, id);
    if edges.len() == 0 {
        assert forall|e: Edge| #[trigger] res.contains(e) implies edges.contains(e) && !touches(
            e,
            id,
        ) by {
            let i = choose|i: int| 0 <= i < res.len() && res[i] == e;
        }
    } else {
        let prev = edges.drop_last();
        lemma_edges_avoiding_properties(prev, id);
        let prev_res = edges_avoiding(prev, id);
        assert forall|e: Edge| #[trigger] res.contains(e) implies edges.contains(e) && !touches(
            e,
            id,
        ) by {
            let i = choose|i: int| 0 <= i < res.len() && res[i] == e;
            if i < prev_res.len() {
                assert(prev_res.contains(e));
                let j = choose|j: int| 0 <= j < prev.len() && prev[j] == e;
                assert(edges[j] == e);
            } else {
                assert(e == edges.last());
                assert(edges[edges.len() - 1] == e);
            }
        }
        assert forall|e: Edge| edges.contains(e) && !touches(e, id) implies #[trigger] res.contains(
            e,
        ) by {
            let j = choose|j: int| 0 <= j < edges.len() && edges[j] == e;
            if j < edges.len() - 1 {
                assert(prev[j] == e);
                assert(prev.contains(e));
                assert(prev_res.contains(e));
                let i = choose|i: int| 0 <= i < prev_res.len() && prev_res[i] == e;
                assert(res[i] == e);
            } else {
                assert(res[res.len() - 1] == e);
            }
        }
        if distinct_edge_ids(edges) {
            assert(distinct_edge_ids(prev)) by {
                assert(forall|i: int| 0 <= i < prev.len() ==> prev[i] == edges[i]);
            }
            assert forall|i: int, j: int| 0 <= i < j < res.len() implies res[i].id != res[j].id by {
                if j == res.len() - 1 && res.len() > prev_res.len() {
                    // res[j] is the last edge; res[i] came from prev.
                    assert(prev_res.contains(res[i]));
                    let m = choose|m: int| 0 <= m < prev.len() && prev[m] == res[i];
                    assert(edges[m] == res[i]);
                    assert(edges[edges.len() - 1] == res[j]);
                }
            }
        }
    }
}

/// Removing the edges with identifier `id` keeps exactly the edges whose
/// identifier differs, and keeps distinct identifiers distinct.
pub proof fn lemma_edges_excluding_properties(edges: Seq<Edge>, id: u32)
    ensures
        forall|e: Edge| #[trigger]
            edges_excluding(edges, id).contains(e) <==> edges.contains(e) && e.id != id,
        distinct_edge_ids(edges) ==> distinct_edge_ids(edges_excluding(edges, id)),
    decreases edges.len(),
{
    let res = edges_excluding(edges, id);
    if edges.len() == 0 {
        assert forall|e: Edge| #[trigger] res.contains(e) implies edges.contains(e) && e.id
            != id by {
            let i = choose|i: int| 0 <= i < res.len() && res[i] == e;
        }
    } else {
        let prev = edges.drop_last();
        lemma_edges_excluding_properties(prev, id);
        let prev_res = edges_excluding(prev, id);
        assert forall|e: Edge| #[trigger] res.contains(e) implies edges.contains(e) && e.id
            != id by {
            let i = choose|i: int| 0 <= i < res.len() && res[i] == e;
            if i < prev_res.len() {
                assert(prev_res.contains(e));
                let j = choose|j: int| 0 <= j < prev.len() && prev[j] == e;
                assert(edges[j] == e);
            } else {
                assert(edges[edges.len() - 1] == e);
            }
        }
        assert forall|e: Edge| edges.contains(e) && e.id != id implies #[trigger] res.contains(
            e,
        ) by {
            let j = choose|j: int| 0 <= j < edges.len() && edges[j] == e;
            if j < edges.len() - 1 {
                assert(prev[j] == e);
                assert(prev.contains(e));
                assert(prev_res.contains(e));
                let i = choose|i: int| 0 <= i < prev_res.len() && prev_res[i] == e;
                assert(res[i] == e);
            } else {
                assert(res[res.len() - 1] == e);
            }
        }
        if distinct_edge_ids(edges) {
            assert(distinct_edge_ids(prev)) by {
                assert(forall|i: int| 0 <= i < prev.len() ==> prev[i] == edges[i]);
            }
            assert forall|i: int, j: int| 0 <= i < j < res.len() implies res[i].id != res[j].id by {
                if j == res.len() - 1 && res.len() > prev_res.len() {
                    assert(prev_res.contains(res[i]));
                    let m = choose|m: int| 0 <= m < prev.len() && prev[m] == res[i];
                    assert(edges[m] == res[i]);
                    assert(edges[edges.len() - 1] == res[j]);
                }
            }
        }
    }
}

/// Law: the render buffer never includes a record for an edge with an
/// unresolved endpoint — such an edge contributes nothing at all.
pub proof fn lemma_render_skips_unresolved(nodes: Seq<Node>, e: Edge)
    requires
        !has_node_id(nodes, e.source) || !has_node_id(nodes, e.target),
    ensures
        render_edge_record(nodes, e) == Seq::<u32>::empty(),
{
    if !has_node_id(nodes, e.source) {
        lemma_find_node_absent(nodes, e.source);
    } else {
        lemma_find_node_absent(nodes, e.target);
    }
}

} // verus!
