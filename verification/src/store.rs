//! The graph store: labeled nodes and labeled directed relationships, each
//! keyed by a caller-supplied `u32` identifier and carrying a property map.
//!
//! A `GraphDatabase` is viewed as a `GraphView`: a pair of mathematical maps
//! from identifier to entity view. Adding an entity under an identifier that
//! is already present overwrites the prior entity (last write wins). Queries
//! are read-only; the store never validates that relationship endpoints name
//! existing nodes.

use crate::props::PropertyMap;
use vstd::pervasive::VecAdditionalExecFns;
use vstd::prelude::*;

verus! {

/// A labeled node with a property map.
#[derive(Debug)]
pub struct Node {
    pub id: u32,
    pub label: String,
    pub properties: PropertyMap,
}

/// A labeled directed edge between two node ids, with a property map.
/// `start_node` and `end_node` are stored verbatim and may dangle.
#[derive(Debug)]
pub struct Relationship {
    pub id: u32,
    pub label: String,
    pub start_node: u32,
    pub end_node: u32,
    pub properties: PropertyMap,
}

/// Mathematical view of a `Node`.
#[verifier::ext_equal]
pub struct NodeView {
    pub id: u32,
    pub label: Seq<char>,
    pub properties: Map<Seq<char>, Seq<char>>,
}

/// Mathematical view of a `Relationship`.
#[verifier::ext_equal]
pub struct RelationshipView {
    pub id: u32,
    pub label: Seq<char>,
    pub start_node: u32,
    pub end_node: u32,
    pub properties: Map<Seq<char>, Seq<char>>,
}

/// Mathematical view of the whole store: two independently keyed maps.
#[verifier::ext_equal]
pub struct GraphView {
    pub nodes: Map<u32, NodeView>,
    pub relationships: Map<u32, RelationshipView>,
}

impl View for Node {
    type V = NodeView;

    open spec fn view(&self) -> NodeView {
        NodeView { id: self.id, label: self.label@, properties: self.properties@ }
    }
}

impl View for Relationship {
    type V = RelationshipView;

    open spec fn view(&self) -> RelationshipView {
        RelationshipView {
            id: self.id,
            label: self.label@,
            start_node: self.start_node,
            end_node: self.end_node,
            properties: self.properties@,
        }
    }
}

/// The map denoted by a sequence of nodes keyed by id, later entries winning.
pub open spec fn nodes_map(ns: Seq<Node>) -> Map<u32, NodeView>
    decreases ns.len(),
{
    if ns.len() == 0 {
        Map::empty()
    } else {
        nodes_map(ns.drop_last()).insert(ns.last().id, ns.last()@)
    }
}

/// The map denoted by a sequence of relationships keyed by id.
pub open spec fn rels_map(rs: Seq<Relationship>) -> Map<u32, RelationshipView>
    decreases rs.len(),
{
    if rs.len() == 0 {
        Map::empty()
    } else {
        rels_map(rs.drop_last()).insert(rs.last().id, rs.last()@)
    }
}

/// No two nodes in the sequence share an id.
pub open spec fn distinct_node_ids(ns: Seq<Node>) -> bool {
    forall|i: int, j: int| 0 <= i < j < ns.len() ==> ns[i].id != ns[j].id
}

/// No two relationships in the sequence share an id.
pub open spec fn distinct_rel_ids(rs: Seq<Relationship>) -> bool {
    forall|i: int, j: int| 0 <= i < j < rs.len() ==> rs[i].id != rs[j].id
}

proof fn lemma_nodes_map_contains(ns: Seq<Node>, id: u32)
    ensures
        nodes_map(ns).contains_key(id) <==> exists|k: int| 0 <= k < ns.len() && ns[k].id == id,
    decreases ns.len(),
{
    if ns.len() > 0 {
        lemma_nodes_map_contains(ns.drop_last(), id);
        if nodes_map(ns).contains_key(id) {
            if ns.last().id == id {
                assert(ns[ns.len() - 1].id == id);
            } else {
                let k = choose|k: int| 0 <= k < ns.len() - 1 && ns.drop_last()[k].id == id;
                assert(ns[k].id == id);
            }
        }
        if exists|k: int| 0 <= k < ns.len() && ns[k].id == id {
            let k = choose|k: int| 0 <= k < ns.len() && ns[k].id == id;
            if k < ns.len() - 1 {
                assert(ns.drop_last()[k].id == id);
            }
        }
    }
}

proof fn lemma_nodes_map_index(ns: Seq<Node>, k: int)
    requires
        distinct_node_ids(ns),
        0 <= k < ns.len(),
    ensures
        nodes_map(ns).contains_key(ns[k].id),
        nodes_map(ns)[ns[k].id] == ns[k]@,
    decreases ns.len(),
{
    if k < ns.len() - 1 {
        lemma_nodes_map_index(ns.drop_last(), k);
        assert(ns.drop_last()[k] == ns[k]);
        assert(ns.last().id != ns[k].id);
    }
}

proof fn lemma_nodes_map_update(ns: Seq<Node>, k: int, n: Node)
    requires
        distinct_node_ids(ns),
        0 <= k < ns.len(),
        ns[k].id == n.id,
    ensures
        nodes_map(ns.update(k, n)) == nodes_map(ns).insert(n.id, n@),
    decreases ns.len(),
{
    if k == ns.len() - 1 {
        assert(ns.update(k, n).drop_last() =~= ns.drop_last());
        assert(nodes_map(ns.update(k, n)) =~= nodes_map(ns).insert(n.id, n@));
    } else {
        let ns1 = ns.drop_last();
        lemma_nodes_map_update(ns1, k, n);
        assert(ns.update(k, n).drop_last() =~= ns1.update(k, n));
        assert(ns.last().id != n.id);
        assert(nodes_map(ns.update(k, n)) =~= nodes_map(ns).insert(n.id, n@));
    }
}

proof fn lemma_rels_map_contains(rs: Seq<Relationship>, id: u32)
    ensures
        rels_map(rs).contains_key(id) <==> exists|k: int| 0 <= k < rs.len() && rs[k].id == id,
    decreases rs.len(),
{
    if rs.len() > 0 {
        lemma_rels_map_contains(rs.drop_last(), id);
        if rels_map(rs).contains_key(id) {
            if rs.last().id == id {
                assert(rs[rs.len() - 1].id == id);
            } else {
                let k = choose|k: int| 0 <= k < rs.len() - 1 && rs.drop_last()[k].id == id;
                assert(rs[k].id == id);
            }
        }
        if exists|k: int| 0 <= k < rs.len() && rs[k].id == id {
            let k = choose|k: int| 0 <= k < rs.len() && rs[k].id == id;
            if k < rs.len() - 1 {
                assert(rs.drop_last()[k].id == id);
            }
        }
    }
}

proof fn lemma_rels_map_index(rs: Seq<Relationship>, k: int)
    requires
        distinct_rel_ids(rs),
        0 <= k < rs.len(),
    ensures
        rels_map(rs).contains_key(rs[k].id),
        rels_map(rs)[rs[k].id] == rs[k]@,
    decreases rs.len(),
{
    if k < rs.len() - 1 {
        lemma_rels_map_index(rs.drop_last(), k);
        assert(rs.drop_last()[k] == rs[k]);
        assert(rs.last().id != rs[k].id);
    }
}

proof fn lemma_rels_map_update(rs: Seq<Relationship>, k: int, n: Relationship)
    requires
        distinct_rel_ids(rs),
        0 <= k < rs.len(),
        rs[k].id == n.id,
    ensures
        rels_map(rs.update(k, n)) == rels_map(rs).insert(n.id, n@),
    decreases rs.len(),
{
    if k == rs.len() - 1 {
        assert(rs.update(k, n).drop_last() =~= rs.drop_last());
        assert(rels_map(rs.update(k, n)) =~= rels_map(rs).insert(n.id, n@));
    } else {
        let rs1 = rs.drop_last();
        lemma_rels_map_update(rs1, k, n);
        assert(rs.update(k, n).drop_last() =~= rs1.update(k, n));
        assert(rs.last().id != n.id);
        assert(rels_map(rs.update(k, n)) =~= rels_map(rs).insert(n.id, n@));
    }
}

/// The store after a node is added: the node map gains (or overwrites) the
/// entry at `id`; the relationship map is untouched.
pub open spec fn spec_add_node(
    g: GraphView,
    id: u32,
    label: Seq<char>,
    properties: Map<Seq<char>, Seq<char>>,
) -> GraphView {
    GraphView {
        nodes: g.nodes.insert(id, NodeView { id, label, properties }),
        relationships: g.relationships,
    }
}

/// The store after a relationship is added.
pub open spec fn spec_add_relationship(
    g: GraphView,
    id: u32,
    label: Seq<char>,
    start_node: u32,
    end_node: u32,
    properties: Map<Seq<char>, Seq<char>>,
) -> GraphView {
    GraphView {
        nodes: g.nodes,
        relationships: g.relationships.insert(
            id,
            RelationshipView { id, label, start_node, end_node, properties },
        ),
    }
}

/// The node stored under `id`, if any.
pub open spec fn spec_get_node(g: GraphView, id: u32) -> Option<NodeView> {
    if g.nodes.contains_key(id) {
        Some(g.nodes[id])
    } else {
        None
    }
}

/// Whether the relationship touches `node_id` at either endpoint.
pub open spec fn incident(rel: RelationshipView, node_id: u32) -> bool {
    rel.start_node == node_id || rel.end_node == node_id
}

/// Whether the node's property map assigns exactly `value` to `key`.
pub open spec fn node_has_property(n: NodeView, key: Seq<char>, value: Seq<char>) -> bool {
    n.properties.contains_key(key) && n.properties[key] == value
}

/// What a correct adjacency query answers: `out` lists, once each and in some
/// order, exactly the stored relationships incident to `node_id`.
pub open spec fn adjacency_answer(g: GraphView, node_id: u32, out: Seq<RelationshipView>) -> bool {
    &&& forall|i: int|
        0 <= i < out.len() ==> {
            &&& g.relationships.contains_key((#[trigger] out[i]).id)
            &&& out[i] == g.relationships[out[i].id]
            &&& incident(out[i], node_id)
        }
    &&& forall|rid: u32|
        g.relationships.contains_key(rid) && incident(#[trigger] g.relationships[rid], node_id)
            ==> exists|i: int| 0 <= i < out.len() && out[i].id == rid
    &&& forall|i: int, j: int| 0 <= i < j < out.len() ==> out[i].id != out[j].id
}

/// What a correct property scan answers: `out` lists, once each and in some
/// order, exactly the stored nodes whose property map assigns `value` to `key`.
pub open spec fn property_answer(
    g: GraphView,
    key: Seq<char>,
    value: Seq<char>,
    out: Seq<NodeView>,
) -> bool {
    &&& forall|i: int|
        0 <= i < out.len() ==> {
            &&& g.nodes.contains_key((#[trigger] out[i]).id)
            &&& out[i] == g.nodes[out[i].id]
            &&& node_has_property(out[i], key, value)
        }
    &&& forall|nid: u32|
        g.nodes.contains_key(nid) && node_has_property(#[trigger] g.nodes[nid], key, value)
            ==> exists|i: int| 0 <= i < out.len() && out[i].id == nid
    &&& forall|i: int, j: int| 0 <= i < j < out.len() ==> out[i].id != out[j].id
}

/// The views of a sequence of borrowed relationships.
pub open spec fn rel_views(s: Seq<&Relationship>) -> Seq<RelationshipView> {
    s.map_values(|rel: &Relationship| rel@)
}

/// The views of a sequence of borrowed nodes.
pub open spec fn node_views(s: Seq<&Node>) -> Seq<NodeView> {
    s.map_values(|n: &Node| n@)
}

/// The graph store: the canonical set of nodes and relationships.
#[derive(Debug)]
pub struct GraphDatabase {
    nodes: Vec<Node>,
    relationships: Vec<Relationship>,
}

impl View for GraphDatabase {
    type V = GraphView;

    closed spec fn view(&self) -> GraphView {
        GraphView { nodes: nodes_map(self.nodes@), relationships: rels_map(self.relationships@) }
    }
}

impl GraphDatabase {
    #[verifier::type_invariant]
    spec fn wf(self) -> bool {
        distinct_node_ids(self.nodes@) && distinct_rel_ids(self.relationships@)
    }

    /// Creates an empty store.
    pub fn new() -> (r: Self)
        ensures
            r@.nodes == Map::<u32, NodeView>::empty(),
            r@.relationships == Map::<u32, RelationshipView>::empty(),
    {
        GraphDatabase { nodes: Vec::new(), relationships: Vec::new() }
    }

    /// Inserts the node at `id`, overwriting any prior node under that id.
    pub fn add_node(&mut self, id: u32, label: String, properties: PropertyMap)
        ensures
            final(self)@ == spec_add_node(old(self)@, id, label@, properties@),
    {
        proof {
            use_type_invariant(&*self);
        }
        let node = Node { id, label, properties };
        let ghost g0 = self@;
        let mut nodes: Vec<Node> = Vec::new();
        std::mem::swap(&mut nodes, &mut self.nodes);
        let ghost ns0 = nodes@;
        match Self::find_node_index(&nodes, id) {
            Some(k) => {
                nodes.set(k, node);
                proof {
                    lemma_nodes_map_update(ns0, k as int, node);
                    assert forall|i: int, j: int| 0 <= i < j < nodes@.len() implies nodes@[i].id
                        != nodes@[j].id by {
                        assert(ns0[i].id == nodes@[i].id || i == k);
                        assert(ns0[j].id == nodes@[j].id || j == k);
                    }
                }
            },
            None => {
                nodes.push(node);
                proof {
                    assert(nodes@.drop_last() =~= ns0);
                }
            },
        }
        self.nodes = nodes;
        proof {
            assert(final(self)@ =~= spec_add_node(g0, id, node.label@, node.properties@));
        }
    }

    /// Inserts the relationship at `id`, overwriting any prior relationship
    /// under that id. The endpoints are stored verbatim, with no existence
    /// check against the node collection.
    pub fn add_relationship(
        &mut self,
        id: u32,
        label: String,
        start_node: u32,
        end_node: u32,
        properties: PropertyMap,
    )
        ensures
            final(self)@ == spec_add_relationship(
                old(self)@,
                id,
                label@,
                start_node,
                end_node,
                properties@,
            ),
    {
        proof {
            use_type_invariant(&*self);
        }
        let rel = Relationship { id, label, start_node, end_node, properties };
        let ghost g0 = self@;
        let mut rels: Vec<Relationship> = Vec::new();
        std::mem::swap(&mut rels, &mut self.relationships);
        let ghost rs0 = rels@;
        match Self::find_rel_index(&rels, id) {
            Some(k) => {
                rels.set(k, rel);
                proof {
                    lemma_rels_map_update(rs0, k as int, rel);
                    assert forall|i: int, j: int| 0 <= i < j < rels@.len() implies rels@[i].id
                        != rels@[j].id by {
                        assert(rs0[i].id == rels@[i].id || i == k);
                        assert(rs0[j].id == rels@[j].id || j == k);
                    }
                }
            },
            None => {
                rels.push(rel);
                proof {
                    assert(rels@.drop_last() =~= rs0);
                }
            },
        }
        self.relationships = rels;
        proof {
            assert(final(self)@ =~= spec_add_relationship(
                g0,
                id,
                rel.label@,
                start_node,
                end_node,
                rel.properties@,
            ));
        }
    }

    /// Returns the node stored at `id`, or `None` if no node has that id.
    pub fn get_node_by_id(&self, id: u32) -> (r: Option<&Node>)
        ensures
            (match r {
                Some(node) => spec_get_node(self@, id) == Some(node@),
                None => spec_get_node(self@, id) is None,
            }),
    {
        proof {
            use_type_invariant(self);
        }
        let n = self.nodes.len();
        let mut k: usize = 0;
        while k < n
            invariant
                k <= n,
                n == self.nodes@.len(),
                distinct_node_ids(self.nodes@),
                forall|j: int| 0 <= j < k ==> self.nodes@[j].id != id,
            decreases n - k,
        {
            if self.nodes[k].id == id {
                proof {
                    lemma_nodes_map_index(self.nodes@, k as int);
                }
                return Some(&self.nodes[k]);
            }
            k = k + 1;
        }
        proof {
            lemma_nodes_map_contains(self.nodes@, id);
        }
        None
    }

    /// Returns every stored relationship incident to `node_id` (as start or
    /// end), each exactly once, in unspecified order.
    pub fn get_relationships_of_node(&self, node_id: u32) -> (r: Vec<&Relationship>)
        ensures
            adjacency_answer(self@, node_id, rel_views(r@)),
    {
        proof {
            use_type_invariant(self);
        }
        let n = self.relationships.len();
        let mut out: Vec<&Relationship> = Vec::new();
        let mut k: usize = 0;
        while k < n
            invariant
                k <= n,
                n == self.relationships@.len(),
                distinct_rel_ids(self.relationships@),
                rels_map(self.relationships@) == self@.relationships,
                forall|i: int|
                    0 <= i < out@.len() ==> {
                        &&& self@.relationships.contains_key((#[trigger] out@[i])@.id)
                        &&& out@[i]@ == self@.relationships[out@[i]@.id]
                        &&& incident(out@[i]@, node_id)
                    },
                forall|i: int|
                    0 <= i < out@.len() ==> exists|k0: int|
                        0 <= k0 < k && self.relationships@[k0].id == (#[trigger] out@[i])@.id,
                forall|k0: int|
                    0 <= k0 < k && incident(#[trigger] self.relationships@[k0]@, node_id)
                        ==> exists|i: int| 0 <= i < out@.len() && out@[i]@.id
                        == self.relationships@[k0].id,
                forall|i: int, j: int| 0 <= i < j < out@.len() ==> out@[i]@.id != out@[j]@.id,
            decreases n - k,
        {
            let rel = &self.relationships[k];
            let ghost out0 = out@;
            let hit = rel.start_node == node_id || rel.end_node == node_id;
            if hit {
                proof {
                    lemma_rels_map_index(self.relationships@, k as int);
                    assert forall|i: int| 0 <= i < out@.len() implies (#[trigger] out@[i])@.id
                        != self.relationships@[k as int].id by {
                        let k0 = choose|k0: int|
                            0 <= k0 < k && self.relationships@[k0].id == out@[i]@.id;
                        assert(self.relationships@[k0].id != self.relationships@[k as int].id);
                    }
                }
                out.push(rel);
            }
            proof {
                assert forall|k0: int|
                    0 <= k0 < k + 1 && incident(
                        #[trigger] self.relationships@[k0]@,
                        node_id,
                    ) implies exists|i: int| 0 <= i < out@.len() && out@[i]@.id
                    == self.relationships@[k0].id by {
                    if k0 == k {
                        assert(hit);
                        assert(out@[out@.len() - 1]@.id == self.relationships@[k0].id);
                    } else {
                        let i = choose|i: int|
                            0 <= i < out0.len() && out0[i]@.id == self.relationships@[k0].id;
                        assert(out@[i]@.id == self.relationships@[k0].id);
                    }
                }
            }
            k = k + 1;
        }
        proof {
            assert forall|rid: u32|
                self@.relationships.contains_key(rid) && incident(
                    #[trigger] self@.relationships[rid],
                    node_id,
                ) implies exists|i: int| 0 <= i < rel_views(out@).len() && rel_views(out@)[i].id
                == rid by {
                lemma_rels_map_contains(self.relationships@, rid);
                let k0 = choose|k0: int|
                    0 <= k0 < self.relationships@.len() && self.relationships@[k0].id == rid;
                lemma_rels_map_index(self.relationships@, k0);
                let i = choose|i: int|
                    0 <= i < out@.len() && out@[i]@.id == self.relationships@[k0].id;
                assert(rel_views(out@)[i].id == rid);
            }
        }
        out
    }

    /// Returns every stored node whose property map assigns exactly `value`
    /// to `key`, each exactly once, in unspecified order. A node lacking
    /// `key`, or mapping it to a different value, is excluded.
    pub fn get_nodes_by_property(&self, key: &str, value: &str) -> (r: Vec<&Node>)
        ensures
            property_answer(self@, key@, value@, node_views(r@)),
    {
        proof {
            use_type_invariant(self);
        }
        let n = self.nodes.len();
        let mut out: Vec<&Node> = Vec::new();
        let mut k: usize = 0;
        while k < n
            invariant
                k <= n,
                n == self.nodes@.len(),
                distinct_node_ids(self.nodes@),
                nodes_map(self.nodes@) == self@.nodes,
                forall|i: int|
                    0 <= i < out@.len() ==> {
                        &&& self@.nodes.contains_key((#[trigger] out@[i])@.id)
                        &&& out@[i]@ == self@.nodes[out@[i]@.id]
                        &&& node_has_property(out@[i]@, key@, value@)
                    },
                forall|i: int|
                    0 <= i < out@.len() ==> exists|k0: int|
                        0 <= k0 < k && self.nodes@[k0].id == (#[trigger] out@[i])@.id,
                forall|k0: int|
                    0 <= k0 < k && node_has_property(#[trigger] self.nodes@[k0]@, key@, value@)
                        ==> exists|i: int| 0 <= i < out@.len() && out@[i]@.id
                        == self.nodes@[k0].id,
                forall|i: int, j: int| 0 <= i < j < out@.len() ==> out@[i]@.id != out@[j]@.id,
            decreases n - k,
        {
            let node = &self.nodes[k];
            let ghost out0 = out@;
            let hit = match node.properties.get(key) {
                Some(v) => crate::text::str_eq(v.as_str(), value),
                None => false,
            };
            if hit {
                proof {
                    lemma_nodes_map_index(self.nodes@, k as int);
                    assert forall|i: int| 0 <= i < out@.len() implies (#[trigger] out@[i])@.id
                        != self.nodes@[k as int].id by {
                        let k0 = choose|k0: int| 0 <= k0 < k && self.nodes@[k0].id == out@[i]@.id;
                        assert(self.nodes@[k0].id != self.nodes@[k as int].id);
                    }
                }
                out.push(node);
            }
            proof {
                assert forall|k0: int|
                    0 <= k0 < k + 1 && node_has_property(
                        #[trigger] self.nodes@[k0]@,
                        key@,
                        value@,
                    ) implies exists|i: int| 0 <= i < out@.len() && out@[i]@.id
                    == self.nodes@[k0].id by {
                    if k0 == k {
                        assert(hit);
                        assert(out@[out@.len() - 1]@.id == self.nodes@[k0].id);
                    } else {
                        let i = choose|i: int|
                            0 <= i < out0.len() && out0[i]@.id == self.nodes@[k0].id;
                        assert(out@[i]@.id == self.nodes@[k0].id);
                    }
                }
            }
            k = k + 1;
        }
        proof {
            assert forall|nid: u32|
                self@.nodes.contains_key(nid) && node_has_property(
                    #[trigger] self@.nodes[nid],
                    key@,
                    value@,
                ) implies exists|i: int| 0 <= i < node_views(out@).len() && node_views(out@)[i].id
                == nid by {
                lemma_nodes_map_contains(self.nodes@, nid);
                let k0 = choose|k0: int|
                    0 <= k0 < self.nodes@.len() && self.nodes@[k0].id == nid;
                lemma_nodes_map_index(self.nodes@, k0);
                let i = choose|i: int| 0 <= i < out@.len() && out@[i]@.id == self.nodes@[k0].id;
                assert(node_views(out@)[i].id == nid);
            }
        }
        out
    }

    fn find_node_index(nodes: &Vec<Node>, id: u32) -> (r: Option<usize>)
        ensures
            (match r {
                Some(k) => k < nodes@.len() && nodes@[k as int].id == id,
                None => forall|k: int| 0 <= k < nodes@.len() ==> nodes@[k].id != id,
            }),
    {
        let n = nodes.len();
        let mut k: usize = 0;
        while k < n
            invariant
                k <= n,
                n == nodes@.len(),
                forall|j: int| 0 <= j < k ==> nodes@[j].id != id,
            decreases n - k,
        {
            if nodes[k].id == id {
                return Some(k);
            }
            k = k + 1;
        }
        None
    }

    fn find_rel_index(rels: &Vec<Relationship>, id: u32) -> (r: Option<usize>)
        ensures
            (match r {
                Some(k) => k < rels@.len() && rels@[k as int].id == id,
                None => forall|k: int| 0 <= k < rels@.len() ==> rels@[k].id != id,
            }),
    {
        let n = rels.len();
        let mut k: usize = 0;
        while k < n
            invariant
                k <= n,
                n == rels@.len(),
                forall|j: int| 0 <= j < k ==> rels@[j].id != id,
            decreases n - k,
        {
            if rels[k].id == id {
                return Some(k);
            }
            k = k + 1;
        }
        None
    }
}

/// After a node is added, looking that id up returns a node with exactly the
/// given label and, key for key and value for value, the given properties.
pub proof fn lemma_add_node_then_get(
    g: GraphView,
    id: u32,
    label: Seq<char>,
    properties: Map<Seq<char>, Seq<char>>,
)
    ensures
        spec_get_node(spec_add_node(g, id, label, properties), id) == Some(
            NodeView { id, label, properties },
        ),
{
}

/// Adding a node twice under the same id leaves the store exactly as if only
/// the second add had happened: no trace of the first label or properties.
pub proof fn lemma_add_node_overwrites(
    g: GraphView,
    id: u32,
    label1: Seq<char>,
    properties1: Map<Seq<char>, Seq<char>>,
    label2: Seq<char>,
    properties2: Map<Seq<char>, Seq<char>>,
)
    ensures
        spec_add_node(spec_add_node(g, id, label1, properties1), id, label2, properties2)
            == spec_add_node(g, id, label2, properties2),
{
    assert(spec_add_node(spec_add_node(g, id, label1, properties1), id, label2, properties2)
        =~= spec_add_node(g, id, label2, properties2));
}

/// An adjacency answer holds exactly the stored relationships incident to
/// `node_id`: every stored relationship with `node_id` as start or end is in
/// the answer, everything in the answer is such a relationship, and a node id
/// with no incident relationship gets an empty answer.
pub proof fn lemma_adjacency_answer_exact(g: GraphView, node_id: u32, out: Seq<RelationshipView>)
    requires
        adjacency_answer(g, node_id, out),
    ensures
        forall|rid: u32|
            g.relationships.contains_key(rid) && incident(#[trigger] g.relationships[rid], node_id)
                ==> out.contains(g.relationships[rid]),
        forall|r: RelationshipView|
            out.contains(r) ==> g.relationships.contains_key(r.id) && r == g.relationships[r.id]
                && incident(r, node_id),
        (forall|rid: u32|
            g.relationships.contains_key(rid) ==> !incident(
                #[trigger] g.relationships[rid],
                node_id,
            )) ==> out.len() == 0,
{
    assert forall|rid: u32|
        g.relationships.contains_key(rid) && incident(
            #[trigger] g.relationships[rid],
            node_id,
        ) implies out.contains(g.relationships[rid]) by {
        let i = choose|i: int| 0 <= i < out.len() && out[i].id == rid;
        assert(out[i] == g.relationships[rid]);
    }
    if out.len() > 0 {
        assert(g.relationships.contains_key(out[0].id));
        assert(incident(g.relationships[out[0].id], node_id));
    }
}

/// A property-scan answer holds exactly the stored nodes whose property map
/// assigns `value` to `key`: a node missing the key, or mapping it to a
/// different value, is excluded; every matching node is included.
pub proof fn lemma_property_answer_exact(
    g: GraphView,
    key: Seq<char>,
    value: Seq<char>,
    out: Seq<NodeView>,
)
    requires
        property_answer(g, key, value, out),
    ensures
        forall|nid: u32|
            g.nodes.contains_key(nid) && node_has_property(#[trigger] g.nodes[nid], key, value)
                ==> out.contains(g.nodes[nid]),
        forall|n: NodeView|
            out.contains(n) ==> g.nodes.contains_key(n.id) && n == g.nodes[n.id]
                && node_has_property(n, key, value),
{
    assert forall|nid: u32|
        g.nodes.contains_key(nid) && node_has_property(
            #[trigger] g.nodes[nid],
            key,
            value,
        ) implies out.contains(g.nodes[nid]) by {
        let i = choose|i: int| 0 <= i < out.len() && out[i].id == nid;
        assert(out[i] == g.nodes[nid]);
    }
}

/// The by-id lookup is a function of the store view and the id: any two
/// answers that satisfy its contract are equal.
pub proof fn lemma_node_lookup_deterministic(
    g: GraphView,
    id: u32,
    r1: Option<NodeView>,
    r2: Option<NodeView>,
)
    requires
        (match r1 {
            Some(n) => spec_get_node(g, id) == Some(n),
            None => spec_get_node(g, id) is None,
        }),
        (match r2 {
            Some(n) => spec_get_node(g, id) == Some(n),
            None => spec_get_node(g, id) is None,
        }),
    ensures
        r1 == r2,
{
}

/// The adjacency query is a function of the store view and the node id: any
/// two answers for the same store and id hold exactly the same relationships,
/// whatever their order.
pub proof fn lemma_adjacency_answer_deterministic(
    g: GraphView,
    node_id: u32,
    out1: Seq<RelationshipView>,
    out2: Seq<RelationshipView>,
)
    requires
        adjacency_answer(g, node_id, out1),
        adjacency_answer(g, node_id, out2),
    ensures
        forall|r: RelationshipView| out1.contains(r) <==> out2.contains(r),
{
    assert forall|r: RelationshipView| out1.contains(r) implies out2.contains(r) by {
        let i = choose|i: int| 0 <= i < out1.len() && out1[i] == r;
        assert(g.relationships.contains_key(r.id) && incident(g.relationships[r.id], node_id));
        let j = choose|j: int| 0 <= j < out2.len() && out2[j].id == r.id;
        assert(out2[j] == r);
    }
    assert forall|r: RelationshipView| out2.contains(r) implies out1.contains(r) by {
        let i = choose|i: int| 0 <= i < out2.len() && out2[i] == r;
        assert(g.relationships.contains_key(r.id) && incident(g.relationships[r.id], node_id));
        let j = choose|j: int| 0 <= j < out1.len() && out1[j].id == r.id;
        assert(out1[j] == r);
    }
}

/// The property scan is a function of the store view, the key and the value:
/// any two answers hold exactly the same nodes, whatever their order.
pub proof fn lemma_property_answer_deterministic(
    g: GraphView,
    key: Seq<char>,
    value: Seq<char>,
    out1: Seq<NodeView>,
    out2: Seq<NodeView>,
)
    requires
        property_answer(g, key, value, out1),
        property_answer(g, key, value, out2),
    ensures
        forall|n: NodeView| out1.contains(n) <==> out2.contains(n),
{
    assert forall|n: NodeView| out1.contains(n) implies out2.contains(n) by {
        let i = choose|i: int| 0 <= i < out1.len() && out1[i] == n;
        assert(g.nodes.contains_key(n.id) && node_has_property(g.nodes[n.id], key, value));
        let j = choose|j: int| 0 <= j < out2.len() && out2[j].id == n.id;
        assert(out2[j] == n);
    }
    assert forall|n: NodeView| out2.contains(n) implies out1.contains(n) by {
        let i = choose|i: int| 0 <= i < out2.len() && out2[i] == n;
        assert(g.nodes.contains_key(n.id) && node_has_property(g.nodes[n.id], key, value));
        let j = choose|j: int| 0 <= j < out1.len() && out1[j].id == n.id;
        assert(out1[j] == n);
    }
}

} // verus!

