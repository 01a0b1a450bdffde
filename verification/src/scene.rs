//! The scene graph: nodes that may carry a mesh, each linked to its
//! children, and how a scene is built up.

use vstd::prelude::*;

use crate::walk::{acyclic, ranked_by};

verus! {

/// What the drawing order needs to know of a node.
pub struct NodeView {
    pub vao_id: u32,
    pub index_count: i32,
    pub children: Seq<usize>,
}

/// A node of the scene graph. A node with vertex array object 0 carries no
/// mesh and is not drawn; its children are.
struct SceneNode {
    vao_id: u32,
    index_count: i32,
    children: Vec<usize>,
}

impl View for SceneNode {
    type V = NodeView;

    closed spec fn view(&self) -> NodeView {
        NodeView { vao_id: self.vao_id, index_count: self.index_count, children: self.children@ }
    }
}

/// All nodes of a scene, addressed by their position; a link from a parent
/// to a child is the child's position in the parent's list of children.
pub struct SceneGraph {
    nodes: Vec<SceneNode>,
}

/// Every child that a node of `g` names is a node of `g`.
pub open spec fn children_in_range(g: Seq<NodeView>) -> bool {
    forall|p: int, i: int|
        0 <= p < g.len() && 0 <= i < g[p].children.len() ==> #[trigger] g[p].children[i] < g.len()
}

impl View for SceneGraph {
    type V = Seq<NodeView>;

    closed spec fn view(&self) -> Seq<NodeView> {
        self.nodes@.map_values(|n: SceneNode| n@)
    }
}

/// The node that [`SceneGraph::add_node`] appends: no mesh, an index count
/// of -1, no children.
pub open spec fn empty_node() -> NodeView {
    NodeView { vao_id: 0, index_count: -1i32, children: seq![] }
}

/// A node that carries the mesh of `vao_id` with `index_count` indices and
/// has no children yet.
pub open spec fn mesh_node(vao_id: u32, index_count: i32) -> NodeView {
    NodeView { vao_id, index_count, children: seq![] }
}

/// `g` after `child` is appended to the children of `parent`.
pub open spec fn with_child(g: Seq<NodeView>, parent: int, child: usize) -> Seq<NodeView> {
    g.update(
        parent,
        NodeView {
            vao_id: g[parent].vao_id,
            index_count: g[parent].index_count,
            children: g[parent].children.push(child),
        },
    )
}

impl SceneGraph {
    #[verifier::type_invariant]
    spec fn links_in_range(self) -> bool {
        children_in_range(self@)
    }

    /// A scene without nodes.
    pub fn new() -> (g: SceneGraph)
        ensures
            g@ == Seq::<NodeView>::empty(),
    {
        SceneGraph { nodes: Vec::new() }
    }

    /// The number of nodes. Every child that a node names is one of them.
    pub fn len(&self) -> (n: usize)
        ensures
            n == self@.len(),
            children_in_range(self@),
    {
        proof {
            use_type_invariant(self);
        }
        self.nodes.len()
    }

    fn push_node(&mut self, node: SceneNode) -> (id: usize)
        requires
            node.children@.len() == 0,
        ensures
            id == old(self)@.len(),
            final(self)@ == old(self)@.push(node@),
            acyclic(old(self)@) ==> acyclic(final(self)@),
    {
        proof {
            use_type_invariant(&*self);
        }
        let mut nodes: Vec<SceneNode> = Vec::new();
        std::mem::swap(&mut nodes, &mut self.nodes);
        let id = nodes.len();
        let ghost before = nodes@;
        nodes.push(node);
        proof {
            let g = nodes@.map_values(|n: SceneNode| n@);
            assert(g =~= before.map_values(|n: SceneNode| n@).push(node@));
            assert forall|p: int, i: int|
                0 <= p < g.len() && 0 <= i < g[p].children.len() implies #[trigger] g[p].children[i]
                < g.len() by {
                if p < before.len() {
                    assert(g[p] == before.map_values(|n: SceneNode| n@)[p]);
                }
            }
        }
        self.nodes = nodes;
        proof {
            if acyclic(old(self)@) {
                let r = choose|r: spec_fn(int) -> nat| ranked_by(old(self)@, r);
                assert forall|p: int, i: int|
                    0 <= p < self@.len() && 0 <= i < self@[p].children.len() implies #[trigger] r(
                    self@[p].children[i] as int,
                ) < r(p) by {
                    assert(p < old(self)@.len());
                    assert(self@[p] == old(self)@[p]);
                }
                assert(ranked_by(self@, r));
            }
        }
        id
    }

    /// Appends a node that carries no mesh and returns its position.
    pub fn add_node(&mut self) -> (id: usize)
        ensures
            id == old(self)@.len(),
            final(self)@ == old(self)@.push(empty_node()),
            acyclic(old(self)@) ==> acyclic(final(self)@),
    {
        self.push_node(SceneNode { vao_id: 0, index_count: -1, children: Vec::new() })
    }

    /// Appends a node that draws `index_count` indices of the vertex array
    /// object `vao_id`, and returns its position.
    pub fn add_node_from_vao(&mut self, vao_id: u32, index_count: i32) -> (id: usize)
        ensures
            id == old(self)@.len(),
            final(self)@ == old(self)@.push(mesh_node(vao_id, index_count)),
            acyclic(old(self)@) ==> acyclic(final(self)@),
    {
        self.push_node(SceneNode { vao_id, index_count, children: Vec::new() })
    }

    /// Makes `child` the last child of `parent`.
    pub fn add_child(&mut self, parent: usize, child: usize)
        requires
            parent < old(self)@.len(),
            child < old(self)@.len(),
        ensures
            final(self)@ == with_child(old(self)@, parent as int, child),
            (exists|r: spec_fn(int) -> nat|
                ranked_by(old(self)@, r) && r(child as int) < r(parent as int)) ==> acyclic(
                final(self)@,
            ),
    {
        proof {
            use_type_invariant(&*self);
        }
        let mut nodes: Vec<SceneNode> = Vec::new();
        std::mem::swap(&mut nodes, &mut self.nodes);
        let ghost before = nodes@;
        let ghost g0 = before.map_values(|n: SceneNode| n@);
        let mut node = nodes.remove(parent);
        node.children.push(child);
        nodes.insert(parent, node);
        proof {
            let g = nodes@.map_values(|n: SceneNode| n@);
            assert(g =~= with_child(g0, parent as int, child)) by {
                assert forall|j: int| 0 <= j < g.len() implies g[j] == with_child(
                    g0,
                    parent as int,
                    child,
                )[j] by {
                    if j != parent {
                        assert(nodes@[j] == before[j]);
                    }
                }
            }
            assert forall|p: int, i: int|
                0 <= p < g.len() && 0 <= i < g[p].children.len() implies #[trigger] g[p].children[i]
                < g.len() by {
                if p != parent || i < g0[p].children.len() {
                    assert(g[p].children[i] == g0[p].children[i]);
                }
            }
        }
        self.nodes = nodes;
        proof {
            if exists|r: spec_fn(int) -> nat|
                ranked_by(old(self)@, r) && r(child as int) < r(parent as int) {
                let r = choose|r: spec_fn(int) -> nat|
                    ranked_by(old(self)@, r) && r(child as int) < r(parent as int);
                let g = self@;
                let g0 = old(self)@;
                assert forall|p: int, i: int|
                    0 <= p < g.len() && 0 <= i < g[p].children.len() implies #[trigger] r(
                    g[p].children[i] as int,
                ) < r(p) by {
                    if p != parent || i < g0[p].children.len() {
                        assert(g[p].children[i] == g0[p].children[i]);
                    }
                }
                assert(ranked_by(g, r));
            }
        }
    }

    /// The number of children of `node`.
    pub fn child_count(&self, node: usize) -> (n: usize)
        requires
            node < self@.len(),
        ensures
            n == self@[node as int].children.len(),
    {
        self.nodes[node].children.len()
    }

    /// The `index`-th child of `node`.
    pub fn child(&self, node: usize, index: usize) -> (c: usize)
        requires
            node < self@.len(),
            index < self@[node as int].children.len(),
        ensures
            c == self@[node as int].children[index as int],
            c < self@.len(),
    {
        proof {
            use_type_invariant(self);
        }
        self.nodes[node].children[index]
    }

    /// The vertex array object of `node`; 0 when it carries no mesh.
    pub fn vao_id(&self, node: usize) -> (id: u32)
        requires
            node < self@.len(),
        ensures
            id == self@[node as int].vao_id,
    {
        self.nodes[node].vao_id
    }

    /// The number of indices that drawing `node` uses.
    pub fn index_count(&self, node: usize) -> (count: i32)
        requires
            node < self@.len(),
        ensures
            count == self@[node as int].index_count,
    {
        self.nodes[node].index_count
    }
}

/// The vertex array object of one part of a mesh and the number of indices
/// that draw it.
#[derive(Clone, Copy, PartialEq, Eq, Structural, Debug)]
pub struct MeshPart {
    pub vao_id: u32,
    pub index_count: i32,
}

/// Where the parts of one helicopter stand in the scene.
#[derive(Clone, Copy, PartialEq, Eq, Structural, Debug)]
pub struct Helicopter {
    pub body: usize,
    pub door: usize,
    pub main_rotor: usize,
    pub tail_rotor: usize,
}

/// The nodes that one helicopter appends to a scene of `base` nodes: the
/// body, then the door, the main rotor and the tail rotor, which have no
/// children. The body's children are the main rotor, the tail rotor and the
/// door, in that order, so that its first two children are the rotors that
/// spin.
pub open spec fn helicopter_nodes(
    base: int,
    body: MeshPart,
    door: MeshPart,
    main_rotor: MeshPart,
    tail_rotor: MeshPart,
) -> Seq<NodeView> {
    seq![
        NodeView {
            vao_id: body.vao_id,
            index_count: body.index_count,
            children: seq![(base + 2) as usize, (base + 3) as usize, (base + 1) as usize],
        },
        mesh_node(door.vao_id, door.index_count),
        mesh_node(main_rotor.vao_id, main_rotor.index_count),
        mesh_node(tail_rotor.vao_id, tail_rotor.index_count),
    ]
}

impl SceneGraph {
    /// Appends the nodes of one helicopter, built from its four mesh parts,
    /// and says where they stand. Nothing links the helicopter into the
    /// rest of the scene yet.
    pub fn construct_helicopter(
        &mut self,
        body: MeshPart,
        door: MeshPart,
        main_rotor: MeshPart,
        tail_rotor: MeshPart,
    ) -> (h: Helicopter)
        ensures
            h.body == old(self)@.len(),
            h.door == old(self)@.len() + 1,
            h.main_rotor == old(self)@.len() + 2,
            h.tail_rotor == old(self)@.len() + 3,
            final(self)@ == old(self)@ + helicopter_nodes(
                old(self)@.len() as int,
                body,
                door,
                main_rotor,
                tail_rotor,
            ),
            acyclic(old(self)@) ==> acyclic(final(self)@),
    {
        proof {
            use_type_invariant(&*self);
        }
        let ghost g0 = self@;
        let body_id = self.add_node_from_vao(body.vao_id, body.index_count);
        let door_id = self.add_node_from_vao(door.vao_id, door.index_count);
        let main_id = self.add_node_from_vao(main_rotor.vao_id, main_rotor.index_count);
        let tail_id = self.add_node_from_vao(tail_rotor.vao_id, tail_rotor.index_count);
        self.add_child(body_id, main_id);
        self.add_child(body_id, tail_id);
        self.add_child(body_id, door_id);
        let ghost b = g0.len() as int;
        let ghost want = g0 + helicopter_nodes(b, body, door, main_rotor, tail_rotor);
        assert(self@ =~= want) by {
            assert forall|j: int| 0 <= j < self@.len() implies self@[j] == want[j] by {
                if j == b {
                    assert(self@[j].children =~= want[j].children);
                }
            }
        }
        proof {
            if acyclic(g0) {
                let r = choose|r: spec_fn(int) -> nat| ranked_by(g0, r);
                let r2 = |i: int|
                    if i < b {
                        r(i)
                    } else if i == b {
                        1nat
                    } else {
                        0nat
                    };
                let g = self@;
                assert forall|p: int, i: int|
                    0 <= p < g.len() && 0 <= i < g[p].children.len() implies #[trigger] r2(
                    g[p].children[i] as int,
                ) < r2(p) by {
                    if p < b {
                        assert(g[p] == g0[p]);
                        assert(g0[p].children[i] < b);
                        assert(r(g0[p].children[i] as int) < r(p));
                    }
                }
                assert(ranked_by(g, r2));
            }
        }
        Helicopter { body: body_id, door: door_id, main_rotor: main_id, tail_rotor: tail_id }
    }
}


/// Every helicopter links all three of its parts below its body, and nothing
/// else, with the two rotors first, wherever in the scene it is built; the
/// parts themselves have no children.
pub proof fn helicopter_links_its_parts(
    base: int,
    body: MeshPart,
    door: MeshPart,
    main_rotor: MeshPart,
    tail_rotor: MeshPart,
)
    requires
        0 <= base,
        base + 3 <= usize::MAX,
    ensures
        ({
            let nodes = helicopter_nodes(base, body, door, main_rotor, tail_rotor);
            let kids = nodes[0].children;
            &&& nodes.len() == 4
            &&& kids.len() == 3
            &&& kids.contains((base + 1) as usize)
            &&& kids.contains((base + 2) as usize)
            &&& kids.contains((base + 3) as usize)
            &&& kids[0] == (base + 2) as usize && kids[1] == (base + 3) as usize
            &&& nodes[0].vao_id == body.vao_id && nodes[0].index_count == body.index_count
            &&& nodes[1] == mesh_node(door.vao_id, door.index_count)
            &&& nodes[2] == mesh_node(main_rotor.vao_id, main_rotor.index_count)
            &&& nodes[3] == mesh_node(tail_rotor.vao_id, tail_rotor.index_count)
        }),
{
    let kids = helicopter_nodes(base, body, door, main_rotor, tail_rotor)[0].children;
    assert(kids[2] == (base + 1) as usize);
    assert(kids[0] == (base + 2) as usize);
    assert(kids[1] == (base + 3) as usize);
}

} // verus!
