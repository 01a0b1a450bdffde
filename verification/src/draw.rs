//! The order in which a depth-first walk down a scene graph draws its nodes,
//! and the chain of local transformations that places each drawn node.

use vstd::prelude::*;

use crate::scene::{children_in_range, NodeView, SceneGraph};
use crate::walk::{
    acyclic_below, is_link, is_path, lemma_path_link, lemma_path_push, lemma_root_reachable,
    ranked_below, reachable, reaches, some_rank_below,
};

verus! {

/// One node to draw: the node, its vertex array object and index count,
/// and the transformation that places it. That transformation is the product
/// of a base matrix (the caller's matrix when `from_caller` holds, the
/// identity otherwise) with the local transformations of the nodes of
/// `chain`, outermost first; `chain` ends with the node itself.
pub struct DrawCommand {
    pub node: usize,
    pub vao_id: u32,
    pub index_count: i32,
    pub from_caller: bool,
    pub chain: Vec<usize>,
}

/// The mathematical content of a [`DrawCommand`].
pub struct DrawView {
    pub node: usize,
    pub vao_id: u32,
    pub index_count: i32,
    pub from_caller: bool,
    pub chain: Seq<usize>,
}

impl View for DrawCommand {
    type V = DrawView;

    open spec fn view(&self) -> DrawView {
        DrawView {
            node: self.node,
            vao_id: self.vao_id,
            index_count: self.index_count,
            from_caller: self.from_caller,
            chain: self.chain@,
        }
    }
}

/// The views of a list of draw commands.
pub open spec fn command_views(s: Seq<DrawCommand>) -> Seq<DrawView> {
    s.map_values(|c: DrawCommand| c@)
}

/// Whether the node carries a mesh and is drawn.
pub open spec fn is_drawn(n: NodeView) -> bool {
    n.vao_id != 0
}

/// `node` is a node of `g` and `r` gives each of its children a smaller rank.
pub open spec fn ranks_decrease_at(g: Seq<NodeView>, r: spec_fn(int) -> nat, node: int) -> bool {
    &&& 0 <= node < g.len()
    &&& forall|i: int|
        0 <= i < g[node].children.len() ==> #[trigger] r(g[node].children[i] as int) < r(node)
}

/// The commands that drawing the subtree of `node` gives, when the
/// transformation handed to it is described by `from_caller` and `chain`: a
/// drawn node comes first, then the subtrees of its children in order. A
/// drawn node hands its children its own placement; a node that is not drawn
/// hands them the identity. The ranking `r` only bounds the depth of the
/// walk.
pub open spec fn subtree_plan(
    g: Seq<NodeView>,
    r: spec_fn(int) -> nat,
    node: int,
    from_caller: bool,
    chain: Seq<usize>,
) -> Seq<DrawView>
    decreases r(node), 1nat, 0int,
{
    if ranks_decrease_at(g, r, node) {
        let drawn = is_drawn(g[node]);
        let own = if drawn {
            seq![
                DrawView {
                    node: node as usize,
                    vao_id: g[node].vao_id,
                    index_count: g[node].index_count,
                    from_caller,
                    chain: chain.push(node as usize),
                },
            ]
        } else {
            seq![]
        };
        own + children_plan(
            g,
            r,
            node,
            g[node].children.len() as int,
            if drawn {
                from_caller
            } else {
                false
            },
            if drawn {
                chain.push(node as usize)
            } else {
                seq![]
            },
        )
    } else {
        seq![]
    }
}

/// The commands of the subtrees of the first `k` children of `node`, each
/// handed the transformation described by `from_caller` and `chain`.
pub open spec fn children_plan(
    g: Seq<NodeView>,
    r: spec_fn(int) -> nat,
    node: int,
    k: int,
    from_caller: bool,
    chain: Seq<usize>,
) -> Seq<DrawView>
    decreases r(node), 0nat, k,
{
    if ranks_decrease_at(g, r, node) && 0 < k <= g[node].children.len() {
        proof {
            assert(r(g[node].children[k - 1] as int) < r(node));
        }
        children_plan(g, r, node, k - 1, from_caller, chain) + subtree_plan(
            g,
            r,
            g[node].children[k - 1] as int,
            from_caller,
            chain,
        )
    } else {
        seq![]
    }
}

/// The commands that drawing the scene from `root` gives, with the caller's
/// matrix as the base of the root.
pub open spec fn draw_order(g: Seq<NodeView>, root: int) -> Seq<DrawView> {
    subtree_plan(g, some_rank_below(g, root), root, true, seq![])
}

/// A node reached from `root` along `walk` has its children ranked below it.
proof fn lemma_ranks_decrease_on_walk(
    g: Seq<NodeView>,
    r: spec_fn(int) -> nat,
    root: int,
    walk: Seq<usize>,
)
    requires
        ranked_below(g, r, root),
        reaches(g, root, walk),
        walk.last() < g.len(),
    ensures
        ranks_decrease_at(g, r, walk.last() as int),
{
    let node = walk.last() as int;
    assert(reachable(g, root, node));
    assert forall|i: int| 0 <= i < g[node].children.len() implies #[trigger] r(
        g[node].children[i] as int,
    ) < r(node) by {
        assert(reachable(g, root, node));
    }
}

/// Extending the walk to the `i`-th child of its last node.
proof fn lemma_walk_to_child(g: Seq<NodeView>, root: int, walk: Seq<usize>, i: int)
    requires
        reaches(g, root, walk),
        walk.last() < g.len(),
        0 <= i < g[walk.last() as int].children.len(),
    ensures
        reaches(g, root, walk.push(g[walk.last() as int].children[i])),
{
    let p = walk.last() as int;
    let c = g[p].children[i];
    assert(is_link(g, p, c as int));
    lemma_path_push(g, root, walk, c);
}

fn copy_chain(chain: &Vec<usize>) -> (c: Vec<usize>)
    ensures
        c@ == chain@,
{
    let mut c: Vec<usize> = Vec::new();
    let mut i: usize = 0;
    while i < chain.len()
        invariant
            0 <= i <= chain@.len(),
            c@ == chain@.take(i as int),
        decreases chain@.len() - i,
    {
        c.push(chain[i]);
        assert(c@ =~= chain@.take(i + 1));
        i = i + 1;
    }
    assert(chain@.take(chain@.len() as int) =~= chain@);
    c
}

impl SceneGraph {
    fn plan_subtree(
        &self,
        Ghost(r): Ghost<spec_fn(int) -> nat>,
        Ghost(root): Ghost<int>,
        Ghost(walk): Ghost<Seq<usize>>,
        node: usize,
        from_caller: bool,
        chain: &Vec<usize>,
        out: &mut Vec<DrawCommand>,
    )
        requires
            ranked_below(self@, r, root),
            reaches(self@, root, walk),
            walk.last() == node,
            node < self@.len(),
        ensures
            command_views(final(out)@) == command_views(old(out)@) + subtree_plan(
                self@,
                r,
                node as int,
                from_caller,
                chain@,
            ),
        decreases r(node as int),
    {
        let ghost g = self@;
        let ghost out0 = command_views(out@);
        proof {
            lemma_ranks_decrease_on_walk(g, r, root, walk);
        }
        let vao_id = self.vao_id(node);
        let index_count = self.index_count(node);
        let drawn = vao_id != 0;
        let mut child_chain: Vec<usize> = Vec::new();
        let mut child_from_caller = false;
        if drawn {
            let mut placed = copy_chain(chain);
            placed.push(node);
            child_chain = copy_chain(&placed);
            child_from_caller = from_caller;
            let ghost before = out@;
            out.push(DrawCommand { node, vao_id, index_count, from_caller, chain: placed });
            assert(command_views(out@) =~= command_views(before).push(out@.last()@));
        }
        let ghost own = if drawn {
            seq![
                DrawView {
                    node: node,
                    vao_id: vao_id,
                    index_count: index_count,
                    from_caller,
                    chain: chain@.push(node),
                },
            ]
        } else {
            Seq::<DrawView>::empty()
        };
        assert(command_views(out@) =~= out0 + own);
        let n = self.child_count(node);
        let mut k: usize = 0;
        while k < n
            invariant
                g == self@,
                ranked_below(g, r, root),
                ranks_decrease_at(g, r, node as int),
                reaches(g, root, walk),
                walk.last() == node,
                node < g.len(),
                n == g[node as int].children.len(),
                0 <= k <= n,
                command_views(out@) == out0 + own + children_plan(
                    g,
                    r,
                    node as int,
                    k as int,
                    child_from_caller,
                    child_chain@,
                ),
            decreases n - k,
        {
            let c = self.child(node, k);
            proof {
                lemma_walk_to_child(g, root, walk, k as int);
            }
            assert(r(g[node as int].children[k as int] as int) < r(node as int));
            self.plan_subtree(
                Ghost(r),
                Ghost(root),
                Ghost(walk.push(c)),
                c,
                child_from_caller,
                &child_chain,
                out,
            );
            assert(children_plan(g, r, node as int, k + 1, child_from_caller, child_chain@)
                == children_plan(g, r, node as int, k as int, child_from_caller, child_chain@)
                + subtree_plan(g, r, c as int, child_from_caller, child_chain@));
            assert(command_views(out@) =~= out0 + own + children_plan(
                g,
                r,
                node as int,
                k + 1,
                child_from_caller,
                child_chain@,
            ));
            k = k + 1;
        }
        assert(child_chain@ == (if drawn {
            chain@.push(node)
        } else {
            Seq::<usize>::empty()
        }));
        assert(subtree_plan(g, r, node as int, from_caller, chain@) == own + children_plan(
            g,
            r,
            node as int,
            n as int,
            child_from_caller,
            child_chain@,
        ));
        assert(command_views(out@) =~= out0 + subtree_plan(g, r, node as int, from_caller, chain@));
    }

    /// The nodes that drawing the scene from `root` draws, in drawing order,
    /// each with the chain of local transformations that places it.
    pub fn draw_plan(&self, root: usize) -> (plan: Vec<DrawCommand>)
        requires
            root < self@.len(),
            acyclic_below(self@, root as int),
        ensures
            command_views(plan@) == draw_order(self@, root as int),
    {
        let ghost r = some_rank_below(self@, root as int);
        let ghost start = seq![root];
        proof {
            lemma_root_reachable(self@, root as int);
        }
        let mut plan: Vec<DrawCommand> = Vec::new();
        let empty: Vec<usize> = Vec::new();
        assert(command_views(plan@) =~= Seq::<DrawView>::empty());
        self.plan_subtree(Ghost(r), Ghost(root as int), Ghost(start), root, true, &empty, &mut plan);
        assert(empty@ =~= Seq::<usize>::empty());
        assert(command_views(plan@) =~= draw_order(self@, root as int));
        plan
    }
}

/// Every node of `s` is a node of `g` that carries a mesh.
pub open spec fn all_drawn(g: Seq<NodeView>, s: Seq<usize>) -> bool {
    forall|k: int| 0 <= k < s.len() ==> #[trigger] s[k] < g.len() && is_drawn(g[s[k] as int])
}

/// What every command of a drawing order from `root` satisfies: it draws a
/// node that carries a mesh, with that node's vertex array object and index
/// count; its chain is a path of nodes that carry meshes down to that node;
/// and a chain based on the caller's matrix starts at the root.
pub open spec fn well_placed(g: Seq<NodeView>, root: int, c: DrawView) -> bool {
    &&& c.node < g.len()
    &&& is_drawn(g[c.node as int])
    &&& c.vao_id == g[c.node as int].vao_id
    &&& c.index_count == g[c.node as int].index_count
    &&& c.chain.len() > 0
    &&& c.chain.last() == c.node
    &&& is_path(g, c.chain)
    &&& all_drawn(g, c.chain)
    &&& c.from_caller ==> c.chain[0] == root
}

proof fn lemma_subtree_well_placed(
    g: Seq<NodeView>,
    r: spec_fn(int) -> nat,
    root: int,
    walk: Seq<usize>,
    node: int,
    from_caller: bool,
    chain: Seq<usize>,
)
    requires
        ranked_below(g, r, root),
        reaches(g, root, walk),
        walk.last() == node,
        children_in_range(g),
        g.len() <= usize::MAX,
        0 <= node < g.len(),
        is_path(g, chain),
        all_drawn(g, chain),
        chain.len() > 0 ==> is_link(g, chain.last() as int, node),
        from_caller && chain.len() == 0 ==> node == root,
        from_caller && chain.len() > 0 ==> chain[0] == root,
    ensures
        forall|j: int|
            0 <= j < subtree_plan(g, r, node, from_caller, chain).len() ==> well_placed(
                g,
                root,
                #[trigger] subtree_plan(g, r, node, from_caller, chain)[j],
            ),
    decreases r(node), 1nat, 0int,
{
    lemma_ranks_decrease_on_walk(g, r, root, walk);
    let drawn = is_drawn(g[node]);
    let placed = chain.push(node as usize);
    let cfc = if drawn {
        from_caller
    } else {
        false
    };
    let cchain = if drawn {
        placed
    } else {
        seq![]
    };
    assert(is_path(g, placed)) by {
        assert forall|k: int| 0 <= k < placed.len() - 1 implies #[trigger] is_link(
            g,
            placed[k] as int,
            placed[k + 1] as int,
        ) by {
            if k < chain.len() - 1 {
                assert(is_link(g, chain[k] as int, chain[k + 1] as int));
            }
        }
    }
    if drawn {
        assert(all_drawn(g, placed)) by {
            assert forall|k: int| 0 <= k < placed.len() implies #[trigger] placed[k] < g.len()
                && is_drawn(g[placed[k] as int]) by {
                if k < chain.len() {
                    assert(placed[k] == chain[k]);
                }
            }
        }
    }
    lemma_children_well_placed(g, r, root, walk, node, g[node].children.len() as int, cfc, cchain);
    let own = if drawn {
        seq![
            DrawView {
                node: node as usize,
                vao_id: g[node].vao_id,
                index_count: g[node].index_count,
                from_caller,
                chain: placed,
            },
        ]
    } else {
        Seq::<DrawView>::empty()
    };
    let rest = children_plan(g, r, node, g[node].children.len() as int, cfc, cchain);
    let all = subtree_plan(g, r, node, from_caller, chain);
    assert(all == own + rest);
    assert forall|j: int| 0 <= j < all.len() implies well_placed(g, root, #[trigger] all[j]) by {
        if j < own.len() {
            assert(all[j] == own[j]);
        } else {
            assert(all[j] == rest[j - own.len()]);
        }
    }
}

proof fn lemma_children_well_placed(
    g: Seq<NodeView>,
    r: spec_fn(int) -> nat,
    root: int,
    walk: Seq<usize>,
    node: int,
    k: int,
    from_caller: bool,
    chain: Seq<usize>,
)
    requires
        ranked_below(g, r, root),
        reaches(g, root, walk),
        walk.last() == node,
        children_in_range(g),
        g.len() <= usize::MAX,
        0 <= node < g.len(),
        0 <= k <= g[node].children.len(),
        is_path(g, chain),
        all_drawn(g, chain),
        chain.len() > 0 ==> chain.last() == node,
        from_caller ==> chain.len() > 0 && chain[0] == root,
    ensures
        forall|j: int|
            0 <= j < children_plan(g, r, node, k, from_caller, chain).len() ==> well_placed(
                g,
                root,
                #[trigger] children_plan(g, r, node, k, from_caller, chain)[j],
            ),
    decreases r(node), 0nat, k,
{
    lemma_ranks_decrease_on_walk(g, r, root, walk);
    if k > 0 {
        let c = g[node].children[k - 1] as int;
        lemma_walk_to_child(g, root, walk, k - 1);
        assert(r(g[node].children[k - 1] as int) < r(node));
        lemma_children_well_placed(g, r, root, walk, node, k - 1, from_caller, chain);
        if chain.len() > 0 {
            assert(is_link(g, chain.last() as int, c)) by {
                assert(g[node].children[k - 1] == c);
            }
        }
        lemma_subtree_well_placed(g, r, root, walk.push(c as usize), c, from_caller, chain);
        let left = children_plan(g, r, node, k - 1, from_caller, chain);
        let right = subtree_plan(g, r, c, from_caller, chain);
        let all = children_plan(g, r, node, k, from_caller, chain);
        assert(all == left + right);
        assert forall|j: int| 0 <= j < all.len() implies well_placed(g, root, #[trigger] all[j]) by {
            if j < left.len() {
                assert(all[j] == left[j]);
            } else {
                assert(all[j] == right[j - left.len()]);
            }
        }
    }
}

/// Drawing from `root` draws only nodes that carry a mesh, each with its own
/// vertex array object and index count, placed by the local
/// transformations of a path of drawn nodes that ends at the node; a
/// placement that starts from the caller's matrix starts at the root.
pub proof fn draw_order_is_well_placed(g: Seq<NodeView>, root: int)
    requires
        children_in_range(g),
        g.len() <= usize::MAX,
        acyclic_below(g, root),
        0 <= root < g.len(),
    ensures
        forall|j: int|
            0 <= j < draw_order(g, root).len() ==> well_placed(g, root, #[trigger] draw_order(g, root)[j]),
{
    let r = some_rank_below(g, root);
    lemma_root_reachable(g, root);
    assert(is_path(g, Seq::<usize>::empty()));
    assert(all_drawn(g, Seq::<usize>::empty()));
    lemma_subtree_well_placed(g, r, root, seq![root as usize], root, true, seq![]);
}


/// How a node hands the placement it received on to its children: a drawn
/// node appends itself to the chain, a node without a mesh starts its
/// children afresh from the identity.
pub open spec fn handed_down(
    g: Seq<NodeView>,
    from_caller: bool,
    chain: Seq<usize>,
    x: usize,
) -> (bool, Seq<usize>) {
    if is_drawn(g[x as int]) {
        (from_caller, chain.push(x))
    } else {
        (false, seq![])
    }
}

/// The placement handed down along `path`, starting from `from_caller` and
/// `chain`.
pub open spec fn fold_placement(
    g: Seq<NodeView>,
    from_caller: bool,
    chain: Seq<usize>,
    path: Seq<usize>,
) -> (bool, Seq<usize>)
    decreases path.len(),
{
    if path.len() == 0 {
        (from_caller, chain)
    } else {
        let next = handed_down(g, from_caller, chain, path[0]);
        fold_placement(g, next.0, next.1, path.drop_first())
    }
}

/// The command that draws the last node of `path` when the walk reaches it
/// along `path` with the placement `from_caller` and `chain` at its start.
pub open spec fn reached_along(
    g: Seq<NodeView>,
    from_caller: bool,
    chain: Seq<usize>,
    path: Seq<usize>,
) -> DrawView {
    let before = fold_placement(g, from_caller, chain, path.drop_last());
    DrawView {
        node: path.last(),
        vao_id: g[path.last() as int].vao_id,
        index_count: g[path.last() as int].index_count,
        from_caller: before.0,
        chain: before.1.push(path.last()),
    }
}

proof fn lemma_children_plan_contains(
    g: Seq<NodeView>,
    r: spec_fn(int) -> nat,
    node: int,
    k: int,
    from_caller: bool,
    chain: Seq<usize>,
    i: int,
) -> (offset: int)
    requires
        ranks_decrease_at(g, r, node),
        0 <= i < k <= g[node].children.len(),
    ensures
        0 <= offset,
        offset + subtree_plan(g, r, g[node].children[i] as int, from_caller, chain).len()
            <= children_plan(g, r, node, k, from_caller, chain).len(),
        forall|m: int|
            0 <= m < subtree_plan(g, r, g[node].children[i] as int, from_caller, chain).len()
                ==> children_plan(g, r, node, k, from_caller, chain)[offset + m] == subtree_plan(
                g,
                r,
                g[node].children[i] as int,
                from_caller,
                chain,
            )[m],
    decreases k,
{
    let left = children_plan(g, r, node, k - 1, from_caller, chain);
    let right = subtree_plan(g, r, g[node].children[k - 1] as int, from_caller, chain);
    assert(children_plan(g, r, node, k, from_caller, chain) == left + right);
    if i == k - 1 {
        left.len() as int
    } else {
        let o = lemma_children_plan_contains(g, r, node, k - 1, from_caller, chain, i);
        o
    }
}

proof fn lemma_fold_drop_last(g: Seq<NodeView>, from_caller: bool, chain: Seq<usize>, q: Seq<usize>)
    requires
        q.len() >= 2,
    ensures
        fold_placement(g, from_caller, chain, q.drop_last()) == fold_placement(
            g,
            handed_down(g, from_caller, chain, q[0]).0,
            handed_down(g, from_caller, chain, q[0]).1,
            q.drop_first().drop_last(),
        ),
{
    assert(q.drop_last().drop_first() =~= q.drop_first().drop_last());
    assert(q.drop_last()[0] == q[0]);
}

/// The command that draws `node` itself, if it carries a mesh.
spec fn own_command(g: Seq<NodeView>, node: int, from_caller: bool, chain: Seq<usize>) -> Seq<
    DrawView,
> {
    if is_drawn(g[node]) {
        seq![
            DrawView {
                node: node as usize,
                vao_id: g[node].vao_id,
                index_count: g[node].index_count,
                from_caller,
                chain: chain.push(node as usize),
            },
        ]
    } else {
        Seq::<DrawView>::empty()
    }
}

/// One step of the drawing order: the node itself, then its children.
proof fn lemma_subtree_unfold(
    g: Seq<NodeView>,
    r: spec_fn(int) -> nat,
    node: int,
    from_caller: bool,
    chain: Seq<usize>,
)
    requires
        ranks_decrease_at(g, r, node),
        node <= usize::MAX,
    ensures
        subtree_plan(g, r, node, from_caller, chain) == own_command(g, node, from_caller, chain)
            + children_plan(
            g,
            r,
            node,
            g[node].children.len() as int,
            handed_down(g, from_caller, chain, node as usize).0,
            handed_down(g, from_caller, chain, node as usize).1,
        ),
{
}

/// A path without its first node is a path.
proof fn lemma_path_tail(g: Seq<NodeView>, q: Seq<usize>)
    requires
        is_path(g, q),
        q.len() > 0,
    ensures
        is_path(g, q.drop_first()),
{
    let tail = q.drop_first();
    assert forall|k: int| 0 <= k < tail.len() - 1 implies #[trigger] is_link(
        g,
        tail[k] as int,
        tail[k + 1] as int,
    ) by {
        lemma_path_link(g, q, k + 1);
    }
}

/// Reaching the end of a path from its first node is reaching it from the
/// second node with the placement the first one hands down.
proof fn lemma_reached_along_step(g: Seq<NodeView>, from_caller: bool, chain: Seq<usize>, q: Seq<usize>)
    requires
        q.len() >= 2,
    ensures
        reached_along(
            g,
            handed_down(g, from_caller, chain, q[0]).0,
            handed_down(g, from_caller, chain, q[0]).1,
            q.drop_first(),
        ) == reached_along(g, from_caller, chain, q),
{
    lemma_fold_drop_last(g, from_caller, chain, q);
    assert(q.drop_first().last() == q.last());
}

/// What the subtree of a child draws, the subtree of its parent draws too.
proof fn lemma_drawn_through_child(
    g: Seq<NodeView>,
    r: spec_fn(int) -> nat,
    node: int,
    from_caller: bool,
    chain: Seq<usize>,
    i: int,
    j: int,
)
    requires
        ranks_decrease_at(g, r, node),
        node <= usize::MAX,
        0 <= i < g[node].children.len(),
        0 <= j < subtree_plan(
            g,
            r,
            g[node].children[i] as int,
            handed_down(g, from_caller, chain, node as usize).0,
            handed_down(g, from_caller, chain, node as usize).1,
        ).len(),
    ensures
        exists|m: int|
            0 <= m < subtree_plan(g, r, node, from_caller, chain).len() && #[trigger] subtree_plan(
                g,
                r,
                node,
                from_caller,
                chain,
            )[m] == subtree_plan(
                g,
                r,
                g[node].children[i] as int,
                handed_down(g, from_caller, chain, node as usize).0,
                handed_down(g, from_caller, chain, node as usize).1,
            )[j],
{
    lemma_subtree_unfold(g, r, node, from_caller, chain);
    let next = handed_down(g, from_caller, chain, node as usize);
    let own = own_command(g, node, from_caller, chain);
    let rest = children_plan(g, r, node, g[node].children.len() as int, next.0, next.1);
    let all = subtree_plan(g, r, node, from_caller, chain);
    let o = lemma_children_plan_contains(g, r, node, g[node].children.len() as int, next.0, next.1, i);
    assert(all[own.len() + o + j] == rest[o + j]);
}

#[verifier::spinoff_prover]
proof fn lemma_subtree_reaches(
    g: Seq<NodeView>,
    r: spec_fn(int) -> nat,
    root: int,
    walk: Seq<usize>,
    node: int,
    from_caller: bool,
    chain: Seq<usize>,
    q: Seq<usize>,
)
    requires
        ranked_below(g, r, root),
        reaches(g, root, walk),
        walk.last() == node,
        children_in_range(g),
        g.len() <= usize::MAX,
        0 <= node < g.len(),
        q.len() > 0,
        q[0] == node,
        is_path(g, q),
        is_drawn(g[q.last() as int]),
    ensures
        exists|j: int|
            0 <= j < subtree_plan(g, r, node, from_caller, chain).len() && #[trigger] subtree_plan(
                g,
                r,
                node,
                from_caller,
                chain,
            )[j] == reached_along(g, from_caller, chain, q),
    decreases q.len(),
{
    lemma_ranks_decrease_on_walk(g, r, root, walk);
    if q.len() == 1 {
        lemma_subtree_unfold(g, r, node, from_caller, chain);
        assert(q.drop_last() =~= Seq::<usize>::empty());
        assert(subtree_plan(g, r, node, from_caller, chain)[0] == reached_along(
            g,
            from_caller,
            chain,
            q,
        ));
    } else {
        let next = handed_down(g, from_caller, chain, node as usize);
        lemma_path_link(g, q, 0);
        let i = choose|i: int| 0 <= i < g[node].children.len() && g[node].children[i] == q[1];
        let c = q[1] as int;
        assert(g[node].children[i] < g.len());
        lemma_path_tail(g, q);
        lemma_walk_to_child(g, root, walk, i);
        lemma_subtree_reaches(g, r, root, walk.push(c as usize), c, next.0, next.1, q.drop_first());
        lemma_reached_along_step(g, from_caller, chain, q);
        let sub = subtree_plan(g, r, c, next.0, next.1);
        let j = choose|j: int|
            0 <= j < sub.len() && #[trigger] sub[j] == reached_along(g, from_caller, chain, q);
        lemma_drawn_through_child(g, r, node, from_caller, chain, i, j);
    }
}

/// Every drawn node that a path of links leads to from `root` is drawn for
/// that path, placed by the transformations handed down along it: the
/// caller's matrix unless some node of the path before it carries no mesh,
/// then the local transformations of the drawn nodes after the last such
/// node.
pub proof fn draw_order_is_complete(g: Seq<NodeView>, root: int, path: Seq<usize>)
    requires
        children_in_range(g),
        g.len() <= usize::MAX,
        acyclic_below(g, root),
        0 <= root < g.len(),
        path.len() > 0,
        path[0] == root,
        is_path(g, path),
        is_drawn(g[path.last() as int]),
    ensures
        exists|j: int|
            0 <= j < draw_order(g, root).len() && #[trigger] draw_order(g, root)[j] == reached_along(
                g,
                true,
                seq![],
                path,
            ),
{
    let r = some_rank_below(g, root);
    lemma_root_reachable(g, root);
    lemma_subtree_reaches(g, r, root, seq![root as usize], root, true, seq![], path);
    let plan = subtree_plan(g, r, root, true, seq![]);
    let j = choose|j: int|
        0 <= j < plan.len() && #[trigger] plan[j] == reached_along(g, true, seq![], path);
    assert(draw_order(g, root)[j] == reached_along(g, true, seq![], path));
}


/// The number of walks down from `node`, one child link at a time, that end
/// at a node carrying a mesh; a child listed twice gives two walks. The
/// ranking `r` only bounds the depth of the walks.
pub open spec fn drawn_walks(g: Seq<NodeView>, r: spec_fn(int) -> nat, node: int) -> nat
    decreases r(node), 1nat, 0int,
{
    if ranks_decrease_at(g, r, node) {
        (if is_drawn(g[node]) {
            1nat
        } else {
            0nat
        }) + children_walks(g, r, node, g[node].children.len() as int)
    } else {
        0
    }
}

/// The number of such walks that go through one of the first `k` children
/// of `node`.
pub open spec fn children_walks(g: Seq<NodeView>, r: spec_fn(int) -> nat, node: int, k: int) -> nat
    decreases r(node), 0nat, k,
{
    if ranks_decrease_at(g, r, node) && 0 < k <= g[node].children.len() {
        proof {
            assert(r(g[node].children[k - 1] as int) < r(node));
        }
        children_walks(g, r, node, k - 1) + drawn_walks(g, r, g[node].children[k - 1] as int)
    } else {
        0
    }
}

proof fn lemma_subtree_counts_walks(
    g: Seq<NodeView>,
    r: spec_fn(int) -> nat,
    node: int,
    from_caller: bool,
    chain: Seq<usize>,
)
    ensures
        subtree_plan(g, r, node, from_caller, chain).len() == drawn_walks(g, r, node),
    decreases r(node), 1nat, 0int,
{
    if ranks_decrease_at(g, r, node) {
        let drawn = is_drawn(g[node]);
        lemma_children_count_walks(
            g,
            r,
            node,
            g[node].children.len() as int,
            if drawn {
                from_caller
            } else {
                false
            },
            if drawn {
                chain.push(node as usize)
            } else {
                seq![]
            },
        );
    }
}

proof fn lemma_children_count_walks(
    g: Seq<NodeView>,
    r: spec_fn(int) -> nat,
    node: int,
    k: int,
    from_caller: bool,
    chain: Seq<usize>,
)
    ensures
        children_plan(g, r, node, k, from_caller, chain).len() == children_walks(g, r, node, k),
    decreases r(node), 0nat, k,
{
    if ranks_decrease_at(g, r, node) && 0 < k <= g[node].children.len() {
        assert(r(g[node].children[k - 1] as int) < r(node));
        lemma_children_count_walks(g, r, node, k - 1, from_caller, chain);
        lemma_subtree_counts_walks(g, r, g[node].children[k - 1] as int, from_caller, chain);
    }
}

/// Drawing from `root` issues exactly one command per walk down from `root`
/// that ends at a node carrying a mesh: a node is drawn once each time the
/// walk reaches it, never more.
pub proof fn draw_order_counts_walks(g: Seq<NodeView>, root: int)
    ensures
        draw_order(g, root).len() == drawn_walks(g, some_rank_below(g, root), root),
{
    lemma_subtree_counts_walks(g, some_rank_below(g, root), root, true, seq![]);
}

/// A drawn root is drawn first, placed by the caller's matrix and its own
/// local transformation, before anything below it.
pub proof fn drawn_root_comes_first(g: Seq<NodeView>, root: int)
    requires
        acyclic_below(g, root),
        0 <= root < g.len(),
        root <= usize::MAX,
        is_drawn(g[root]),
    ensures
        draw_order(g, root).len() > 0,
        draw_order(g, root)[0] == (DrawView {
            node: root as usize,
            vao_id: g[root].vao_id,
            index_count: g[root].index_count,
            from_caller: true,
            chain: seq![root as usize],
        }),
{
    let r = some_rank_below(g, root);
    lemma_root_reachable(g, root);
    lemma_ranks_decrease_on_walk(g, r, root, seq![root as usize]);
    lemma_subtree_unfold(g, r, root, true, seq![]);
    assert(Seq::<usize>::empty().push(root as usize) =~= seq![root as usize]);
}

/// A drawn node without children is drawn exactly once, placed by the
/// caller's matrix and its own local transformation; a node with neither a
/// mesh nor children draws nothing.
pub proof fn lone_node_is_drawn_once(g: Seq<NodeView>, root: int)
    requires
        0 <= root < g.len(),
        root <= usize::MAX,
        g[root].children.len() == 0,
    ensures
        is_drawn(g[root]) ==> draw_order(g, root) == seq![
            DrawView {
                node: root as usize,
                vao_id: g[root].vao_id,
                index_count: g[root].index_count,
                from_caller: true,
                chain: seq![root as usize],
            },
        ],
        !is_drawn(g[root]) ==> draw_order(g, root).len() == 0,
{
    let r = some_rank_below(g, root);
    assert(ranks_decrease_at(g, r, root));
    let next = handed_down(g, true, seq![], root as usize);
    assert(children_plan(g, r, root, 0, next.0, next.1) =~= Seq::<DrawView>::empty());
    lemma_subtree_unfold(g, r, root, true, seq![]);
    assert(Seq::<usize>::empty().push(root as usize) =~= seq![root as usize]);
    if is_drawn(g[root]) {
        assert(draw_order(g, root) =~= seq![
            DrawView {
                node: root as usize,
                vao_id: g[root].vao_id,
                index_count: g[root].index_count,
                from_caller: true,
                chain: seq![root as usize],
            },
        ]);
    }
}


/// No node of `g` is listed as a child more than once, under one parent or
/// under two: every node hangs below at most one parent.
pub open spec fn single_parent(g: Seq<NodeView>) -> bool {
    forall|p1: int, i1: int, p2: int, i2: int|
        0 <= p1 < g.len() && 0 <= i1 < g[p1].children.len() && 0 <= p2 < g.len() && 0 <= i2
            < g[p2].children.len() && #[trigger] g[p1].children[i1] == #[trigger] g[p2].children[i2]
            ==> p1 == p2 && i1 == i2
}

/// `q` is a path of `g` from `x` to `y`.
pub open spec fn path_between(g: Seq<NodeView>, x: int, y: int, q: Seq<usize>) -> bool {
    &&& q.len() > 0
    &&& q[0] == x
    &&& q.last() == y
    &&& is_path(g, q)
}

/// `y` is `x` or lies below it.
pub open spec fn descends(g: Seq<NodeView>, x: int, y: int) -> bool {
    exists|q: Seq<usize>| #[trigger] path_between(g, x, y, q)
}

/// No two commands of `s` draw the same node.
pub open spec fn distinct_nodes(s: Seq<DrawView>) -> bool {
    forall|j1: int, j2: int| 0 <= j1 < j2 < s.len() ==> #[trigger] s[j1].node != #[trigger] s[j2].node
}

/// Along a path that starts at a node reached from `root`, ranks decrease.
proof fn lemma_rank_along_path(
    g: Seq<NodeView>,
    r: spec_fn(int) -> nat,
    root: int,
    walk: Seq<usize>,
    q: Seq<usize>,
)
    requires
        ranked_below(g, r, root),
        children_in_range(g),
        reaches(g, root, walk),
        walk.last() < g.len(),
        q.len() > 0,
        q[0] == walk.last(),
        is_path(g, q),
    ensures
        r(q.last() as int) <= r(q[0] as int),
        q.len() > 1 ==> r(q.last() as int) < r(q[0] as int),
    decreases q.len(),
{
    if q.len() > 1 {
        lemma_path_link(g, q, 0);
        let x = q[0] as int;
        let i = choose|i: int| 0 <= i < g[x].children.len() && g[x].children[i] == q[1];
        lemma_ranks_decrease_on_walk(g, r, root, walk);
        assert(r(g[x].children[i] as int) < r(x));
        assert(g[x].children[i] < g.len());
        lemma_walk_to_child(g, root, walk, i);
        lemma_path_tail(g, q);
        lemma_rank_along_path(g, r, root, walk.push(q[1]), q.drop_first());
    }
}

/// Two paths that end at the same node agree from the end backwards when
/// every node has at most one parent: the shorter is a suffix of the longer.
proof fn lemma_paths_to_same_end(g: Seq<NodeView>, q1: Seq<usize>, q2: Seq<usize>)
    requires
        single_parent(g),
        q1.len() > 0,
        q1.len() <= q2.len(),
        is_path(g, q1),
        is_path(g, q2),
        q1.last() == q2.last(),
    ensures
        forall|m: int| 0 <= m < q1.len() ==> #[trigger] q1[m] == q2[q2.len() - q1.len() + m],
    decreases q1.len(),
{
    if q1.len() > 1 {
        let a = q1.drop_last();
        let b = q2.drop_last();
        lemma_path_link(g, q1, q1.len() - 2);
        lemma_path_link(g, q2, q2.len() - 2);
        let p1 = q1[q1.len() - 2] as int;
        let p2 = q2[q2.len() - 2] as int;
        let i1 = choose|i: int| 0 <= i < g[p1].children.len() && g[p1].children[i] == q1.last();
        let i2 = choose|i: int| 0 <= i < g[p2].children.len() && g[p2].children[i] == q2.last();
        assert(g[p1].children[i1] == g[p2].children[i2]);
        assert(is_path(g, a)) by {
            assert forall|k: int| 0 <= k < a.len() - 1 implies #[trigger] is_link(
                g,
                a[k] as int,
                a[k + 1] as int,
            ) by {
                lemma_path_link(g, q1, k);
            }
        }
        assert(is_path(g, b)) by {
            assert forall|k: int| 0 <= k < b.len() - 1 implies #[trigger] is_link(
                g,
                b[k] as int,
                b[k + 1] as int,
            ) by {
                lemma_path_link(g, q2, k);
            }
        }
        lemma_paths_to_same_end(g, a, b);
        assert forall|m: int| 0 <= m < q1.len() implies #[trigger] q1[m] == q2[q2.len() - q1.len()
            + m] by {
            if m < q1.len() - 1 {
                assert(a[m] == b[b.len() - a.len() + m]);
            }
        }
    }
}

/// `[x] + q` is a path when `q` is a path from a child of `x`.
proof fn lemma_path_prepend(g: Seq<NodeView>, x: int, q: Seq<usize>)
    requires
        0 <= x <= usize::MAX,
        q.len() > 0,
        is_link(g, x, q[0] as int),
        is_path(g, q),
    ensures
        is_path(g, seq![x as usize] + q),
        (seq![x as usize] + q)[0] == x,
        (seq![x as usize] + q).last() == q.last(),
        (seq![x as usize] + q).len() == q.len() + 1,
{
    let t = seq![x as usize] + q;
    assert forall|k: int| 0 <= k < t.len() - 1 implies #[trigger] is_link(
        g,
        t[k] as int,
        t[k + 1] as int,
    ) by {
        if k > 0 {
            lemma_path_link(g, q, k - 1);
            assert(t[k] == q[k - 1] && t[k + 1] == q[k]);
        }
    }
}

/// Two different children of a node reached from `root` have nothing below
/// them in common when every node has at most one parent.
proof fn lemma_children_disjoint(
    g: Seq<NodeView>,
    r: spec_fn(int) -> nat,
    root: int,
    walk: Seq<usize>,
    i1: int,
    i2: int,
    y: int,
)
    requires
        ranked_below(g, r, root),
        children_in_range(g),
        single_parent(g),
        g.len() <= usize::MAX,
        reaches(g, root, walk),
        walk.last() < g.len(),
        0 <= i1 < g[walk.last() as int].children.len(),
        0 <= i2 < g[walk.last() as int].children.len(),
        i1 != i2,
        descends(g, g[walk.last() as int].children[i1] as int, y),
    ensures
        !descends(g, g[walk.last() as int].children[i2] as int, y),
{
    let p = walk.last() as int;
    let c1 = g[p].children[i1] as int;
    let c2 = g[p].children[i2] as int;
    if descends(g, c2, y) {
        let q1 = choose|q: Seq<usize>| path_between(g, c1, y, q);
        let q2 = choose|q: Seq<usize>| path_between(g, c2, y, q);
        lemma_one_reaches_parent(g, r, root, walk, i1, i2, q1, q2);
        lemma_one_reaches_parent(g, r, root, walk, i2, i1, q2, q1);
    }
}

proof fn lemma_one_reaches_parent(
    g: Seq<NodeView>,
    r: spec_fn(int) -> nat,
    root: int,
    walk: Seq<usize>,
    i1: int,
    i2: int,
    q1: Seq<usize>,
    q2: Seq<usize>,
)
    requires
        ranked_below(g, r, root),
        children_in_range(g),
        single_parent(g),
        g.len() <= usize::MAX,
        reaches(g, root, walk),
        walk.last() < g.len(),
        0 <= i1 < g[walk.last() as int].children.len(),
        0 <= i2 < g[walk.last() as int].children.len(),
        i1 != i2,
        path_between(g, g[walk.last() as int].children[i1] as int, q1.last() as int, q1),
        path_between(g, g[walk.last() as int].children[i2] as int, q1.last() as int, q2),
    ensures
        q1.len() > q2.len(),
{
    let p = walk.last() as int;
    let c1 = g[p].children[i1];
    if q1.len() <= q2.len() {
        lemma_paths_to_same_end(g, q1, q2);
        let d = q2.len() - q1.len();
        assert(q1[0] == q2[d]);
        if d == 0 {
            assert(g[p].children[i1] == g[p].children[i2]);
        } else {
            lemma_path_link(g, q2, d - 1);
            let pp = q2[d - 1] as int;
            let j = choose|j: int| 0 <= j < g[pp].children.len() && g[pp].children[j] == q2[d];
            assert(g[pp].children[j] == g[p].children[i1]);
            assert(pp == p);
            let front = q2.subrange(0, d);
            assert(is_path(g, front)) by {
                assert forall|k: int| 0 <= k < front.len() - 1 implies #[trigger] is_link(
                    g,
                    front[k] as int,
                    front[k + 1] as int,
                ) by {
                    lemma_path_link(g, q2, k);
                }
            }
            assert(front[0] == g[p].children[i2]);
            assert(is_link(g, p, front[0] as int));
            lemma_path_prepend(g, p, front);
            let cyc = seq![p as usize] + front;
            assert(cyc.last() == p);
            lemma_rank_along_path(g, r, root, walk, cyc);
        }
    }
}


/// What lies below a child of `x` lies below `x`; nothing below a child of
/// a node reached from `root` is that node itself.
proof fn lemma_below_child(
    g: Seq<NodeView>,
    r: spec_fn(int) -> nat,
    root: int,
    walk: Seq<usize>,
    i: int,
    y: int,
)
    requires
        ranked_below(g, r, root),
        children_in_range(g),
        g.len() <= usize::MAX,
        reaches(g, root, walk),
        walk.last() < g.len(),
        0 <= i < g[walk.last() as int].children.len(),
        descends(g, g[walk.last() as int].children[i] as int, y),
    ensures
        descends(g, walk.last() as int, y),
        y != walk.last(),
{
    let x = walk.last() as int;
    let q = choose|q: Seq<usize>| path_between(g, g[x].children[i] as int, y, q);
    assert(is_link(g, x, q[0] as int));
    lemma_path_prepend(g, x, q);
    let t = seq![x as usize] + q;
    assert(path_between(g, x, y, t));
    lemma_rank_along_path(g, r, root, walk, t);
}

proof fn lemma_subtree_distinct(
    g: Seq<NodeView>,
    r: spec_fn(int) -> nat,
    root: int,
    walk: Seq<usize>,
    node: int,
    from_caller: bool,
    chain: Seq<usize>,
)
    requires
        ranked_below(g, r, root),
        children_in_range(g),
        single_parent(g),
        g.len() <= usize::MAX,
        reaches(g, root, walk),
        walk.last() == node,
        0 <= node < g.len(),
    ensures
        distinct_nodes(subtree_plan(g, r, node, from_caller, chain)),
        forall|j: int|
            0 <= j < subtree_plan(g, r, node, from_caller, chain).len() ==> descends(
                g,
                node,
                #[trigger] subtree_plan(g, r, node, from_caller, chain)[j].node as int,
            ),
    decreases r(node), 1nat, 0int,
{
    lemma_ranks_decrease_on_walk(g, r, root, walk);
    lemma_subtree_unfold(g, r, node, from_caller, chain);
    let next = handed_down(g, from_caller, chain, node as usize);
    let n = g[node].children.len() as int;
    lemma_children_distinct(g, r, root, walk, node, n, next.0, next.1);
    let own = own_command(g, node, from_caller, chain);
    let rest = children_plan(g, r, node, n, next.0, next.1);
    let all = subtree_plan(g, r, node, from_caller, chain);
    assert(all == own + rest);
    assert forall|j: int| 0 <= j < all.len() implies descends(g, node, #[trigger] all[j].node as int) by {
        if j < own.len() {
            let q = seq![node as usize];
            assert(path_between(g, node, all[j].node as int, q));
        } else {
            assert(all[j] == rest[j - own.len()]);
        }
    }
    assert forall|j1: int, j2: int| 0 <= j1 < j2 < all.len() implies #[trigger] all[j1].node
        != #[trigger] all[j2].node by {
        if j1 >= own.len() {
            assert(all[j1] == rest[j1 - own.len()]);
            assert(all[j2] == rest[j2 - own.len()]);
        } else {
            assert(all[j1].node == node);
            assert(all[j2] == rest[j2 - own.len()]);
        }
    }
}

proof fn lemma_children_distinct(
    g: Seq<NodeView>,
    r: spec_fn(int) -> nat,
    root: int,
    walk: Seq<usize>,
    node: int,
    k: int,
    from_caller: bool,
    chain: Seq<usize>,
)
    requires
        ranked_below(g, r, root),
        children_in_range(g),
        single_parent(g),
        g.len() <= usize::MAX,
        reaches(g, root, walk),
        walk.last() == node,
        0 <= node < g.len(),
        0 <= k <= g[node].children.len(),
    ensures
        distinct_nodes(children_plan(g, r, node, k, from_caller, chain)),
        forall|j: int|
            0 <= j < children_plan(g, r, node, k, from_caller, chain).len() ==> descends(
                g,
                node,
                #[trigger] children_plan(g, r, node, k, from_caller, chain)[j].node as int,
            ) && children_plan(g, r, node, k, from_caller, chain)[j].node != node,
        forall|j: int, i2: int|
            0 <= j < children_plan(g, r, node, k, from_caller, chain).len() && k <= i2
                < g[node].children.len() ==> !#[trigger] descends(
                g,
                g[node].children[i2] as int,
                children_plan(g, r, node, k, from_caller, chain)[j].node as int,
            ),
    decreases r(node), 0nat, k,
{
    lemma_ranks_decrease_on_walk(g, r, root, walk);
    if k > 0 {
        let c = g[node].children[k - 1] as int;
        assert(g[node].children[k - 1] < g.len());
        assert(r(g[node].children[k - 1] as int) < r(node));
        lemma_walk_to_child(g, root, walk, k - 1);
        lemma_children_distinct(g, r, root, walk, node, k - 1, from_caller, chain);
        lemma_subtree_distinct(g, r, root, walk.push(c as usize), c, from_caller, chain);
        let left = children_plan(g, r, node, k - 1, from_caller, chain);
        let right = subtree_plan(g, r, c, from_caller, chain);
        let all = children_plan(g, r, node, k, from_caller, chain);
        assert(all == left + right);
        assert forall|j: int| 0 <= j < all.len() implies descends(
            g,
            node,
            #[trigger] all[j].node as int,
        ) && all[j].node != node by {
            if j < left.len() {
                assert(all[j] == left[j]);
            } else {
                assert(all[j] == right[j - left.len()]);
                lemma_below_child(g, r, root, walk, k - 1, all[j].node as int);
            }
        }
        assert forall|j: int, i2: int|
            0 <= j < all.len() && k <= i2 < g[node].children.len() implies !#[trigger] descends(
            g,
            g[node].children[i2] as int,
            all[j].node as int,
        ) by {
            if j < left.len() {
                assert(all[j] == left[j]);
            } else {
                assert(all[j] == right[j - left.len()]);
                lemma_children_disjoint(g, r, root, walk, k - 1, i2, all[j].node as int);
            }
        }
        assert forall|j1: int, j2: int| 0 <= j1 < j2 < all.len() implies #[trigger] all[j1].node
            != #[trigger] all[j2].node by {
            if j2 < left.len() {
                assert(all[j1] == left[j1] && all[j2] == left[j2]);
            } else if j1 >= left.len() {
                assert(all[j1] == right[j1 - left.len()] && all[j2] == right[j2 - left.len()]);
            } else {
                assert(all[j1] == left[j1] && all[j2] == right[j2 - left.len()]);
                assert(!descends(g, g[node].children[k - 1] as int, left[j1].node as int));
            }
        }
    }
}

/// In a scene where every node hangs below at most one parent, drawing from
/// `root` draws no node twice; with the completeness of the drawing order,
/// every node with a mesh below `root` is drawn exactly once.
pub proof fn tree_nodes_are_drawn_once(g: Seq<NodeView>, root: int)
    requires
        children_in_range(g),
        g.len() <= usize::MAX,
        single_parent(g),
        acyclic_below(g, root),
        0 <= root < g.len(),
    ensures
        distinct_nodes(draw_order(g, root)),
{
    lemma_root_reachable(g, root);
    lemma_subtree_distinct(g, some_rank_below(g, root), root, seq![root as usize], root, true, seq![]);
}


proof fn lemma_children_in_order(
    g: Seq<NodeView>,
    r: spec_fn(int) -> nat,
    root: int,
    walk: Seq<usize>,
    node: int,
    k: int,
    from_caller: bool,
    chain: Seq<usize>,
    i1: int,
    i2: int,
    j1: int,
    j2: int,
)
    requires
        ranked_below(g, r, root),
        children_in_range(g),
        single_parent(g),
        g.len() <= usize::MAX,
        reaches(g, root, walk),
        walk.last() == node,
        0 <= node < g.len(),
        0 <= i1 < i2 < k <= g[node].children.len(),
        0 <= j1 < children_plan(g, r, node, k, from_caller, chain).len(),
        0 <= j2 < children_plan(g, r, node, k, from_caller, chain).len(),
        descends(
            g,
            g[node].children[i1] as int,
            children_plan(g, r, node, k, from_caller, chain)[j1].node as int,
        ),
        descends(
            g,
            g[node].children[i2] as int,
            children_plan(g, r, node, k, from_caller, chain)[j2].node as int,
        ),
    ensures
        j1 < j2,
    decreases k,
{
    lemma_ranks_decrease_on_walk(g, r, root, walk);
    let c = g[node].children[k - 1] as int;
    assert(g[node].children[k - 1] < g.len());
    lemma_walk_to_child(g, root, walk, k - 1);
    lemma_children_distinct(g, r, root, walk, node, k - 1, from_caller, chain);
    lemma_subtree_distinct(g, r, root, walk.push(c as usize), c, from_caller, chain);
    let left = children_plan(g, r, node, k - 1, from_caller, chain);
    let right = subtree_plan(g, r, c, from_caller, chain);
    let all = children_plan(g, r, node, k, from_caller, chain);
    assert(all == left + right);
    let y1 = all[j1].node as int;
    let y2 = all[j2].node as int;
    if j2 < left.len() {
        assert(all[j2] == left[j2]);
        if i2 >= k - 1 {
            assert(!descends(g, g[node].children[i2] as int, left[j2].node as int));
        }
        if j1 < left.len() {
            assert(all[j1] == left[j1]);
            lemma_children_in_order(g, r, root, walk, node, k - 1, from_caller, chain, i1, i2, j1, j2);
        } else {
            assert(all[j1] == right[j1 - left.len()]);
            assert(descends(g, c, y1));
            lemma_children_disjoint(g, r, root, walk, k - 1, i1, y1);
        }
    } else if j1 >= left.len() {
        assert(all[j1] == right[j1 - left.len()]);
        assert(descends(g, c, y1));
        lemma_children_disjoint(g, r, root, walk, k - 1, i1, y1);
    }
}

/// In a scene where every node hangs below at most one parent, whatever
/// hangs below an earlier child of the root is drawn before whatever hangs
/// below a later one: children are drawn in the order they were added.
pub proof fn earlier_children_are_drawn_first(
    g: Seq<NodeView>,
    root: int,
    i1: int,
    i2: int,
    j1: int,
    j2: int,
)
    requires
        children_in_range(g),
        g.len() <= usize::MAX,
        single_parent(g),
        acyclic_below(g, root),
        0 <= root < g.len(),
        0 <= i1 < i2 < g[root].children.len(),
        0 <= j1 < draw_order(g, root).len(),
        0 <= j2 < draw_order(g, root).len(),
        descends(g, g[root].children[i1] as int, draw_order(g, root)[j1].node as int),
        descends(g, g[root].children[i2] as int, draw_order(g, root)[j2].node as int),
    ensures
        j1 < j2,
{
    let r = some_rank_below(g, root);
    let walk = seq![root as usize];
    lemma_root_reachable(g, root);
    lemma_ranks_decrease_on_walk(g, r, root, walk);
    lemma_subtree_unfold(g, r, root, true, seq![]);
    let next = handed_down(g, true, seq![], root as usize);
    let n = g[root].children.len() as int;
    let own = own_command(g, root, true, seq![]);
    let rest = children_plan(g, r, root, n, next.0, next.1);
    let all = draw_order(g, root);
    assert(all == own + rest);
    lemma_below_child(g, r, root, walk, i1, all[j1].node as int);
    lemma_below_child(g, r, root, walk, i2, all[j2].node as int);
    if own.len() > 0 {
        assert(all[0].node == root);
    }
    assert(j1 >= own.len() && j2 >= own.len());
    assert(all[j1] == rest[j1 - own.len()]);
    assert(all[j2] == rest[j2 - own.len()]);
    lemma_children_in_order(
        g,
        r,
        root,
        walk,
        root,
        n,
        next.0,
        next.1,
        i1,
        i2,
        j1 - own.len(),
        j2 - own.len(),
    );
}

} // verus!
