//! Walking a scene graph along its links: paths, rankings that decrease
//! along every link, and the check that a walk from a node ends.

use vstd::prelude::*;

use crate::scene::{children_in_range, NodeView, SceneGraph};

verus! {

/// `c` is a child of `p` in `g`.
pub open spec fn is_link(g: Seq<NodeView>, p: int, c: int) -> bool {
    0 <= p < g.len() && exists|i: int| 0 <= i < g[p].children.len() && g[p].children[i] == c
}

/// Each node of `s` after the first is a child of the node before it.
pub open spec fn is_path(g: Seq<NodeView>, s: Seq<usize>) -> bool {
    forall|k: int| 0 <= k < s.len() - 1 ==> #[trigger] is_link(g, s[k] as int, s[k + 1] as int)
}

/// `path` is a path of `g` that starts at the node `from`.
pub open spec fn reaches(g: Seq<NodeView>, from: int, path: Seq<usize>) -> bool {
    &&& 0 <= from < g.len()
    &&& path.len() > 0
    &&& path[0] == from
    &&& is_path(g, path)
}

/// Some path of `g` leads from `from` to `x`.
pub open spec fn reachable(g: Seq<NodeView>, from: int, x: int) -> bool {
    exists|path: Seq<usize>| reaches(g, from, path) && path.last() == x
}

/// `r` gives every child a smaller rank than each of its parents.
pub open spec fn ranked_by(g: Seq<NodeView>, r: spec_fn(int) -> nat) -> bool {
    forall|p: int, i: int|
        0 <= p < g.len() && 0 <= i < g[p].children.len() ==> #[trigger] r(g[p].children[i] as int)
            < r(p)
}

/// No node of `g` is its own descendant: some ranking decreases along every
/// link.
pub open spec fn acyclic(g: Seq<NodeView>) -> bool {
    exists|r: spec_fn(int) -> nat| ranked_by(g, r)
}

/// `r` gives every child of a node reachable from `root` a smaller rank than
/// that node.
pub open spec fn ranked_below(g: Seq<NodeView>, r: spec_fn(int) -> nat, root: int) -> bool {
    forall|p: int, i: int|
        reachable(g, root, p) && 0 <= p < g.len() && 0 <= i < g[p].children.len()
            ==> #[trigger] r(g[p].children[i] as int) < r(p)
}

/// No node reachable from `root` is its own descendant, so that every walk
/// down from `root` ends.
pub open spec fn acyclic_below(g: Seq<NodeView>, root: int) -> bool {
    exists|r: spec_fn(int) -> nat| ranked_below(g, r, root)
}

/// A ranking that decreases along every link below `root`, if there is one.
pub open spec fn some_rank_below(g: Seq<NodeView>, root: int) -> spec_fn(int) -> nat {
    choose|r: spec_fn(int) -> nat| ranked_below(g, r, root)
}

/// The link between two neighbours of a path.
pub proof fn lemma_path_link(g: Seq<NodeView>, s: Seq<usize>, k: int)
    requires
        is_path(g, s),
        0 <= k < s.len() - 1,
    ensures
        is_link(g, s[k] as int, s[k + 1] as int),
{
}

/// A path followed by a child of its last node is a path.
pub proof fn lemma_path_push(g: Seq<NodeView>, from: int, s: Seq<usize>, c: usize)
    requires
        reaches(g, from, s),
        is_link(g, s.last() as int, c as int),
    ensures
        reaches(g, from, s.push(c)),
        reachable(g, from, c as int),
{
    let t = s.push(c);
    assert forall|k: int| 0 <= k < t.len() - 1 implies #[trigger] is_link(
        g,
        t[k] as int,
        t[k + 1] as int,
    ) by {
        if k < s.len() - 1 {
            lemma_path_link(g, s, k);
        }
    }
    assert(t.last() == c);
}

/// The one-node path of `root` reaches `root`.
pub proof fn lemma_root_reachable(g: Seq<NodeView>, root: int)
    requires
        0 <= root < g.len(),
        root <= usize::MAX,
    ensures
        reaches(g, root, seq![root as usize]),
        reachable(g, root, root),
{
    let s = seq![root as usize];
    assert(s.last() == root as usize);
}

/// A ranking of the whole graph ranks what lies below any node.
pub proof fn acyclic_is_acyclic_below(g: Seq<NodeView>, root: int)
    requires
        acyclic(g),
    ensures
        acyclic_below(g, root),
{
    let r = choose|r: spec_fn(int) -> nat| ranked_by(g, r);
    assert(ranked_below(g, r, root));
}

/// The number of entries of `s` that are `false`.
spec fn count_false(s: Seq<bool>) -> nat
    decreases s.len(),
{
    if s.len() == 0 {
        0
    } else {
        count_false(s.drop_last()) + if s.last() {
            0nat
        } else {
            1nat
        }
    }
}

proof fn lemma_count_false_bounds(s: Seq<bool>)
    ensures
        count_false(s) <= s.len(),
        count_false(s) == 0 <==> forall|i: int| 0 <= i < s.len() ==> s[i],
    decreases s.len(),
{
    if s.len() > 0 {
        lemma_count_false_bounds(s.drop_last());
        if count_false(s) == 0 {
            assert forall|i: int| 0 <= i < s.len() implies s[i] by {
                if i < s.len() - 1 {
                    assert(s.drop_last()[i] == s[i]);
                }
            }
        }
        if forall|i: int| 0 <= i < s.len() ==> s[i] {
            assert forall|i: int| 0 <= i < s.drop_last().len() implies s.drop_last()[i] by {
                assert(s[i]);
            }
        }
    }
}

proof fn lemma_count_false_set(s: Seq<bool>, i: int)
    requires
        0 <= i < s.len(),
        !s[i],
    ensures
        count_false(s.update(i, true)) + 1 == count_false(s),
    decreases s.len(),
{
    let t = s.update(i, true);
    if i == s.len() - 1 {
        assert(t.drop_last() =~= s.drop_last());
    } else {
        assert(t.drop_last() =~= s.drop_last().update(i, true));
        lemma_count_false_set(s.drop_last(), i);
    }
}

/// Some child of `node` is not yet marked in `marked`.
spec fn has_unmarked_child(g: Seq<NodeView>, marked: Seq<bool>, node: int) -> bool {
    exists|i: int| 0 <= i < g[node].children.len() && !marked[#[trigger] g[node].children[i] as int]
}

/// The children of marked nodes are marked.
spec fn marks_closed(g: Seq<NodeView>, marked: Seq<bool>) -> bool {
    forall|p: int, i: int|
        0 <= p < g.len() && marked[p] && 0 <= i < g[p].children.len() ==> marked[#[trigger] g[
            p].children[i] as int]
}

/// When the children of marked nodes are marked, a path from a marked node
/// stays on marked nodes.
proof fn lemma_path_stays_marked(g: Seq<NodeView>, marked: Seq<bool>, path: Seq<usize>)
    requires
        children_in_range(g),
        marked.len() == g.len(),
        marks_closed(g, marked),
        path.len() > 0,
        path[0] < g.len(),
        marked[path[0] as int],
        is_path(g, path),
    ensures
        path.last() < g.len(),
        marked[path.last() as int],
    decreases path.len(),
{
    if path.len() > 1 {
        let front = path.drop_last();
        assert(is_path(g, front)) by {
            assert forall|k: int| 0 <= k < front.len() - 1 implies #[trigger] is_link(
                g,
                front[k] as int,
                front[k + 1] as int,
            ) by {
                lemma_path_link(g, path, k);
            }
        }
        lemma_path_stays_marked(g, marked, front);
        lemma_path_link(g, path, path.len() - 2);
        let p = path[path.len() - 2] as int;
        let i = choose|i: int| 0 <= i < g[p].children.len() && g[p].children[i] == path.last();
        assert(marked[g[p].children[i] as int]);
    }
}

/// When every unmarked node has an unmarked child, no ranking decreases
/// below a node that an unmarked node is reachable from: following unmarked
/// children would descend forever.
proof fn lemma_stuck_is_not_ranked(
    g: Seq<NodeView>,
    marked: Seq<bool>,
    r: spec_fn(int) -> nat,
    root: int,
    path: Seq<usize>,
)
    requires
        children_in_range(g),
        g.len() <= usize::MAX,
        marked.len() == g.len(),
        reaches(g, root, path),
        path.last() < g.len(),
        !marked[path.last() as int],
        forall|j: int| 0 <= j < g.len() && !marked[j] ==> has_unmarked_child(g, marked, j),
    ensures
        !ranked_below(g, r, root),
    decreases r(path.last() as int),
{
    if ranked_below(g, r, root) {
        let u = path.last() as int;
        assert(has_unmarked_child(g, marked, u));
        let i = choose|i: int|
            0 <= i < g[u].children.len() && !marked[#[trigger] g[u].children[i] as int];
        let c = g[u].children[i];
        assert(c < g.len());
        assert(is_link(g, u, c as int));
        lemma_path_push(g, root, path, c);
        assert(reachable(g, root, u));
        assert(r(g[u].children[i] as int) < r(u));
        lemma_stuck_is_not_ranked(g, marked, r, root, path.push(c));
    }
}

impl SceneGraph {
    fn children_marked(&self, node: usize, marked: &Vec<bool>) -> (ready: bool)
        requires
            node < self@.len(),
            marked@.len() == self@.len(),
            children_in_range(self@),
        ensures
            ready ==> forall|i: int|
                0 <= i < self@[node as int].children.len() ==> #[trigger] marked@[self@[
                node as int].children[i] as int],
            !ready ==> has_unmarked_child(self@, marked@, node as int),
    {
        let n = self.child_count(node);
        let ghost kids = self@[node as int].children;
        let mut i: usize = 0;
        while i < n
            invariant
                0 <= i <= n,
                n == kids.len(),
                node < self@.len(),
                marked@.len() == self@.len(),
                children_in_range(self@),
                kids == self@[node as int].children,
                forall|j: int| 0 <= j < i ==> #[trigger] marked@[kids[j] as int],
            decreases n - i,
        {
            let c = self.child(node, i);
            if !marked[c] {
                assert(!marked@[kids[i as int] as int]);
                return false;
            }
            i = i + 1;
        }
        true
    }

    /// Whether every walk down from `root` ends, that is, whether no node
    /// reachable from `root` is its own descendant.
    ///
    /// Nodes are marked, one at a time, once all their children are marked;
    /// the walk from `root` ends exactly when `root` gets marked.
    pub fn is_acyclic_below(&self, root: usize) -> (ok: bool)
        requires
            root < self@.len(),
        ensures
            ok == acyclic_below(self@, root as int),
    {
        let n = self.len();
        let mut marked: Vec<bool> = Vec::new();
        while marked.len() < n
            invariant
                marked@.len() <= n,
                count_false(marked@) == marked@.len(),
                forall|j: int| 0 <= j < marked@.len() ==> !marked@[j],
            decreases n - marked@.len(),
        {
            let ghost before = marked@;
            marked.push(false);
            assert(marked@.drop_last() =~= before);
        }
        let ghost g = self@;
        let ghost mut rank: Seq<nat> = Seq::new(n as nat, |i: int| 0nat);
        let mut next: usize = 0;
        loop
            invariant
                g == self@,
                n == g.len(),
                n <= usize::MAX,
                root < n,
                children_in_range(g),
                marked@.len() == n,
                rank.len() == n,
                next + count_false(marked@) == n,
                forall|p: int|
                    #![trigger marked@[p]]
                    0 <= p < n && marked@[p] ==> rank[p] < next && forall|i: int|
                        0 <= i < g[p].children.len() ==> marked@[#[trigger] g[p].children[i] as int]
                            && rank[g[p].children[i] as int] < rank[p],
            ensures
                g == self@,
                n == g.len(),
                n <= usize::MAX,
                root < n,
                children_in_range(g),
                marked@.len() == n,
                rank.len() == n,
                forall|p: int|
                    #![trigger marked@[p]]
                    0 <= p < n && marked@[p] ==> forall|i: int|
                        0 <= i < g[p].children.len() ==> marked@[#[trigger] g[p].children[i] as int]
                            && rank[g[p].children[i] as int] < rank[p],
                forall|j: int| 0 <= j < n && !marked@[j] ==> has_unmarked_child(g, marked@, j),
            decreases count_false(marked@),
        {
            let ghost start = marked@;
            let mut progress = false;
            let mut p: usize = 0;
            while p < n
                invariant
                    g == self@,
                    n == g.len(),
                    children_in_range(g),
                    0 <= p <= n,
                    marked@.len() == n,
                    rank.len() == n,
                    start.len() == n,
                    next + count_false(marked@) == n,
                    forall|q: int|
                        #![trigger marked@[q]]
                        0 <= q < n && marked@[q] ==> rank[q] < next && forall|i: int|
                            0 <= i < g[q].children.len() ==> marked@[#[trigger] g[q].children[i] as int]
                                && rank[g[q].children[i] as int] < rank[q],
                    !progress ==> marked@ == start,
                    progress ==> count_false(marked@) < count_false(start),
                    !progress ==> forall|j: int|
                        0 <= j < p && !marked@[j] ==> has_unmarked_child(g, marked@, j),
                decreases n - p,
            {
                if !marked[p] {
                    let ready = self.children_marked(p, &marked);
                    if ready {
                        let ghost m0 = marked@;
                        proof {
                            lemma_count_false_set(m0, p as int);
                            lemma_count_false_bounds(marked@.update(p as int, true));
                        }
                        marked.set(p, true);
                        proof {
                            rank = rank.update(p as int, next as nat);
                        }
                        assert forall|q: int|
                            #![trigger marked@[q]]
                            0 <= q < n && marked@[q] implies rank[q] < next + 1 && forall|i: int|
                                0 <= i < g[q].children.len() ==> marked@[#[trigger] g[q].children[i] as int]
                                    && rank[g[q].children[i] as int] < rank[q] by {
                            if q == p {
                                assert forall|i: int| 0 <= i < g[q].children.len() implies marked@[
                                    #[trigger] g[q].children[i] as int] && rank[g[q].children[i] as int]
                                    < rank[q] by {
                                    let c = g[q].children[i] as int;
                                    assert(m0[c]);
                                    assert(c != p);
                                }
                            } else {
                                assert(m0[q]);
                                assert forall|i: int| 0 <= i < g[q].children.len() implies marked@[
                                    #[trigger] g[q].children[i] as int] && rank[g[q].children[i] as int]
                                    < rank[q] by {
                                    let c = g[q].children[i] as int;
                                    assert(m0[c]);
                                    assert(c != p);
                                }
                            }
                        }
                        next = next + 1;
                        progress = true;
                    }
                }
                p = p + 1;
            }
            if !progress {
                break;
            }
        }
        proof {
            lemma_root_reachable(g, root as int);
            let m = marked@;
            assert(marks_closed(g, m)) by {
                assert forall|p: int, i: int|
                    0 <= p < g.len() && m[p] && 0 <= i < g[p].children.len() implies m[
                    #[trigger] g[p].children[i] as int] by {
                    assert(m[p]);
                }
            }
            if m[root as int] {
                let f = |i: int| rank[i];
                assert forall|p: int, i: int|
                    reachable(g, root as int, p) && 0 <= p < g.len() && 0 <= i
                        < g[p].children.len() implies #[trigger] f(g[p].children[i] as int) < f(p) by {
                    let path = choose|path: Seq<usize>| reaches(g, root as int, path) && path.last() == p;
                    lemma_path_stays_marked(g, m, path);
                    assert(m[p]);
                }
                assert(ranked_below(g, f, root as int));
            } else {
                if acyclic_below(g, root as int) {
                    let r = choose|r: spec_fn(int) -> nat| ranked_below(g, r, root as int);
                    lemma_stuck_is_not_ranked(g, m, r, root as int, seq![root]);
                }
            }
        }
        marked[root]
    }
}

} // verus!
