use gloom_rs::draw::DrawCommand;
use gloom_rs::scene::{Helicopter, MeshPart, SceneGraph};

fn summary(plan: &[DrawCommand]) -> Vec<(usize, u32, i32, bool, Vec<usize>)> {
    plan.iter()
        .map(|c| (c.node, c.vao_id, c.index_count, c.from_caller, c.chain.clone()))
        .collect()
}

fn part(vao_id: u32, index_count: i32) -> MeshPart {
    MeshPart { vao_id, index_count }
}

#[test]
fn new_nodes_and_links() {
    let mut g = SceneGraph::new();
    let root = g.add_node();
    let mesh = g.add_node_from_vao(7, 36);
    assert_eq!((root, mesh), (0, 1));
    assert_eq!(g.vao_id(root), 0);
    assert_eq!(g.index_count(root), -1);
    assert_eq!(g.vao_id(mesh), 7);
    assert_eq!(g.index_count(mesh), 36);
    g.add_child(root, mesh);
    assert_eq!(g.child_count(root), 1);
    assert_eq!(g.child(root, 0), mesh);
    assert_eq!(g.child_count(mesh), 0);
    assert_eq!(g.len(), 2);
}

#[test]
fn helicopter_parts_hang_below_the_body() {
    let mut g = SceneGraph::new();
    let root = g.add_node();
    let h = g.construct_helicopter(part(2, 100), part(3, 30), part(4, 40), part(5, 50));
    assert_eq!(h, Helicopter { body: 1, door: 2, main_rotor: 3, tail_rotor: 4 });
    assert_eq!(g.child_count(h.body), 3);
    assert_eq!(g.child(h.body, 0), h.main_rotor);
    assert_eq!(g.child(h.body, 1), h.tail_rotor);
    assert_eq!(g.child(h.body, 2), h.door);
    assert_eq!(g.vao_id(g.child(h.body, 0)), 4);
    assert_eq!(g.vao_id(g.child(h.body, 1)), 5);
    assert_eq!(g.vao_id(g.child(h.body, 2)), 3);
    assert_eq!(g.vao_id(h.tail_rotor), 5);
    assert_eq!(g.index_count(h.main_rotor), 40);
    assert_eq!(g.child_count(root), 0);
    assert!(g.is_acyclic_below(root));
    assert!(g.is_acyclic_below(h.body));
}

#[test]
fn scene_of_terrain_and_helicopters_draws_depth_first() {
    let mut g = SceneGraph::new();
    let root = g.add_node();
    let terrain = g.add_node_from_vao(1, 600);
    g.add_child(root, terrain);
    let mut bodies = Vec::new();
    for _ in 0..2 {
        let h = g.construct_helicopter(part(2, 100), part(3, 30), part(4, 40), part(5, 50));
        g.add_child(terrain, h.body);
        bodies.push(h.body);
    }
    assert_eq!(bodies, vec![2, 6]);
    assert!(g.is_acyclic_below(root));
    let plan = g.draw_plan(root);
    assert_eq!(
        summary(&plan),
        vec![
            (1, 1, 600, false, vec![1]),
            (2, 2, 100, false, vec![1, 2]),
            (4, 4, 40, false, vec![1, 2, 4]),
            (5, 5, 50, false, vec![1, 2, 5]),
            (3, 3, 30, false, vec![1, 2, 3]),
            (6, 2, 100, false, vec![1, 6]),
            (8, 4, 40, false, vec![1, 6, 8]),
            (9, 5, 50, false, vec![1, 6, 9]),
            (7, 3, 30, false, vec![1, 6, 7]),
        ]
    );
}

#[test]
fn drawn_root_passes_the_callers_matrix_down() {
    let mut g = SceneGraph::new();
    let top = g.add_node_from_vao(9, 3);
    let hidden = g.add_node();
    let leaf = g.add_node_from_vao(8, 6);
    let side = g.add_node_from_vao(7, 9);
    g.add_child(top, hidden);
    g.add_child(hidden, leaf);
    g.add_child(top, side);
    let plan = g.draw_plan(top);
    assert_eq!(
        summary(&plan),
        vec![
            (0, 9, 3, true, vec![0]),
            (2, 8, 6, false, vec![2]),
            (3, 7, 9, true, vec![0, 3]),
        ]
    );
}

#[test]
fn shared_child_is_drawn_once_per_parent() {
    let mut g = SceneGraph::new();
    let a = g.add_node_from_vao(1, 1);
    let b = g.add_node_from_vao(2, 2);
    let shared = g.add_node_from_vao(3, 3);
    g.add_child(a, b);
    g.add_child(a, shared);
    g.add_child(b, shared);
    assert!(g.is_acyclic_below(a));
    let plan = g.draw_plan(a);
    assert_eq!(
        summary(&plan),
        vec![
            (0, 1, 1, true, vec![0]),
            (1, 2, 2, true, vec![0, 1]),
            (2, 3, 3, true, vec![0, 1, 2]),
            (2, 3, 3, true, vec![0, 2]),
        ]
    );
}

#[test]
fn links_to_older_nodes_are_fine_without_a_cycle() {
    let mut g = SceneGraph::new();
    let leaf = g.add_node_from_vao(4, 4);
    let parent = g.add_node_from_vao(5, 5);
    g.add_child(parent, leaf);
    assert!(g.is_acyclic_below(parent));
    let plan = g.draw_plan(parent);
    assert_eq!(summary(&plan), vec![(1, 5, 5, true, vec![1]), (0, 4, 4, true, vec![1, 0])]);
}

#[test]
fn cycles_are_detected() {
    let mut g = SceneGraph::new();
    let a = g.add_node();
    let b = g.add_node_from_vao(1, 3);
    let c = g.add_node_from_vao(2, 3);
    g.add_child(a, b);
    g.add_child(b, c);
    assert!(g.is_acyclic_below(a));
    g.add_child(c, b);
    assert!(!g.is_acyclic_below(a));
    assert!(!g.is_acyclic_below(b));
    assert!(!g.is_acyclic_below(c));

    let mut h = SceneGraph::new();
    let n = h.add_node();
    h.add_child(n, n);
    assert!(!h.is_acyclic_below(n));
}

#[test]
fn cycle_elsewhere_does_not_stop_drawing() {
    let mut g = SceneGraph::new();
    let root = g.add_node_from_vao(1, 3);
    let leaf = g.add_node_from_vao(2, 6);
    let x = g.add_node();
    let y = g.add_node_from_vao(3, 9);
    g.add_child(root, leaf);
    g.add_child(x, y);
    g.add_child(y, x);
    g.add_child(y, leaf);
    assert!(g.is_acyclic_below(root));
    assert!(g.is_acyclic_below(leaf));
    assert!(!g.is_acyclic_below(x));
    let plan = g.draw_plan(root);
    assert_eq!(summary(&plan), vec![(0, 1, 3, true, vec![0]), (1, 2, 6, true, vec![0, 1])]);
}

#[test]
fn node_without_mesh_draws_nothing_itself() {
    let mut g = SceneGraph::new();
    let root = g.add_node();
    assert!(g.is_acyclic_below(root));
    assert!(g.draw_plan(root).is_empty());
}
