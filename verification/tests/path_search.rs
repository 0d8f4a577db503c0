use maze_paths::error::Error;
use maze_paths::graph::Graph;
use maze_paths::algo::Path;

fn s(text: &str) -> String {
    String::from(text)
}

/// The maze of the classic scenario: vertices 1, 2, 3, 4 where only 3 is an
/// exit, connected 1-2 (1.2), 2-3 (2.3), 1-4 (1.4), 2-4 (2.4), 3-4 (3.4).
fn four_vertex_maze() -> Graph {
    let mut g = Graph::new();
    g.new_vert(&s("1"), false);
    g.new_vert(&s("2"), false);
    g.new_vert(&s("3"), true);
    g.new_vert(&s("4"), false);
    g.new_edge(&s("1"), &s("2"), (1.2f64).to_bits()).unwrap();
    g.new_edge(&s("2"), &s("3"), (2.3f64).to_bits()).unwrap();
    g.new_edge(&s("1"), &s("4"), (1.4f64).to_bits()).unwrap();
    g.new_edge(&s("2"), &s("4"), (2.4f64).to_bits()).unwrap();
    g.new_edge(&s("3"), &s("4"), (3.4f64).to_bits()).unwrap();
    g
}

/// One found path as (vertex id, distance into it) pairs, distances decoded.
fn hops(g: &Graph, p: &Path) -> Vec<(String, f64)> {
    p.steps
        .iter()
        .map(|&(v, d)| (g.verts[v].id.clone(), f64::from_bits(d)))
        .collect()
}

/// Renders a path the way the original diagnostic dump did.
fn render_path(g: &Graph, p: &Path) -> String {
    let mut out = String::new();
    for (i, &(v, d)) in p.steps.iter().enumerate() {
        if i == 0 {
            out.push_str(&format!("[{}]", g.verts[v].id));
        } else {
            out.push_str(&format!(" -{}-> [{}]", f64::from_bits(d), g.verts[v].id));
        }
    }
    out
}

#[test]
fn find_path() {
    let g2 = four_vertex_maze();
    let mut g = four_vertex_maze();
    for (index, path) in g.DFS(&s("1")).unwrap().iter().enumerate() {
        println!("{}: {path}", index + 1, path = render_path(&g2, path));
    }
}

#[test]
fn four_vertex_maze_has_exactly_four_paths() {
    let mut g = four_vertex_maze();
    let paths = g.find_all_paths(&s("1")).unwrap();
    let mut found: Vec<Vec<(String, f64)>> = paths.iter().map(|p| hops(&four_vertex_maze(), p)).collect();
    let expected: Vec<Vec<(String, f64)>> = vec![
        vec![(s("1"), 0.0), (s("2"), 1.2), (s("3"), 2.3)],
        vec![(s("1"), 0.0), (s("2"), 1.2), (s("4"), 2.4), (s("3"), 3.4)],
        vec![(s("1"), 0.0), (s("4"), 1.4), (s("3"), 3.4)],
        vec![(s("1"), 0.0), (s("4"), 1.4), (s("2"), 2.4), (s("3"), 2.3)],
    ];
    assert_eq!(found.len(), 4);
    for want in &expected {
        let pos = found.iter().position(|have| have == want);
        assert!(pos.is_some(), "missing path {want:?}, found {found:?}");
        found.remove(pos.unwrap());
    }
    assert!(found.is_empty());
}

#[test]
fn unknown_start_fails_with_no_vertex() {
    let mut g = four_vertex_maze();
    assert!(matches!(g.find_all_paths(&s("9")), Err(Error::NoVertex)));
    let mut empty = Graph::new();
    assert!(matches!(empty.find_all_paths(&s("1")), Err(Error::NoVertex)));
}

#[test]
fn exit_start_yields_the_zero_hop_path() {
    let mut g = four_vertex_maze();
    let paths = g.find_all_paths(&s("3")).unwrap();
    let g2 = four_vertex_maze();
    assert!(
        paths
            .iter()
            .any(|p| hops(&g2, p) == vec![(s("3"), 0.0)]),
        "the zero-hop path is missing"
    );
}

#[test]
fn isolated_exit_start_yields_exactly_the_zero_hop_path() {
    let mut g = Graph::new();
    g.new_vert(&s("lonely"), true);
    let paths = g.find_all_paths(&s("lonely")).unwrap();
    assert_eq!(paths.len(), 1);
    assert_eq!(paths[0].steps, vec![(0usize, 0u64)]);
}

#[test]
fn isolated_plain_start_yields_no_path() {
    let mut g = Graph::new();
    g.new_vert(&s("lonely"), false);
    let paths = g.find_all_paths(&s("lonely")).unwrap();
    assert!(paths.is_empty());
}

#[test]
fn graph_without_exits_yields_no_path_and_no_error() {
    let mut g = Graph::new();
    g.new_vert(&s("a"), false);
    g.new_vert(&s("b"), false);
    g.new_edge(&s("a"), &s("b"), (0.5f64).to_bits()).unwrap();
    let paths = g.find_all_paths(&s("a")).unwrap();
    assert!(paths.is_empty());
}

#[test]
fn unreachable_exit_yields_no_path_and_no_error() {
    let mut g = Graph::new();
    g.new_vert(&s("a"), false);
    g.new_vert(&s("b"), false);
    g.new_vert(&s("far"), true);
    g.new_edge(&s("a"), &s("b"), (0.5f64).to_bits()).unwrap();
    let paths = g.find_all_paths(&s("a")).unwrap();
    assert!(paths.is_empty());
}

#[test]
fn search_leaves_no_marker_behind() {
    let mut g = four_vertex_maze();
    g.find_all_paths(&s("1")).unwrap();
    assert!(g.verts.iter().all(|v| !v.on_path));
    g.find_all_paths(&s("9")).unwrap_err();
    assert!(g.verts.iter().all(|v| !v.on_path));
    // and a second search over the same store still works
    let paths = g.find_all_paths(&s("1")).unwrap();
    assert_eq!(paths.len(), 4);
}

#[test]
fn exit_vertex_passes_the_search_on() {
    // a - e1 - e2, where both e1 and e2 are exits: the search does not stop
    // at e1 but walks through it to e2 as well
    let mut g = Graph::new();
    g.new_vert(&s("a"), false);
    g.new_vert(&s("e1"), true);
    g.new_vert(&s("e2"), true);
    g.new_edge(&s("a"), &s("e1"), (1.0f64).to_bits()).unwrap();
    g.new_edge(&s("e1"), &s("e2"), (2.0f64).to_bits()).unwrap();
    let paths = g.find_all_paths(&s("a")).unwrap();
    let g2 = {
        let mut h = Graph::new();
        h.new_vert(&s("a"), false);
        h.new_vert(&s("e1"), true);
        h.new_vert(&s("e2"), true);
        h
    };
    let found: Vec<Vec<(String, f64)>> = paths.iter().map(|p| hops(&g2, p)).collect();
    assert_eq!(found.len(), 2);
    assert!(found.contains(&vec![(s("a"), 0.0), (s("e1"), 1.0)]));
    assert!(found.contains(&vec![(s("a"), 0.0), (s("e1"), 1.0), (s("e2"), 2.0)]));
}

#[test]
fn print_graph() {
    // [1] <-0.5-> [2] <-1.2-> [3]
    let mut g = Graph::new();
    g.new_vert(&s("1"), false);
    g.new_vert(&s("2"), false);
    g.new_vert(&s("3"), false);
    g.new_edge(&s("1"), &s("2"), (0.5f64).to_bits()).unwrap();
    g.new_edge(&s("3"), &s("2"), (1.2f64).to_bits()).unwrap();

    let mut dump = String::new();
    for vert in &g.verts {
        for edge in &vert.edges {
            let target = &g.verts[edge.to];
            dump.push_str(&format!(
                "[{}{}] <-{}-> [{}{}]\n",
                if vert.is_exit { "*" } else { "" },
                vert.id,
                f64::from_bits(edge.dist),
                if target.is_exit { "*" } else { "" },
                target.id,
            ));
        }
    }
    println!("{g}", g = dump);
}
