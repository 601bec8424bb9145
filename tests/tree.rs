use chunk_cluster::cluster::Chunk;
use chunk_cluster::tree::{build_tree, dist, SpanningTree};

fn chunks(points: &[(i32, i32)]) -> Vec<Chunk> {
    points.iter().map(|&(x, z)| Chunk { x, z, hash: 0 }).collect()
}

fn manhattan(a: &Chunk, b: &Chunk) -> u64 {
    ((a.x as i64 - b.x as i64).abs() + (a.z as i64 - b.z as i64).abs()) as u64
}

fn find(p: &mut Vec<usize>, x: usize) -> usize {
    let mut r = x;
    while p[r] != r {
        r = p[r];
    }
    r
}

/// Kruskal's algorithm on the complete distance graph.
fn kruskal_weight(nodes: &[Chunk]) -> u64 {
    let n = nodes.len();
    let mut pairs = Vec::new();
    for i in 0..n {
        for j in i + 1..n {
            pairs.push((manhattan(&nodes[i], &nodes[j]), i, j));
        }
    }
    pairs.sort();
    let mut parent: Vec<usize> = (0..n).collect();
    let mut total = 0;
    for (w, i, j) in pairs {
        let (a, b) = (find(&mut parent, i), find(&mut parent, j));
        if a != b {
            parent[a] = b;
            total += w;
        }
    }
    total
}

fn connected(tree: &SpanningTree) -> bool {
    let n = tree.nodes.len();
    let mut seen = vec![false; n];
    if n == 0 {
        return true;
    }
    seen[0] = true;
    let mut changed = true;
    while changed {
        changed = false;
        for e in &tree.edges {
            if seen[e.a] != seen[e.b] {
                seen[e.a] = true;
                seen[e.b] = true;
                changed = true;
            }
        }
    }
    seen.iter().all(|&s| s)
}

#[test]
fn dist_is_manhattan() {
    assert_eq!(dist(&(0, 0), &(3, -4)), 7);
    assert_eq!(dist(&(-2, 5), &(-2, 5)), 0);
    assert_eq!(dist(&(i32::MIN, i32::MIN), &(i32::MAX, i32::MAX)), 2 * (u32::MAX as u64));
}

#[test]
fn tree_matches_kruskal() {
    let sets: Vec<Vec<(i32, i32)>> = vec![
        vec![(0, 0), (5, 0), (5, 5), (0, 5), (2, 2)],
        vec![(10, -3), (-7, 4), (0, 0), (3, 3), (3, -9), (-4, -4), (8, 8)],
        vec![(1, 1), (1, 1), (2, 2)],
    ];
    for points in sets {
        let cells = chunks(&points);
        let tree = build_tree(&cells);
        assert_eq!(tree.nodes, cells);
        assert_eq!(tree.edges.len(), cells.len() - 1);
        assert!(connected(&tree));
        let total: u64 = tree.edges.iter().map(|e| e.weight).sum();
        for e in &tree.edges {
            assert_eq!(e.weight, manhattan(&cells[e.a], &cells[e.b]));
        }
        assert_eq!(total, kruskal_weight(&cells));
    }
}

#[test]
fn single_node_tree_has_no_edges() {
    let tree = build_tree(&chunks(&[(4, 4)]));
    assert_eq!(tree.nodes.len(), 1);
    assert!(tree.edges.is_empty());
}

#[test]
fn empty_tree() {
    let tree = build_tree(&Vec::new());
    assert!(tree.nodes.is_empty());
    assert!(tree.edges.is_empty());
}
