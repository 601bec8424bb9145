use chunk_cluster::cluster::{Chunk, ClusterConfig};
use chunk_cluster::pipeline::chunk_map;
use chunk_cluster::placement::plan_links;
use chunk_cluster::topology::{classify, missing_connectors, raster, ChunkType};
use chunk_cluster::tree::build_tree;

fn chunks(points: &[(i32, i32)]) -> Vec<Chunk> {
    points.iter().map(|&(x, z)| Chunk { x, z, hash: 0 }).collect()
}

#[test]
fn edge_path_turns_at_corner() {
    let tree = build_tree(&chunks(&[(0, 0), (2, 1)]));
    let grid = classify(&tree, 0, 0, 3, 2);
    assert_eq!(grid.cells, vec![ChunkType::Target, ChunkType::Connecting, ChunkType::Connecting, ChunkType::Empty, ChunkType::Empty, ChunkType::Target]);
    assert_eq!(raster(&grid), vec![255, 127, 127, 0, 0, 255]);
    assert!(missing_connectors(&tree).is_empty());
}

#[test]
fn grid_with_offset_origin() {
    let tree = build_tree(&chunks(&[(-3, 7), (-3, 9)]));
    let grid = classify(&tree, -4, 7, 2, 3);
    assert_eq!(grid.cells, vec![ChunkType::Empty, ChunkType::Target, ChunkType::Empty, ChunkType::Connecting, ChunkType::Empty, ChunkType::Target]);
}

#[test]
fn single_anchor_no_connectors() {
    let tree = build_tree(&chunks(&[(1, 1)]));
    assert!(tree.edges.is_empty());
    let grid = classify(&tree, 0, 0, 3, 3);
    let anchors = grid.cells.iter().filter(|c| **c == ChunkType::Target).count();
    let connectors = grid.cells.iter().filter(|c| **c == ChunkType::Connecting).count();
    assert_eq!(anchors, 1);
    assert_eq!(connectors, 0);
    assert_eq!(grid.cells[4], ChunkType::Target);
    assert_eq!(missing_connectors(&tree), vec![(1, 1)]);
}

fn pipeline_config(cluster_size: u64) -> ClusterConfig {
    ClusterConfig {
        offset_x: -20,
        offset_z: 20,
        width: 50,
        cluster_size,
        hash_size: 2048,
        max_columns: 10000,
    }
}

#[test]
fn pipeline_single_chunk() {
    let m = match chunk_map(pipeline_config(1)) {
        Ok(m) => m,
        Err(e) => panic!("unexpected {:?}", e),
    };
    assert!(m.tree.edges.is_empty());
    let image = raster(&m.grid);
    assert_eq!(image.iter().filter(|p| **p == 255).count(), 1);
    assert_eq!(image.iter().filter(|p| **p == 127).count(), 0);
}

#[test]
fn pipeline_is_deterministic() {
    let a = match chunk_map(pipeline_config(30)) {
        Ok(m) => m,
        Err(e) => panic!("unexpected {:?}", e),
    };
    let b = match chunk_map(pipeline_config(30)) {
        Ok(m) => m,
        Err(e) => panic!("unexpected {:?}", e),
    };
    assert_eq!(raster(&a.grid), raster(&b.grid));
    assert_eq!(a.tree.edges, b.tree.edges);
    assert_eq!(a.grid.size_z, 50);
    assert_eq!(a.grid.cells.len(), a.grid.size_x as usize * 50);
    let image = raster(&a.grid);
    assert_eq!(image.iter().filter(|p| **p == 255).count(), 30);
    for n in &a.tree.nodes {
        let k = (n.x + 20) as usize + (n.z - 20) as usize * a.grid.size_x as usize;
        assert_eq!(image[k], 255);
    }
}

#[test]
fn plan_links_spans_occupied_chunks() {
    let tree = build_tree(&chunks(&[(0, 0), (2, 1)]));
    let grid = classify(&tree, 0, 0, 3, 2);
    let links = plan_links(&grid, (0, 0));
    assert_eq!(links, vec![((0, 0), (1, 0)), ((1, 0), (2, 0)), ((2, 0), (2, 1))]);
}

#[test]
fn plan_links_stops_at_empty_cells() {
    let tree = build_tree(&chunks(&[(0, 0)]));
    let grid = classify(&tree, 0, 0, 3, 3);
    assert!(plan_links(&grid, (0, 0)).is_empty());
}
