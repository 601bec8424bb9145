//! The whole chain: sample the cluster, span it with a tree, and classify
//! the scanned region.
use vstd::prelude::*;
use crate::cluster::{ClusterConfig, ClusterError, cluster_of, columns_of, config_error, lemma_cluster_cells, sample_cluster, scanned_cell};
use crate::topology::{ChunkType, is_node, on_some_path, ClassifiedGrid, class_of, classify, edges_in_range, grid_index, is_raster_of, pixel_of};
use crate::tree::{SpanningTree, build_tree, greedy_step, is_prim_tree, lemma_prim_tree_unique};

verus! {

/// The tree over a cluster and the classification of the scanned region,
/// `columns` cells along x by the column width along z.
pub struct ChunkMap {
    pub tree: SpanningTree,
    pub grid: ClassifiedGrid,
}

/// `m` is what the chain makes of `cfg`.
pub open spec fn chunk_map_of(cfg: ClusterConfig, m: ChunkMap) -> bool {
    &&& config_error(cfg) is None
    &&& m.tree.nodes@ == cluster_of(cfg)
    &&& m.tree.nodes@.len() == cfg.cluster_size
    &&& is_prim_tree(m.tree.nodes@, m.tree.edges@)
    &&& m.grid.origin_x == cfg.offset_x && m.grid.origin_z == cfg.offset_z
    &&& m.grid.size_x == columns_of(cfg) && m.grid.size_z == cfg.width
    &&& m.grid.cells@.len() == m.grid.size_x * m.grid.size_z
    &&& forall|dx: int, dz: int|
        0 <= dx < m.grid.size_x && 0 <= dz < m.grid.size_z ==> m.grid.cells@[#[trigger] grid_index(
            dx,
            dz,
            m.grid.size_x as int,
        )] == class_of(m.tree.nodes@, m.tree.edges@, cfg.offset_x + dx, cfg.offset_z + dz)
}

/// The chain is deterministic: for one configuration it yields one tree,
/// one classified grid, and one raster image, byte for byte.
pub proof fn lemma_chunk_map_determined(
    cfg: ClusterConfig,
    m1: ChunkMap,
    m2: ChunkMap,
    r1: Seq<u8>,
    r2: Seq<u8>,
)
    requires
        chunk_map_of(cfg, m1),
        chunk_map_of(cfg, m2),
        is_raster_of(m1.grid.cells@, r1),
        is_raster_of(m2.grid.cells@, r2),
    ensures
        m1.tree.nodes@ == m2.tree.nodes@,
        m1.tree.edges@ == m2.tree.edges@,
        m1.grid.cells@ == m2.grid.cells@,
        r1 == r2,
{
    lemma_prim_tree_unique(m1.tree.nodes@, m1.tree.edges@, m2.tree.edges@);
    let sx = m1.grid.size_x as int;
    let sz = m1.grid.size_z as int;
    assert forall|k: int| 0 <= k < m1.grid.cells@.len() implies m1.grid.cells@[k] == m2.grid.cells@[k] by {
        assert(sx != 0) by (nonlinear_arith)
            requires
                0 <= k < sx * sz,
        ;
        vstd::arithmetic::div_mod::lemma_fundamental_div_mod(k, sx);
        let dx = k % sx;
        let dz = k / sx;
        assert(0 <= dz < sz) by (nonlinear_arith)
            requires
                k == sx * dz + dx,
                0 <= dx < sx,
                0 <= k < sx * sz,
        ;
        assert(sx * dz == dz * sx) by (nonlinear_arith);
        assert(k == grid_index(dx, dz, sx));
    }
    assert(m1.grid.cells@ =~= m2.grid.cells@);
    assert forall|k: int| 0 <= k < r1.len() implies r1[k] == r2[k] by {
        assert(r1[k] == pixel_of(m1.grid.cells@[k]));
        assert(r2[k] == pixel_of(m2.grid.cells@[k]));
    }
    assert(r1 =~= r2);
}

proof fn lemma_prim_edges_in_range(tree: SpanningTree)
    requires
        is_prim_tree(tree.nodes@, tree.edges@),
    ensures
        edges_in_range(tree.nodes@, tree.edges@),
{
    assert forall|i: int| 0 <= i < tree.edges@.len() implies (#[trigger] tree.edges@[i]).a
        < tree.nodes@.len() && tree.edges@[i].b < tree.nodes@.len() by {
        assert(greedy_step(tree.nodes@, tree.edges@, i));
    }
}

/// Sample the cluster of `cfg`, build its tree, and classify every scanned
/// cell.
pub fn chunk_map(cfg: ClusterConfig) -> (r: Result<ChunkMap, ClusterError>)
    ensures
        match r {
            Ok(m) => chunk_map_of(cfg, m),
            Err(ClusterError::Unsatisfiable) => config_error(cfg) is None && cluster_of(cfg).len()
                < cfg.cluster_size,
            Err(e) => config_error(cfg) == Some(e),
        },
{
    let cluster = match sample_cluster(cfg) {
        Ok(c) => c,
        Err(e) => {
            return Err(e);
        },
    };
    let tree = build_tree(&cluster.chunks);
    proof {
        lemma_prim_edges_in_range(tree);
        assert(cluster.columns * cfg.width <= cfg.max_columns * cfg.width) by (nonlinear_arith)
            requires
                cluster.columns <= cfg.max_columns,
        ;
    }
    let grid = classify(&tree, cfg.offset_x, cfg.offset_z, cluster.columns, cfg.width);
    Ok(ChunkMap { tree, grid })
}

/// With a cluster of one chunk the tree has no edges, and the raster holds
/// exactly one anchor pixel, at that chunk, and no connector pixel.
pub proof fn lemma_single_chunk_map(cfg: ClusterConfig, m: ChunkMap, r: Seq<u8>)
    requires
        cfg.cluster_size == 1,
        chunk_map_of(cfg, m),
        is_raster_of(m.grid.cells@, r),
    ensures
        m.tree.edges@.len() == 0,
        ({
            let c = m.tree.nodes@[0];
            let k0 = grid_index(c.x - cfg.offset_x, c.z - cfg.offset_z, m.grid.size_x as int);
            &&& 0 <= k0 < r.len()
            &&& r[k0] == 255
            &&& forall|k: int| 0 <= k < r.len() && k != k0 ==> #[trigger] r[k] == 0
        }),
{
    let nodes = m.tree.nodes@;
    let edges = m.tree.edges@;
    let c = nodes[0];
    let sx = m.grid.size_x as int;
    let sz = m.grid.size_z as int;
    lemma_cluster_cells(cfg);
    assert(scanned_cell(cfg, columns_of(cfg), c));
    let dx0 = c.x - cfg.offset_x;
    let dz0 = c.z - cfg.offset_z;
    let k0 = grid_index(dx0, dz0, sx);
    assert(0 <= k0 < sx * sz) by (nonlinear_arith)
        requires
            0 <= dx0 < sx,
            0 <= dz0 < sz,
            k0 == dx0 + dz0 * sx,
    ;
    assert(is_node(nodes, 1, c.x as int, c.z as int));
    assert(m.grid.cells@[k0] == ChunkType::Target);
    assert forall|k: int| 0 <= k < r.len() && k != k0 implies #[trigger] r[k] == 0 by {
        assert(sx != 0) by (nonlinear_arith)
            requires
                0 <= k < sx * sz,
        ;
        vstd::arithmetic::div_mod::lemma_fundamental_div_mod(k, sx);
        let dx = k % sx;
        let dz = k / sx;
        assert(0 <= dz < sz) by (nonlinear_arith)
            requires
                k == sx * dz + dx,
                0 <= dx < sx,
                0 <= k < sx * sz,
        ;
        assert(sx * dz == dz * sx) by (nonlinear_arith);
        assert(k == grid_index(dx, dz, sx));
        let x = cfg.offset_x + dx;
        let z = cfg.offset_z + dz;
        if is_node(nodes, 1, x, z) {
            assert(x == c.x && z == c.z);
            assert(dx == dx0 && dz == dz0);
        }
        assert(!on_some_path(nodes, edges, 0, x, z));
        assert(m.grid.cells@[k] == ChunkType::Empty);
    }
}

} // verus!
