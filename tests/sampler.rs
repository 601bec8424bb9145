use chunk_cluster::cluster::{sample_cluster, Chunk, ClusterConfig, ClusterError, Sampler};
use chunk_cluster::hash::{cell_hash, mix};

fn config(cluster_size: u64, hash_size: u64) -> ClusterConfig {
    ClusterConfig {
        offset_x: -20,
        offset_z: 20,
        width: 50,
        cluster_size,
        hash_size,
        max_columns: 10000,
    }
}

#[test]
fn mix_known_values() {
    assert_eq!(mix(0), 0);
    assert_eq!(mix(1), 11400835581346112721);
}

#[test]
fn cell_hash_packs_signed_coordinates() {
    assert_eq!(cell_hash(-20, 20, 2047), 1935);
    assert_eq!(cell_hash(3, -5, 2047), 1809);
    assert_eq!(cell_hash(-20, 20, u64::MAX), mix(90194313196));
}

#[test]
fn lookup_table_two_of_eight() {
    // Hash space 8, K = 2: candidates need a hash of at least 6.
    let cfg = ClusterConfig {
        offset_x: 0,
        offset_z: 0,
        width: 2,
        cluster_size: 2,
        hash_size: 8,
        max_columns: 10,
    };
    let mut s = match Sampler::new(cfg) {
        Ok(s) => s,
        Err(_) => panic!("valid configuration"),
    };
    s.advance(&vec![3, 7]);
    // 7 is a candidate but exceeds the bound 6 + 0.
    assert_eq!(s.accepted.len(), 0);
    assert_eq!(s.pending, vec![Chunk { x: 0, z: 1, hash: 7 }]);
    s.advance(&vec![6, 2]);
    assert_eq!(s.columns, 2);
    assert_eq!(
        s.accepted,
        vec![Chunk { x: 1, z: 0, hash: 6 }, Chunk { x: 0, z: 1, hash: 7 }]
    );
    assert!(s.pending.is_empty());
}

#[test]
fn lookup_table_ties_take_larger_coordinate() {
    let cfg = ClusterConfig {
        offset_x: 0,
        offset_z: 0,
        width: 3,
        cluster_size: 1,
        hash_size: 8,
        max_columns: 10,
    };
    let mut s = match Sampler::new(cfg) {
        Ok(s) => s,
        Err(_) => panic!("valid configuration"),
    };
    s.advance(&vec![7, 7, 1]);
    assert_eq!(s.accepted, vec![Chunk { x: 0, z: 1, hash: 7 }]);
    assert_eq!(s.pending, vec![Chunk { x: 0, z: 0, hash: 7 }]);
}

#[test]
fn live_cluster_has_k_ranked_chunks() {
    for k in [1u64, 2, 10, 40] {
        let cfg = config(k, 2048);
        let c = match sample_cluster(cfg) {
            Ok(c) => c,
            Err(e) => panic!("unexpected {:?}", e),
        };
        assert_eq!(c.chunks.len() as u64, k);
        let floor = 2048 - k;
        for (i, ch) in c.chunks.iter().enumerate() {
            assert_eq!(ch.hash, cell_hash(ch.x, ch.z, 2047));
            assert!(ch.hash >= floor && ch.hash <= floor + i as u64);
            assert!(ch.x >= -20 && ch.x < -20 + c.columns as i32);
            assert!(ch.z >= 20 && ch.z < 70);
        }
        for i in 0..c.chunks.len() {
            for j in i + 1..c.chunks.len() {
                assert!((c.chunks[i].x, c.chunks[i].z) != (c.chunks[j].x, c.chunks[j].z));
            }
        }
    }
}

#[test]
fn zero_cluster_scans_nothing() {
    let c = match sample_cluster(config(0, 2048)) {
        Ok(c) => c,
        Err(e) => panic!("unexpected {:?}", e),
    };
    assert!(c.chunks.is_empty());
    assert_eq!(c.columns, 0);
}

#[test]
fn configuration_errors() {
    assert!(matches!(sample_cluster(config(2, 6)), Err(ClusterError::HashSizeNotPowerOfTwo)));
    assert!(matches!(sample_cluster(config(2, 0)), Err(ClusterError::HashSizeNotPowerOfTwo)));
    assert!(matches!(sample_cluster(config(9, 8)), Err(ClusterError::ClusterTooLarge)));
    let mut cfg = config(2, 8);
    cfg.offset_x = i32::MAX;
    cfg.max_columns = 2;
    assert!(matches!(sample_cluster(cfg), Err(ClusterError::RegionOutOfRange)));
}

#[test]
fn scan_bound_is_unsatisfiable() {
    let mut cfg = config(5, 2048);
    cfg.max_columns = 0;
    assert!(matches!(sample_cluster(cfg), Err(ClusterError::Unsatisfiable)));
    let mut cfg = config(5, 2048);
    cfg.width = 0;
    cfg.max_columns = 3;
    assert!(matches!(sample_cluster(cfg), Err(ClusterError::Unsatisfiable)));
}

#[test]
fn lookup_table_stall_then_resume() {
    // Hash space 8, K = 4: floor 4; the i-th admitted hash is at most 4 + i.
    let cfg = ClusterConfig {
        offset_x: 0,
        offset_z: 0,
        width: 3,
        cluster_size: 4,
        hash_size: 8,
        max_columns: 10,
    };
    let mut s = match Sampler::new(cfg) {
        Ok(s) => s,
        Err(_) => panic!("valid configuration"),
    };
    s.advance(&vec![4, 6, 0]);
    assert_eq!(s.accepted, vec![Chunk { x: 0, z: 0, hash: 4 }]);
    s.advance(&vec![5, 0, 0]);
    assert_eq!(s.accepted.len(), 3);
    assert_eq!(s.accepted[2], Chunk { x: 0, z: 1, hash: 6 });
    s.advance(&vec![5, 5, 5]);
    let hashes: Vec<u64> = s.accepted.iter().map(|c| c.hash).collect();
    assert_eq!(hashes, vec![4, 5, 6, 5]);
    // Two candidates of hash 5 stay pending, below the largest admitted hash.
    assert_eq!(s.pending.len(), 2);
    assert!(s.pending.iter().all(|c| c.hash == 5));
}
