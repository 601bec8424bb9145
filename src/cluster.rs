//! The cluster sampler: scans the grid one column at a time and admits cells
//! whose hash reaches a shrinking rank threshold, until exactly `K` are found.
use vstd::prelude::*;
use crate::hash::{cell_hash, cell_hash_spec};

verus! {

/// A grid cell together with its hash.
#[derive(Clone, Copy, Debug, PartialEq, Eq, Structural)]
pub struct Chunk {
    pub x: i32,
    pub z: i32,
    pub hash: u64,
}

/// The sampler's constants.
#[derive(Clone, Copy, Debug, PartialEq, Eq, Structural)]
pub struct ClusterConfig {
    /// First scanned column (x).
    pub offset_x: i32,
    /// First cell of each column (z).
    pub offset_z: i32,
    /// Number of cells in a column.
    pub width: u32,
    /// Number of cells to find (`K`).
    pub cluster_size: u64,
    /// Size of the hash space; a power of two.
    pub hash_size: u64,
    /// Most columns the sampler may scan before it gives up.
    pub max_columns: u32,
}

#[derive(Clone, Copy, Debug, PartialEq, Eq, Structural)]
pub enum ClusterError {
    /// The hash space is not a power of two.
    HashSizeNotPowerOfTwo,
    /// More cells were asked for than the hash space holds.
    ClusterTooLarge,
    /// The scan region does not fit the 32-bit coordinate range, or holds
    /// more than `u32::MAX` cells.
    RegionOutOfRange,
    /// The scan bound was reached before `K` cells were admitted.
    Unsatisfiable,
}

pub open spec fn is_power_of_two(n: u64) -> bool {
    n > 0 && n & ((n - 1) as u64) == 0
}

/// The configuration errors, in the order they are checked.
pub open spec fn config_error(cfg: ClusterConfig) -> Option<ClusterError> {
    if !is_power_of_two(cfg.hash_size) {
        Some(ClusterError::HashSizeNotPowerOfTwo)
    } else if cfg.cluster_size > cfg.hash_size {
        Some(ClusterError::ClusterTooLarge)
    } else if cfg.offset_x + cfg.max_columns > i32::MAX + 1 || cfg.offset_z + cfg.width > i32::MAX
        + 1 || cfg.max_columns * cfg.width > u32::MAX {
        Some(ClusterError::RegionOutOfRange)
    } else {
        None
    }
}

pub open spec fn config_ok(cfg: ClusterConfig) -> bool {
    config_error(cfg).is_none()
}

/// The admission floor: the least hash a candidate may have.
pub open spec fn floor_of(cfg: ClusterConfig) -> int {
    cfg.hash_size - cfg.cluster_size
}

/// `a` leaves the pending pool before `b`: lower hash first, then the larger
/// coordinate.
pub open spec fn precedes(a: Chunk, b: Chunk) -> bool {
    a.hash < b.hash || (a.hash == b.hash && (a.x > b.x || (a.x == b.x && a.z > b.z)))
}

/// Index of the first chunk of `s[..n]` that no other precedes.
pub open spec fn best_index(s: Seq<Chunk>, n: int) -> int
    decreases n,
{
    if n <= 1 {
        0
    } else {
        let b = best_index(s, n - 1);
        if precedes(s[n - 1], s[b]) {
            n - 1
        } else {
            b
        }
    }
}

/// The candidates among the first `n` cells of column `col`, given the hashes
/// of that column's cells: those whose hash reaches `floor`.
pub open spec fn candidates(
    cfg: ClusterConfig,
    col: int,
    hashes: Seq<u64>,
    floor: int,
    n: int,
) -> Seq<Chunk>
    decreases n,
{
    if n <= 0 {
        Seq::empty()
    } else {
        let prev = candidates(cfg, col, hashes, floor, n - 1);
        if hashes[n - 1] >= floor {
            prev.push(
                Chunk {
                    x: (cfg.offset_x + col) as i32,
                    z: (cfg.offset_z + n - 1) as i32,
                    hash: hashes[n - 1],
                },
            )
        } else {
            prev
        }
    }
}

/// Admit the best pending candidate while it is within `floor + admitted`,
/// until `k` are admitted. Returns the admitted and the still pending.
pub open spec fn drain(k: int, floor: int, accepted: Seq<Chunk>, pending: Seq<Chunk>) -> (
    Seq<Chunk>,
    Seq<Chunk>,
)
    decreases pending.len(),
{
    if accepted.len() < k && pending.len() > 0 {
        let b = best_index(pending, pending.len() as int);
        if 0 <= b < pending.len() && pending[b].hash <= floor + accepted.len() {
            drain(k, floor, accepted.push(pending[b]), pending.remove(b))
        } else {
            (accepted, pending)
        }
    } else {
        (accepted, pending)
    }
}

/// One step: add the candidates of the next column, then drain.
pub open spec fn step(
    cfg: ClusterConfig,
    col: int,
    hashes: Seq<u64>,
    accepted: Seq<Chunk>,
    pending: Seq<Chunk>,
) -> (Seq<Chunk>, Seq<Chunk>) {
    let floor = floor_of(cfg);
    drain(
        cfg.cluster_size as int,
        floor,
        accepted,
        pending + candidates(cfg, col, hashes, floor, hashes.len() as int),
    )
}

/// The live hashes of column `col`.
pub open spec fn column_hashes(cfg: ClusterConfig, col: int) -> Seq<u64> {
    Seq::new(
        cfg.width as nat,
        |j: int| cell_hash_spec((cfg.offset_x + col) as i32, (cfg.offset_z + j) as i32, (cfg.hash_size - 1) as u64),
    )
}

/// The whole scan from column `col` on: the chunks admitted when it stops,
/// and the number of columns then scanned.
pub open spec fn run(cfg: ClusterConfig, col: int, accepted: Seq<Chunk>, pending: Seq<Chunk>) -> (
    Seq<Chunk>,
    int,
)
    decreases cfg.max_columns - col,
{
    if accepted.len() >= cfg.cluster_size || col >= cfg.max_columns {
        (accepted, col)
    } else {
        let (a, p) = step(cfg, col, column_hashes(cfg, col), accepted, pending);
        run(cfg, col + 1, a, p)
    }
}

/// What the sampler finds for `cfg`.
pub open spec fn cluster_of(cfg: ClusterConfig) -> Seq<Chunk> {
    run(cfg, 0, Seq::empty(), Seq::empty()).0
}

/// How many columns the sampler scans for `cfg`.
pub open spec fn columns_of(cfg: ClusterConfig) -> int {
    run(cfg, 0, Seq::empty(), Seq::empty()).1
}

/// The chunks of a cluster and the number of columns scanned to find them.
pub struct Cluster {
    pub chunks: Vec<Chunk>,
    pub columns: u32,
}

/// The sampler's state: the columns scanned so far, the admitted chunks and
/// the pending candidates.
pub struct Sampler {
    pub cfg: ClusterConfig,
    pub columns: u32,
    pub accepted: Vec<Chunk>,
    pub pending: Vec<Chunk>,
}

impl Sampler {
    pub open spec fn wf(&self) -> bool {
        config_ok(self.cfg) && self.columns <= self.cfg.max_columns && self.accepted@.len()
            <= self.cfg.cluster_size
    }

    pub open spec fn done(&self) -> bool {
        self.accepted@.len() >= self.cfg.cluster_size
    }

    pub fn new(cfg: ClusterConfig) -> (r: Result<Sampler, ClusterError>)
        ensures
            match r {
                Ok(s) => config_ok(cfg) && s.wf() && s.cfg == cfg && s.columns == 0
                    && s.accepted@ == Seq::<Chunk>::empty() && s.pending@ == Seq::<Chunk>::empty(),
                Err(e) => config_error(cfg) == Some(e),
            },
    {
        let h = cfg.hash_size;
        if h == 0 || h & (h - 1) != 0 {
            return Err(ClusterError::HashSizeNotPowerOfTwo);
        }
        if cfg.cluster_size > h {
            return Err(ClusterError::ClusterTooLarge);
        }
        assert(cfg.max_columns as u64 * cfg.width as u64 <= 0xFFFF_FFFFu64 * 0xFFFF_FFFFu64) by (nonlinear_arith)
            requires
                cfg.max_columns <= 0xFFFF_FFFFu64,
                cfg.width <= 0xFFFF_FFFFu64,
        ;
        if cfg.offset_x as i64 + cfg.max_columns as i64 > 0x8000_0000i64 || cfg.offset_z as i64
            + cfg.width as i64 > 0x8000_0000i64 || cfg.max_columns as u64 * cfg.width as u64
            > 0xFFFF_FFFFu64 {
            return Err(ClusterError::RegionOutOfRange);
        }
        Ok(Sampler { cfg, columns: 0, accepted: Vec::new(), pending: Vec::new() })
    }

    /// Index of the pending candidate that leaves first.
    fn best_pending(&self) -> (r: usize)
        requires
            self.pending@.len() > 0,
        ensures
            r == best_index(self.pending@, self.pending@.len() as int),
            r < self.pending@.len(),
    {
        let mut b: usize = 0;
        let mut i: usize = 1;
        while i < self.pending.len()
            invariant
                1 <= i <= self.pending@.len(),
                b == best_index(self.pending@, i as int),
                b < i,
            decreases self.pending@.len() - i,
        {
            let c = self.pending[i];
            let d = self.pending[b];
            if c.hash < d.hash || (c.hash == d.hash && (c.x > d.x || (c.x == d.x && c.z > d.z))) {
                b = i;
            }
            i = i + 1;
        }
        b
    }

    /// Scan the next column, whose cells have the hashes `hashes` (from
    /// `offset_z` up), then admit what may be admitted.
    pub fn advance(&mut self, hashes: &Vec<u64>)
        requires
            old(self).wf(),
            old(self).columns < old(self).cfg.max_columns,
            hashes@.len() == old(self).cfg.width,
        ensures
            final(self).wf(),
            final(self).cfg == old(self).cfg,
            final(self).columns == old(self).columns + 1,
            (final(self).accepted@, final(self).pending@) == step(
                old(self).cfg,
                old(self).columns as int,
                hashes@,
                old(self).accepted@,
                old(self).pending@,
            ),
    {
        let ghost cfg = self.cfg;
        let ghost col = self.columns as int;
        let ghost pend_before = self.pending@;
        let ghost a0 = self.accepted@;
        let floor: u64 = self.cfg.hash_size - self.cfg.cluster_size;
        let x: i32 = (self.cfg.offset_x as i64 + self.columns as i64) as i32;
        let mut j: usize = 0;
        while j < hashes.len()
            invariant
                self.cfg == cfg,
                self.columns == col,
                config_ok(cfg),
                0 <= col < cfg.max_columns,
                hashes@.len() == cfg.width,
                floor == floor_of(cfg),
                x == cfg.offset_x + col,
                j <= hashes@.len(),
                self.accepted@ == a0,
                a0.len() <= cfg.cluster_size,
                self.pending@ == pend_before + candidates(cfg, col, hashes@, floor as int, j as int),
            decreases hashes@.len() - j,
        {
            if hashes[j] >= floor {
                let z: i32 = (self.cfg.offset_z as i64 + j as i64) as i32;
                self.pending.push(Chunk { x, z, hash: hashes[j] });
            }
            j = j + 1;
            proof {
                assert(self.pending@ =~= pend_before + candidates(cfg, col, hashes@, floor as int, j as int));
            }
        }
        let ghost target = step(cfg, col, hashes@, self.accepted@, pend_before);
        while (self.accepted.len() as u64) < self.cfg.cluster_size && self.pending.len() > 0
            invariant
                self.cfg == cfg,
                self.columns == col,
                config_ok(cfg),
                0 <= col < cfg.max_columns,
                floor == floor_of(cfg),
                self.accepted@.len() <= cfg.cluster_size,
                drain(cfg.cluster_size as int, floor as int, self.accepted@, self.pending@)
                    == target,
            ensures
                drain(cfg.cluster_size as int, floor as int, self.accepted@, self.pending@) == (
                    self.accepted@,
                    self.pending@,
                ),
                self.accepted@.len() <= cfg.cluster_size,
                self.cfg == cfg,
                self.columns == col,
                drain(cfg.cluster_size as int, floor as int, self.accepted@, self.pending@)
                    == target,
            decreases self.pending@.len(),
        {
            let b = self.best_pending();
            if self.pending[b].hash <= floor + self.accepted.len() as u64 {
                let c = self.pending.remove(b);
                self.accepted.push(c);
            } else {
                break;
            }
        }
        self.columns = self.columns + 1;
    }
}

/// The live hashes of the next column to scan.
fn next_column_hashes(cfg: ClusterConfig, col: u32) -> (r: Vec<u64>)
    requires
        config_ok(cfg),
        col < cfg.max_columns,
    ensures
        r@ == column_hashes(cfg, col as int),
{
    let x: i32 = (cfg.offset_x as i64 + col as i64) as i32;
    let mask: u64 = cfg.hash_size - 1;
    let mut r: Vec<u64> = Vec::new();
    let mut j: u32 = 0;
    while j < cfg.width
        invariant
            config_ok(cfg),
            col < cfg.max_columns,
            x == cfg.offset_x + col,
            mask == cfg.hash_size - 1,
            j <= cfg.width,
            r@.len() == j,
            forall|i: int| 0 <= i < j ==> r@[i] == #[trigger] column_hashes(cfg, col as int)[i],
        decreases cfg.width - j,
    {
        let z: i32 = (cfg.offset_z as i64 + j as i64) as i32;
        r.push(cell_hash(x, z, mask));
        j = j + 1;
    }
    assert(r@ =~= column_hashes(cfg, col as int));
    r
}

/// Find the `K` chunks of the cluster that `cfg` describes.
pub fn sample_cluster(cfg: ClusterConfig) -> (r: Result<Cluster, ClusterError>)
    ensures
        match r {
            Ok(c) => config_ok(cfg) && c.chunks@ == cluster_of(cfg) && c.chunks@.len() == cfg.cluster_size
                && c.columns == columns_of(cfg) && c.columns <= cfg.max_columns
                && ranked(c.chunks@, floor_of(cfg)) && distinct_cells(c.chunks@) && all_scanned(
                cfg,
                c.columns as int,
                c.chunks@,
            ),
            Err(ClusterError::Unsatisfiable) => config_ok(cfg) && cluster_of(cfg).len()
                < cfg.cluster_size,
            Err(e) => config_error(cfg) == Some(e),
        },
{
    let mut s = match Sampler::new(cfg) {
        Ok(s) => s,
        Err(e) => {
            return Err(e);
        },
    };
    while (s.accepted.len() as u64) < cfg.cluster_size && s.columns < cfg.max_columns
        invariant
            s.wf(),
            s.cfg == cfg,
            run(cfg, s.columns as int, s.accepted@, s.pending@) == run(cfg, 0, Seq::empty(), Seq::empty()),
        decreases cfg.max_columns - s.columns,
    {
        let hashes = next_column_hashes(cfg, s.columns);
        s.advance(&hashes);
    }
    proof {
        lemma_cluster_ranks(cfg);
        lemma_cluster_cells(cfg);
    }
    if (s.accepted.len() as u64) < cfg.cluster_size {
        Err(ClusterError::Unsatisfiable)
    } else {
        Ok(Cluster { chunks: s.accepted, columns: s.columns })
    }
}

/// The `i`-th admitted chunk has a hash between `floor` and `floor + i`.
pub open spec fn ranked(accepted: Seq<Chunk>, floor: int) -> bool {
    forall|i: int| 0 <= i < accepted.len() ==> floor <= #[trigger] accepted[i].hash <= floor + i
}

pub open spec fn above_floor(pending: Seq<Chunk>, floor: int) -> bool {
    forall|i: int| 0 <= i < pending.len() ==> floor <= #[trigger] pending[i].hash
}

proof fn lemma_candidates_above(cfg: ClusterConfig, col: int, hashes: Seq<u64>, floor: int, n: int)
    ensures
        above_floor(candidates(cfg, col, hashes, floor, n), floor),
    decreases n,
{
    if n > 0 {
        lemma_candidates_above(cfg, col, hashes, floor, n - 1);
    }
}

proof fn lemma_best_index_range(s: Seq<Chunk>, n: int)
    requires
        1 <= n,
    ensures
        0 <= best_index(s, n) < n,
    decreases n,
{
    if n > 1 {
        lemma_best_index_range(s, n - 1);
    }
}

proof fn lemma_drain_ranked(k: int, floor: int, accepted: Seq<Chunk>, pending: Seq<Chunk>)
    requires
        ranked(accepted, floor),
        above_floor(pending, floor),
        accepted.len() <= k,
    ensures
        ranked(drain(k, floor, accepted, pending).0, floor),
        above_floor(drain(k, floor, accepted, pending).1, floor),
        drain(k, floor, accepted, pending).0.len() <= k,
    decreases pending.len(),
{
    if accepted.len() < k && pending.len() > 0 {
        let b = best_index(pending, pending.len() as int);
        lemma_best_index_range(pending, pending.len() as int);
        if pending[b].hash <= floor + accepted.len() {
            let taken = accepted.push(pending[b]);
            let rest = pending.remove(b);
            assert(ranked(taken, floor));
            assert forall|i: int| 0 <= i < rest.len() implies floor <= #[trigger] rest[i].hash by {
                if i < b {
                    assert(rest[i] == pending[i]);
                } else {
                    assert(rest[i] == pending[i + 1]);
                }
            }
            lemma_drain_ranked(k, floor, taken, rest);
        }
    }
}

proof fn lemma_run_ranked(cfg: ClusterConfig, col: int, accepted: Seq<Chunk>, pending: Seq<Chunk>)
    requires
        ranked(accepted, floor_of(cfg)),
        above_floor(pending, floor_of(cfg)),
        accepted.len() <= cfg.cluster_size,
    ensures
        ranked(run(cfg, col, accepted, pending).0, floor_of(cfg)),
        run(cfg, col, accepted, pending).0.len() <= cfg.cluster_size,
    decreases cfg.max_columns - col,
{
    if !(accepted.len() >= cfg.cluster_size || col >= cfg.max_columns) {
        let floor = floor_of(cfg);
        let hashes = column_hashes(cfg, col);
        let c = candidates(cfg, col, hashes, floor, hashes.len() as int);
        lemma_candidates_above(cfg, col, hashes, floor, hashes.len() as int);
        assert(above_floor(pending + c, floor)) by {
            assert forall|i: int| 0 <= i < (pending + c).len() implies floor <= #[trigger] (pending
                + c)[i].hash by {
                if i < pending.len() {
                    assert((pending + c)[i] == pending[i]);
                } else {
                    assert((pending + c)[i] == c[i - pending.len()]);
                }
            }
        }
        lemma_drain_ranked(cfg.cluster_size as int, floor, accepted, pending + c);
        let (a, p) = step(cfg, col, hashes, accepted, pending);
        lemma_run_ranked(cfg, col + 1, a, p);
    }
}

/// The sampler admits at most `K` chunks, and the `i`-th admitted one has a
/// hash between the admission floor `hash_size - K` and `floor + i`.
pub proof fn lemma_cluster_ranks(cfg: ClusterConfig)
    requires
        config_ok(cfg),
    ensures
        cluster_of(cfg).len() <= cfg.cluster_size,
        ranked(cluster_of(cfg), floor_of(cfg)),
{
    lemma_run_ranked(cfg, 0, Seq::empty(), Seq::empty());
}

/// `c` is a cell of the first `col` scanned columns, with its live hash.
pub open spec fn scanned_cell(cfg: ClusterConfig, col: int, c: Chunk) -> bool {
    &&& cfg.offset_x <= c.x < cfg.offset_x + col
    &&& cfg.offset_z <= c.z < cfg.offset_z + cfg.width
    &&& c.hash == cell_hash_spec(c.x, c.z, (cfg.hash_size - 1) as u64)
}

pub open spec fn all_scanned(cfg: ClusterConfig, col: int, s: Seq<Chunk>) -> bool {
    forall|i: int| 0 <= i < s.len() ==> scanned_cell(cfg, col, #[trigger] s[i])
}

pub open spec fn same_cell(a: Chunk, b: Chunk) -> bool {
    a.x == b.x && a.z == b.z
}

/// No cell occurs twice.
pub open spec fn distinct_cells(s: Seq<Chunk>) -> bool {
    forall|i: int, j: int| 0 <= i < j < s.len() ==> !same_cell(#[trigger] s[i], #[trigger] s[j])
}

/// No cell of `a` occurs in `b`.
pub open spec fn disjoint_cells(a: Seq<Chunk>, b: Seq<Chunk>) -> bool {
    forall|i: int, j: int|
        0 <= i < a.len() && 0 <= j < b.len() ==> !same_cell(#[trigger] a[i], #[trigger] b[j])
}

proof fn lemma_candidates_cells(cfg: ClusterConfig, col: int, floor: int, n: int)
    requires
        config_ok(cfg),
        0 <= col < cfg.max_columns,
        0 <= n <= cfg.width,
    ensures
        ({
            let c = candidates(cfg, col, column_hashes(cfg, col), floor, n);
            &&& forall|i: int|
                0 <= i < c.len() ==> (#[trigger] c[i]).x == cfg.offset_x + col && scanned_cell(
                    cfg,
                    col + 1,
                    c[i],
                ) && c[i].z < cfg.offset_z + n
            &&& distinct_cells(c)
        }),
    decreases n,
{
    if n > 0 {
        lemma_candidates_cells(cfg, col, floor, n - 1);
    }
}

proof fn lemma_drain_cells(
    cfg: ClusterConfig,
    col: int,
    k: int,
    floor: int,
    accepted: Seq<Chunk>,
    pending: Seq<Chunk>,
)
    requires
        all_scanned(cfg, col, accepted),
        all_scanned(cfg, col, pending),
        distinct_cells(accepted),
        distinct_cells(pending),
        disjoint_cells(accepted, pending),
    ensures
        ({
            let (a, p) = drain(k, floor, accepted, pending);
            &&& all_scanned(cfg, col, a)
            &&& all_scanned(cfg, col, p)
            &&& distinct_cells(a)
            &&& distinct_cells(p)
            &&& disjoint_cells(a, p)
        }),
    decreases pending.len(),
{
    if accepted.len() < k && pending.len() > 0 {
        let b = best_index(pending, pending.len() as int);
        lemma_best_index_range(pending, pending.len() as int);
        if pending[b].hash <= floor + accepted.len() {
            let taken = accepted.push(pending[b]);
            let rest = pending.remove(b);
            assert forall|i: int| 0 <= i < rest.len() implies #[trigger] rest[i] == pending[if i < b {
                i
            } else {
                i + 1
            }] by {}
            assert(all_scanned(cfg, col, taken)) by {
                assert forall|i: int| 0 <= i < taken.len() implies scanned_cell(cfg, col, #[trigger] taken[i]) by {
                    if i < accepted.len() {
                        assert(taken[i] == accepted[i]);
                    }
                }
            }
            assert(all_scanned(cfg, col, rest)) by {
                assert forall|i: int| 0 <= i < rest.len() implies scanned_cell(cfg, col, #[trigger] rest[i]) by {
                    assert(rest[i] == pending[if i < b { i } else { i + 1 }]);
                }
            }
            assert(distinct_cells(taken)) by {
                assert forall|i: int, j: int| 0 <= i < j < taken.len() implies !same_cell(
                    #[trigger] taken[i],
                    #[trigger] taken[j],
                ) by {
                    assert(taken[i] == accepted[i]);
                    if j < accepted.len() {
                        assert(taken[j] == accepted[j]);
                    } else {
                        assert(!same_cell(accepted[i], pending[b]));
                    }
                }
            }
            assert(distinct_cells(rest)) by {
                assert forall|i: int, j: int| 0 <= i < j < rest.len() implies !same_cell(
                    #[trigger] rest[i],
                    #[trigger] rest[j],
                ) by {
                    let i2 = if i < b { i } else { i + 1 };
                    let j2 = if j < b { j } else { j + 1 };
                    assert(rest[i] == pending[i2] && rest[j] == pending[j2]);
                    assert(!same_cell(pending[i2], pending[j2]));
                }
            }
            assert(disjoint_cells(taken, rest)) by {
                assert forall|i: int, j: int| 0 <= i < taken.len() && 0 <= j < rest.len() implies !same_cell(
                    #[trigger] taken[i],
                    #[trigger] rest[j],
                ) by {
                    let j2 = if j < b { j } else { j + 1 };
                    assert(rest[j] == pending[j2]);
                    if i < accepted.len() {
                        assert(taken[i] == accepted[i]);
                        assert(!same_cell(accepted[i], pending[j2]));
                    } else {
                        assert(taken[i] == pending[b]);
                        if b < j2 {
                            assert(!same_cell(pending[b], pending[j2]));
                        } else {
                            assert(!same_cell(pending[j2], pending[b]));
                        }
                    }
                }
            }
            lemma_drain_cells(cfg, col, k, floor, taken, rest);
        }
    }
}

proof fn lemma_scanned_grows(cfg: ClusterConfig, col: int, s: Seq<Chunk>)
    requires
        all_scanned(cfg, col, s),
    ensures
        all_scanned(cfg, col + 1, s),
{
    assert forall|i: int| 0 <= i < s.len() implies scanned_cell(cfg, col + 1, #[trigger] s[i]) by {
        assert(scanned_cell(cfg, col, s[i]));
    }
}

proof fn lemma_run_cells(cfg: ClusterConfig, col: int, accepted: Seq<Chunk>, pending: Seq<Chunk>)
    requires
        config_ok(cfg),
        0 <= col <= cfg.max_columns,
        all_scanned(cfg, col, accepted),
        all_scanned(cfg, col, pending),
        distinct_cells(accepted),
        distinct_cells(pending),
        disjoint_cells(accepted, pending),
    ensures
        all_scanned(cfg, run(cfg, col, accepted, pending).1, run(cfg, col, accepted, pending).0),
        distinct_cells(run(cfg, col, accepted, pending).0),
        col <= run(cfg, col, accepted, pending).1 <= cfg.max_columns,
    decreases cfg.max_columns - col,
{
    if !(accepted.len() >= cfg.cluster_size || col >= cfg.max_columns) {
        let floor = floor_of(cfg);
        let hashes = column_hashes(cfg, col);
        let c = candidates(cfg, col, hashes, floor, hashes.len() as int);
        lemma_candidates_cells(cfg, col, floor, hashes.len() as int);
        lemma_scanned_grows(cfg, col, accepted);
        lemma_scanned_grows(cfg, col, pending);
        let pc = pending + c;
        assert forall|i: int| 0 <= i < pc.len() implies #[trigger] pc[i] == if i < pending.len() {
            pending[i]
        } else {
            c[i - pending.len()]
        } by {}
        assert(all_scanned(cfg, col + 1, pc)) by {
            assert forall|i: int| 0 <= i < pc.len() implies scanned_cell(cfg, col + 1, #[trigger] pc[i]) by {
                if i < pending.len() {
                    assert(scanned_cell(cfg, col + 1, pending[i]));
                } else {
                    assert(scanned_cell(cfg, col + 1, c[i - pending.len()]));
                }
            }
        }
        assert(distinct_cells(pc)) by {
            assert forall|i: int, j: int| 0 <= i < j < pc.len() implies !same_cell(
                #[trigger] pc[i],
                #[trigger] pc[j],
            ) by {
                if j < pending.len() {
                    assert(!same_cell(pending[i], pending[j]));
                } else if i < pending.len() {
                    assert(scanned_cell(cfg, col, pending[i]));
                    assert(c[j - pending.len()].x == cfg.offset_x + col);
                } else {
                    assert(!same_cell(c[i - pending.len()], c[j - pending.len()]));
                }
            }
        }
        assert(disjoint_cells(accepted, pc)) by {
            assert forall|i: int, j: int| 0 <= i < accepted.len() && 0 <= j < pc.len() implies !same_cell(
                #[trigger] accepted[i],
                #[trigger] pc[j],
            ) by {
                if j < pending.len() {
                    assert(!same_cell(accepted[i], pending[j]));
                } else {
                    assert(scanned_cell(cfg, col, accepted[i]));
                    assert(c[j - pending.len()].x == cfg.offset_x + col);
                }
            }
        }
        lemma_drain_cells(cfg, col + 1, cfg.cluster_size as int, floor, accepted, pc);
        let (a, p) = step(cfg, col, hashes, accepted, pending);
        lemma_run_cells(cfg, col + 1, a, p);
    }
}

/// The sampler's chunks are distinct cells of the scanned columns, each
/// carrying its live hash.
pub proof fn lemma_cluster_cells(cfg: ClusterConfig)
    requires
        config_ok(cfg),
    ensures
        distinct_cells(cluster_of(cfg)),
        all_scanned(cfg, columns_of(cfg), cluster_of(cfg)),
        0 <= columns_of(cfg) <= cfg.max_columns,
{
    lemma_run_cells(cfg, 0, Seq::empty(), Seq::empty());
}

/// The admitted and pending chunks after the first `n` columns, scanned
/// without stopping.
pub open spec fn after_columns(cfg: ClusterConfig, n: nat) -> (Seq<Chunk>, Seq<Chunk>)
    decreases n,
{
    if n == 0 {
        (Seq::empty(), Seq::empty())
    } else {
        let prev = after_columns(cfg, (n - 1) as nat);
        step(cfg, n - 1, column_hashes(cfg, n - 1), prev.0, prev.1)
    }
}

proof fn lemma_run_prefix(cfg: ClusterConfig, col: nat)
    requires
        col <= cfg.max_columns,
    ensures
        ({
            let (acc, pend) = after_columns(cfg, col);
            let (res, last) = run(cfg, col as int, acc, pend);
            &&& col <= last <= cfg.max_columns
            &&& res == after_columns(cfg, last as nat).0
            &&& forall|c: nat| col <= c < last ==> (#[trigger] after_columns(cfg, c)).0.len() < cfg.cluster_size
        }),
    decreases cfg.max_columns - col,
{
    let (acc, pend) = after_columns(cfg, col);
    if !(acc.len() >= cfg.cluster_size || col >= cfg.max_columns) {
        assert(after_columns(cfg, col + 1) == step(cfg, col as int, column_hashes(cfg, col as int), acc, pend));
        lemma_run_prefix(cfg, col + 1);
    }
}

/// The scan region is minimal: the sampler stops after the first column at
/// which `K` chunks are admitted (or at the scan bound), so with one column
/// fewer it had admitted fewer than `K`.
pub proof fn lemma_scan_minimal(cfg: ClusterConfig)
    ensures
        cluster_of(cfg) == after_columns(cfg, columns_of(cfg) as nat).0,
        0 <= columns_of(cfg) <= cfg.max_columns,
        forall|c: nat| c < columns_of(cfg) ==> (#[trigger] after_columns(cfg, c)).0.len() < cfg.cluster_size,
{
    lemma_run_prefix(cfg, 0);
}

} // verus!
