//! Laying a connection between two neighbouring chunks of the map: a line of
//! one block state between the chunk centres at height 0, and a marker block
//! at height 1 on the edge of the first chunk that faces the second.
use vstd::prelude::*;
use crate::schematic::{BlockPos, BlockState, Region, in_box};
use crate::topology::{ChunkType, ClassifiedGrid, grid_index};

verus! {

/// Blocks along each side of a chunk.
pub const CHUNK_BLOCKS: i32 = 16;

/// Chunk coordinates small enough that every block of the chunk and of its
/// neighbours has an `i32` coordinate.
pub open spec fn chunk_in_range(c: (i32, i32)) -> bool {
    -0x7ff_fff0 <= c.0 <= 0x7ff_fff0 && -0x7ff_fff0 <= c.1 <= 0x7ff_fff0
}

/// `b` is one of the four chunks that share a side with `a`.
pub open spec fn adjacent(a: (i32, i32), b: (i32, i32)) -> bool {
    (b.1 == a.1 && (b.0 == a.0 + 1 || b.0 == a.0 - 1)) || (b.0 == a.0 && (b.1 == a.1 + 1 || b.1
        == a.1 - 1))
}

/// The ground block at the centre of a chunk.
pub open spec fn centre_of(c: (i32, i32)) -> BlockPos {
    BlockPos { x: (c.0 * 16 + 8) as i32, y: 0, z: (c.1 * 16 + 8) as i32 }
}

/// Where the marker goes: one block up, on the edge of `a` that faces `b`.
pub open spec fn marker_of(a: (i32, i32), b: (i32, i32)) -> BlockPos {
    if b.0 == a.0 + 1 {
        BlockPos { x: (a.0 * 16 + 15) as i32, y: 1, z: (a.1 * 16 + 8) as i32 }
    } else if b.0 == a.0 - 1 {
        BlockPos { x: (a.0 * 16) as i32, y: 1, z: (a.1 * 16 + 8) as i32 }
    } else if b.1 == a.1 + 1 {
        BlockPos { x: (a.0 * 16 + 8) as i32, y: 1, z: (a.1 * 16 + 15) as i32 }
    } else {
        BlockPos { x: (a.0 * 16 + 8) as i32, y: 1, z: (a.1 * 16) as i32 }
    }
}

/// Connect chunk `from` to its neighbour `to`: `line` on every block between
/// their centres, `marker` on the edge of `from` facing `to`.
pub fn connect_chunks(
    region: &mut Region,
    from: (i32, i32),
    to: (i32, i32),
    line: &BlockState,
    marker: &BlockState,
)
    requires
        old(region).wf(),
        chunk_in_range(from),
        adjacent(from, to),
    ensures
        final(region).wf(),
        final(region).name == old(region).name,
        final(region).blocks@.contains_key(marker_of(from, to)),
        final(region).blocks@[marker_of(from, to)] == marker.name@,
        forall|p: BlockPos|
            p != marker_of(from, to) ==> {
                &&& in_box(p, centre_of(from), centre_of(to)) ==> #[trigger] final(region).blocks@.contains_key(p)
                    && final(region).blocks@[p] == line.name@
                &&& !in_box(p, centre_of(from), centre_of(to)) ==> (final(region).blocks@.contains_key(p)
                    == old(region).blocks@.contains_key(p) && (final(region).blocks@.contains_key(p)
                    ==> final(region).blocks@[p] == old(region).blocks@[p]))
            },
{
    let start = BlockPos::new(from.0 * CHUNK_BLOCKS + 8, 0, from.1 * CHUNK_BLOCKS + 8);
    let end = BlockPos::new(to.0 * CHUNK_BLOCKS + 8, 0, to.1 * CHUNK_BLOCKS + 8);
    region.fill(start, end, line);
    let (mx, mz) = if to.0 == from.0 + 1 {
        (from.0 * CHUNK_BLOCKS + 15, from.1 * CHUNK_BLOCKS + 8)
    } else if to.0 == from.0 - 1 {
        (from.0 * CHUNK_BLOCKS, from.1 * CHUNK_BLOCKS + 8)
    } else if to.1 == from.1 + 1 {
        (from.0 * CHUNK_BLOCKS + 8, from.1 * CHUNK_BLOCKS + 15)
    } else {
        (from.0 * CHUNK_BLOCKS + 8, from.1 * CHUNK_BLOCKS)
    };
    region.set_block_state(BlockPos::new(mx, 1, mz), marker);
}

/// A link from a reached chunk to a newly reached neighbour.
pub type Link = ((i32, i32), (i32, i32));

pub open spec fn in_grid(g: ClassifiedGrid, c: (i32, i32)) -> bool {
    g.origin_x <= c.0 < g.origin_x + g.size_x && g.origin_z <= c.1 < g.origin_z + g.size_z
}

pub open spec fn cell_index(g: ClassifiedGrid, c: (i32, i32)) -> int {
    grid_index(c.0 - g.origin_x, c.1 - g.origin_z, g.size_x as int)
}

/// The chunk is a cell of the grid that is a node or on an edge path.
pub open spec fn occupied(g: ClassifiedGrid, c: (i32, i32)) -> bool {
    in_grid(g, c) && g.cells@[cell_index(g, c)] != ChunkType::Empty
}

/// The chunk is `start` or the new end of one of the first `i` links.
pub open spec fn reached(start: (i32, i32), links: Seq<Link>, i: int, c: (i32, i32)) -> bool {
    c == start || exists|t: int| 0 <= t < i && (#[trigger] links[t]).1 == c
}

/// Each link leads from a reached chunk (within range) to an occupied
/// neighbour not reached before.
pub open spec fn links_grow(g: ClassifiedGrid, start: (i32, i32), links: Seq<Link>) -> bool {
    forall|i: int|
        0 <= i < links.len() ==> {
            let l = #[trigger] links[i];
            &&& adjacent(l.0, l.1)
            &&& chunk_in_range(l.0)
            &&& occupied(g, l.1)
            &&& reached(start, links, i, l.0)
            &&& !reached(start, links, i, l.1)
        }
}

pub open spec fn count_false(v: Seq<bool>) -> nat
    decreases v.len(),
{
    if v.len() == 0 {
        0
    } else {
        count_false(v.drop_last()) + if v.last() {
            0nat
        } else {
            1nat
        }
    }
}

proof fn lemma_count_mark(v: Seq<bool>, i: int)
    requires
        0 <= i < v.len(),
        !v[i],
    ensures
        count_false(v.update(i, true)) + 1 == count_false(v),
    decreases v.len(),
{
    if i < v.len() - 1 {
        assert(v.update(i, true).drop_last() =~= v.drop_last().update(i, true));
        lemma_count_mark(v.drop_last(), i);
    } else {
        assert(v.update(i, true).drop_last() =~= v.drop_last());
    }
}

proof fn lemma_cell_index_injective(g: ClassifiedGrid, c: (i32, i32), d: (i32, i32))
    requires
        in_grid(g, c),
        in_grid(g, d),
        cell_index(g, c) == cell_index(g, d),
    ensures
        c == d,
{
    let sx = g.size_x as int;
    vstd::arithmetic::div_mod::lemma_fundamental_div_mod_converse(
        cell_index(g, c),
        sx,
        c.1 - g.origin_z,
        c.0 - g.origin_x,
    );
    vstd::arithmetic::div_mod::lemma_fundamental_div_mod_converse(
        cell_index(g, d),
        sx,
        d.1 - g.origin_z,
        d.0 - g.origin_x,
    );
}

proof fn lemma_cell_index_bounds(g: ClassifiedGrid, c: (i32, i32))
    requires
        in_grid(g, c),
    ensures
        0 <= cell_index(g, c) < g.size_x * g.size_z,
{
    let dx = c.0 - g.origin_x;
    let dz = c.1 - g.origin_z;
    assert(0 <= dx + dz * g.size_x < g.size_x * g.size_z) by (nonlinear_arith)
        requires
            0 <= dx < g.size_x,
            0 <= dz < g.size_z,
    ;
}

/// The state of the walk: `order` lists the reached chunks (start first,
/// then the links' new ends) and `visited` marks their cells.
pub open spec fn walk_state(
    g: ClassifiedGrid,
    start: (i32, i32),
    visited: Seq<bool>,
    order: Seq<(i32, i32)>,
    links: Seq<Link>,
) -> bool {
    &&& g.cells@.len() == g.size_x * g.size_z
    &&& visited.len() == g.cells@.len()
    &&& in_grid(g, start)
    &&& order.len() == links.len() + 1
    &&& order[0] == start
    &&& forall|t: int| 0 <= t < links.len() ==> order[t + 1] == (#[trigger] links[t]).1
    &&& links_grow(g, start, links)
    &&& forall|c: (i32, i32)|
        in_grid(g, c) ==> (visited[#[trigger] cell_index(g, c)] <==> reached(
            start,
            links,
            links.len() as int,
            c,
        ))
}

fn try_link(
    g: &ClassifiedGrid,
    start: (i32, i32),
    visited: &mut Vec<bool>,
    order: &mut Vec<(i32, i32)>,
    links: &mut Vec<Link>,
    c: (i32, i32),
    d: (i32, i32),
)
    requires
        walk_state(*g, start, old(visited)@, old(order)@, old(links)@),
        reached(start, old(links)@, old(links)@.len() as int, c),
        chunk_in_range(c),
        adjacent(c, d),
    ensures
        walk_state(*g, start, final(visited)@, final(order)@, final(links)@),
        final(links)@ == old(links)@ || final(links)@ == old(links)@.push((c, d)),
        final(links)@ == old(links)@ ==> final(visited)@ == old(visited)@,
        final(links)@ != old(links)@ ==> count_false(final(visited)@) < count_false(old(visited)@),
        forall|k: int| 0 <= k < old(order)@.len() ==> final(order)@[k] == old(order)@[k],
        occupied(*g, d) ==> reached(start, final(links)@, final(links)@.len() as int, d),
        forall|x: (i32, i32)|
            reached(start, old(links)@, old(links)@.len() as int, x) ==> #[trigger] reached(
                start,
                final(links)@,
                final(links)@.len() as int,
                x,
            ),
{
    let ghost l0 = links@;
    let ox = g.origin_x as i64;
    let oz = g.origin_z as i64;
    let dx = d.0 as i64 - ox;
    let dz = d.1 as i64 - oz;
    if dx < 0 || dx >= g.size_x as i64 || dz < 0 || dz >= g.size_z as i64 {
        return;
    }
    proof {
        lemma_cell_index_bounds(*g, d);
    }
    let udx = (d.0 as i64 - g.origin_x as i64) as u64;
    let udz = (d.1 as i64 - g.origin_z as i64) as u64;
    assert(udz * g.size_x <= udx + udz * g.size_x < g.cells@.len()) by (nonlinear_arith)
        requires
            0 <= udx,
            0 <= udz * g.size_x,
            udx + udz * g.size_x == cell_index(*g, d),
            cell_index(*g, d) < g.size_x * g.size_z,
            g.cells@.len() == g.size_x * g.size_z,
    ;
    let ncells = g.cells.len();
    let idx: usize = (udx + udz * g.size_x as u64) as usize;
    assert(idx == cell_index(*g, d) && idx < ncells);
    if g.cells[idx] == ChunkType::Empty || visited[idx] {
        return;
    }
    let ghost v0 = visited@;
    visited.set(idx, true);
    order.push(d);
    links.push((c, d));
    proof {
        lemma_count_mark(v0, idx as int);
        let n = l0.len() as int;
        assert(links@[n] == (c, d));
        assert forall|x: (i32, i32)| #[trigger] reached(start, links@, n + 1, x) <==> (reached(
            start,
            l0,
            n,
            x,
        ) || x == d) by {
            if x != start && reached(start, l0, n, x) {
                let t = choose|t: int| 0 <= t < n && (#[trigger] l0[t]).1 == x;
                assert(links@[t] == l0[t]);
            }
            if x != start && x != d && reached(start, links@, n + 1, x) {
                let t = choose|t: int| 0 <= t < n + 1 && (#[trigger] links@[t]).1 == x;
                assert(links@[t] == l0[t]);
            }
        }
        assert forall|i: int, x: (i32, i32)| 0 <= i <= n implies #[trigger] reached(start, links@, i, x)
            == reached(start, l0, i, x) by {
            if x != start && reached(start, l0, i, x) {
                let t = choose|t: int| 0 <= t < i && (#[trigger] l0[t]).1 == x;
                assert(links@[t] == l0[t]);
            }
            if x != start && reached(start, links@, i, x) {
                let t = choose|t: int| 0 <= t < i && (#[trigger] links@[t]).1 == x;
                assert(links@[t] == l0[t]);
            }
        }
        assert(!reached(start, l0, n, d));
        assert(links_grow(*g, start, links@)) by {
            assert forall|i: int| 0 <= i < links@.len() implies {
                let l = #[trigger] links@[i];
                &&& adjacent(l.0, l.1)
                &&& chunk_in_range(l.0)
                &&& occupied(*g, l.1)
                &&& reached(start, links@, i, l.0)
                &&& !reached(start, links@, i, l.1)
            } by {
                if i < n {
                    assert(links@[i] == l0[i]);
                }
            }
        }
        assert forall|x: (i32, i32)| in_grid(*g, x) implies (visited@[#[trigger] cell_index(*g, x)]
            <==> reached(start, links@, links@.len() as int, x)) by {
            if x != d {
                lemma_cell_index_bounds(*g, x);
                if cell_index(*g, x) == idx {
                    lemma_cell_index_injective(*g, x, d);
                }
            }
        }
        assert forall|t: int| 0 <= t < links@.len() implies order@[t + 1] == (#[trigger] links@[t]).1 by {
            if t < n {
                assert(links@[t] == l0[t]);
            }
        }
    }
}

/// Walk the occupied chunks breadth-first from `start`: the returned links
/// form a tree over the reached chunks, and every occupied neighbour of a
/// reached chunk within range is reached.
#[verifier::rlimit(40)]
pub fn plan_links(g: &ClassifiedGrid, start: (i32, i32)) -> (links: Vec<Link>)
    requires
        g.cells@.len() == g.size_x * g.size_z,
        in_grid(*g, start),
    ensures
        links_grow(*g, start, links@),
        forall|c: (i32, i32), d: (i32, i32)|
            #[trigger] reached(start, links@, links@.len() as int, c) && chunk_in_range(c) && #[trigger] adjacent(c, d)
                && occupied(*g, d) ==> reached(start, links@, links@.len() as int, d),
{
    let n = g.cells.len();
    let mut visited: Vec<bool> = Vec::new();
    let mut i: usize = 0;
    while i < n
        invariant
            i <= n,
            visited@.len() == i,
            forall|k: int| 0 <= k < i ==> !visited@[k],
        decreases n - i,
    {
        visited.push(false);
        i = i + 1;
    }
    proof {
        lemma_cell_index_bounds(*g, start);
    }
    let sdx = (start.0 as i64 - g.origin_x as i64) as u64;
    let sdz = (start.1 as i64 - g.origin_z as i64) as u64;
    assert(sdz * g.size_x <= sdx + sdz * g.size_x < g.cells@.len()) by (nonlinear_arith)
        requires
            0 <= sdx,
            0 <= sdz * g.size_x,
            sdx + sdz * g.size_x == cell_index(*g, start),
            cell_index(*g, start) < g.size_x * g.size_z,
            g.cells@.len() == g.size_x * g.size_z,
    ;
    let sidx: usize = (sdx + sdz * g.size_x as u64) as usize;
    visited.set(sidx, true);
    let mut order: Vec<(i32, i32)> = Vec::new();
    order.push(start);
    let mut links: Vec<Link> = Vec::new();
    proof {
        assert forall|c: (i32, i32)| in_grid(*g, c) implies (visited@[#[trigger] cell_index(*g, c)]
            <==> reached(start, links@, links@.len() as int, c)) by {
            lemma_cell_index_bounds(*g, c);
            if cell_index(*g, c) == sidx {
                lemma_cell_index_injective(*g, c, start);
            }
        }
    }
    let mut head: usize = 0;
    while head < order.len()
        invariant
            walk_state(*g, start, visited@, order@, links@),
            head <= order@.len(),
            forall|k: int, d: (i32, i32)|
                0 <= k < head && chunk_in_range(order@[k]) && #[trigger] adjacent(order@[k], d)
                    && occupied(*g, d) ==> reached(start, links@, links@.len() as int, d),
        decreases count_false(visited@), order@.len() - head,
    {
        let c = order[head];
        let ghost c_reached: bool = reached(start, links@, links@.len() as int, c);
        proof {
            if head > 0 {
                assert(order@[head as int] == links@[head - 1].1);
            }
        }
        if c.0 >= -0x7ff_fff0 && c.0 <= 0x7ff_fff0 && c.1 >= -0x7ff_fff0 && c.1 <= 0x7ff_fff0 {
            let ghost o0 = order@;
            let ghost l0 = links@;
            let ghost v0 = visited@;
            try_link(g, start, &mut visited, &mut order, &mut links, c, (c.0 + 1, c.1));
            try_link(g, start, &mut visited, &mut order, &mut links, c, (c.0 - 1, c.1));
            try_link(g, start, &mut visited, &mut order, &mut links, c, (c.0, c.1 + 1));
            try_link(g, start, &mut visited, &mut order, &mut links, c, (c.0, c.1 - 1));
            proof {
                assert forall|k: int, d: (i32, i32)|
                    0 <= k < head + 1 && chunk_in_range(order@[k]) && #[trigger] adjacent(order@[k], d)
                        && occupied(*g, d) implies reached(start, links@, links@.len() as int, d) by {
                    assert(order@[k] == o0[k]);
                    if k < head {
                        assert(reached(start, l0, l0.len() as int, d));
                    }
                }
            }
        }
        head = head + 1;
    }
    links
}

} // verus!
