//! Voxel regions and schematics: blocks placed by position, a deduplicated
//! palette of block states, and the bit-packed index array they encode to.
use vstd::prelude::*;
use nbt::CompoundTag;
use crate::tag::{NbtValue, new_tag, no_entries, put_compound, put_compound_list, put_i32, put_long_array, put_str, tag_contents};
use crate::bits::{lemma_field_bits_equal, lemma_words_from_bits, fits, field, field_at, bit_at, field_written, write_field, lemma_write_then_read};

verus! {

/// A block position.
#[derive(Clone, Copy, Debug, PartialEq, Eq, Hash, Structural)]
pub struct BlockPos {
    pub x: i32,
    pub y: i32,
    pub z: i32,
}

pub open spec fn min_i32(a: i32, b: i32) -> i32 {
    if a <= b {
        a
    } else {
        b
    }
}

pub open spec fn max_i32(a: i32, b: i32) -> i32 {
    if a >= b {
        a
    } else {
        b
    }
}

impl BlockPos {
    pub fn new(x: i32, y: i32, z: i32) -> (r: BlockPos)
        ensures
            r == (BlockPos { x, y, z }),
    {
        BlockPos { x, y, z }
    }

    pub fn zero() -> (r: BlockPos)
        ensures
            r == (BlockPos { x: 0, y: 0, z: 0 }),
    {
        BlockPos::new(0, 0, 0)
    }

    pub fn one() -> (r: BlockPos)
        ensures
            r == (BlockPos { x: 1, y: 1, z: 1 }),
    {
        BlockPos::new(1, 1, 1)
    }

    pub open spec fn min_spec(self, other: BlockPos) -> BlockPos {
        BlockPos {
            x: min_i32(self.x, other.x),
            y: min_i32(self.y, other.y),
            z: min_i32(self.z, other.z),
        }
    }

    pub open spec fn max_spec(self, other: BlockPos) -> BlockPos {
        BlockPos {
            x: max_i32(self.x, other.x),
            y: max_i32(self.y, other.y),
            z: max_i32(self.z, other.z),
        }
    }

    /// The componentwise minimum.
    pub fn min(self, other: BlockPos) -> (r: BlockPos)
        ensures
            r == self.min_spec(other),
    {
        BlockPos {
            x: if self.x <= other.x { self.x } else { other.x },
            y: if self.y <= other.y { self.y } else { other.y },
            z: if self.z <= other.z { self.z } else { other.z },
        }
    }

    /// The componentwise maximum.
    pub fn max(self, other: BlockPos) -> (r: BlockPos)
        ensures
            r == self.max_spec(other),
    {
        BlockPos {
            x: if self.x >= other.x { self.x } else { other.x },
            y: if self.y >= other.y { self.y } else { other.y },
            z: if self.z >= other.z { self.z } else { other.z },
        }
    }
}

impl BlockPos {
    /// The componentwise sum.
    pub fn add(self, rhs: BlockPos) -> (r: BlockPos)
        requires
            i32::MIN <= self.x + rhs.x <= i32::MAX,
            i32::MIN <= self.y + rhs.y <= i32::MAX,
            i32::MIN <= self.z + rhs.z <= i32::MAX,
        ensures
            r.x == self.x + rhs.x,
            r.y == self.y + rhs.y,
            r.z == self.z + rhs.z,
    {
        BlockPos { x: self.x + rhs.x, y: self.y + rhs.y, z: self.z + rhs.z }
    }

    /// The componentwise difference.
    pub fn sub(self, rhs: BlockPos) -> (r: BlockPos)
        requires
            i32::MIN <= self.x - rhs.x <= i32::MAX,
            i32::MIN <= self.y - rhs.y <= i32::MAX,
            i32::MIN <= self.z - rhs.z <= i32::MAX,
        ensures
            r.x == self.x - rhs.x,
            r.y == self.y - rhs.y,
            r.z == self.z - rhs.z,
    {
        BlockPos { x: self.x - rhs.x, y: self.y - rhs.y, z: self.z - rhs.z }
    }
}

impl Default for BlockPos {
    fn default() -> (r: BlockPos)
        ensures
            r == (BlockPos { x: 0, y: 0, z: 0 }),
    {
        BlockPos::zero()
    }
}

impl From<(i32, i32, i32)> for BlockPos {
    fn from(val: (i32, i32, i32)) -> (r: BlockPos) {
        BlockPos { x: val.0, y: val.1, z: val.2 }
    }
}

impl vstd::std_specs::convert::FromSpecImpl<(i32, i32, i32)> for BlockPos {
    open spec fn obeys_from_spec() -> bool {
        true
    }

    open spec fn from_spec(val: (i32, i32, i32)) -> BlockPos {
        BlockPos { x: val.0, y: val.1, z: val.2 }
    }
}

/// A block state, named by its identifier.
#[derive(Debug)]
pub struct BlockState {
    pub name: String,
}

impl BlockState {
    pub fn new(name: &str) -> (r: BlockState)
        ensures
            r.name@ == name@,
    {
        BlockState { name: name.to_owned() }
    }
}

/// `p` lies in the box with opposite corners `a` and `b` (in any order).
pub open spec fn in_box(p: BlockPos, a: BlockPos, b: BlockPos) -> bool {
    let lo = a.min_spec(b);
    let hi = a.max_spec(b);
    lo.x <= p.x <= hi.x && lo.y <= p.y <= hi.y && lo.z <= p.z <= hi.z
}

/// `new` is `old` with every position that `sel` selects set to `name`.
pub open spec fn placed(
    old_blocks: Map<BlockPos, Seq<char>>,
    new_blocks: Map<BlockPos, Seq<char>>,
    sel: spec_fn(BlockPos) -> bool,
    name: Seq<char>,
) -> bool {
    forall|p: BlockPos|
        {
            &&& sel(p) ==> #[trigger] new_blocks.contains_key(p) && new_blocks[p] == name
            &&& !sel(p) ==> (new_blocks.contains_key(p) == old_blocks.contains_key(p) && (
            new_blocks.contains_key(p) ==> new_blocks[p] == old_blocks[p]))
        }
}

/// A named region of placed blocks. `positions[i]` holds `states[i]`; no
/// position occurs twice; `blocks` is the map the two describe.
pub struct Region {
    pub name: String,
    pub positions: Vec<BlockPos>,
    pub states: Vec<BlockState>,
    pub blocks: Ghost<Map<BlockPos, Seq<char>>>,
}

impl Region {
    pub open spec fn wf(&self) -> bool {
        &&& self.positions@.len() == self.states@.len()
        &&& forall|i: int, j: int|
            0 <= i < j < self.positions@.len() ==> self.positions@[i] != self.positions@[j]
        &&& forall|i: int|
            0 <= i < self.positions@.len() ==> #[trigger] self.blocks@.contains_key(
                self.positions@[i],
            ) && self.blocks@[self.positions@[i]] == self.states@[i].name@
        &&& forall|p: BlockPos|
            #[trigger] self.blocks@.contains_key(p) ==> exists|i: int|
                0 <= i < self.positions@.len() && self.positions@[i] == p
    }

    pub fn new(name: &str) -> (r: Region)
        ensures
            r.wf(),
            r.name@ == name@,
            r.blocks@ == Map::<BlockPos, Seq<char>>::empty(),
    {
        Region {
            name: name.to_owned(),
            positions: Vec::new(),
            states: Vec::new(),
            blocks: Ghost(Map::empty()),
        }
    }

    /// Place `state` at `pos`, replacing what was there.
    pub fn set_block_state(&mut self, pos: BlockPos, state: &BlockState)
        requires
            old(self).wf(),
        ensures
            final(self).wf(),
            final(self).name == old(self).name,
            final(self).blocks@ == old(self).blocks@.insert(pos, state.name@),
    {
        let mut i: usize = 0;
        while i < self.positions.len()
            invariant
                self.wf(),
                old(self).wf(),
                self.name == old(self).name,
                self.positions@ == old(self).positions@,
                self.states@ == old(self).states@,
                self.blocks@ == old(self).blocks@,
                i <= self.positions@.len(),
                forall|j: int| 0 <= j < i ==> self.positions@[j] != pos,
            decreases self.positions@.len() - i,
        {
            if self.positions[i] == pos {
                self.states.set(i, BlockState { name: state.name.clone() });
                self.blocks = Ghost(self.blocks@.insert(pos, state.name@));
                proof {
                    assert forall|p: BlockPos| #[trigger] self.blocks@.contains_key(p) implies exists|
                        j: int,
                    | 0 <= j < self.positions@.len() && self.positions@[j] == p by {
                        if p == pos {
                            assert(self.positions@[i as int] == p);
                        } else {
                            assert(old(self).blocks@.contains_key(p));
                        }
                    }
                }
                return;
            }
            i = i + 1;
        }
        self.positions.push(pos);
        self.states.push(BlockState { name: state.name.clone() });
        self.blocks = Ghost(self.blocks@.insert(pos, state.name@));
        proof {
            let n = self.positions@.len() - 1;
            assert forall|p: BlockPos| #[trigger] self.blocks@.contains_key(p) implies exists|i: int|
                0 <= i < self.positions@.len() && self.positions@[i] == p by {
                if p == pos {
                    assert(self.positions@[n] == p);
                } else {
                    assert(old(self).blocks@.contains_key(p));
                    let i = choose|i: int|
                        0 <= i < old(self).positions@.len() && old(self).positions@[i] == p;
                    assert(self.positions@[i] == p);
                }
            }
        }
    }

    /// Place `state` at every position of the box with corners `start` and
    /// `end`.
    pub fn fill(&mut self, start: BlockPos, end: BlockPos, state: &BlockState)
        requires
            old(self).wf(),
        ensures
            final(self).wf(),
            final(self).name == old(self).name,
            placed(old(self).blocks@, final(self).blocks@, |p: BlockPos| in_box(p, start, end), state.name@),
    {
        let lo = BlockPos::min(start, end);
        let hi = BlockPos::max(start, end);
        let ghost b0 = self.blocks@;
        let mut z: i64 = lo.z as i64;
        while z <= hi.z as i64
            invariant
                self.wf(),
                self.name == old(self).name,
                lo == start.min_spec(end),
                hi == start.max_spec(end),
                lo.z <= z <= hi.z + 1,
                placed(b0, self.blocks@, |p: BlockPos| in_box(p, start, end) && p.z < z, state.name@),
            decreases hi.z + 1 - z,
        {
            let mut y: i64 = lo.y as i64;
            while y <= hi.y as i64
                invariant
                    self.wf(),
                    self.name == old(self).name,
                    lo == start.min_spec(end),
                    hi == start.max_spec(end),
                    lo.z <= z <= hi.z,
                    lo.y <= y <= hi.y + 1,
                    placed(b0, self.blocks@, |p: BlockPos| in_box(p, start, end) && (p.z < z || (p.z == z && p.y < y)), state.name@),
                decreases hi.y + 1 - y,
            {
                let mut x: i64 = lo.x as i64;
                while x <= hi.x as i64
                    invariant
                        self.wf(),
                        self.name == old(self).name,
                        lo == start.min_spec(end),
                        hi == start.max_spec(end),
                        lo.z <= z <= hi.z,
                        lo.y <= y <= hi.y,
                        lo.x <= x <= hi.x + 1,
                        placed(b0, self.blocks@, |p: BlockPos| in_box(p, start, end) && (p.z < z || (p.z == z && (p.y < y || (p.y == y && p.x < x)))), state.name@),
                    decreases hi.x + 1 - x,
                {
                    let pos = BlockPos::new(x as i32, y as i32, z as i32);
                    self.set_block_state(pos, state);
                    x = x + 1;
                }
                y = y + 1;
            }
            z = z + 1;
        }
        assert((|p: BlockPos| in_box(p, start, end) && p.z < z) =~= (|p: BlockPos|
            in_box(p, start, end)));
    }
}

/// The identifier of the empty block, palette entry 0.
pub open spec fn air() -> Seq<char> {
    "minecraft:air"@
}

/// Most voxels a region's bounding box may hold (2^25). With fields of at
/// most 32 bits the packed array then has at most 2^30 bits, so every bit
/// index, and the word count times 64, fits a `usize` even where it has 32
/// bits.
pub const MAX_VOLUME: u64 = 33554432;

/// Most entries a palette may hold.
pub const MAX_PALETTE: u64 = 4294967296;

/// How the field width follows from the palette size.
#[derive(Clone, Copy, Debug, PartialEq, Eq, Structural)]
pub enum WidthPolicy {
    /// The fewest bits (at least one) that hold every palette index.
    Exact,
    /// The exact width capped at two bits; indices from 4 on lose their
    /// high bits.
    ClampedToTwo,
}

#[derive(Clone, Copy, Debug, PartialEq, Eq, Structural)]
pub enum EncodeError {
    /// The bounding box holds more than `MAX_VOLUME` voxels, or the palette
    /// more than `MAX_PALETTE` entries.
    TooLarge,
}

pub open spec fn names_of(states: Seq<BlockState>) -> Seq<Seq<char>> {
    states.map_values(|s: BlockState| s.name@)
}

pub open spec fn views_of(strings: Seq<String>) -> Seq<Seq<char>> {
    strings.map_values(|s: String| s@)
}

/// The palette of a sequence of identifiers: the air entry, then each other
/// identifier in the order it first occurs.
pub open spec fn palette_of(names: Seq<Seq<char>>) -> Seq<Seq<char>>
    decreases names.len(),
{
    if names.len() == 0 {
        seq![air()]
    } else {
        let p = palette_of(names.drop_last());
        if p.contains(names.last()) {
            p
        } else {
            p.push(names.last())
        }
    }
}

/// The first index from `i` on at which `pal` holds `name` (`pal.len()` if none).
pub open spec fn index_from(pal: Seq<Seq<char>>, name: Seq<char>, i: int) -> int
    decreases pal.len() - i,
{
    if i < 0 || i >= pal.len() {
        pal.len() as int
    } else if pal[i] == name {
        i
    } else {
        index_from(pal, name, i + 1)
    }
}

/// The componentwise minimum of the positions (zero if there are none).
pub open spec fn bbox_lo(ps: Seq<BlockPos>) -> BlockPos
    decreases ps.len(),
{
    if ps.len() == 0 {
        BlockPos { x: 0, y: 0, z: 0 }
    } else if ps.len() == 1 {
        ps[0]
    } else {
        bbox_lo(ps.drop_last()).min_spec(ps.last())
    }
}

/// The componentwise maximum of the positions (zero if there are none).
pub open spec fn bbox_hi(ps: Seq<BlockPos>) -> BlockPos
    decreases ps.len(),
{
    if ps.len() == 0 {
        BlockPos { x: 0, y: 0, z: 0 }
    } else if ps.len() == 1 {
        ps[0]
    } else {
        bbox_hi(ps.drop_last()).max_spec(ps.last())
    }
}

proof fn lemma_bbox_contains(ps: Seq<BlockPos>)
    ensures
        forall|i: int|
            0 <= i < ps.len() ==> {
                let lo = bbox_lo(ps);
                let hi = bbox_hi(ps);
                lo.x <= (#[trigger] ps[i]).x <= hi.x && lo.y <= ps[i].y <= hi.y && lo.z <= ps[i].z
                    <= hi.z
            },
    decreases ps.len(),
{
    if ps.len() > 1 {
        lemma_bbox_contains(ps.drop_last());
        assert forall|i: int| 0 <= i < ps.len() - 1 implies ps[i] == #[trigger] ps.drop_last()[i] by {}
        assert forall|i: int| 0 <= i < ps.len() implies {
            let lo = bbox_lo(ps);
            let hi = bbox_hi(ps);
            lo.x <= (#[trigger] ps[i]).x <= hi.x && lo.y <= ps[i].y <= hi.y && lo.z <= ps[i].z <= hi.z
        } by {
            if i < ps.len() - 1 {
                assert(ps.drop_last()[i] == ps[i]);
            }
        }
    }
}

/// The number of voxels along each axis of the bounding box.
pub open spec fn extent_x(ps: Seq<BlockPos>) -> int {
    if ps.len() == 0 { 0 } else { bbox_hi(ps).x - bbox_lo(ps).x + 1 }
}

pub open spec fn extent_y(ps: Seq<BlockPos>) -> int {
    if ps.len() == 0 { 0 } else { bbox_hi(ps).y - bbox_lo(ps).y + 1 }
}

pub open spec fn extent_z(ps: Seq<BlockPos>) -> int {
    if ps.len() == 0 { 0 } else { bbox_hi(ps).z - bbox_lo(ps).z + 1 }
}

pub open spec fn volume(ps: Seq<BlockPos>) -> int {
    extent_x(ps) * extent_y(ps) * extent_z(ps)
}

/// `w` is the fewest bits, at least one, that hold every index below `n`.
pub open spec fn is_exact_width(n: u64, w: u64) -> bool {
    1 <= w < 64 && fits((n - 1) as u64, w) && (w == 1 || !fits((n - 1) as u64, (w - 1) as u64))
}

/// The field width for a palette of `n` entries.
pub open spec fn width_for(policy: WidthPolicy, n: u64, w: u64) -> bool {
    match policy {
        WidthPolicy::Exact => is_exact_width(n, w),
        WidthPolicy::ClampedToTwo => exists|e: u64| is_exact_width(n, e) && w == if e < 2 {
            e
        } else {
            2
        },
    }
}

/// The low `w` bits of `v`.
pub open spec fn low_bits(v: u64, w: u64) -> u64 {
    v & (((1u64 << w) - 1) as u64)
}

/// The componentwise minimum and maximum of a non-empty list of positions.
pub fn bounds(positions: &Vec<BlockPos>) -> (r: (BlockPos, BlockPos))
    requires
        positions@.len() > 0,
    ensures
        r.0 == bbox_lo(positions@),
        r.1 == bbox_hi(positions@),
{
    let mut lo = positions[0];
    let mut hi = positions[0];
    let mut i: usize = 1;
    while i < positions.len()
        invariant
            1 <= i <= positions@.len(),
            lo == bbox_lo(positions@.take(i as int)),
            hi == bbox_hi(positions@.take(i as int)),
        decreases positions@.len() - i,
    {
        assert(positions@.take(i + 1).drop_last() == positions@.take(i as int));
        lo = lo.min(positions[i]);
        hi = hi.max(positions[i]);
        i = i + 1;
    }
    assert(positions@.take(i as int) == positions@);
    (lo, hi)
}

/// The index of `name` in the palette: the first at which it stands, or the
/// palette's length if it stands nowhere.
pub fn palette_index(palette: &Vec<String>, name: &String) -> (r: usize)
    ensures
        r == index_from(views_of(palette@), name@, 0),
        r <= palette@.len(),
        r < palette@.len() ==> palette@[r as int]@ == name@,
        forall|j: int| 0 <= j < r ==> palette@[j]@ != name@,
{
    let ghost pal = views_of(palette@);
    let mut i: usize = 0;
    while i < palette.len()
        invariant
            pal == views_of(palette@),
            i <= palette@.len(),
            index_from(pal, name@, 0) == index_from(pal, name@, i as int),
            forall|j: int| 0 <= j < i ==> palette@[j]@ != name@,
        decreases palette@.len() - i,
    {
        if palette[i] == *name {
            return i;
        }
        i = i + 1;
    }
    i
}

/// The palette of a list of block states: air first, then each identifier in
/// the order it first occurs.
pub fn build_palette(states: &Vec<BlockState>) -> (r: Vec<String>)
    ensures
        views_of(r@) == palette_of(names_of(states@)),
{
    let mut pal: Vec<String> = Vec::new();
    pal.push("minecraft:air".to_owned());
    proof {
        assert(views_of(pal@) =~= palette_of(names_of(states@.take(0))));
    }
    let mut t: usize = 0;
    while t < states.len()
        invariant
            t <= states@.len(),
            views_of(pal@) == palette_of(names_of(states@.take(t as int))),
        decreases states@.len() - t,
    {
        let ghost before = names_of(states@.take(t as int));
        let ghost after = names_of(states@.take(t + 1));
        assert(after.drop_last() =~= before);
        assert(after.last() == states@[t as int].name@);
        let i = palette_index(&pal, &states[t].name);
        if i == pal.len() {
            assert(!views_of(pal@).contains(after.last()));
            let ghost p0 = pal@;
            pal.push(states[t].name.clone());
            assert(views_of(pal@) =~= views_of(p0).push(after.last()));
        } else {
            assert(views_of(pal@)[i as int] == after.last());
        }
        t = t + 1;
    }
    assert(states@.take(t as int) =~= states@);
    pal
}

/// The field width for a palette of `n` entries under `policy`.
pub fn field_width(n: u64, policy: WidthPolicy) -> (r: u32)
    requires
        1 <= n <= MAX_PALETTE,
    ensures
        width_for(policy, n, r as u64),
        1 <= r <= 32,
        policy == WidthPolicy::Exact ==> is_exact_width(n, r as u64),
{
    let m: u64 = n - 1;
    assert(m >> 32u64 == 0) by (bit_vector)
        requires
            m < 4294967296u64,
    ;
    let mut w: u32 = 1;
    while (m >> w) != 0
        invariant
            1 <= w <= 32,
            m >> 32u64 == 0,
            w == 1 || !fits(m, (w - 1) as u64),
        decreases 32 - w,
    {
        w = w + 1;
    }
    assert(is_exact_width(n, w as u64));
    match policy {
        WidthPolicy::Exact => w,
        WidthPolicy::ClampedToTwo => {
            let r: u32 = if w > 2 { 2 } else { w };
            assert(width_for(policy, n, r as u64));
            r
        },
    }
}

proof fn lemma_zero_field(words: Seq<u64>, start: int, n: nat)
    requires
        forall|i: int| 0 <= i < words.len() ==> words[i] == 0,
        0 <= start,
        start + n <= words.len() * 64,
    ensures
        field_at(words, start, n) == 0,
    decreases n,
{
    if n > 0 {
        let j = (start % 64) as u64;
        assert((0u64 >> j) & 1 == 0) by (bit_vector);
        assert(!bit_at(words, start));
        lemma_zero_field(words, start + 1, (n - 1) as nat);
    }
}

proof fn lemma_low_bits_fit(v: u64, w: u64) by (bit_vector)
    requires
        1 <= w < 64,
    ensures
        (v & (((1u64 << w) - 1) as u64)) >> w == 0,
        v >> w == 0 ==> v & (((1u64 << w) - 1) as u64) == v,
{
}

proof fn lemma_fits_below(a: u64, b: u64, w: u64) by (bit_vector)
    requires
        a <= b,
        b >> w == 0,
        w < 64,
    ensures
        a >> w == 0,
{
}

/// The position of `p` in the row-major (y, then z, then x) order of the box
/// with lowest corner `lo` and extents `ex` along x and `ez` along z.
pub open spec fn linear_index(p: BlockPos, lo: BlockPos, ex: int, ez: int) -> int {
    ((p.y - lo.y) * ez + (p.z - lo.z)) * ex + (p.x - lo.x)
}

pub open spec fn in_extent(p: BlockPos, lo: BlockPos, ex: int, ey: int, ez: int) -> bool {
    0 <= p.x - lo.x < ex && 0 <= p.y - lo.y < ey && 0 <= p.z - lo.z < ez
}

proof fn lemma_linear_bounds(p: BlockPos, lo: BlockPos, ex: int, ey: int, ez: int)
    requires
        in_extent(p, lo, ex, ey, ez),
    ensures
        0 <= (p.y - lo.y) * ez + (p.z - lo.z) < ey * ez,
        0 <= (p.y - lo.y) * ez <= (p.y - lo.y) * ez + (p.z - lo.z),
        0 <= linear_index(p, lo, ex, ez) < ex * ey * ez,
        ((p.y - lo.y) * ez + (p.z - lo.z)) * ex <= linear_index(p, lo, ex, ez),
{
    let dx = p.x - lo.x;
    let dy = p.y - lo.y;
    let dz = p.z - lo.z;
    assert(0 <= dy * ez) by (nonlinear_arith)
        requires
            0 <= dy,
            0 <= ez,
    ;
    assert(dy * ez + dz < ey * ez) by (nonlinear_arith)
        requires
            0 <= dy < ey,
            0 <= dz < ez,
    ;
    let q = dy * ez + dz;
    assert(0 <= q * ex) by (nonlinear_arith)
        requires
            0 <= q,
            0 <= ex,
    ;
    assert(q * ex + dx < ex * ey * ez) by (nonlinear_arith)
        requires
            0 <= q < ey * ez,
            0 <= dx < ex,
    ;
}

proof fn lemma_linear_injective(p: BlockPos, q: BlockPos, lo: BlockPos, ex: int, ey: int, ez: int)
    requires
        in_extent(p, lo, ex, ey, ez),
        in_extent(q, lo, ex, ey, ez),
        linear_index(p, lo, ex, ez) == linear_index(q, lo, ex, ez),
    ensures
        p == q,
{
    let l = linear_index(p, lo, ex, ez);
    let rp = (p.y - lo.y) * ez + (p.z - lo.z);
    let rq = (q.y - lo.y) * ez + (q.z - lo.z);
    vstd::arithmetic::div_mod::lemma_fundamental_div_mod_converse(l, ex, rp, p.x - lo.x);
    vstd::arithmetic::div_mod::lemma_fundamental_div_mod_converse(l, ex, rq, q.x - lo.x);
    vstd::arithmetic::div_mod::lemma_fundamental_div_mod_converse(rp, ez, p.y - lo.y, p.z - lo.z);
    vstd::arithmetic::div_mod::lemma_fundamental_div_mod_converse(rq, ez, q.y - lo.y, q.z - lo.z);
}

/// An encoded region: its lowest corner, its extents, its palette, the width
/// of a field, and one field per voxel of the bounding box, packed.
pub struct RegionData {
    pub position: BlockPos,
    pub size: BlockPos,
    pub palette: Vec<String>,
    pub width: u32,
    pub block_states: Vec<u64>,
}

/// The region cannot be encoded.
pub open spec fn too_large(ps: Seq<BlockPos>, states: Seq<BlockState>) -> bool {
    volume(ps) > MAX_VOLUME || palette_of(names_of(states)).len() > MAX_PALETTE
}

/// `d` is the encoding of the blocks `ps[t]`, `states[t]` under `policy`.
pub open spec fn encodes(
    ps: Seq<BlockPos>,
    states: Seq<BlockState>,
    policy: WidthPolicy,
    d: RegionData,
) -> bool {
    let lo = bbox_lo(ps);
    let ex = extent_x(ps);
    let ez = extent_z(ps);
    let pal = palette_of(names_of(states));
    let w = d.width as nat;
    &&& d.position == lo
    &&& d.size == (BlockPos { x: ex as i32, y: extent_y(ps) as i32, z: ez as i32 })
    &&& views_of(d.palette@) == pal
    &&& width_for(policy, pal.len() as u64, d.width as u64)
    &&& d.block_states@.len() == (volume(ps) * w + 63) / 64
    &&& forall|t: int|
        0 <= t < ps.len() ==> field(d.block_states@, w, linear_index(#[trigger] ps[t], lo, ex, ez) as nat)
            == low_bits(index_from(pal, states[t].name@, 0) as u64, w as u64)
    &&& forall|v: int|
        0 <= v < volume(ps) && (forall|t: int| 0 <= t < ps.len() ==> linear_index(#[trigger] ps[t], lo, ex, ez) != v)
            ==> #[trigger] field(d.block_states@, w, v as nat) == 0
    &&& forall|k: int|
        volume(ps) * w <= k < d.block_states@.len() * 64 ==> !#[trigger] bit_at(d.block_states@, k)
}

impl Region {
    /// Encode the region: bounding box, palette, and one packed palette index
    /// per voxel of the box (0 where no block was placed).
    pub fn encode(&self, policy: WidthPolicy) -> (r: Result<RegionData, EncodeError>)
        requires
            self.wf(),
        ensures
            match r {
                Ok(d) => !too_large(self.positions@, self.states@) && encodes(self.positions@, self.states@, policy, d),
                Err(e) => e == EncodeError::TooLarge && too_large(self.positions@, self.states@),
            },
    {
        let ghost ps = self.positions@;
        let ghost palv = palette_of(names_of(self.states@));
        let pal = build_palette(&self.states);
        let np: usize = pal.len();
        assert(np == palv.len());
        if np as u64 > MAX_PALETTE {
            return Err(EncodeError::TooLarge);
        }
        let n = self.positions.len();
        if n == 0 {
            let w = field_width(np as u64, policy);
            let d = RegionData { position: BlockPos::zero(), size: BlockPos::zero(), palette: pal, width: w, block_states: Vec::new() };
            assert(encodes(ps, self.states@, policy, d));
            return Ok(d);
        }
        let (lo, hi) = bounds(&self.positions);
        proof {
            lemma_bbox_contains(ps);
        }
        let ex: u64 = (hi.x as i64 - lo.x as i64 + 1) as u64;
        let ey: u64 = (hi.y as i64 - lo.y as i64 + 1) as u64;
        let ez: u64 = (hi.z as i64 - lo.z as i64 + 1) as u64;
        if ex > MAX_VOLUME || ey > MAX_VOLUME || ez > MAX_VOLUME {
            assert(volume(ps) > MAX_VOLUME) by (nonlinear_arith)
                requires
                    ex >= 1 && ey >= 1 && ez >= 1,
                    ex > MAX_VOLUME || ey > MAX_VOLUME || ez > MAX_VOLUME,
                    volume(ps) == ex * ey * ez,
            ;
            return Err(EncodeError::TooLarge);
        }
        assert(ex * ey <= MAX_VOLUME * MAX_VOLUME) by (nonlinear_arith)
            requires
                ex <= MAX_VOLUME && ey <= MAX_VOLUME,
        ;
        let exy: u64 = ex * ey;
        if exy > MAX_VOLUME {
            assert(volume(ps) > MAX_VOLUME) by (nonlinear_arith)
                requires
                    ez >= 1,
                    exy > MAX_VOLUME,
                    volume(ps) == exy * ez,
            ;
            return Err(EncodeError::TooLarge);
        }
        assert(exy * ez <= MAX_VOLUME * MAX_VOLUME) by (nonlinear_arith)
            requires
                exy <= MAX_VOLUME && ez <= MAX_VOLUME,
        ;
        let vol: u64 = exy * ez;
        if vol > MAX_VOLUME {
            return Err(EncodeError::TooLarge);
        }
        assert(volume(ps) == vol);
        let w = field_width(np as u64, policy);
        assert(vol * w <= MAX_VOLUME * 32) by (nonlinear_arith)
            requires
                vol <= MAX_VOLUME && w <= 32,
        ;
        let nwords: usize = ((vol * w as u64 + 63) / 64) as usize;
        assert(nwords * 64 <= usize::MAX);
        let mut words: Vec<u64> = Vec::new();
        let mut i: usize = 0;
        while i < nwords
            invariant
                i <= nwords,
                words@.len() == i,
                forall|k: int| 0 <= k < i ==> words@[k] == 0,
            decreases nwords - i,
        {
            words.push(0);
            i = i + 1;
        }
        let ghost wn = w as nat;
        let ghost exi = ex as int;
        let ghost eyi = ey as int;
        let ghost ezi = ez as int;
        proof {
            assert forall|v: int| 0 <= v < vol implies #[trigger] field(words@, wn, v as nat) == 0 by {
                assert((v + 1) * wn <= vol * wn) by (nonlinear_arith)
                    requires
                        v + 1 <= vol,
                        0 <= wn,
                ;
                assert(v * wn + wn == (v + 1) * wn) by (nonlinear_arith);
                assert(0 <= v * wn) by (nonlinear_arith)
                    requires
                        0 <= v,
                ;
                lemma_zero_field(words@, (v * wn) as int, wn);
            }
            assert forall|k: int| vol * wn <= k < words@.len() * 64 implies !#[trigger] bit_at(words@, k) by {
                let j = (k % 64) as u64;
                assert((0u64 >> j) & 1 == 0) by (bit_vector);
            }
        }
        let mut t: usize = 0;
        while t < n
            invariant
                self.wf(),
                ps == self.positions@,
                n == ps.len(),
                palv == palette_of(names_of(self.states@)),
                views_of(pal@) == palv,
                np == pal@.len(),
                lo == bbox_lo(ps),
                exi == extent_x(ps),
                eyi == extent_y(ps),
                ezi == extent_z(ps),
                exi == ex,
                eyi == ey,
                ezi == ez,
                vol == exi * eyi * ezi,
                vol <= MAX_VOLUME,
                1 <= w <= 32,
                wn == w,
                words@.len() == nwords,
                nwords == (vol * w + 63) / 64,
                nwords * 64 <= usize::MAX,
                forall|k: int| 0 <= k < ps.len() ==> in_extent(#[trigger] ps[k], lo, exi, eyi, ezi),
                t <= n,
                forall|k: int|
                    0 <= k < t ==> field(words@, wn, linear_index(#[trigger] ps[k], lo, exi, ezi) as nat)
                        == low_bits(index_from(palv, self.states@[k].name@, 0) as u64, w as u64),
                forall|v: int|
                    0 <= v < vol && (forall|k: int| 0 <= k < t ==> linear_index(#[trigger] ps[k], lo, exi, ezi) != v)
                        ==> #[trigger] field(words@, wn, v as nat) == 0,
                forall|k: int| vol * wn <= k < words@.len() * 64 ==> !#[trigger] bit_at(words@, k),
            decreases n - t,
        {
            let p = self.positions[t];
            proof {
                lemma_linear_bounds(p, lo, exi, eyi, ezi);
            }
            let dy: u64 = (p.y as i64 - lo.y as i64) as u64;
            let dz: u64 = (p.z as i64 - lo.z as i64) as u64;
            let dx: u64 = (p.x as i64 - lo.x as i64) as u64;
            assert(dy == p.y - lo.y && dz == p.z - lo.z && dx == p.x - lo.x);
            assert(dy * ez + dz < eyi * ezi);
            assert(eyi * ezi <= vol) by (nonlinear_arith)
                requires
                    exi >= 1,
                    eyi >= 1,
                    ezi >= 1,
                    vol == exi * eyi * ezi,
            ;
            assert(dy * ez <= dy * ez + dz);
            assert((dy * ez + dz) * ex + dx < vol);
            assert((dy * ez + dz) * ex <= (dy * ez + dz) * ex + dx);
            let lin: u64 = (dy * ez + dz) * ex + dx;
            let idx = palette_index(&pal, &self.states[t].name);
            assert(1u64 << w >= 1) by (bit_vector)
                requires
                    w < 64,
            ;
            let mask: u64 = (1u64 << w) - 1;
            let val: u64 = (idx as u64) & mask;
            let ghost before = words@;
            proof {
                lemma_low_bits_fit(idx as u64, w as u64);
                assert((lin + 1) * wn <= vol * wn) by (nonlinear_arith)
                    requires
                        lin + 1 <= vol,
                ;
            }
            write_field(&mut words, w, lin as usize, val);
            proof {
                lemma_write_then_read(before, words@, wn, lin as nat, val);
                assert forall|k: int|
                    0 <= k < t + 1 implies field(words@, wn, linear_index(#[trigger] ps[k], lo, exi, ezi) as nat)
                        == low_bits(index_from(palv, self.states@[k].name@, 0) as u64, w as u64) by {
                    if k < t {
                        lemma_linear_bounds(ps[k], lo, exi, eyi, ezi);
                        if linear_index(ps[k], lo, exi, ezi) == lin {
                            lemma_linear_injective(ps[k], p, lo, exi, eyi, ezi);
                        }
                        let lk = linear_index(ps[k], lo, exi, ezi) as nat;
                        assert((lk + 1) * wn <= vol * wn) by (nonlinear_arith)
                            requires
                                lk + 1 <= vol,
                        ;
                        assert(field(words@, wn, lk) == field(before, wn, lk));
                    }
                }
                assert forall|v: int|
                    0 <= v < vol && (forall|k: int| 0 <= k < t + 1 ==> linear_index(#[trigger] ps[k], lo, exi, ezi) != v)
                        implies #[trigger] field(words@, wn, v as nat) == 0 by {
                    assert(linear_index(ps[t as int], lo, exi, ezi) != v);
                    assert((v + 1) * wn <= vol * wn) by (nonlinear_arith)
                        requires
                            v + 1 <= vol,
                            0 <= wn,
                    ;
                    assert(field(words@, wn, v as nat) == field(before, wn, v as nat));
                }
                assert forall|k: int| vol * wn <= k < words@.len() * 64 implies !#[trigger] bit_at(words@, k) by {
                    assert(lin * wn + wn == (lin + 1) * wn) by (nonlinear_arith);
                    assert(bit_at(words@, k) == bit_at(before, k));
                }
            }
            t = t + 1;
        }
        let size = BlockPos::new(ex as i32, ey as i32, ez as i32);
        let d = RegionData { position: lo, size, palette: pal, width: w, block_states: words };
        assert(encodes(ps, self.states@, policy, d));
        Ok(d)
    }
}

/// The document of a position: its coordinates as integers.
pub open spec fn pos_doc(p: BlockPos) -> Map<Seq<char>, NbtValue> {
    no_entries().insert("x"@, NbtValue::Int(p.x)).insert("y"@, NbtValue::Int(p.y)).insert(
        "z"@,
        NbtValue::Int(p.z),
    )
}

/// The document of a block state: its identifier under `Name`.
pub open spec fn state_doc(name: Seq<char>) -> Map<Seq<char>, NbtValue> {
    no_entries().insert("Name"@, NbtValue::Str(name))
}

/// The document of an encoded region: position, size, the palette as a list
/// of state documents in palette order, the packed words (same bits), and
/// empty entity and tick lists.
pub open spec fn region_doc(
    position: BlockPos,
    size: BlockPos,
    palette: Seq<Seq<char>>,
    words: Seq<u64>,
) -> Map<Seq<char>, NbtValue> {
    no_entries().insert("Position"@, NbtValue::Compound(pos_doc(position))).insert(
        "Size"@,
        NbtValue::Compound(pos_doc(size)),
    ).insert(
        "BlockStatePalette"@,
        NbtValue::CompoundList(palette.map_values(|n: Seq<char>| state_doc(n))),
    ).insert("BlockStates"@, NbtValue::LongArray(words.map_values(|w: u64| w as i64))).insert(
        "Entities"@,
        NbtValue::CompoundList(Seq::empty()),
    ).insert("TileEntities"@, NbtValue::CompoundList(Seq::empty())).insert(
        "PendingBlockTick"@,
        NbtValue::CompoundList(Seq::empty()),
    )
}

pub open spec fn data_doc(d: RegionData) -> Map<Seq<char>, NbtValue> {
    region_doc(d.position, d.size, views_of(d.palette@), d.block_states@)
}

/// `doc` is the document of `r` encoded under `policy`.
pub open spec fn is_region_doc(r: Region, policy: WidthPolicy, doc: Map<Seq<char>, NbtValue>) -> bool {
    exists|d: RegionData| encodes(r.positions@, r.states@, policy, d) && doc == data_doc(d)
}

impl BlockPos {
    /// The position as a tag with `x`, `y` and `z` entries.
    pub fn to_tag(&self) -> (r: CompoundTag)
        ensures
            tag_contents(r) == pos_doc(*self),
    {
        let mut tag = new_tag();
        put_i32(&mut tag, "x", self.x);
        put_i32(&mut tag, "y", self.y);
        put_i32(&mut tag, "z", self.z);
        tag
    }
}

impl BlockState {
    /// The state as a tag with its `Name`.
    pub fn to_tag(&self) -> (r: CompoundTag)
        ensures
            tag_contents(r) == state_doc(self.name@),
    {
        let mut tag = new_tag();
        put_str(&mut tag, "Name", self.name.as_str());
        tag
    }
}

impl RegionData {
    /// The region document: position, size, palette, packed block states,
    /// and empty entity and tick lists.
    pub fn to_tag(&self) -> (r: CompoundTag)
        ensures
            tag_contents(r) == data_doc(*self),
    {
        let ghost pal = views_of(self.palette@);
        let mut palette_tags: Vec<CompoundTag> = Vec::new();
        let mut i: usize = 0;
        while i < self.palette.len()
            invariant
                pal == views_of(self.palette@),
                pal.len() == self.palette@.len(),
                i <= self.palette@.len(),
                palette_tags@.len() == i,
                palette_tags@.map_values(|t: CompoundTag| tag_contents(t)) == pal.take(i as int).map_values(
                    |n: Seq<char>| state_doc(n),
                ),
            decreases self.palette@.len() - i,
        {
            let mut entry = new_tag();
            put_str(&mut entry, "Name", self.palette[i].as_str());
            let ghost before = palette_tags@;
            palette_tags.push(entry);
            proof {
                assert(palette_tags@ == before.push(entry));
                assert(pal[i as int] == self.palette@[i as int]@);
                assert(palette_tags@.map_values(|t: CompoundTag| tag_contents(t)) =~= pal.take(
                    i + 1,
                ).map_values(|n: Seq<char>| state_doc(n))) by {
                    let lhs = palette_tags@.map_values(|t: CompoundTag| tag_contents(t));
                    let rhs = pal.take(i + 1).map_values(|n: Seq<char>| state_doc(n));
                    let old_rhs = pal.take(i as int).map_values(|n: Seq<char>| state_doc(n));
                    assert(lhs.len() == rhs.len());
                    assert forall|k: int| 0 <= k < lhs.len() implies lhs[k] == rhs[k] by {
                        if k < i {
                            assert(lhs[k] == before.map_values(|t: CompoundTag| tag_contents(t))[k]);
                            assert(rhs[k] == old_rhs[k]);
                        } else {
                            assert(lhs[k] == tag_contents(entry));
                            assert(rhs[k] == state_doc(pal[k]));
                        }
                    }
                }
            }
            i = i + 1;
        }
        proof {
            assert(pal.take(i as int) =~= pal);
        }
        let mut tag = new_tag();
        put_compound(&mut tag, "Position", self.position.to_tag());
        put_compound(&mut tag, "Size", self.size.to_tag());
        put_compound_list(&mut tag, "BlockStatePalette", palette_tags);
        put_long_array(&mut tag, "BlockStates", &self.block_states);
        let entities: Vec<CompoundTag> = Vec::new();
        let tile_entities: Vec<CompoundTag> = Vec::new();
        let ticks: Vec<CompoundTag> = Vec::new();
        proof {
            assert(entities@.map_values(|t: CompoundTag| tag_contents(t)) =~= Seq::empty());
            assert(tile_entities@.map_values(|t: CompoundTag| tag_contents(t)) =~= Seq::empty());
            assert(ticks@.map_values(|t: CompoundTag| tag_contents(t)) =~= Seq::empty());
        }
        put_compound_list(&mut tag, "Entities", entities);
        put_compound_list(&mut tag, "TileEntities", tile_entities);
        put_compound_list(&mut tag, "PendingBlockTick", ticks);
        tag
    }
}

impl Region {
    /// The region's document, encoded under `policy`.
    pub fn to_tag(&self, policy: WidthPolicy) -> (r: Result<CompoundTag, EncodeError>)
        requires
            self.wf(),
        ensures
            match r {
                Ok(t) => !too_large(self.positions@, self.states@) && is_region_doc(
                    *self,
                    policy,
                    tag_contents(t),
                ),
                Err(e) => e == EncodeError::TooLarge && too_large(self.positions@, self.states@),
            },
    {
        match self.encode(policy) {
            Ok(d) => {
                let t = d.to_tag();
                assert(is_region_doc(*self, policy, tag_contents(t)));
                Ok(t)
            },
            Err(e) => Err(e),
        }
    }
}

/// A schematic: named regions and optional metadata.
pub struct Schematic {
    pub regions: Vec<Region>,
    pub name: Option<String>,
    pub author: Option<String>,
    pub description: Option<String>,
}

/// The document format version written.
pub const SCHEMATIC_VERSION: i32 = 4;

/// The metadata document: `Name`, `Author` and `Description` where set, and
/// the number of regions.
pub open spec fn metadata_doc(s: Schematic) -> Map<Seq<char>, NbtValue> {
    let m0 = no_entries();
    let m1 = match s.name {
        Some(n) => m0.insert("Name"@, NbtValue::Str(n@)),
        None => m0,
    };
    let m2 = match s.author {
        Some(a) => m1.insert("Author"@, NbtValue::Str(a@)),
        None => m1,
    };
    let m3 = match s.description {
        Some(d) => m2.insert("Description"@, NbtValue::Str(d@)),
        None => m2,
    };
    m3.insert("RegionCount"@, NbtValue::Int(s.regions@.len() as i32))
}

/// The first `n` regions' documents, each under its region's name (a later
/// region replaces an earlier one of the same name).
pub open spec fn regions_doc(
    regions: Seq<Region>,
    docs: Seq<Map<Seq<char>, NbtValue>>,
    n: int,
) -> Map<Seq<char>, NbtValue>
    decreases n,
{
    if n <= 0 {
        no_entries()
    } else {
        regions_doc(regions, docs, n - 1).insert(regions[n - 1].name@, NbtValue::Compound(docs[n - 1]))
    }
}

proof fn lemma_regions_doc_prefix(
    regions: Seq<Region>,
    a: Seq<Map<Seq<char>, NbtValue>>,
    b: Seq<Map<Seq<char>, NbtValue>>,
    n: int,
)
    requires
        n <= a.len(),
        n <= b.len(),
        forall|j: int| 0 <= j < n ==> a[j] == b[j],
    ensures
        regions_doc(regions, a, n) == regions_doc(regions, b, n),
    decreases n,
{
    if n > 0 {
        lemma_regions_doc_prefix(regions, a, b, n - 1);
    }
}

/// `docs` are the documents of the regions, one each, under `policy`.
pub open spec fn region_docs(
    regions: Seq<Region>,
    policy: WidthPolicy,
    docs: Seq<Map<Seq<char>, NbtValue>>,
) -> bool {
    docs.len() == regions.len() && forall|j: int|
        0 <= j < regions.len() ==> is_region_doc(#[trigger] regions[j], policy, docs[j])
}

/// The schematic document, given its regions' documents.
pub open spec fn schematic_doc(s: Schematic, docs: Seq<Map<Seq<char>, NbtValue>>) -> Map<
    Seq<char>,
    NbtValue,
> {
    no_entries().insert("Metadata"@, NbtValue::Compound(metadata_doc(s))).insert(
        "Regions"@,
        NbtValue::Compound(regions_doc(s.regions@, docs, s.regions@.len() as int)),
    ).insert("Version"@, NbtValue::Int(4))
}

impl Schematic {
    pub open spec fn wf(&self) -> bool {
        forall|i: int| 0 <= i < self.regions@.len() ==> (#[trigger] self.regions@[i]).wf()
    }

    pub fn new() -> (r: Schematic)
        ensures
            r.wf(),
            r.regions@.len() == 0,
            r.name is None,
            r.author is None,
            r.description is None,
    {
        Schematic { regions: Vec::new(), name: None, author: None, description: None }
    }

    pub fn add_region(&mut self, region: Region)
        requires
            old(self).wf(),
            region.wf(),
        ensures
            final(self).wf(),
            final(self).regions@ == old(self).regions@.push(region),
            final(self).name == old(self).name,
            final(self).author == old(self).author,
            final(self).description == old(self).description,
    {
        self.regions.push(region);
    }

    pub fn set_name(&mut self, name: &str)
        ensures
            final(self).name is Some && final(self).name->0@ == name@,
            final(self).regions@ == old(self).regions@,
            final(self).author == old(self).author,
            final(self).description == old(self).description,
    {
        self.name = Some(name.to_owned());
    }

    pub fn set_author(&mut self, author: &str)
        ensures
            final(self).author is Some && final(self).author->0@ == author@,
            final(self).regions@ == old(self).regions@,
            final(self).name == old(self).name,
            final(self).description == old(self).description,
    {
        self.author = Some(author.to_owned());
    }

    pub fn set_description(&mut self, description: &str)
        ensures
            final(self).description is Some && final(self).description->0@ == description@,
            final(self).regions@ == old(self).regions@,
            final(self).name == old(self).name,
            final(self).author == old(self).author,
    {
        self.description = Some(description.to_owned());
    }

    /// The schematic's document: metadata, each region under its name, and
    /// the format version. Fails exactly when some region is too large.
    pub fn to_tag(&self, policy: WidthPolicy) -> (r: Result<CompoundTag, EncodeError>)
        requires
            self.wf(),
            self.regions@.len() <= i32::MAX,
        ensures
            match r {
                Ok(t) => {
                    &&& forall|i: int|
                        0 <= i < self.regions@.len() ==> !too_large(
                            #[trigger] self.regions@[i].positions@,
                            self.regions@[i].states@,
                        )
                    &&& exists|docs: Seq<Map<Seq<char>, NbtValue>>|
                        #[trigger] region_docs(self.regions@, policy, docs) && tag_contents(t)
                            == schematic_doc(*self, docs)
                },
                Err(e) => e == EncodeError::TooLarge && exists|i: int|
                    0 <= i < self.regions@.len() && too_large(
                        #[trigger] self.regions@[i].positions@,
                        self.regions@[i].states@,
                    ),
            },
    {
        let mut metadata = new_tag();
        match &self.name {
            Some(name) => put_str(&mut metadata, "Name", name.as_str()),
            None => {},
        }
        match &self.author {
            Some(author) => put_str(&mut metadata, "Author", author.as_str()),
            None => {},
        }
        match &self.description {
            Some(description) => put_str(&mut metadata, "Description", description.as_str()),
            None => {},
        }
        put_i32(&mut metadata, "RegionCount", self.regions.len() as i32);
        assert(tag_contents(metadata) == metadata_doc(*self));
        let mut regions = new_tag();
        let ghost mut docs: Seq<Map<Seq<char>, NbtValue>> = Seq::empty();
        let mut i: usize = 0;
        while i < self.regions.len()
            invariant
                self.wf(),
                i <= self.regions@.len(),
                forall|j: int|
                    0 <= j < i ==> !too_large(
                        #[trigger] self.regions@[j].positions@,
                        self.regions@[j].states@,
                    ),
                docs.len() == i,
                forall|j: int|
                    0 <= j < i ==> is_region_doc(#[trigger] self.regions@[j], policy, docs[j]),
                tag_contents(regions) == regions_doc(self.regions@, docs, i as int),
            decreases self.regions@.len() - i,
        {
            let region = &self.regions[i];
            match region.to_tag(policy) {
                Ok(t) => {
                    put_compound(&mut regions, region.name.as_str(), t);
                    proof {
                        let d0 = docs;
                        docs = docs.push(tag_contents(t));
                        assert forall|j: int|
                            0 <= j < i + 1 implies is_region_doc(
                            #[trigger] self.regions@[j],
                            policy,
                            docs[j],
                        ) by {
                            if j < i {
                                assert(docs[j] == d0[j]);
                            }
                        }
                        assert forall|k: int| 0 <= k < i implies regions_doc(
                            self.regions@,
                            docs,
                            k,
                        ) == regions_doc(self.regions@, d0, k) by {
                            lemma_regions_doc_prefix(self.regions@, docs, d0, k);
                        }
                        lemma_regions_doc_prefix(self.regions@, docs, d0, i as int);
                    }
                },
                Err(e) => {
                    return Err(e);
                },
            }
            i = i + 1;
        }
        let mut schematic = new_tag();
        put_compound(&mut schematic, "Metadata", metadata);
        put_compound(&mut schematic, "Regions", regions);
        put_i32(&mut schematic, "Version", SCHEMATIC_VERSION);
        assert(region_docs(self.regions@, policy, docs));
        assert(tag_contents(schematic) == schematic_doc(*self, docs));
        Ok(schematic)
    }
}

/// Palette entry 0 is always the air identifier, whatever blocks were placed.
pub proof fn lemma_palette_air_first(names: Seq<Seq<char>>)
    ensures
        palette_of(names).len() >= 1,
        palette_of(names)[0] == air(),
    decreases names.len(),
{
    if names.len() > 0 {
        lemma_palette_air_first(names.drop_last());
    }
}

proof fn lemma_palette_holds_names(names: Seq<Seq<char>>)
    ensures
        forall|t: int| 0 <= t < names.len() ==> palette_of(names).contains(#[trigger] names[t]),
    decreases names.len(),
{
    if names.len() > 0 {
        let prev = names.drop_last();
        lemma_palette_holds_names(prev);
        let p = palette_of(prev);
        assert forall|t: int| 0 <= t < names.len() implies palette_of(names).contains(
            #[trigger] names[t],
        ) by {
            if t < names.len() - 1 {
                assert(prev[t] == names[t]);
                let k = choose|k: int| 0 <= k < p.len() && p[k] == names[t];
                assert(palette_of(names)[k] == names[t]);
            } else if !p.contains(names.last()) {
                assert(palette_of(names)[p.len() as int] == names[t]);
            }
        }
    }
}

proof fn lemma_index_from_finds(pal: Seq<Seq<char>>, name: Seq<char>, i: int, j: int)
    requires
        0 <= i <= j < pal.len(),
        pal[j] == name,
    ensures
        i <= index_from(pal, name, i) <= j,
        pal[index_from(pal, name, i)] == name,
    decreases j - i,
{
    if pal[i] != name {
        lemma_index_from_finds(pal, name, i + 1, j);
    }
}

/// Under the exact width every voxel of a placed block holds the palette
/// index of its state, and that palette entry is the state's identifier.
pub proof fn lemma_exact_fields_decode(ps: Seq<BlockPos>, states: Seq<BlockState>, d: RegionData)
    requires
        ps.len() == states.len(),
        !too_large(ps, states),
        encodes(ps, states, WidthPolicy::Exact, d),
    ensures
        forall|t: int|
            0 <= t < ps.len() ==> {
                let f = field(
                    d.block_states@,
                    d.width as nat,
                    linear_index(#[trigger] ps[t], bbox_lo(ps), extent_x(ps), extent_z(ps)) as nat,
                );
                &&& f < d.palette@.len()
                &&& d.palette@[f as int]@ == states[t].name@
            },
{
    let names = names_of(states);
    let pal = palette_of(names);
    let w = d.width as u64;
    lemma_palette_holds_names(names);
    assert forall|t: int| 0 <= t < ps.len() implies {
        let f = field(
            d.block_states@,
            d.width as nat,
            linear_index(#[trigger] ps[t], bbox_lo(ps), extent_x(ps), extent_z(ps)) as nat,
        );
        &&& f < d.palette@.len()
        &&& d.palette@[f as int]@ == states[t].name@
    } by {
        assert(names[t] == states[t].name@);
        assert(pal.contains(names[t]));
        let j = choose|j: int| 0 <= j < pal.len() && pal[j] == names[t];
        lemma_index_from_finds(pal, names[t], 0, j);
        let idx = index_from(pal, names[t], 0);
        assert(idx <= pal.len() - 1);
        lemma_fits_below(idx as u64, (pal.len() - 1) as u64, w);
        lemma_low_bits_fit(idx as u64, w);
        assert(views_of(d.palette@)[idx] == d.palette@[idx]@);
    }
}

proof fn lemma_fits_grows(a: u64, v: u64, w: u64) by (bit_vector)
    requires
        a >> v == 0,
        v <= w,
        w < 64,
    ensures
        a >> w == 0,
{
}

proof fn lemma_exact_width_unique(n: u64, w1: u64, w2: u64)
    requires
        is_exact_width(n, w1),
        is_exact_width(n, w2),
    ensures
        w1 == w2,
{
    if w1 < w2 {
        lemma_fits_grows((n - 1) as u64, w1, (w2 - 1) as u64);
    } else if w2 < w1 {
        lemma_fits_grows((n - 1) as u64, w2, (w1 - 1) as u64);
    }
}

/// The encoding of a region is determined by its positions and identifiers:
/// two encodings of the same blocks give the same document.
pub proof fn lemma_encoding_determined(
    ps: Seq<BlockPos>,
    s1: Seq<BlockState>,
    s2: Seq<BlockState>,
    policy: WidthPolicy,
    d1: RegionData,
    d2: RegionData,
)
    requires
        s1.len() == ps.len(),
        s2.len() == ps.len(),
        names_of(s1) == names_of(s2),
        !too_large(ps, s1),
        encodes(ps, s1, policy, d1),
        encodes(ps, s2, policy, d2),
    ensures
        data_doc(d1) == data_doc(d2),
{
    let pal = palette_of(names_of(s1));
    let n = pal.len() as u64;
    match policy {
        WidthPolicy::Exact => {
            lemma_exact_width_unique(n, d1.width as u64, d2.width as u64);
        },
        WidthPolicy::ClampedToTwo => {
            let e1 = choose|e: u64| is_exact_width(n, e) && d1.width as u64 == if e < 2 {
                e
            } else {
                2
            };
            let e2 = choose|e: u64| is_exact_width(n, e) && d2.width as u64 == if e < 2 {
                e
            } else {
                2
            };
            lemma_exact_width_unique(n, e1, e2);
        },
    }
    let w = d1.width as nat;
    assert(w >= 1) by {
        match policy {
            WidthPolicy::Exact => {},
            WidthPolicy::ClampedToTwo => {
                let e = choose|e: u64| is_exact_width(n, e) && d1.width as u64 == if e < 2 {
                    e
                } else {
                    2
                };
            },
        }
    }
    let a = d1.block_states@;
    let b = d2.block_states@;
    let vol = volume(ps);
    let lo = bbox_lo(ps);
    let ex = extent_x(ps);
    let ez = extent_z(ps);
    assert forall|k: int| 0 <= k < a.len() * 64 implies #[trigger] bit_at(a, k) == bit_at(b, k) by {
        if k < vol * w {
            vstd::arithmetic::div_mod::lemma_fundamental_div_mod(k, w as int);
            let v = k / (w as int);
            let j = k % (w as int);
            assert(0 <= v < vol) by (nonlinear_arith)
                requires
                    k == w * v + j,
                    0 <= j < w,
                    0 <= k < vol * w,
            ;
            assert(v * w == w * v) by (nonlinear_arith);
            if exists|t: int| 0 <= t < ps.len() && linear_index(#[trigger] ps[t], lo, ex, ez) == v {
                let t = choose|t: int| 0 <= t < ps.len() && linear_index(#[trigger] ps[t], lo, ex, ez) == v;
                assert(names_of(s1)[t] == names_of(s2)[t]);
                assert(field(a, w, v as nat) == field(b, w, v as nat));
            } else {
                assert(field(a, w, v as nat) == 0);
                assert(field(b, w, v as nat) == 0);
            }
            lemma_field_bits_equal(a, b, v * w, w);
        }
    }
    lemma_words_from_bits(a, b);
}

/// A region's document is determined by the region: every document that
/// `to_tag` may return for it under one policy is the same.
pub proof fn lemma_region_doc_determined(
    r1: Region,
    r2: Region,
    policy: WidthPolicy,
    doc1: Map<Seq<char>, NbtValue>,
    doc2: Map<Seq<char>, NbtValue>,
)
    requires
        r1.wf(),
        r2.wf(),
        r1.positions@ == r2.positions@,
        names_of(r1.states@) == names_of(r2.states@),
        !too_large(r1.positions@, r1.states@),
        is_region_doc(r1, policy, doc1),
        is_region_doc(r2, policy, doc2),
    ensures
        doc1 == doc2,
{
    let d1 = choose|d: RegionData| encodes(r1.positions@, r1.states@, policy, d) && doc1 == data_doc(d);
    let d2 = choose|d: RegionData| encodes(r2.positions@, r2.states@, policy, d) && doc2 == data_doc(d);
    lemma_encoding_determined(r1.positions@, r1.states@, r2.states@, policy, d1, d2);
}

} // verus!
