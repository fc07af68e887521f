use vstd::prelude::*;
use crate::grid::{Grid, xy_in, EMPTY};

verus! {

/// Offset mixed into every key input, so that no input maps to the zero key by construction.
pub const KEY_SEED: u64 = 0x9E37_79B9_7F4A_7C15;

/// The splitmix64 finaliser: a bijective scrambling of a 64-bit value.
pub open spec fn mix_spec(x: u64) -> u64 {
    let a = x ^ (x >> 30u64);
    let b = vstd::wrapping::u64_specs::wrapping_mul(a, 0xBF58_476D_1CE4_E5B9u64);
    let c = b ^ (b >> 27u64);
    let d = vstd::wrapping::u64_specs::wrapping_mul(c, 0x94D0_49BB_1331_11EBu64);
    d ^ (d >> 31u64)
}

/// The key of cell code `code` at `(x, y)` on a board `w` cells wide.
pub open spec fn cell_key(w: int, x: int, y: int, code: i8) -> u64 {
    mix_spec(KEY_SEED ^ (((y * w + x) * 4 + code) as u64))
}

/// The key of a health value for the searching side (`mine`) or its opponent.
pub open spec fn health_key(health: i32, mine: bool) -> u64 {
    mix_spec(KEY_SEED ^ (((health as u32) as u64) | (if mine { 0x1_0000_0000u64 } else { 0x2_0000_0000u64 })))
}

/// The keys of the first `k` cells of `g` (in index order) that are not empty, xor-ed together.
pub open spec fn cells_hash(g: Grid, k: nat) -> u64
    decreases k,
{
    if k == 0 {
        0
    } else {
        let i = k - 1;
        let w = g.width as int;
        let code = g.cell(i % w, i / w);
        let rest = cells_hash(g, (k - 1) as nat);
        if code == EMPTY { rest } else { rest ^ cell_key(w, i % w, i / w, code) }
    }
}

/// The hash of a position: its non-empty cells and both healths.
pub open spec fn position_hash(g: Grid, my_health: i32, enemy_health: i32) -> u64 {
    cells_hash(g, (g.width * g.height) as nat) ^ health_key(my_health, true) ^ health_key(enemy_health, false)
}

/// Scrambles `x` (see `mix_spec`).
pub fn mix(x: u64) -> (r: u64)
    ensures
        r == mix_spec(x),
{
    let a = x ^ (x >> 30u64);
    let b = a.wrapping_mul(0xBF58_476D_1CE4_E5B9u64);
    let c = b ^ (b >> 27u64);
    let d = c.wrapping_mul(0x94D0_49BB_1331_11EBu64);
    d ^ (d >> 31u64)
}

/// Incremental position hashing for one board size: a position hashes to the xor of one key per
/// non-empty cell and one per side's health, so a change is applied (and undone) by xor-ing the
/// keys of what left and what arrived.
#[derive(Debug, Clone)]
pub struct Zobrist {
    pub width: i32,
    pub height: i32,
}

impl Zobrist {
    /// The keys of a `width` by `height` board.
    pub fn new(width: i32, height: i32) -> (z: Self)
        ensures
            z.width == width,
            z.height == height,
    {
        Zobrist { width, height }
    }

    /// Replaces the key of `old_health` by that of `new_health` for one side.
    pub fn xor_health(&self, hash: u64, old_health: i32, new_health: i32, mine: bool) -> (r: u64)
        ensures
            r == hash ^ health_key(old_health, mine) ^ health_key(new_health, mine),
    {
        let tag: u64 = if mine { 0x1_0000_0000u64 } else { 0x2_0000_0000u64 };
        let k_old = mix(KEY_SEED ^ (((old_health as u32) as u64) | tag));
        let k_new = mix(KEY_SEED ^ (((new_health as u32) as u64) | tag));
        hash ^ k_old ^ k_new
    }

    /// Toggles the key of cell code `code` at the on-board cell `(x, y)`.
    pub fn xor_unchecked(&self, hash: u64, x: i32, y: i32, code: i8) -> (r: u64)
        requires
            0 <= x < self.width < 256,
            0 <= y < self.height < 256,
            0 <= code <= 3,
        ensures
            r == hash ^ cell_key(self.width as int, x as int, y as int, code),
    {
        proof {
            assert(0 <= y * self.width <= 255 * 255) by (nonlinear_arith)
                requires 0 <= y < 256, 0 < self.width < 256;
        }
        let idx: u64 = ((y * self.width + x) * 4 + code as i32) as u64;
        hash ^ mix(KEY_SEED ^ idx)
    }

    /// The hash of `grid` with the two healths (see `position_hash`).
    pub fn compute_hash(&self, grid: &Grid, my_health: i32, enemy_health: i32) -> (r: u64)
        requires
            grid.wf(),
            grid.width == self.width,
            grid.height == self.height,
        ensures
            r == position_hash(*grid, my_health, enemy_health),
    {
        let w = grid.width;
        let area = grid.width * grid.height;
        proof {
            assert(0 <= w * grid.height <= 448);
        }
        let mut h: u64 = 0;
        let mut i: i32 = 0;
        while i < area
            invariant
                grid.wf(),
                w == grid.width,
                0 < w < 256,
                0 <= area <= 448,
                area == grid.width * grid.height,
                0 <= i <= area,
                grid.width == self.width,
                grid.height == self.height,
                h == cells_hash(*grid, i as nat),
            decreases area - i,
        {
            let x = i % w;
            let y = i / w;
            proof {
                assert(0 <= y < grid.height) by (nonlinear_arith)
                    requires y == i / w, 0 <= i < w * grid.height, 0 < w;
            }
            let code = grid.get(x, y);
            if code != EMPTY {
                h = self.xor_unchecked(h, x, y, code);
            }
            i += 1;
        }
        let tag_me: u64 = 0x1_0000_0000u64;
        let tag_en: u64 = 0x2_0000_0000u64;
        let k_me = mix(KEY_SEED ^ (((my_health as u32) as u64) | tag_me));
        let k_en = mix(KEY_SEED ^ (((enemy_health as u32) as u64) | tag_en));
        h ^ k_me ^ k_en
    }
}

/// Toggling a key twice leaves a hash unchanged, so every incremental update is undone by
/// repeating it.
pub proof fn lemma_xor_twice(hash: u64, key: u64)
    ensures
        (hash ^ key) ^ key == hash,
{
    assert((hash ^ key) ^ key == hash) by (bit_vector);
}

} // verus!
