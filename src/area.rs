use vstd::prelude::*;
use crate::cost::lb_units;
use crate::model::{PhysType, RamMapping};

verus! {

/// Largest count that the tile arithmetic accepts.
pub const MAX_COUNT: i128 = 0x400_0000_0000_0000_0000_0000;

/// Logic tiles, block-RAM sites of each kind, that a chip needs.
#[derive(Clone, Copy, Debug, PartialEq, Eq, Structural)]
pub struct ChipTiles {
    pub lb_tiles: i128,
    pub m8k_sites: i128,
    pub m128k_sites: i128,
}

/// Resource use of one circuit, summed over its mappings.
#[derive(Clone, Copy, Debug, PartialEq, Eq, Structural)]
pub struct CircuitUsage {
    pub lutram_blocks: i128,
    pub m8k_blocks: i128,
    pub m128k_blocks: i128,
    pub extra_luts: i128,
}

/// Logic tiles for `luts` logic resources, ten per tile, rounded up.
pub fn logic_units(luts: i128) -> (r: i128)
    requires
        0 <= luts <= MAX_COUNT,
    ensures
        r == lb_units(luts as int),
{
    (luts + 9) / 10
}

/// Tiles needed to give `blocks` macros a site each, one site per `lbs_per_site` tiles;
/// none where the kind is absent or unused.
pub open spec fn site_tiles(has_kind: bool, blocks: int, lbs_per_site: int) -> int {
    if has_kind && blocks > 0 && lbs_per_site > 0 {
        blocks * lbs_per_site
    } else {
        0
    }
}

/// Logic tiles of a chip: enough for the plain logic, the decode logic and distributed
/// RAM, and enough to host every block-RAM macro and the distributed-RAM capacity.
pub open spec fn lb_tiles_spec(
    logic_blocks: int,
    extra_luts: int,
    lutram_blocks: int,
    has_m8k: bool,
    m8k_blocks: int,
    lbs_per_m8k: int,
    has_m128k: bool,
    m128k_blocks: int,
    lbs_per_m128k: int,
    lutram_capacity_tiles: Option<i128>,
) -> int {
    let base = logic_blocks + lb_units(extra_luts) + lutram_blocks;
    let a = site_tiles(has_m8k, m8k_blocks, lbs_per_m8k);
    let b = site_tiles(has_m128k, m128k_blocks, lbs_per_m128k);
    let c = match lutram_capacity_tiles {
        Some(t) => t as int,
        None => 0,
    };
    let m1 = if base < a {
        a
    } else {
        base
    };
    let m2 = if m1 < b {
        b
    } else {
        m1
    };
    if m2 < c {
        c
    } else {
        m2
    }
}

/// Block-RAM sites that `lb_tiles` logic tiles come with, one per `lbs_per_site` tiles.
pub open spec fn sites_spec(has_kind: bool, lb_tiles: int, lbs_per_site: int) -> int {
    if has_kind && lbs_per_site > 0 {
        lb_tiles / lbs_per_site
    } else {
        0
    }
}

/// Tiles and sites of a chip that holds the given resource use. `lutram_capacity_tiles`
/// is the tile count that the distributed-RAM capacity asks for, where that applies.
pub fn required_tiles(
    logic_blocks: i128,
    extra_luts: i128,
    lutram_blocks: i128,
    has_m8k: bool,
    m8k_blocks: i128,
    lbs_per_m8k: i32,
    has_m128k: bool,
    m128k_blocks: i128,
    lbs_per_m128k: i32,
    lutram_capacity_tiles: Option<i128>,
) -> (r: ChipTiles)
    requires
        0 <= logic_blocks <= MAX_COUNT,
        0 <= extra_luts <= MAX_COUNT,
        0 <= lutram_blocks <= MAX_COUNT,
        0 <= m8k_blocks <= MAX_COUNT,
        0 <= m128k_blocks <= MAX_COUNT,
        lutram_capacity_tiles matches Some(t) ==> 0 <= t <= MAX_COUNT,
    ensures
        r.lb_tiles == lb_tiles_spec(
            logic_blocks as int,
            extra_luts as int,
            lutram_blocks as int,
            has_m8k,
            m8k_blocks as int,
            lbs_per_m8k as int,
            has_m128k,
            m128k_blocks as int,
            lbs_per_m128k as int,
            lutram_capacity_tiles,
        ),
        r.m8k_sites == sites_spec(has_m8k, r.lb_tiles as int, lbs_per_m8k as int),
        r.m128k_sites == sites_spec(has_m128k, r.lb_tiles as int, lbs_per_m128k as int),
{
    let mut nlb: i128 = logic_blocks + logic_units(extra_luts) + lutram_blocks;
    if has_m8k && m8k_blocks > 0 && lbs_per_m8k > 0 {
        assert(m8k_blocks * lbs_per_m8k <= MAX_COUNT * 0x8000_0000) by (nonlinear_arith)
            requires
                0 <= m8k_blocks <= MAX_COUNT,
                0 < lbs_per_m8k < 0x8000_0000,
        ;
        let sites = m8k_blocks * lbs_per_m8k as i128;
        if nlb < sites {
            nlb = sites;
        }
    }
    if has_m128k && m128k_blocks > 0 && lbs_per_m128k > 0 {
        assert(m128k_blocks * lbs_per_m128k <= MAX_COUNT * 0x8000_0000) by (nonlinear_arith)
            requires
                0 <= m128k_blocks <= MAX_COUNT,
                0 < lbs_per_m128k < 0x8000_0000,
        ;
        let sites = m128k_blocks * lbs_per_m128k as i128;
        if nlb < sites {
            nlb = sites;
        }
    }
    if let Some(t) = lutram_capacity_tiles {
        if nlb < t {
            nlb = t;
        }
    }
    let m8k_sites: i128 = if has_m8k && lbs_per_m8k > 0 {
        nlb / lbs_per_m8k as i128
    } else {
        0
    };
    let m128k_sites: i128 = if has_m128k && lbs_per_m128k > 0 {
        nlb / lbs_per_m128k as i128
    } else {
        0
    };
    ChipTiles { lb_tiles: nlb, m8k_sites, m128k_sites }
}

/// Sum, over the first `n` mappings of circuit `id`, of the blocks of kind `t`.
pub open spec fn circuit_blocks(ms: Seq<RamMapping>, id: i32, t: PhysType, n: int) -> int
    decreases n,
{
    if n <= 0 {
        0
    } else {
        circuit_blocks(ms, id, t, n - 1) + if ms[n - 1].circuit_id == id && ms[n - 1].phys_type
            == t {
            ms[n - 1].phys_blocks as int
        } else {
            0
        }
    }
}

/// Sum, over the first `n` mappings of circuit `id`, of their extra logic.
pub open spec fn circuit_extra(ms: Seq<RamMapping>, id: i32, n: int) -> int
    decreases n,
{
    if n <= 0 {
        0
    } else {
        circuit_extra(ms, id, n - 1) + if ms[n - 1].circuit_id == id {
            ms[n - 1].extra_luts as int
        } else {
            0
        }
    }
}

/// The blocks of each kind and the extra logic of the mappings of circuit `circuit_id`.
pub fn circuit_usage(mappings: &Vec<RamMapping>, circuit_id: i32) -> (r: CircuitUsage)
    requires
        forall|k: int|
            0 <= k < mappings@.len() ==> 0 <= #[trigger] mappings@[k].phys_blocks <= 0x10_0000_0000
                && 0 <= mappings@[k].extra_luts <= 0x20_0000_0000,
    ensures
        r.lutram_blocks == circuit_blocks(mappings@, circuit_id, PhysType::Lutram, mappings@.len() as int),
        r.m8k_blocks == circuit_blocks(mappings@, circuit_id, PhysType::Ram8K, mappings@.len() as int),
        r.m128k_blocks == circuit_blocks(mappings@, circuit_id, PhysType::Ram128K, mappings@.len() as int),
        r.extra_luts == circuit_extra(mappings@, circuit_id, mappings@.len() as int),
        0 <= r.lutram_blocks,
        0 <= r.m8k_blocks,
        0 <= r.m128k_blocks,
        0 <= r.extra_luts,
{
    let n = mappings.len();
    assert(n <= 0xffff_ffff_ffff_ffff);
    let mut u = CircuitUsage { lutram_blocks: 0, m8k_blocks: 0, m128k_blocks: 0, extra_luts: 0 };
    let mut k: usize = 0;
    while k < n
        invariant
            n == mappings@.len(),
            n <= 0xffff_ffff_ffff_ffff,
            k <= n,
            forall|q: int|
                0 <= q < mappings@.len() ==> 0 <= #[trigger] mappings@[q].phys_blocks
                    <= 0x10_0000_0000 && 0 <= mappings@[q].extra_luts <= 0x20_0000_0000,
            u.lutram_blocks == circuit_blocks(mappings@, circuit_id, PhysType::Lutram, k as int),
            u.m8k_blocks == circuit_blocks(mappings@, circuit_id, PhysType::Ram8K, k as int),
            u.m128k_blocks == circuit_blocks(mappings@, circuit_id, PhysType::Ram128K, k as int),
            u.extra_luts == circuit_extra(mappings@, circuit_id, k as int),
            0 <= u.lutram_blocks <= k * 0x10_0000_0000,
            0 <= u.m8k_blocks <= k * 0x10_0000_0000,
            0 <= u.m128k_blocks <= k * 0x10_0000_0000,
            0 <= u.extra_luts <= k * 0x20_0000_0000,
        decreases n - k,
    {
        let m = mappings[k];
        if m.circuit_id == circuit_id {
            match m.phys_type {
                PhysType::Lutram => u.lutram_blocks = u.lutram_blocks + m.phys_blocks as i128,
                PhysType::Ram8K => u.m8k_blocks = u.m8k_blocks + m.phys_blocks as i128,
                PhysType::Ram128K => u.m128k_blocks = u.m128k_blocks + m.phys_blocks as i128,
            }
            u.extra_luts = u.extra_luts + m.extra_luts as i128;
        }
        k = k + 1;
    }
    u
}

} // verus!
