use vstd::prelude::*;
use crate::model::{MemMode, PhysConfig, PhysType, RamMapping};

verus! {

/// Area of one logic-resource tile, in thousandths of an area unit.
pub const LB_AREA_MILLI: i128 = 37_500_000;

/// Logic resources for address decoding across a chain of `s` macros.
pub open spec fn decoder_luts_spec(s: int) -> int {
    if s <= 1 {
        0
    } else if s == 2 {
        1
    } else {
        s
    }
}

/// Nodes of a balanced 4-to-1 reduction tree over `n` inputs.
pub open spec fn mux_nodes(n: int) -> int
    decreases n,
{
    if n <= 1 {
        0
    } else {
        (n + 3) / 4 + mux_nodes((n + 3) / 4)
    }
}

/// Logic resources for multiplexing `width` output bits across a chain of `s` macros.
pub open spec fn mux_luts_spec(s: int, width: int) -> int {
    if s <= 1 {
        0
    } else {
        width * mux_nodes(s)
    }
}

/// `r` is the integer square root of `n`.
pub open spec fn is_floor_sqrt(r: int, n: int) -> bool {
    0 <= r && r * r <= n && n < (r + 1) * (r + 1)
}

/// The integer square root: the largest `r` with `r * r <= n`.
pub open spec fn floor_sqrt(n: int) -> int {
    choose|r: int| #[trigger] is_floor_sqrt(r, n)
}

/// Area of one block-RAM macro of `bits` capacity whose ports reach `max_width` bits,
/// in thousandths of an area unit.
pub open spec fn macro_area_spec(bits: int, max_width: int) -> int {
    9_000_000 + 5_000 * bits + 90 * floor_sqrt(bits * 1_000_000) + 1_200_000 * max_width
}

/// Largest data width that `cfg` allows in mode `mode`.
pub open spec fn effective_width(cfg: PhysConfig, mode: MemMode) -> int {
    if mode == MemMode::TrueDualPort {
        cfg.max_width_tdp as int
    } else {
        cfg.max_width_non_tdp as int
    }
}

/// Logic resources charged as whole area units, ten per unit, rounded up.
pub open spec fn lb_units(luts: int) -> int {
    (luts + 9) / 10
}

/// Utilization `logical / physical`, clamped to [0, 1], in parts per million (rounded down);
/// a mapping with no physical bits counts as fully used.
pub open spec fn utilization_ppm(logical: int, physical: int) -> int {
    if physical <= 0 {
        1_000_000
    } else if logical <= 0 {
        0
    } else if logical >= physical {
        1_000_000
    } else {
        logical * 1_000_000 / physical
    }
}

/// Strength of the poor-utilization penalty of a kind, in tenths.
pub open spec fn penalty_strength(t: PhysType) -> int {
    match t {
        PhysType::Lutram => 16,
        PhysType::Ram8K => 22,
        PhysType::Ram128K => 50,
    }
}

/// Area of a mapping before the utilization penalty, in thousandths of an area unit.
pub open spec fn base_area(m: RamMapping, cfg: PhysConfig) -> int {
    let units = lb_units(m.extra_luts as int);
    match cfg.phys_type {
        PhysType::Lutram => (m.phys_blocks + units) * LB_AREA_MILLI,
        _ => units * LB_AREA_MILLI + m.phys_blocks * macro_area_spec(
            cfg.bits as int,
            effective_width(cfg, m.mode),
        ),
    }
}

/// The cost that ranks candidate mappings: base area times the penalty factor
/// `10 + strength * (10 - u)`, scaled to an integer.
pub open spec fn cost_spec(m: RamMapping, cfg: PhysConfig) -> int {
    let u = utilization_ppm(
        m.logical_width * m.logical_depth,
        m.phys_blocks * cfg.bits,
    );
    base_area(m, cfg) * (100_000_000 + penalty_strength(cfg.phys_type) * (10_000_000 - u))
}

/// The mappings that `mapping_cost` can score without overflow.
pub open spec fn cost_inputs_ok(m: RamMapping, cfg: PhysConfig) -> bool {
    &&& 0 <= m.extra_luts <= 0x20_0000_0000
    &&& 1 <= m.phys_blocks <= 0x10_0000_0000
    &&& cfg.phys_type != PhysType::Lutram ==> cfg.bits > 0 && effective_width(cfg, m.mode) > 0
}

pub(crate) proof fn lemma_i32_product(a: i32, b: i32)
    ensures
        -0x4000_0000_0000_0000 <= (a as int) * (b as int) <= 0x4000_0000_0000_0000,
{
    assert(-0x4000_0000_0000_0000 <= (a as int) * (b as int) <= 0x4000_0000_0000_0000)
        by (nonlinear_arith)
        requires
            -0x8000_0000 <= a < 0x8000_0000,
            -0x8000_0000 <= b < 0x8000_0000,
    ;
}

/// Logic resources for address decoding across a chain of `s` macros.
pub fn decoder_luts(s: i32) -> (r: i32)
    ensures
        r as int == decoder_luts_spec(s as int),
{
    if s <= 1 {
        0
    } else if s == 2 {
        1
    } else {
        s
    }
}

pub(crate) proof fn lemma_mux_nodes_bounds(n: int)
    requires
        n >= 0,
    ensures
        0 <= mux_nodes(n) <= n,
    decreases n,
{
    if n > 1 {
        lemma_mux_nodes_bounds((n + 3) / 4);
    }
}

/// Logic resources for multiplexing `width` output bits across a chain of `s` macros.
pub fn mux_luts(s: i32, width: i32) -> (r: i64)
    ensures
        r as int == mux_luts_spec(s as int, width as int),
{
    if s <= 1 {
        return 0;
    }
    let mut n: i32 = s;
    let mut total_nodes: i32 = 0;
    proof {
        lemma_mux_nodes_bounds(s as int);
    }
    while n > 1
        invariant
            1 <= n <= s,
            0 <= total_nodes,
            total_nodes + mux_nodes(n as int) == mux_nodes(s as int),
            mux_nodes(s as int) <= s,
        decreases n,
    {
        proof {
            lemma_mux_nodes_bounds(((n + 3) / 4) as int);
        }
        let level_nodes: i32 = n / 4 + (if n % 4 == 0 { 0 } else { 1 });
        assert(level_nodes == (n + 3) / 4);
        total_nodes = total_nodes + level_nodes;
        n = level_nodes;
    }
    assert(-0x4000_0000_0000_0000 <= (width as int) * (total_nodes as int)
        <= 0x4000_0000_0000_0000) by (nonlinear_arith)
        requires
            -0x8000_0000 <= width < 0x8000_0000,
            0 <= total_nodes <= 0x8000_0000,
    ;
    (width as i64) * (total_nodes as i64)
}

proof fn lemma_floor_sqrt(n: int, r: int)
    requires
        0 <= r,
        r * r <= n,
        n < (r + 1) * (r + 1),
    ensures
        floor_sqrt(n) == r,
{
    assert(is_floor_sqrt(r, n));
    let q = floor_sqrt(n);
    assert(0 <= q && q * q <= n && n < (q + 1) * (q + 1));
    if q < r {
        assert((q + 1) * (q + 1) <= r * r) by (nonlinear_arith)
            requires
                0 <= q < r,
        ;
    } else if r < q {
        assert((r + 1) * (r + 1) <= q * q) by (nonlinear_arith)
            requires
                0 <= r < q,
        ;
    }
}

/// The integer square root of `n`.
pub fn isqrt(n: u64) -> (r: u64)
    requires
        n <= 0x10_0000_0000_0000,
    ensures
        r as int == floor_sqrt(n as int),
        r <= 0x400_0000,
{
    let mut lo: u64 = 0;
    let mut hi: u64 = 0x400_0001;
    assert(0x10_0000_0000_0000 < 0x400_0001 * 0x400_0001) by (nonlinear_arith);
    while hi - lo > 1
        invariant
            lo < hi <= 0x400_0001,
            lo * lo <= n,
            n < hi * hi,
        decreases hi - lo,
    {
        let mid: u64 = lo + (hi - lo) / 2;
        assert(mid * mid <= 0x400_0001 * 0x400_0001) by (nonlinear_arith)
            requires
                mid <= 0x400_0001,
        ;
        if mid * mid <= n {
            lo = mid;
        } else {
            hi = mid;
        }
    }
    proof {
        lemma_floor_sqrt(n as int, lo as int);
    }
    if lo > 0x400_0000 {
        assert(lo * lo > 0x10_0000_0000_0000) by (nonlinear_arith)
            requires
                lo > 0x400_0000,
        ;
    }
    lo
}

/// Area of one block-RAM macro, in thousandths of an area unit.
pub fn macro_area(bits: i32, max_width: i32) -> (r: u64)
    requires
        bits > 0,
        max_width > 0,
    ensures
        r as int == macro_area_spec(bits as int, max_width as int),
        r < 0x10_0000_0000_0000,
{
    let root = isqrt(bits as u64 * 1_000_000);
    5_000 * (bits as u64) + 9_000_000 + 90 * root + 1_200_000 * (max_width as u64)
}

/// The integer cost of `m` as a realisation of kind `cfg`; lower is better.
pub fn mapping_cost(m: &RamMapping, cfg: &PhysConfig) -> (r: u128)
    requires
        cost_inputs_ok(*m, *cfg),
    ensures
        r as int == cost_spec(*m, *cfg),
{
    let units: i128 = (m.extra_luts as i128 + 9) / 10;
    assert(0 <= units < 0x4_0000_0000);
    let blocks: i128 = m.phys_blocks as i128;
    let base: i128 = match cfg.phys_type {
        PhysType::Lutram => (blocks + units) * LB_AREA_MILLI,
        _ => {
            let width = if m.mode == MemMode::TrueDualPort {
                cfg.max_width_tdp
            } else {
                cfg.max_width_non_tdp
            };
            let area = macro_area(cfg.bits, width) as i128;
            assert(blocks * area < 0x100_0000_0000_0000_0000_0000) by (nonlinear_arith)
                requires
                    1 <= blocks <= 0x10_0000_0000,
                    0 <= area < 0x10_0000_0000_0000,
            ;
            units * LB_AREA_MILLI + blocks * area
        },
    };
    assert(0 <= base < 0x200_0000_0000_0000_0000_0000);
    let lw = m.logical_width as i128;
    let ld = m.logical_depth as i128;
    let pb = cfg.bits as i128;
    assert(-0x4000_0000_0000_0000 <= lw * ld <= 0x4000_0000_0000_0000) by (nonlinear_arith)
        requires
            -0x8000_0000 <= lw < 0x8000_0000,
            -0x8000_0000 <= ld < 0x8000_0000,
    ;
    let logical: i128 = lw * ld;
    assert(-0x8_0000_0000_0000_0000 <= blocks * pb <= 0x8_0000_0000_0000_0000) by (nonlinear_arith)
        requires
            1 <= blocks <= 0x10_0000_0000,
            -0x8000_0000 <= pb < 0x8000_0000,
    ;
    let physical: i128 = blocks * pb;
    let u: i128 = if physical <= 0 {
        1_000_000
    } else if logical <= 0 {
        0
    } else if logical >= physical {
        1_000_000
    } else {
        let q = logical * 1_000_000 / physical;
        assert(0 <= q <= 1_000_000) by (nonlinear_arith)
            requires
                q as int == (logical as int) * 1_000_000 / (physical as int),
                0 < logical < physical,
        ;
        q
    };
    let strength: i128 = match cfg.phys_type {
        PhysType::Lutram => 16,
        PhysType::Ram8K => 22,
        PhysType::Ram128K => 50,
    };
    let factor: i128 = 100_000_000 + strength * (10_000_000 - u);
    assert(0 < factor <= 600_000_000);
    assert(base * factor < 0x400_0000_0000_0000_0000_0000_0000_0000) by (nonlinear_arith)
        requires
            0 <= base < 0x200_0000_0000_0000_0000_0000,
            0 < factor <= 600_000_000,
    ;
    (base * factor) as u128
}

} // verus!
