use vstd::prelude::*;
use vstd::arithmetic::div_mod::{lemma_div_is_ordered_by_denominator, lemma_fundamental_div_mod};
use crate::cost::{
    cost_inputs_ok, cost_spec, decoder_luts, decoder_luts_spec, effective_width, mapping_cost,
    mux_luts, mux_luts_spec, mux_nodes,
};
use crate::model::{MemMode, Memory, PhysConfig, PhysType, RamMapping};

verus! {

/// Longest chain of macros allowed in depth.
pub const MAX_SERIES: i32 = 16;

/// `w` is a power of two.
pub open spec fn is_pow2(w: int) -> bool
    decreases w,
{
    if w <= 0 {
        false
    } else if w == 1 {
        true
    } else {
        w % 2 == 0 && is_pow2(w / 2)
    }
}

/// `a / b` rounded up, for positive `b`.
pub open spec fn ceil_div(a: int, b: int) -> int {
    a / b + if a % b == 0 {
        0int
    } else {
        1int
    }
}

/// The fixed configuration of distributed RAM: two shapes, 10 x 64 and 20 x 32.
pub open spec fn lutram_config() -> PhysConfig {
    PhysConfig { phys_type: PhysType::Lutram, bits: 640, max_width_non_tdp: 20, max_width_tdp: 0 }
}

/// The fixed configuration of distributed RAM.
pub fn lutram_cfg() -> (r: PhysConfig)
    ensures
        r == lutram_config(),
{
    PhysConfig { phys_type: PhysType::Lutram, bits: 640, max_width_non_tdp: 20, max_width_tdp: 0 }
}

/// The memory's mode is one that `cfg` can realise at all.
pub open spec fn mode_supported(mem: Memory, cfg: PhysConfig) -> bool {
    &&& !(mem.mode == MemMode::TrueDualPort && cfg.max_width_tdp == 0)
    &&& effective_width(cfg, mem.mode) > 0
}

/// Depth of a macro of kind `cfg` configured `w` bits wide.
pub open spec fn shape_depth(cfg: PhysConfig, w: int) -> int {
    match cfg.phys_type {
        PhysType::Lutram => if w == 10 {
            64
        } else {
            32
        },
        _ => (cfg.bits as int) / w,
    }
}

/// `w` is one of the widths that `cfg` offers, up to `max_width`.
pub open spec fn shape_ok(cfg: PhysConfig, max_width: int, w: int) -> bool {
    &&& 1 <= w <= max_width
    &&& match cfg.phys_type {
        PhysType::Lutram => w == 10 || w == 20,
        _ => is_pow2(w) && cfg.bits > 0 && (cfg.bits as int) % w == 0,
    }
}

/// Macros chained in depth when `mem` is realised `w` bits wide on `cfg`.
pub open spec fn series_of(mem: Memory, cfg: PhysConfig, w: int) -> int {
    ceil_div(mem.depth as int, shape_depth(cfg, w))
}

/// Macros side by side when `mem` is realised `w` bits wide.
pub open spec fn parallel_of(mem: Memory, w: int) -> int {
    ceil_div(mem.width as int, w)
}

/// Realising `mem` on `cfg` with macros `w` bits wide is legal.
pub open spec fn legal(mem: Memory, cfg: PhysConfig, w: int) -> bool {
    &&& mode_supported(mem, cfg)
    &&& shape_ok(cfg, effective_width(cfg, mem.mode), w)
    &&& mem.width > 0
    &&& mem.depth > 0
    &&& series_of(mem, cfg, w) <= MAX_SERIES
}

/// Decode and multiplexing logic of a chain of `s` macros; a true-dual-port chain
/// needs it once per port.
pub open spec fn extra_luts_spec(mem: Memory, s: int) -> int {
    let e = decoder_luts_spec(s) + mux_luts_spec(s, mem.width as int);
    if s > 1 && mem.mode == MemMode::TrueDualPort {
        2 * e
    } else {
        e
    }
}

/// The mapping of `mem` onto `cfg` with macros `w` bits wide.
pub open spec fn candidate(
    circuit_id: i32,
    mem: Memory,
    group_id: i32,
    cfg: PhysConfig,
    w: int,
) -> RamMapping {
    let s = series_of(mem, cfg, w);
    let p = parallel_of(mem, w);
    RamMapping {
        circuit_id,
        logical_ram_id: mem.ram_id,
        extra_luts: extra_luts_spec(mem, s) as i64,
        logical_width: mem.width,
        logical_depth: mem.depth,
        group_id,
        series: s as i32,
        parallel: p as i32,
        phys_type: cfg.phys_type,
        mode: mem.mode,
        phys_width: w as i32,
        phys_depth: shape_depth(cfg, w) as i32,
        phys_blocks: (s * p) as i64,
    }
}

/// Cost of the candidate of width `w`.
pub open spec fn cand_cost(mem: Memory, cfg: PhysConfig, w: int) -> int {
    cost_spec(candidate(0, mem, 0, cfg, w), cfg)
}

/// The shape invariants of every mapping that the mapper produces.
pub open spec fn mapping_wf(m: RamMapping) -> bool {
    &&& 1 <= m.series <= MAX_SERIES
    &&& 1 <= m.parallel
    &&& m.phys_blocks == m.series * m.parallel
    &&& m.series * m.phys_depth >= m.logical_depth
    &&& m.parallel * m.phys_width >= m.logical_width
    &&& 0 <= m.extra_luts <= 0x20_0000_0000
}

/// Width `w` gives the cheapest legal candidate of `cfg`, and the first one of that
/// cost in order of increasing width.
pub open spec fn is_first_best(mem: Memory, cfg: PhysConfig, w: int) -> bool {
    &&& legal(mem, cfg, w)
    &&& forall|w2: int|
        #![trigger legal(mem, cfg, w2)]
        legal(mem, cfg, w2) ==> cand_cost(mem, cfg, w) <= cand_cost(mem, cfg, w2) && (w2 < w
            ==> cand_cost(mem, cfg, w) < cand_cost(mem, cfg, w2))
}

proof fn lemma_ceil_div(a: int, b: int)
    requires
        a >= 1,
        b >= 1,
    ensures
        1 <= ceil_div(a, b) <= a,
        ceil_div(a, b) * b >= a,
{
    lemma_fundamental_div_mod(a, b);
    lemma_div_is_ordered_by_denominator(a, 1, b);
    let q = a / b;
    let r = a % b;
    assert(a == b * q + r);
    assert(0 <= r < b);
    assert(q >= 0) by (nonlinear_arith)
        requires
            a == b * q + r,
            0 <= r < b,
            a >= 1,
            b >= 1,
    ;
    if r == 0 {
        assert(q >= 1) by (nonlinear_arith)
            requires
                a == b * q,
                a >= 1,
                q >= 0,
        ;
        assert(q <= a) by (nonlinear_arith)
            requires
                a == b * q,
                b >= 1,
                q >= 0,
        ;
        assert(q * b == a) by (nonlinear_arith)
            requires
                a == b * q,
        ;
    } else {
        assert(q + 1 <= a) by (nonlinear_arith)
            requires
                a == b * q + r,
                0 < r < b,
                q >= 0,
        ;
        assert((q + 1) * b >= a) by (nonlinear_arith)
            requires
                a == b * q + r,
                0 < r < b,
        ;
    }
}

proof fn lemma_pow2_double(w: int)
    requires
        is_pow2(w),
    ensures
        is_pow2(2 * w),
{
    assert((2 * w) / 2 == w);
}

proof fn lemma_pow2_gap(a: int, b: int)
    requires
        is_pow2(a),
        is_pow2(b),
        a < b,
    ensures
        2 * a <= b,
    decreases a,
{
    if a > 1 {
        lemma_pow2_gap(a / 2, b / 2);
    }
}

/// The candidate of width `w`, with its cost, or `None` where that width is not legal.
fn eval_candidate(circuit_id: i32, mem: &Memory, group_id: i32, cfg: &PhysConfig, w: i32) -> (r:
    Option<(RamMapping, u128)>)
    requires
        mode_supported(*mem, *cfg),
        shape_ok(*cfg, effective_width(*cfg, mem.mode), w as int),
    ensures
        r is None <==> !legal(*mem, *cfg, w as int),
        r matches Some((m, c)) ==> m == candidate(circuit_id, *mem, group_id, *cfg, w as int) && c
            == cand_cost(*mem, *cfg, w as int) && mapping_wf(m) && cost_inputs_ok(m, *cfg),
{
    if mem.width <= 0 || mem.depth <= 0 {
        return None;
    }
    let d_phys: i32 = match cfg.phys_type {
        PhysType::Lutram => if w == 10 {
            64
        } else {
            32
        },
        _ => {
            proof {
                lemma_div_is_ordered_by_denominator(cfg.bits as int, 1, w as int);
                lemma_fundamental_div_mod(cfg.bits as int, w as int);
                assert(cfg.bits / w >= 1) by (nonlinear_arith)
                    requires
                        cfg.bits == w * (cfg.bits / w),
                        cfg.bits > 0,
                        w >= 1,
                ;
            }
            cfg.bits / w
        },
    };
    assert(d_phys == shape_depth(*cfg, w as int) && d_phys >= 1);
    proof {
        lemma_ceil_div(mem.width as int, w as int);
        lemma_ceil_div(mem.depth as int, d_phys as int);
    }
    let p: i32 = if mem.width % w == 0 {
        mem.width / w
    } else {
        mem.width / w + 1
    };
    let s: i32 = if mem.depth % d_phys == 0 {
        mem.depth / d_phys
    } else {
        mem.depth / d_phys + 1
    };
    assert(p == parallel_of(*mem, w as int));
    assert(s == series_of(*mem, *cfg, w as int));
    if s > MAX_SERIES {
        return None;
    }
    let dec = decoder_luts(s);
    let mux = mux_luts(s, mem.width);
    proof {
        crate::cost::lemma_mux_nodes_bounds(s as int);
        if s > 1 {
            assert(mux as int <= (mem.width as int) * 16) by (nonlinear_arith)
                requires
                    mux as int == (mem.width as int) * mux_nodes(s as int),
                    0 <= mux_nodes(s as int) <= 16,
                    mem.width >= 1,
            ;
            assert(mux >= 0) by (nonlinear_arith)
                requires
                    mux as int == (mem.width as int) * mux_nodes(s as int),
                    0 <= mux_nodes(s as int),
                    mem.width >= 1,
            ;
        }
    }
    assert(0 <= mux <= 0x8_0000_0000);
    let mut extra_luts: i64 = dec as i64 + mux;
    if s > 1 && mem.mode == MemMode::TrueDualPort {
        extra_luts = extra_luts * 2;
    }
    assert(extra_luts as int == extra_luts_spec(*mem, s as int));
    assert(0 <= extra_luts <= 0x20_0000_0000);
    assert(1 <= s as int * p as int <= 16 * 0x7fff_ffff) by (nonlinear_arith)
        requires
            1 <= s <= 16,
            1 <= p <= 0x7fff_ffff,
    ;
    let mapping = RamMapping {
        circuit_id,
        logical_ram_id: mem.ram_id,
        extra_luts,
        logical_width: mem.width,
        logical_depth: mem.depth,
        group_id,
        series: s,
        parallel: p,
        phys_type: cfg.phys_type,
        mode: mem.mode,
        phys_width: w,
        phys_depth: d_phys,
        phys_blocks: s as i64 * p as i64,
    };
    assert(mapping == candidate(circuit_id, *mem, group_id, *cfg, w as int));
    assert(cost_inputs_ok(mapping, *cfg));
    let cost = mapping_cost(&mapping, cfg);
    Some((mapping, cost))
}

/// The cheapest legal realisation of `mem` on kind `cfg`, with its cost; on equal cost
/// the narrower macro shape wins. `None` when no shape is legal.
pub fn best_mapping_for_phys_type(circuit_id: i32, mem: &Memory, group_id: i32, cfg: &PhysConfig) -> (r:
    Option<(RamMapping, u128)>)
    ensures
        r is None <==> forall|w: int| !legal(*mem, *cfg, w),
        r matches Some((m, c)) ==> exists|w: int|
            #![trigger is_first_best(*mem, *cfg, w)]
            is_first_best(*mem, *cfg, w) && m == candidate(circuit_id, *mem, group_id, *cfg, w)
                && c == cand_cost(*mem, *cfg, w),
        r matches Some((m, c)) ==> mapping_wf(m) && cost_inputs_ok(m, *cfg),
{
    if mem.mode == MemMode::TrueDualPort && cfg.max_width_tdp == 0 {
        return None;
    }
    let max_width: i32 = if mem.mode == MemMode::TrueDualPort {
        cfg.max_width_tdp
    } else {
        cfg.max_width_non_tdp
    };
    if max_width <= 0 {
        return None;
    }
    let mut best: Option<(RamMapping, u128)> = None;
    let ghost mut bw: int = 0;
    match cfg.phys_type {
        PhysType::Lutram => {
            if 10 <= max_width {
                best = eval_candidate(circuit_id, mem, group_id, cfg, 10);
                proof {
                    bw = 10int;
                }
            }
            if 20 <= max_width {
                let r20 = eval_candidate(circuit_id, mem, group_id, cfg, 20);
                match r20 {
                    Some((m, c)) => {
                        match best {
                            Some((_, bc)) => {
                                if c < bc {
                                    best = Some((m, c));
                                    proof {
                                        bw = 20int;
                                    }
                                }
                            },
                            None => {
                                best = Some((m, c));
                                proof {
                                    bw = 20int;
                                }
                            },
                        }
                    },
                    None => {},
                }
            }
            assert forall|w2: int| legal(*mem, *cfg, w2) implies w2 == 10 || w2 == 20 by {}
        },
        _ => {
            if cfg.bits > 0 {
                let mut w: i64 = 1;
                while w <= max_width as i64
                    invariant
                        is_pow2(w as int),
                        1 <= w <= 0x1_0000_0000,
                        0 < max_width,
                        max_width as int == effective_width(*cfg, mem.mode),
                        mode_supported(*mem, *cfg),
                        cfg.phys_type != PhysType::Lutram,
                        cfg.bits > 0,
                        best is None ==> forall|w2: int| w2 < w ==> !legal(*mem, *cfg, w2),
                        best matches Some((m, c)) ==> {
                            &&& legal(*mem, *cfg, bw)
                            &&& bw < w
                            &&& m == candidate(circuit_id, *mem, group_id, *cfg, bw)
                            &&& c == cand_cost(*mem, *cfg, bw)
                            &&& mapping_wf(m) && cost_inputs_ok(m, *cfg)
                            &&& forall|w2: int|
                                #![trigger legal(*mem, *cfg, w2)]
                                w2 < w && legal(*mem, *cfg, w2) ==> cand_cost(*mem, *cfg, bw)
                                    <= cand_cost(*mem, *cfg, w2) && (w2 < bw ==> cand_cost(
                                    *mem,
                                    *cfg,
                                    bw,
                                ) < cand_cost(*mem, *cfg, w2))
                        },
                    decreases 0x1_0000_0000 - w,
                {
                    let wi = w as i32;
                    proof {
                        lemma_pow2_double(w as int);
                        assert forall|w2: int| w < w2 < 2 * w implies !is_pow2(w2) by {
                            if is_pow2(w2) {
                                lemma_pow2_gap(w as int, w2);
                            }
                        }
                    }
                    if cfg.bits % wi == 0 {
                        let rw = eval_candidate(circuit_id, mem, group_id, cfg, wi);
                        match rw {
                            Some((m, c)) => {
                                match best {
                                    Some((_, bc)) => {
                                        if c < bc {
                                            best = Some((m, c));
                                            proof {
                                                bw = w as int;
                                            }
                                        }
                                    },
                                    None => {
                                        best = Some((m, c));
                                        proof {
                                            bw = w as int;
                                        }
                                    },
                                }
                            },
                            None => {},
                        }
                    }
                    w = w * 2;
                }
            }
        },
    }
    proof {
        if let Some((m, c)) = best {
            assert(is_first_best(*mem, *cfg, bw));
        }
    }
    best
}

/// Configuration of kind number `k` in tie-break order: distributed RAM, 8K-class, 128K-class.
pub open spec fn kind_config(k: int, m8k_cfg: PhysConfig, m128k_cfg: PhysConfig) -> PhysConfig {
    if k == 0 {
        lutram_config()
    } else if k == 1 {
        m8k_cfg
    } else {
        m128k_cfg
    }
}

/// Kind number `k` is enabled.
pub open spec fn kind_enabled(k: int, has_lutram: bool, has_m8k: bool, has_m128k: bool) -> bool {
    (k == 0 && has_lutram) || (k == 1 && has_m8k) || (k == 2 && has_m128k)
}

/// `(k1, w1)` comes before `(k2, w2)` in evaluation order.
pub open spec fn evaluated_before(k1: int, w1: int, k2: int, w2: int) -> bool {
    k1 < k2 || (k1 == k2 && w1 < w2)
}

/// Some enabled kind has a legal realisation of `mem`.
pub open spec fn mappable(
    mem: Memory,
    has_lutram: bool,
    has_m8k: bool,
    has_m128k: bool,
    m8k_cfg: PhysConfig,
    m128k_cfg: PhysConfig,
) -> bool {
    exists|k: int, w: int|
        #![trigger legal(mem, kind_config(k, m8k_cfg, m128k_cfg), w)]
        kind_enabled(k, has_lutram, has_m8k, has_m128k) && legal(
            mem,
            kind_config(k, m8k_cfg, m128k_cfg),
            w,
        )
}

/// `(k, w)` is the mapper's choice for `mem`: a legal candidate of an enabled kind whose
/// cost no legal candidate of an enabled kind undercuts, and which is strictly cheaper
/// than every candidate evaluated before it.
pub open spec fn is_choice(
    mem: Memory,
    has_lutram: bool,
    has_m8k: bool,
    has_m128k: bool,
    m8k_cfg: PhysConfig,
    m128k_cfg: PhysConfig,
    k: int,
    w: int,
) -> bool {
    &&& kind_enabled(k, has_lutram, has_m8k, has_m128k)
    &&& legal(mem, kind_config(k, m8k_cfg, m128k_cfg), w)
    &&& forall|k2: int, w2: int|
        #![trigger legal(mem, kind_config(k2, m8k_cfg, m128k_cfg), w2)]
        kind_enabled(k2, has_lutram, has_m8k, has_m128k) && legal(
            mem,
            kind_config(k2, m8k_cfg, m128k_cfg),
            w2,
        ) ==> cand_cost(mem, kind_config(k, m8k_cfg, m128k_cfg), w) <= cand_cost(
            mem,
            kind_config(k2, m8k_cfg, m128k_cfg),
            w2,
        ) && (evaluated_before(k2, w2, k, w) ==> cand_cost(
            mem,
            kind_config(k, m8k_cfg, m128k_cfg),
            w,
        ) < cand_cost(mem, kind_config(k2, m8k_cfg, m128k_cfg), w2))
}

/// The mapping chosen for `mem`: the cheapest legal realisation over the enabled kinds
/// and their shapes, the earliest evaluated one on equal cost. `None` when `mem` has no
/// legal realisation under any enabled kind.
pub fn choose_mapping_for_memory(
    circuit_id: i32,
    mem: &Memory,
    group_id: i32,
    has_lutram: bool,
    has_m8k: bool,
    has_m128k: bool,
    m8k_cfg: &PhysConfig,
    m128k_cfg: &PhysConfig,
) -> (r: Option<RamMapping>)
    ensures
        r is None <==> !mappable(*mem, has_lutram, has_m8k, has_m128k, *m8k_cfg, *m128k_cfg),
        r matches Some(m) ==> exists|k: int, w: int|
            #![trigger is_choice(*mem, has_lutram, has_m8k, has_m128k, *m8k_cfg, *m128k_cfg, k, w)]
            is_choice(*mem, has_lutram, has_m8k, has_m128k, *m8k_cfg, *m128k_cfg, k, w) && m
                == candidate(circuit_id, *mem, group_id, kind_config(k, *m8k_cfg, *m128k_cfg), w),
        r matches Some(m) ==> mapping_wf(m),
{
    let mut best: Option<RamMapping> = None;
    let mut best_cost: u128 = 0;
    let ghost mut bk: int = 0;
    let ghost mut bw: int = 0;
    let mut k: usize = 0;
    while k < 3
        invariant
            0 <= k <= 3,
            best is None ==> forall|k2: int, w2: int|
                #![trigger legal(*mem, kind_config(k2, *m8k_cfg, *m128k_cfg), w2)]
                k2 < k && kind_enabled(k2, has_lutram, has_m8k, has_m128k) ==> !legal(
                    *mem,
                    kind_config(k2, *m8k_cfg, *m128k_cfg),
                    w2,
                ),
            best matches Some(m) ==> {
                &&& 0 <= bk < k
                &&& kind_enabled(bk, has_lutram, has_m8k, has_m128k)
                &&& legal(*mem, kind_config(bk, *m8k_cfg, *m128k_cfg), bw)
                &&& m == candidate(circuit_id, *mem, group_id, kind_config(bk, *m8k_cfg, *m128k_cfg), bw)
                &&& best_cost == cand_cost(*mem, kind_config(bk, *m8k_cfg, *m128k_cfg), bw)
                &&& mapping_wf(m)
                &&& forall|k2: int, w2: int|
                    #![trigger legal(*mem, kind_config(k2, *m8k_cfg, *m128k_cfg), w2)]
                    k2 < k && kind_enabled(k2, has_lutram, has_m8k, has_m128k) && legal(
                        *mem,
                        kind_config(k2, *m8k_cfg, *m128k_cfg),
                        w2,
                    ) ==> cand_cost(*mem, kind_config(bk, *m8k_cfg, *m128k_cfg), bw) <= cand_cost(
                        *mem,
                        kind_config(k2, *m8k_cfg, *m128k_cfg),
                        w2,
                    ) && (evaluated_before(k2, w2, bk, bw) ==> cand_cost(
                        *mem,
                        kind_config(bk, *m8k_cfg, *m128k_cfg),
                        bw,
                    ) < cand_cost(*mem, kind_config(k2, *m8k_cfg, *m128k_cfg), w2))
            },
        decreases 3 - k,
    {
        let enabled = if k == 0 {
            has_lutram
        } else if k == 1 {
            has_m8k
        } else {
            has_m128k
        };
        let cfg = if k == 0 {
            lutram_cfg()
        } else if k == 1 {
            *m8k_cfg
        } else {
            *m128k_cfg
        };
        assert(cfg == kind_config(k as int, *m8k_cfg, *m128k_cfg));
        assert(enabled == kind_enabled(k as int, has_lutram, has_m8k, has_m128k));
        if enabled {
            match best_mapping_for_phys_type(circuit_id, mem, group_id, &cfg) {
                Some((m, c)) => {
                    let ghost w = choose|w: int|
                        #![trigger is_first_best(*mem, cfg, w)]
                        is_first_best(*mem, cfg, w) && m == candidate(
                            circuit_id,
                            *mem,
                            group_id,
                            cfg,
                            w,
                        ) && c == cand_cost(*mem, cfg, w);
                    if best.is_none() || c < best_cost {
                        best = Some(m);
                        best_cost = c;
                        proof {
                            bk = k as int;
                            bw = w;
                        }
                    }
                },
                None => {},
            }
        }
        k = k + 1;
    }
    proof {
        if let Some(m) = best {
            assert(is_choice(*mem, has_lutram, has_m8k, has_m128k, *m8k_cfg, *m128k_cfg, bk, bw));
        } else {
            if mappable(*mem, has_lutram, has_m8k, has_m128k, *m8k_cfg, *m128k_cfg) {
                let (k2, w2) = choose|k2: int, w2: int|
                    #![trigger legal(*mem, kind_config(k2, *m8k_cfg, *m128k_cfg), w2)]
                    kind_enabled(k2, has_lutram, has_m8k, has_m128k) && legal(
                        *mem,
                        kind_config(k2, *m8k_cfg, *m128k_cfg),
                        w2,
                    );
                assert(false);
            }
        }
    }
    best
}

} // verus!
