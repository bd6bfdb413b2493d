use vstd::prelude::*;
use crate::mapper::{
    MAX_SERIES, candidate, choose_mapping_for_memory, is_choice, kind_config, lutram_config,
    mappable, mapping_wf,
};
use crate::circuits::{circuit_order, circuits_by_id, lemma_id_order};
use crate::model::{Circuit, CircuitResult, MapError, Memory, PhysConfig, PhysType, RamMapping};
use crate::sharing::{
    apply_sharing, count_moved, groups_sound, id_source, id_sources, pair_sound, share_ready,
    same_but_grouping,
    shared_by_kinds,
};

verus! {

/// The memories of the first `i` circuits, in order, each with its circuit's id.
pub open spec fn flat_prefix(cs: Seq<Circuit>, i: int) -> Seq<(i32, Memory)>
    decreases i,
{
    if i <= 0 {
        Seq::empty()
    } else {
        flat_prefix(cs, i - 1) + cs[i - 1].memories@.map_values(|m: Memory| (cs[i - 1].id, m))
    }
}

/// All memories of all circuits, in order, each with its circuit's id.
pub open spec fn flat_memories(cs: Seq<Circuit>) -> Seq<(i32, Memory)> {
    flat_prefix(cs, cs.len() as int)
}

/// A block-RAM kind configured from its capacity and its largest port width; true-dual-port
/// mode gets half that width, and none where the width is not positive.
pub open spec fn block_config(t: PhysType, bits: i32, max_width: i32) -> PhysConfig {
    PhysConfig {
        phys_type: t,
        bits,
        max_width_non_tdp: max_width,
        max_width_tdp: if max_width > 0 {
            (max_width / 2) as i32
        } else {
            0
        },
    }
}

/// The configuration of kind `t` in a run.
pub open spec fn config_of_kind(t: PhysType, m8k_cfg: PhysConfig, m128k_cfg: PhysConfig) -> PhysConfig {
    match t {
        PhysType::Lutram => lutram_config(),
        PhysType::Ram8K => m8k_cfg,
        PhysType::Ram128K => m128k_cfg,
    }
}

/// `m` is the mapper's choice for memory `mem` of circuit `circuit_id`, in group `group_id`.
pub open spec fn is_chosen(
    m: RamMapping,
    circuit_id: i32,
    mem: Memory,
    group_id: int,
    has_lutram: bool,
    has_m8k: bool,
    has_m128k: bool,
    m8k_cfg: PhysConfig,
    m128k_cfg: PhysConfig,
) -> bool {
    exists|k: int, w: int|
        #![trigger is_choice(mem, has_lutram, has_m8k, has_m128k, m8k_cfg, m128k_cfg, k, w)]
        is_choice(mem, has_lutram, has_m8k, has_m128k, m8k_cfg, m128k_cfg, k, w) && m
            == candidate(circuit_id, mem, group_id as i32, kind_config(k, m8k_cfg, m128k_cfg), w)
}

/// Sum of the extra logic of the first `n` mappings.
pub open spec fn sum_extra(s: Seq<RamMapping>, n: int) -> int
    decreases n,
{
    if n <= 0 {
        0
    } else {
        sum_extra(s, n - 1) + s[n - 1].extra_luts
    }
}

/// Sum of the blocks of kind `t` among the first `n` mappings.
pub open spec fn kind_blocks(s: Seq<RamMapping>, t: PhysType, n: int) -> int
    decreases n,
{
    if n <= 0 {
        0
    } else {
        kind_blocks(s, t, n - 1) + if s[n - 1].phys_type == t {
            s[n - 1].phys_blocks as int
        } else {
            0
        }
    }
}

/// Among the first `n` mappings, those of kind `t` that joined another's group.
pub open spec fn count_regrouped(s: Seq<RamMapping>, t: PhysType, n: int) -> int
    decreases n,
{
    if n <= 0 {
        0
    } else {
        count_regrouped(s, t, n - 1) + if s[n - 1].phys_type == t && s[n - 1].group_id != n - 1 {
            1int
        } else {
            0int
        }
    }
}

/// Memory `k` of `flat` is the first that no enabled kind can realise.
pub open spec fn first_unmappable(
    flat: Seq<(i32, Memory)>,
    k: int,
    has_lutram: bool,
    has_m8k: bool,
    has_m128k: bool,
    m8k_cfg: PhysConfig,
    m128k_cfg: PhysConfig,
) -> bool {
    &&& 0 <= k < flat.len()
    &&& !mappable(flat[k].1, has_lutram, has_m8k, has_m128k, m8k_cfg, m128k_cfg)
    &&& forall|q: int|
        0 <= q < k ==> #[trigger] mappable(
            flat[q].1,
            has_lutram,
            has_m8k,
            has_m128k,
            m8k_cfg,
            m128k_cfg,
        )
}

/// The result of a run over `cs`:
/// - with no kind enabled, `NoKindEnabled`;
/// - otherwise, where some memory has no legal realisation, `Unmappable` naming the first;
/// - otherwise the memories' chosen mappings, circuits taken in increasing id order and
///   each circuit's memories in their order, group ids numbered in that order, after sharing
///   on each enabled block-RAM kind, with the total extra logic and, per kind, the blocks
///   of the mappings that did not join another's group.
pub open spec fn assign_spec(
    cs: Seq<Circuit>,
    has_lutram: bool,
    has_m8k: bool,
    has_m128k: bool,
    m8k_bits: i32,
    m128k_bits: i32,
    max_width_ram1: i32,
    max_width_ram2: i32,
    r: Result<CircuitResult, MapError>,
) -> bool {
    let flat = flat_memories(circuits_by_id(cs));
    let c8 = block_config(PhysType::Ram8K, m8k_bits, max_width_ram1);
    let c128 = block_config(PhysType::Ram128K, m128k_bits, max_width_ram2);
    let any_kind = has_lutram || has_m8k || has_m128k;
    let all_mappable = forall|q: int|
        0 <= q < flat.len() ==> #[trigger] mappable(
            flat[q].1,
            has_lutram,
            has_m8k,
            has_m128k,
            c8,
            c128,
        );
    &&& (r == Err::<CircuitResult, MapError>(MapError::NoKindEnabled)) == !any_kind
    &&& (r is Ok) == (any_kind && all_mappable)
    &&& r matches Err(MapError::Unmappable { circuit_id, ram_id }) ==> exists|k: int|
        #[trigger] first_unmappable(flat, k, has_lutram, has_m8k, has_m128k, c8, c128)
            && flat[k].0 == circuit_id && flat[k].1.ram_id == ram_id
    &&& r matches Ok(res) ==> {
        let ms = res.mappings@;
        &&& ms.len() == flat.len()
        &&& exists|pre: Seq<RamMapping>|
            {
                &&& pre.len() == flat.len()
                &&& forall|q: int|
                    0 <= q < flat.len() ==> #[trigger] is_chosen(
                        pre[q],
                        flat[q].0,
                        flat[q].1,
                        q,
                        has_lutram,
                        has_m8k,
                        has_m128k,
                        c8,
                        c128,
                    )
                &&& ms == shared_by_kinds(
                    pre,
                    if has_m8k {
                        Some(c8)
                    } else {
                        None
                    },
                    if has_m128k {
                        Some(c128)
                    } else {
                        None
                    },
                )
            }
        &&& res.extra_luts == sum_extra(ms, ms.len() as int)
        &&& res.lutram_blocks == kind_blocks(ms, PhysType::Lutram, ms.len() as int)
            - count_regrouped(ms, PhysType::Lutram, ms.len() as int)
        &&& res.m8k_blocks == kind_blocks(ms, PhysType::Ram8K, ms.len() as int) - count_regrouped(
            ms,
            PhysType::Ram8K,
            ms.len() as int,
        )
        &&& res.m128k_blocks == kind_blocks(ms, PhysType::Ram128K, ms.len() as int)
            - count_regrouped(ms, PhysType::Ram128K, ms.len() as int)
    }
}

proof fn lemma_flat_prefix_mono(cs: Seq<Circuit>, i: int, j: int)
    requires
        0 <= i <= j,
    ensures
        flat_prefix(cs, i).len() <= flat_prefix(cs, j).len(),
    decreases j,
{
    if i < j {
        lemma_flat_prefix_mono(cs, i, j - 1);
    }
}

proof fn lemma_flat_prefix_prefix(cs: Seq<Circuit>, i: int, j: int, q: int)
    requires
        0 <= i <= j,
        0 <= q < flat_prefix(cs, i).len(),
    ensures
        flat_prefix(cs, i)[q] == flat_prefix(cs, j)[q],
    decreases j,
{
    if i < j {
        lemma_flat_prefix_prefix(cs, i, j - 1, q);
        lemma_flat_prefix_mono(cs, i, j - 1);
    }
}

proof fn lemma_sums_same(a: Seq<RamMapping>, b: Seq<RamMapping>, n: int)
    requires
        forall|k: int| 0 <= k < n ==> #[trigger] same_but_grouping(a[k], b[k]),
    ensures
        sum_extra(a, n) == sum_extra(b, n),
        kind_blocks(a, PhysType::Lutram, n) == kind_blocks(b, PhysType::Lutram, n),
        kind_blocks(a, PhysType::Ram8K, n) == kind_blocks(b, PhysType::Ram8K, n),
        kind_blocks(a, PhysType::Ram128K, n) == kind_blocks(b, PhysType::Ram128K, n),
    decreases n,
{
    if n > 0 {
        assert(same_but_grouping(a[n - 1], b[n - 1]));
        lemma_sums_same(a, b, n - 1);
    }
}

proof fn lemma_regrouped(pre: Seq<RamMapping>, fin: Seq<RamMapping>, t: PhysType, n: int)
    requires
        forall|k: int| 0 <= k < n ==> #[trigger] pre[k].group_id == k,
    ensures
        count_moved(pre, fin, t, n) == count_regrouped(fin, t, n),
    decreases n,
{
    if n > 0 {
        assert(pre[n - 1].group_id == n - 1);
        lemma_regrouped(pre, fin, t, n - 1);
    }
}

#[verifier::rlimit(60)]
#[verifier::spinoff_prover]
/// Maps every memory of every circuit, circuits in increasing id order, then shares
/// block RAM between pairs of
/// single-port memories; see `assign_spec` for the exact result.
pub fn assign_ram(
    circuits: &Vec<Circuit>,
    has_lutram: bool,
    has_m8k: bool,
    has_m128k: bool,
    m8k_bits: i32,
    m128k_bits: i32,
    max_width_ram1: i32,
    max_width_ram2: i32,
) -> (r: Result<CircuitResult, MapError>)
    requires
        flat_memories(circuits_by_id(circuits@)).len() < 0x8000_0000,
    ensures
        assign_spec(
            circuits@,
            has_lutram,
            has_m8k,
            has_m128k,
            m8k_bits,
            m128k_bits,
            max_width_ram1,
            max_width_ram2,
            r,
        ),
        r matches Ok(res) ==> forall|q: int|
            0 <= q < res.mappings@.len() ==> #[trigger] mapping_wf(res.mappings@[q]),
        r matches Ok(res) ==> forall|k: int, l: int|
            0 <= k < res.mappings@.len() && 0 <= l < res.mappings@.len() && k != l
                && #[trigger] res.mappings@[k].group_id == #[trigger] res.mappings@[l].group_id
                ==> res.mappings@[k].phys_type == res.mappings@[l].phys_type
                && res.mappings@[k].phys_type != PhysType::Lutram && pair_sound(
                res.mappings@[k],
                res.mappings@[l],
                config_of_kind(
                    res.mappings@[k].phys_type,
                    block_config(PhysType::Ram8K, m8k_bits, max_width_ram1),
                    block_config(PhysType::Ram128K, m128k_bits, max_width_ram2),
                ),
            ),
{
    let ghost ordered = circuits_by_id(circuits@);
    let ghost flat = flat_memories(ordered);
    let m8k_cfg = PhysConfig {
        phys_type: PhysType::Ram8K,
        bits: m8k_bits,
        max_width_non_tdp: max_width_ram1,
        max_width_tdp: if max_width_ram1 > 0 {
            max_width_ram1 / 2
        } else {
            0
        },
    };
    let m128k_cfg = PhysConfig {
        phys_type: PhysType::Ram128K,
        bits: m128k_bits,
        max_width_non_tdp: max_width_ram2,
        max_width_tdp: if max_width_ram2 > 0 {
            max_width_ram2 / 2
        } else {
            0
        },
    };
    let ghost c8 = block_config(PhysType::Ram8K, m8k_bits, max_width_ram1);
    let ghost c128 = block_config(PhysType::Ram128K, m128k_bits, max_width_ram2);
    assert(m8k_cfg == c8);
    assert(m128k_cfg == c128);
    if !has_lutram && !has_m8k && !has_m128k {
        return Err(MapError::NoKindEnabled);
    }
    let mut mappings: Vec<RamMapping> = Vec::new();
    let mut extra_total: i128 = 0;
    let mut lutram_blocks: i128 = 0;
    let mut m8k_blocks: i128 = 0;
    let mut m128k_blocks: i128 = 0;
    let mut ci: usize = 0;
    let order = circuit_order(circuits);
    let ghost mut cur: Seq<(i32, Memory)> = Seq::empty();
    proof {
        lemma_id_order(circuits@, circuits@.len() as int);
    }
    while ci < order.len()
        invariant
            0 <= ci <= ordered.len(),
            order@.len() == ordered.len(),
            ordered == circuits_by_id(circuits@),
            forall|q: int|
                0 <= q < order@.len() ==> #[trigger] order@[q] < circuits@.len() && circuits@[order@[q] as int]
                    == ordered[q],
            flat == flat_memories(ordered),
            flat.len() < 0x8000_0000,
            has_lutram || has_m8k || has_m128k,
            m8k_cfg == c8,
            m128k_cfg == c128,
            c8 == block_config(PhysType::Ram8K, m8k_bits, max_width_ram1),
            c128 == block_config(PhysType::Ram128K, m128k_bits, max_width_ram2),
            cur == flat_prefix(ordered, ci as int),
            mappings@.len() == cur.len(),
            forall|q: int|
                0 <= q < mappings@.len() ==> #[trigger] is_chosen(
                    mappings@[q],
                    cur[q].0,
                    cur[q].1,
                    q,
                    has_lutram,
                    has_m8k,
                    has_m128k,
                    c8,
                    c128,
                ) && mapping_wf(mappings@[q]) && mappings@[q].group_id == q
                    && mappings@[q].extra_luts <= 0x20_0000_0000
                    && mappings@[q].phys_blocks <= 0x10_0000_0000,
            forall|q: int|
                0 <= q < mappings@.len() ==> #[trigger] mappable(
                    cur[q].1,
                    has_lutram,
                    has_m8k,
                    has_m128k,
                    c8,
                    c128,
                ),
            extra_total == sum_extra(mappings@, mappings@.len() as int),
            lutram_blocks == kind_blocks(mappings@, PhysType::Lutram, mappings@.len() as int),
            m8k_blocks == kind_blocks(mappings@, PhysType::Ram8K, mappings@.len() as int),
            m128k_blocks == kind_blocks(mappings@, PhysType::Ram128K, mappings@.len() as int),
            0 <= extra_total <= mappings@.len() * 0x20_0000_0000,
            0 <= lutram_blocks <= mappings@.len() * 0x10_0000_0000,
            0 <= m8k_blocks <= mappings@.len() * 0x10_0000_0000,
            0 <= m128k_blocks <= mappings@.len() * 0x10_0000_0000,
        decreases ordered.len() - ci,
    {
        let c = &circuits[order[ci]];
        assert(c == ordered[ci as int]);
        let ghost base = flat_prefix(ordered, ci as int);
        let ghost next = flat_prefix(ordered, ci as int + 1);
        assert(next == base + c.memories@.map_values(|m: Memory| (c.id, m)));
        proof {
            lemma_flat_prefix_mono(ordered, ci as int + 1, ordered.len() as int);
        }
        let mut mi: usize = 0;
        while mi < c.memories.len()
            invariant
                0 <= ci < ordered.len(),
                c == ordered[ci as int],
                0 <= mi <= c.memories@.len(),
                base == flat_prefix(ordered, ci as int),
                next == base + c.memories@.map_values(|m: Memory| (c.id, m)),
                next.len() < 0x8000_0000,
                flat == flat_memories(ordered),
                ordered == circuits_by_id(circuits@),
                order@.len() == ordered.len(),
                has_lutram || has_m8k || has_m128k,
                m8k_cfg == c8,
                m128k_cfg == c128,
                c8 == block_config(PhysType::Ram8K, m8k_bits, max_width_ram1),
                c128 == block_config(PhysType::Ram128K, m128k_bits, max_width_ram2),
                mappings@.len() == base.len() + mi,
                forall|q: int|
                    0 <= q < mappings@.len() ==> #[trigger] is_chosen(
                        mappings@[q],
                        next[q].0,
                        next[q].1,
                        q,
                        has_lutram,
                        has_m8k,
                        has_m128k,
                        c8,
                        c128,
                    ) && mapping_wf(mappings@[q]) && mappings@[q].group_id == q
                        && mappings@[q].extra_luts <= 0x20_0000_0000
                        && mappings@[q].phys_blocks <= 0x10_0000_0000,
                forall|q: int|
                    0 <= q < mappings@.len() ==> #[trigger] mappable(
                        next[q].1,
                        has_lutram,
                        has_m8k,
                        has_m128k,
                        c8,
                        c128,
                    ),
                extra_total == sum_extra(mappings@, mappings@.len() as int),
                lutram_blocks == kind_blocks(mappings@, PhysType::Lutram, mappings@.len() as int),
                m8k_blocks == kind_blocks(mappings@, PhysType::Ram8K, mappings@.len() as int),
                m128k_blocks == kind_blocks(mappings@, PhysType::Ram128K, mappings@.len() as int),
                0 <= extra_total <= mappings@.len() * 0x20_0000_0000,
                0 <= lutram_blocks <= mappings@.len() * 0x10_0000_0000,
                0 <= m8k_blocks <= mappings@.len() * 0x10_0000_0000,
                0 <= m128k_blocks <= mappings@.len() * 0x10_0000_0000,
            decreases c.memories@.len() - mi,
        {
            let mem = &c.memories[mi];
            let ghost q0 = mappings@.len() as int;
            assert(q0 < next.len());
            let gid = mappings.len() as i32;
            assert(gid == q0);
            assert(next[q0] == (c.id, *mem));
            match choose_mapping_for_memory(
                c.id,
                mem,
                gid,
                has_lutram,
                has_m8k,
                has_m128k,
                &m8k_cfg,
                &m128k_cfg,
            ) {
                Some(m) => {
                    proof {
                        let (k, w) = choose|k: int, w: int|
                            #![trigger is_choice(*mem, has_lutram, has_m8k, has_m128k, c8, c128, k, w)]
                            is_choice(*mem, has_lutram, has_m8k, has_m128k, c8, c128, k, w) && m
                                == candidate(c.id, *mem, gid, kind_config(k, c8, c128), w);
                        assert(is_chosen(m, c.id, *mem, q0, has_lutram, has_m8k, has_m128k, c8, c128));
                        assert(m.phys_blocks <= 0x10_0000_0000) by (nonlinear_arith)
                            requires
                                m.phys_blocks == m.series * m.parallel,
                                1 <= m.series <= MAX_SERIES,
                                1 <= m.parallel < 0x8000_0000,
                        ;
                    }
                    extra_total = extra_total + m.extra_luts as i128;
                    match m.phys_type {
                        PhysType::Lutram => lutram_blocks = lutram_blocks + m.phys_blocks as i128,
                        PhysType::Ram8K => m8k_blocks = m8k_blocks + m.phys_blocks as i128,
                        PhysType::Ram128K => m128k_blocks = m128k_blocks + m.phys_blocks as i128,
                    }
                    let ghost before = mappings@;
                    mappings.push(m);
                    proof {
                        assert forall|k: int| 0 <= k < q0 implies #[trigger] same_but_grouping(
                            before[k],
                            mappings@[k],
                        ) by {
                            assert(before[k] == mappings@[k]);
                        }
                        lemma_sums_same(before, mappings@, q0);
                        assert forall|q: int| 0 <= q < mappings@.len() implies #[trigger] is_chosen(
                            mappings@[q],
                            next[q].0,
                            next[q].1,
                            q,
                            has_lutram,
                            has_m8k,
                            has_m128k,
                            c8,
                            c128,
                        ) && mapping_wf(mappings@[q]) && mappings@[q].group_id == q
                            && mappings@[q].extra_luts <= 0x20_0000_0000
                            && mappings@[q].phys_blocks <= 0x10_0000_0000 by {
                            if q < q0 {
                                assert(mappings@[q] == before[q]);
                                assert(is_chosen(
                                    before[q],
                                    next[q].0,
                                    next[q].1,
                                    q,
                                    has_lutram,
                                    has_m8k,
                                    has_m128k,
                                    c8,
                                    c128,
                                ));
                            } else {
                                assert(mappings@[q] == m);
                                assert(next[q] == (c.id, *mem));
                                assert(is_chosen(m, c.id, *mem, q, has_lutram, has_m8k, has_m128k, c8, c128));
                                assert(mapping_wf(m));
                                assert(m.group_id == q);
                            }
                        }
                    }
                },
                None => {
                    proof {
                        lemma_flat_prefix_mono(ordered, ci as int + 1, ordered.len() as int);
                        assert(q0 < next.len());
                        assert forall|q: int| 0 <= q <= q0 implies #[trigger] flat[q] == next[q] by {
                            lemma_flat_prefix_prefix(
                                ordered,
                                ci as int + 1,
                                ordered.len() as int,
                                q,
                            );
                        }
                        assert(first_unmappable(flat, q0, has_lutram, has_m8k, has_m128k, c8, c128));
                        assert(flat[q0].0 == c.id && flat[q0].1.ram_id == mem.ram_id);
                        assert(!mappable(flat[q0].1, has_lutram, has_m8k, has_m128k, c8, c128));
                    }
                    return Err(MapError::Unmappable { circuit_id: c.id, ram_id: mem.ram_id });
                },
            }
            mi = mi + 1;
        }
        assert(next == flat_prefix(ordered, ci as int + 1));
        proof {
            cur = next;
        }
        ci = ci + 1;
    }
    let ghost pre = mappings@;
    let n = mappings.len();
    proof {
        assert forall|k: int, l: int|
            0 <= k < pre.len() && 0 <= l < pre.len() && k != l implies #[trigger] pre[k].group_id
                != #[trigger] pre[l].group_id by {
            assert(is_chosen(pre[k], flat[k].0, flat[k].1, k, has_lutram, has_m8k, has_m128k, c8, c128));
            assert(is_chosen(pre[l], flat[l].0, flat[l].1, l, has_lutram, has_m8k, has_m128k, c8, c128));
        }
        assert(share_ready(pre, c8));
        assert(share_ready(pre, c128));
    }
    let m8k_opt = if has_m8k {
        Some(&m8k_cfg)
    } else {
        None
    };
    let m128k_opt = if has_m128k {
        Some(&m128k_cfg)
    } else {
        None
    };
    apply_sharing(&mut mappings, m8k_opt, m128k_opt, &mut m8k_blocks, &mut m128k_blocks);
    let ghost fin = mappings@;
    proof {
        assert forall|q: int| 0 <= q < n implies #[trigger] pre[q].group_id == q by {
            assert(is_chosen(pre[q], flat[q].0, flat[q].1, q, has_lutram, has_m8k, has_m128k, c8, c128));
        }
        lemma_sums_same(pre, fin, n as int);
        lemma_regrouped(pre, fin, PhysType::Lutram, n as int);
        lemma_regrouped(pre, fin, PhysType::Ram8K, n as int);
        lemma_regrouped(pre, fin, PhysType::Ram128K, n as int);
        assert(count_regrouped(fin, PhysType::Lutram, n as int) == 0) by {
            crate::sharing::lemma_count_moved_same(pre, PhysType::Lutram, n as int);
            assert forall|k: int| 0 <= k < n implies ((fin[k].phys_type == PhysType::Lutram
                && fin[k].group_id != pre[k].group_id) == (pre[k].phys_type == PhysType::Lutram
                && pre[k].group_id != pre[k].group_id)) by {
                assert(same_but_grouping(pre[k], fin[k]));
            }
            crate::sharing::lemma_count_moved_ext(pre, fin, pre, pre, PhysType::Lutram, n as int);
        }
        assert forall|q: int| 0 <= q < fin.len() implies #[trigger] mapping_wf(fin[q]) by {
            assert(same_but_grouping(pre[q], fin[q]));
            assert(is_chosen(pre[q], flat[q].0, flat[q].1, q, has_lutram, has_m8k, has_m128k, c8, c128));
            assert(mapping_wf(pre[q]));
        }
        let src = choose|src: Seq<int>| #[trigger] id_sources(pre, fin, src);
        assert forall|k: int, l: int|
            0 <= k < fin.len() && 0 <= l < fin.len() && k != l && #[trigger] fin[k].group_id
                == #[trigger] fin[l].group_id implies fin[k].phys_type == fin[l].phys_type
                && fin[k].phys_type != PhysType::Lutram by {
            assert(id_source(pre, fin, k, src[k]));
            assert(id_source(pre, fin, l, src[l]));
            assert(same_but_grouping(pre[k], fin[k]));
            assert(same_but_grouping(pre[l], fin[l]));
            if fin[k].phys_type == PhysType::Lutram {
                assert(fin[k] == pre[k]);
                assert(fin[l].phys_type == PhysType::Lutram);
                assert(fin[l] == pre[l]);
            }
        }
        assert forall|k: int, l: int|
            0 <= k < fin.len() && 0 <= l < fin.len() && k != l && fin[k].phys_type
                == fin[l].phys_type && #[trigger] fin[k].group_id == #[trigger] fin[l].group_id
                implies pair_sound(fin[k], fin[l], config_of_kind(fin[k].phys_type, c8, c128)) by {
            assert(same_but_grouping(pre[k], fin[k]));
            assert(same_but_grouping(pre[l], fin[l]));
            assert(is_chosen(pre[k], flat[k].0, flat[k].1, k, has_lutram, has_m8k, has_m128k, c8, c128));
            if fin[k].phys_type == PhysType::Ram8K {
                if has_m8k {
                    assert(groups_sound(fin, c8));
                } else {
                    let (kk, w) = choose|kk: int, w: int|
                        #![trigger is_choice(flat[k].1, has_lutram, has_m8k, has_m128k, c8, c128, kk, w)]
                        is_choice(flat[k].1, has_lutram, has_m8k, has_m128k, c8, c128, kk, w) && pre[k]
                            == candidate(flat[k].0, flat[k].1, k as i32, kind_config(kk, c8, c128), w);
                    assert(false);
                }
            } else if fin[k].phys_type == PhysType::Ram128K {
                if has_m128k {
                    assert(groups_sound(fin, c128));
                } else {
                    let (kk, w) = choose|kk: int, w: int|
                        #![trigger is_choice(flat[k].1, has_lutram, has_m8k, has_m128k, c8, c128, kk, w)]
                        is_choice(flat[k].1, has_lutram, has_m8k, has_m128k, c8, c128, kk, w) && pre[k]
                            == candidate(flat[k].0, flat[k].1, k as i32, kind_config(kk, c8, c128), w);
                    assert(false);
                }
            } else {
                assert(fin[k] == pre[k]);
                assert(fin[l] == pre[l]);
            }
        }
    }
    let res = CircuitResult {
        mappings,
        extra_luts: extra_total,
        lutram_blocks,
        m8k_blocks,
        m128k_blocks,
    };
    proof {
        assert(forall|q: int|
            0 <= q < flat.len() ==> #[trigger] is_chosen(
                pre[q],
                flat[q].0,
                flat[q].1,
                q,
                has_lutram,
                has_m8k,
                has_m128k,
                c8,
                c128,
            ));
    }
    Ok(res)
}

proof fn lemma_choice_unique(
    mem: Memory,
    has_lutram: bool,
    has_m8k: bool,
    has_m128k: bool,
    m8k_cfg: PhysConfig,
    m128k_cfg: PhysConfig,
    k1: int,
    w1: int,
    k2: int,
    w2: int,
)
    requires
        is_choice(mem, has_lutram, has_m8k, has_m128k, m8k_cfg, m128k_cfg, k1, w1),
        is_choice(mem, has_lutram, has_m8k, has_m128k, m8k_cfg, m128k_cfg, k2, w2),
    ensures
        k1 == k2 && w1 == w2,
{
    assert(crate::mapper::legal(mem, kind_config(k1, m8k_cfg, m128k_cfg), w1));
    assert(crate::mapper::legal(mem, kind_config(k2, m8k_cfg, m128k_cfg), w2));
}

proof fn lemma_chosen_unique(
    m1: RamMapping,
    m2: RamMapping,
    circuit_id: i32,
    mem: Memory,
    group_id: int,
    has_lutram: bool,
    has_m8k: bool,
    has_m128k: bool,
    m8k_cfg: PhysConfig,
    m128k_cfg: PhysConfig,
)
    requires
        is_chosen(m1, circuit_id, mem, group_id, has_lutram, has_m8k, has_m128k, m8k_cfg, m128k_cfg),
        is_chosen(m2, circuit_id, mem, group_id, has_lutram, has_m8k, has_m128k, m8k_cfg, m128k_cfg),
    ensures
        m1 == m2,
{
    let (k1, w1) = choose|k: int, w: int|
        #![trigger is_choice(mem, has_lutram, has_m8k, has_m128k, m8k_cfg, m128k_cfg, k, w)]
        is_choice(mem, has_lutram, has_m8k, has_m128k, m8k_cfg, m128k_cfg, k, w) && m1
            == candidate(circuit_id, mem, group_id as i32, kind_config(k, m8k_cfg, m128k_cfg), w);
    let (k2, w2) = choose|k: int, w: int|
        #![trigger is_choice(mem, has_lutram, has_m8k, has_m128k, m8k_cfg, m128k_cfg, k, w)]
        is_choice(mem, has_lutram, has_m8k, has_m128k, m8k_cfg, m128k_cfg, k, w) && m2
            == candidate(circuit_id, mem, group_id as i32, kind_config(k, m8k_cfg, m128k_cfg), w);
    lemma_choice_unique(mem, has_lutram, has_m8k, has_m128k, m8k_cfg, m128k_cfg, k1, w1, k2, w2);
}

/// Determinism: two runs over the same circuits with the same configuration end the
/// same way, with the same error or with the same mappings, in the same order and with
/// the same field values, and the same totals.
pub proof fn lemma_assign_deterministic(
    cs: Seq<Circuit>,
    has_lutram: bool,
    has_m8k: bool,
    has_m128k: bool,
    m8k_bits: i32,
    m128k_bits: i32,
    max_width_ram1: i32,
    max_width_ram2: i32,
    r1: Result<CircuitResult, MapError>,
    r2: Result<CircuitResult, MapError>,
)
    requires
        assign_spec(cs, has_lutram, has_m8k, has_m128k, m8k_bits, m128k_bits, max_width_ram1, max_width_ram2, r1),
        assign_spec(cs, has_lutram, has_m8k, has_m128k, m8k_bits, m128k_bits, max_width_ram1, max_width_ram2, r2),
    ensures
        r1 is Ok <==> r2 is Ok,
        r1 matches Err(e1) ==> r2 == Err::<CircuitResult, MapError>(e1),
        r1 matches Ok(a) ==> r2 matches Ok(b) && a.mappings@ == b.mappings@ && a.extra_luts
            == b.extra_luts && a.lutram_blocks == b.lutram_blocks && a.m8k_blocks == b.m8k_blocks
            && a.m128k_blocks == b.m128k_blocks,
{
    let flat = flat_memories(circuits_by_id(cs));
    let c8 = block_config(PhysType::Ram8K, m8k_bits, max_width_ram1);
    let c128 = block_config(PhysType::Ram128K, m128k_bits, max_width_ram2);
    match (r1, r2) {
        (Ok(a), Ok(b)) => {
            let pre1 = choose|pre: Seq<RamMapping>|
                {
                    &&& pre.len() == flat.len()
                    &&& forall|q: int|
                        0 <= q < flat.len() ==> #[trigger] is_chosen(
                            pre[q],
                            flat[q].0,
                            flat[q].1,
                            q,
                            has_lutram,
                            has_m8k,
                            has_m128k,
                            c8,
                            c128,
                        )
                    &&& a.mappings@ == shared_by_kinds(
                        pre,
                        if has_m8k {
                            Some(c8)
                        } else {
                            None
                        },
                        if has_m128k {
                            Some(c128)
                        } else {
                            None
                        },
                    )
                };
            let pre2 = choose|pre: Seq<RamMapping>|
                {
                    &&& pre.len() == flat.len()
                    &&& forall|q: int|
                        0 <= q < flat.len() ==> #[trigger] is_chosen(
                            pre[q],
                            flat[q].0,
                            flat[q].1,
                            q,
                            has_lutram,
                            has_m8k,
                            has_m128k,
                            c8,
                            c128,
                        )
                    &&& b.mappings@ == shared_by_kinds(
                        pre,
                        if has_m8k {
                            Some(c8)
                        } else {
                            None
                        },
                        if has_m128k {
                            Some(c128)
                        } else {
                            None
                        },
                    )
                };
            assert forall|q: int| 0 <= q < flat.len() implies pre1[q] == pre2[q] by {
                assert(is_chosen(pre1[q], flat[q].0, flat[q].1, q, has_lutram, has_m8k, has_m128k, c8, c128));
                assert(is_chosen(pre2[q], flat[q].0, flat[q].1, q, has_lutram, has_m8k, has_m128k, c8, c128));
                lemma_chosen_unique(pre1[q], pre2[q], flat[q].0, flat[q].1, q, has_lutram, has_m8k, has_m128k, c8, c128);
            }
            assert(pre1 =~= pre2);
        },
        (Err(MapError::Unmappable { .. }), Err(MapError::Unmappable { .. })) => {
            let k1 = choose|k: int|
                #[trigger] first_unmappable(flat, k, has_lutram, has_m8k, has_m128k, c8, c128)
                    && flat[k].0 == r1->Err_0->circuit_id && flat[k].1.ram_id == r1->Err_0->ram_id;
            let k2 = choose|k: int|
                #[trigger] first_unmappable(flat, k, has_lutram, has_m8k, has_m128k, c8, c128)
                    && flat[k].0 == r2->Err_0->circuit_id && flat[k].1.ram_id == r2->Err_0->ram_id;
            if k1 < k2 {
                assert(mappable(flat[k1].1, has_lutram, has_m8k, has_m128k, c8, c128));
            } else if k2 < k1 {
                assert(mappable(flat[k2].1, has_lutram, has_m8k, has_m128k, c8, c128));
            }
        },
        _ => {},
    }
}

} // verus!
