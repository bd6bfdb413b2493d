use ram_mapper::cost::{decoder_luts, isqrt, macro_area, mapping_cost, mux_luts};
use ram_mapper::driver::assign_ram;
use ram_mapper::mapper::{best_mapping_for_phys_type, choose_mapping_for_memory, lutram_cfg};
use ram_mapper::model::{
    Circuit, MapError, MemMode, Memory, PhysConfig, PhysType, RamMapping,
};
use ram_mapper::sharing::{apply_sharing, share_type};

fn m8k(bits: i32, max_width: i32) -> PhysConfig {
    PhysConfig {
        phys_type: PhysType::Ram8K,
        bits,
        max_width_non_tdp: max_width,
        max_width_tdp: max_width / 2,
    }
}

fn m128k(bits: i32, max_width: i32) -> PhysConfig {
    PhysConfig {
        phys_type: PhysType::Ram128K,
        bits,
        max_width_non_tdp: max_width,
        max_width_tdp: max_width / 2,
    }
}

fn mem(ram_id: i32, mode: MemMode, depth: i32, width: i32) -> Memory {
    Memory { ram_id, mode, depth, width }
}

fn circuit(id: i32, memories: Vec<Memory>) -> Circuit {
    Circuit { id, logic_blocks: 100, memories }
}

#[test]
fn mode_names_round_trip() {
    for m in [MemMode::Rom, MemMode::SinglePort, MemMode::SimpleDualPort, MemMode::TrueDualPort] {
        assert_eq!(MemMode::from_str(m.as_str()), Some(m));
    }
    assert_eq!(MemMode::Rom.as_str(), "ROM");
    assert_eq!(MemMode::from_str("TrueDualPort"), Some(MemMode::TrueDualPort));
    assert_eq!(MemMode::from_str("rom"), None);
    assert_eq!(MemMode::from_str(""), None);
    assert_eq!(MemMode::from_str("SinglePortX"), None);
}

#[test]
fn type_ids_follow_kind_order() {
    assert_eq!(PhysType::Lutram.type_id(), 1);
    assert_eq!(PhysType::Ram8K.type_id(), 2);
    assert_eq!(PhysType::Ram128K.type_id(), 3);
}

#[test]
fn decoder_overhead_values() {
    assert_eq!(decoder_luts(0), 0);
    assert_eq!(decoder_luts(1), 0);
    assert_eq!(decoder_luts(2), 1);
    assert_eq!(decoder_luts(3), 3);
    assert_eq!(decoder_luts(16), 16);
}

#[test]
fn mux_overhead_values() {
    assert_eq!(mux_luts(1, 100), 0);
    assert_eq!(mux_luts(2, 8), 8);
    assert_eq!(mux_luts(4, 8), 8);
    assert_eq!(mux_luts(5, 2), 6);
    assert_eq!(mux_luts(16, 3), 15);
    assert_eq!(mux_luts(17, 1), 8);
}

#[test]
fn integer_square_root() {
    assert_eq!(isqrt(0), 0);
    assert_eq!(isqrt(15), 3);
    assert_eq!(isqrt(16), 4);
    assert_eq!(isqrt(8_192_000_000), 90_509);
}

#[test]
fn macro_area_values() {
    assert_eq!(macro_area(8192, 32), 96_505_810);
    assert_eq!(macro_area(131_072, 128), 850_543_420);
    assert!(macro_area(8192, 16) < macro_area(8192, 32));
    assert!(macro_area(8192, 32) < macro_area(16384, 32));
}

#[test]
fn single_memory_on_8k_block() {
    let circuits = vec![circuit(0, vec![mem(7, MemMode::SinglePort, 1024, 8)])];
    let res = assign_ram(&circuits, false, true, false, 8192, 131_072, 32, 128).unwrap();
    assert_eq!(res.mappings.len(), 1);
    let m = res.mappings[0];
    assert_eq!(m.phys_type, PhysType::Ram8K);
    assert_eq!(m.phys_width, 8);
    assert_eq!(m.phys_depth, 1024);
    assert_eq!(m.series, 1);
    assert_eq!(m.parallel, 1);
    assert_eq!(m.phys_blocks, 1);
    assert_eq!(m.extra_luts, 0);
    assert_eq!(m.logical_ram_id, 7);
    assert_eq!(m.group_id, 0);
    assert_eq!(res.m8k_blocks, 1);
    assert_eq!(res.lutram_blocks, 0);
    assert_eq!(res.m128k_blocks, 0);
    assert_eq!(res.extra_luts, 0);
    assert_eq!(mapping_cost(&m, &m8k(8192, 32)), 28_758_731_380_000_000);
}

#[test]
fn two_half_memories_share_one_block() {
    let circuits = vec![circuit(
        3,
        vec![mem(0, MemMode::SinglePort, 1024, 4), mem(1, MemMode::SinglePort, 1024, 4)],
    )];
    let res = assign_ram(&circuits, false, true, false, 8192, 131_072, 32, 128).unwrap();
    assert_eq!(res.mappings.len(), 2);
    let a = res.mappings[0];
    let b = res.mappings[1];
    assert_eq!(a.mode, MemMode::TrueDualPort);
    assert_eq!(b.mode, MemMode::TrueDualPort);
    assert_eq!(a.group_id, 0);
    assert_eq!(b.group_id, 0);
    assert_eq!((a.phys_width, a.phys_depth), (b.phys_width, b.phys_depth));
    assert_eq!(a.phys_width, 4);
    assert_eq!(a.phys_depth, 2048);
    assert_eq!(res.m8k_blocks, 1);
}

#[test]
fn memories_of_different_circuits_are_not_shared() {
    let circuits = vec![
        circuit(1, vec![mem(0, MemMode::SinglePort, 1024, 4)]),
        circuit(2, vec![mem(0, MemMode::SinglePort, 1024, 4)]),
    ];
    let res = assign_ram(&circuits, false, true, false, 8192, 131_072, 32, 128).unwrap();
    assert_eq!(res.mappings[0].mode, MemMode::SinglePort);
    assert_eq!(res.mappings[1].mode, MemMode::SinglePort);
    assert_eq!(res.mappings[0].group_id, 0);
    assert_eq!(res.mappings[1].group_id, 1);
    assert_eq!(res.m8k_blocks, 2);
}

#[test]
fn wide_memory_uses_parallel_macros() {
    let circuits = vec![circuit(0, vec![mem(0, MemMode::SinglePort, 512, 200)])];
    let res = assign_ram(&circuits, false, true, true, 8192, 131_072, 128, 128).unwrap();
    let m = res.mappings[0];
    assert!(m.phys_width <= 128);
    assert!(m.parallel >= 2);
    assert!(m.parallel as i64 * m.phys_width as i64 >= 200);
    assert_eq!(m.phys_blocks, m.series as i64 * m.parallel as i64);
}

#[test]
fn dual_port_without_dual_port_kind_is_unmappable() {
    let circuits = vec![circuit(4, vec![mem(9, MemMode::TrueDualPort, 16, 4)])];
    let r = assign_ram(&circuits, true, true, false, 8192, 131_072, 1, 128);
    assert_eq!(r.unwrap_err(), MapError::Unmappable { circuit_id: 4, ram_id: 9 });
}

#[test]
fn too_deep_memory_is_unmappable() {
    let circuits = vec![
        circuit(1, vec![mem(0, MemMode::Rom, 64, 8)]),
        circuit(2, vec![mem(5, MemMode::SinglePort, 131_073, 1), mem(6, MemMode::Rom, 1 << 30, 1)]),
    ];
    let r = assign_ram(&circuits, false, true, false, 8192, 131_072, 8, 128);
    assert_eq!(r.unwrap_err(), MapError::Unmappable { circuit_id: 2, ram_id: 5 });
}

#[test]
fn no_kind_enabled_is_an_error() {
    let circuits = vec![circuit(0, vec![mem(0, MemMode::Rom, 16, 4)])];
    let r = assign_ram(&circuits, false, false, false, 8192, 131_072, 32, 128);
    assert_eq!(r.unwrap_err(), MapError::NoKindEnabled);
}

#[test]
fn empty_input_gives_empty_result() {
    let res = assign_ram(&Vec::new(), true, true, true, 8192, 131_072, 32, 128).unwrap();
    assert!(res.mappings.is_empty());
    assert_eq!(res.extra_luts, 0);
    assert_eq!(res.lutram_blocks + res.m8k_blocks + res.m128k_blocks, 0);
}

#[test]
fn runs_are_deterministic() {
    let make = || {
        vec![
            circuit(0, vec![mem(0, MemMode::SinglePort, 1024, 4), mem(1, MemMode::Rom, 300, 30)]),
            circuit(1, vec![mem(0, MemMode::SinglePort, 1024, 4), mem(1, MemMode::SinglePort, 1024, 4)]),
            circuit(2, vec![mem(3, MemMode::SimpleDualPort, 5000, 70)]),
        ]
    };
    let a = assign_ram(&make(), true, true, true, 8192, 131_072, 32, 128).unwrap();
    let b = assign_ram(&make(), true, true, true, 8192, 131_072, 32, 128).unwrap();
    assert_eq!(a.mappings, b.mappings);
    assert_eq!(
        (a.extra_luts, a.lutram_blocks, a.m8k_blocks, a.m128k_blocks),
        (b.extra_luts, b.lutram_blocks, b.m8k_blocks, b.m128k_blocks)
    );
}

#[test]
fn every_mapping_covers_its_memory() {
    let circuits = vec![
        circuit(0, vec![mem(0, MemMode::SinglePort, 3000, 36), mem(1, MemMode::TrueDualPort, 9000, 20)]),
        circuit(1, vec![mem(0, MemMode::Rom, 70, 11), mem(1, MemMode::SimpleDualPort, 100_000, 3)]),
    ];
    let res = assign_ram(&circuits, true, true, true, 8192, 131_072, 32, 128).unwrap();
    for m in &res.mappings {
        assert!(m.series as i64 * m.phys_depth as i64 >= m.logical_depth as i64);
        assert!(m.parallel as i64 * m.phys_width as i64 >= m.logical_width as i64);
        assert_eq!(m.phys_blocks, m.series as i64 * m.parallel as i64);
        assert!(m.phys_blocks >= 1);
        assert!(m.series <= 16);
    }
}

#[test]
fn mapper_prefers_cheapest_kind() {
    let m = mem(0, MemMode::SinglePort, 64, 10);
    let chosen = choose_mapping_for_memory(0, &m, 0, true, true, true, &m8k(8192, 32), &m128k(131_072, 128))
        .unwrap();
    let mut costs = Vec::new();
    let l = best_mapping_for_phys_type(0, &m, 0, &lutram_cfg()).unwrap();
    costs.push(l.1);
    let a = best_mapping_for_phys_type(0, &m, 0, &m8k(8192, 32)).unwrap();
    costs.push(a.1);
    let b = best_mapping_for_phys_type(0, &m, 0, &m128k(131_072, 128)).unwrap();
    costs.push(b.1);
    let best = *costs.iter().min().unwrap();
    let cfgs = [lutram_cfg(), m8k(8192, 32), m128k(131_072, 128)];
    let idx = costs.iter().position(|c| *c == best).unwrap();
    assert_eq!(chosen.phys_type, cfgs[idx].phys_type);
    assert_eq!(mapping_cost(&chosen, &cfgs[idx]), best);
}

#[test]
fn lutram_shape_for_small_memory() {
    let m = mem(2, MemMode::SinglePort, 64, 10);
    let (r, c) = best_mapping_for_phys_type(5, &m, 11, &lutram_cfg()).unwrap();
    assert_eq!((r.phys_width, r.phys_depth), (10, 64));
    assert_eq!((r.series, r.parallel, r.phys_blocks), (1, 1, 1));
    assert_eq!((r.circuit_id, r.group_id, r.logical_ram_id), (5, 11, 2));
    assert_eq!(c, 9_150_000_000_000_000);
}

#[test]
fn lutram_rejects_true_dual_port() {
    let m = mem(2, MemMode::TrueDualPort, 64, 10);
    assert!(best_mapping_for_phys_type(0, &m, 0, &lutram_cfg()).is_none());
}

#[test]
fn chained_dual_port_doubles_logic() {
    let single = mem(0, MemMode::SinglePort, 16_384, 1);
    let dual = mem(0, MemMode::TrueDualPort, 16_384, 1);
    let cfg = PhysConfig { phys_type: PhysType::Ram8K, bits: 8192, max_width_non_tdp: 1, max_width_tdp: 1 };
    let (a, _) = best_mapping_for_phys_type(0, &single, 0, &cfg).unwrap();
    let (b, _) = best_mapping_for_phys_type(0, &dual, 0, &cfg).unwrap();
    assert_eq!((a.phys_width, a.series), (b.phys_width, b.series));
    assert!(a.series > 1);
    assert_eq!(b.extra_luts, 2 * a.extra_luts);
}

fn mapping(circuit_id: i32, group_id: i32, width: i32, depth: i32) -> RamMapping {
    RamMapping {
        circuit_id,
        logical_ram_id: group_id,
        extra_luts: 0,
        logical_width: width,
        logical_depth: depth,
        group_id,
        series: 1,
        parallel: 1,
        phys_type: PhysType::Ram8K,
        mode: MemMode::SinglePort,
        phys_width: 4,
        phys_depth: 2048,
        phys_blocks: 1,
    }
}

#[test]
fn sharing_is_first_fit() {
    let mut ms = vec![
        mapping(0, 0, 4, 1024),
        mapping(0, 1, 4, 1024),
        mapping(0, 2, 4, 1024),
        mapping(0, 3, 4, 1024),
        mapping(0, 4, 4, 1024),
    ];
    let mut total: i128 = 5;
    share_type(&mut ms, &m8k(8192, 32), &mut total);
    assert_eq!(total, 3);
    let groups: Vec<i32> = ms.iter().map(|m| m.group_id).collect();
    assert_eq!(groups, vec![0, 0, 2, 2, 4]);
    assert_eq!(ms[4].mode, MemMode::SinglePort);
    assert_eq!(ms[3].mode, MemMode::TrueDualPort);
}

#[test]
fn sharing_needs_exact_fill() {
    let mut ms = vec![mapping(0, 0, 4, 1024), mapping(0, 1, 3, 1024)];
    let mut total: i128 = 2;
    share_type(&mut ms, &m8k(8192, 32), &mut total);
    assert_eq!(total, 2);
    assert_eq!(ms[1].group_id, 1);
    assert_eq!(ms[0].mode, MemMode::SinglePort);
}

#[test]
fn sharing_skips_other_kind_and_full_macros() {
    let full = mapping(0, 1, 4, 2048);
    let mut other = mapping(0, 2, 4, 1024);
    other.phys_type = PhysType::Ram128K;
    let mut ms = vec![mapping(0, 0, 4, 1024), full, other];
    let mut t8: i128 = 2;
    let mut t128: i128 = 1;
    let cfg = m8k(8192, 32);
    apply_sharing(&mut ms, Some(&cfg), None, &mut t8, &mut t128);
    assert_eq!((t8, t128), (2, 1));
    assert_eq!(ms[0].mode, MemMode::SinglePort);
}

#[test]
fn no_sharing_without_dual_port_mode() {
    let cfg = PhysConfig { phys_type: PhysType::Ram8K, bits: 8192, max_width_non_tdp: 32, max_width_tdp: 0 };
    let mut ms = vec![mapping(0, 0, 4, 1024), mapping(0, 1, 4, 1024)];
    let mut total: i128 = 2;
    share_type(&mut ms, &cfg, &mut total);
    assert_eq!(total, 2);
    assert_eq!(ms[0].mode, MemMode::SinglePort);
    assert_eq!(ms[1].group_id, 1);

    let circuits = vec![circuit(0, vec![mem(0, MemMode::SinglePort, 1, 1), mem(1, MemMode::SinglePort, 1, 1)])];
    let res = assign_ram(&circuits, false, true, false, 2, 131_072, 1, 128).unwrap();
    assert_eq!(res.mappings[0].mode, MemMode::SinglePort);
    assert_eq!(res.mappings[1].mode, MemMode::SinglePort);
    assert_eq!(res.m8k_blocks, 2);
}

#[test]
fn second_sharing_pass_changes_nothing() {
    let mut ms = vec![
        mapping(0, 0, 4, 1024),
        mapping(0, 1, 4, 1024),
        mapping(0, 2, 4, 1024),
    ];
    let mut total: i128 = 3;
    let cfg = m8k(8192, 32);
    share_type(&mut ms, &cfg, &mut total);
    let after_first = ms.clone();
    share_type(&mut ms, &cfg, &mut total);
    assert_eq!(ms, after_first);
    assert_eq!(total, 2);
}

#[test]
fn circuits_are_mapped_in_id_order() {
    let circuits = vec![
        circuit(2, vec![mem(0, MemMode::Rom, 16, 4)]),
        circuit(1, vec![mem(5, MemMode::Rom, 16, 4), mem(6, MemMode::Rom, 16, 4)]),
    ];
    let res = assign_ram(&circuits, true, true, true, 8192, 131_072, 32, 128).unwrap();
    let keys: Vec<(i32, i32, i32)> =
        res.mappings.iter().map(|m| (m.circuit_id, m.logical_ram_id, m.group_id)).collect();
    assert_eq!(keys, vec![(1, 5, 0), (1, 6, 1), (2, 0, 2)]);
}
