use ram_mapper::area::{circuit_usage, logic_units, required_tiles, ChipTiles};
use ram_mapper::circuits::build_circuits;
use ram_mapper::model::{MemMode, Memory, PhysType, RamMapping};

fn mem(ram_id: i32) -> Memory {
    Memory { ram_id, mode: MemMode::SinglePort, depth: 16, width: 4 }
}

#[test]
fn logic_units_round_up() {
    assert_eq!(logic_units(0), 0);
    assert_eq!(logic_units(1), 1);
    assert_eq!(logic_units(10), 1);
    assert_eq!(logic_units(11), 2);
}

#[test]
fn tiles_cover_logic_and_sites() {
    let t = required_tiles(100, 25, 4, true, 20, 10, true, 1, 300, Some(8));
    assert_eq!(t, ChipTiles { lb_tiles: 300, m8k_sites: 30, m128k_sites: 1 });
    let t = required_tiles(100, 25, 4, true, 2, 10, false, 1, 300, None);
    assert_eq!(t, ChipTiles { lb_tiles: 107, m8k_sites: 10, m128k_sites: 0 });
    let t = required_tiles(0, 0, 50, false, 0, 10, false, 0, 300, Some(100));
    assert_eq!(t.lb_tiles, 100);
}

#[test]
fn usage_sums_one_circuit() {
    let base = RamMapping {
        circuit_id: 1,
        logical_ram_id: 0,
        extra_luts: 7,
        logical_width: 4,
        logical_depth: 16,
        group_id: 0,
        series: 1,
        parallel: 2,
        phys_type: PhysType::Ram8K,
        mode: MemMode::SinglePort,
        phys_width: 2,
        phys_depth: 4096,
        phys_blocks: 2,
    };
    let other = RamMapping { circuit_id: 2, ..base };
    let lut = RamMapping { phys_type: PhysType::Lutram, phys_blocks: 3, extra_luts: 1, ..base };
    let u = circuit_usage(&vec![base, other, lut, base], 1);
    assert_eq!((u.lutram_blocks, u.m8k_blocks, u.m128k_blocks, u.extra_luts), (3, 4, 0, 15));
}

#[test]
fn circuits_grouped_and_sorted() {
    let blocks = vec![(5, 50), (2, 20), (5, 55)];
    let rams = vec![(2, mem(0)), (9, mem(1)), (2, mem(2)), (5, mem(3))];
    let cs = build_circuits(&blocks, &rams);
    let ids: Vec<i32> = cs.iter().map(|c| c.id).collect();
    assert_eq!(ids, vec![2, 5, 9]);
    assert_eq!(cs[0].logic_blocks, 20);
    assert_eq!(cs[1].logic_blocks, 55);
    assert_eq!(cs[2].logic_blocks, 0);
    let ram_ids: Vec<i32> = cs[0].memories.iter().map(|m| m.ram_id).collect();
    assert_eq!(ram_ids, vec![0, 2]);
    assert_eq!(cs[1].memories.len(), 1);
    assert_eq!(cs[2].memories[0].ram_id, 1);
}

#[test]
fn no_records_no_circuits() {
    assert!(build_circuits(&Vec::new(), &Vec::new()).is_empty());
}

#[test]
fn report_order_sorts_by_circuit_then_ram() {
    let m = |circuit_id: i32, logical_ram_id: i32, group_id: i32| RamMapping {
        circuit_id,
        logical_ram_id,
        extra_luts: 0,
        logical_width: 1,
        logical_depth: 1,
        group_id,
        series: 1,
        parallel: 1,
        phys_type: PhysType::Lutram,
        mode: MemMode::Rom,
        phys_width: 10,
        phys_depth: 64,
        phys_blocks: 1,
    };
    let input = vec![m(2, 1, 0), m(1, 5, 1), m(2, 0, 2), m(1, 5, 3), m(0, 9, 4)];
    let out = ram_mapper::report::report_order(&input);
    let keys: Vec<(i32, i32, i32)> =
        out.iter().map(|x| (x.circuit_id, x.logical_ram_id, x.group_id)).collect();
    assert_eq!(keys, vec![(0, 9, 4), (1, 5, 1), (1, 5, 3), (2, 0, 2), (2, 1, 0)]);
}
