use lib::meshlet::MeshId;
use lib::placement::{
    fnv1a64, matches_mirror, mesh_counts, morton_code, morton_order, spread_bits, tally, CategoryCounts, CityGrid,
    CityMeshes,
};

/// The city-blocks layout's grid: a 2.4 km city of 100 m blocks (24 a side), a lamp post
/// every 25 m (96 per line and side), a plaza on every fourth crossing.
fn city(total: u32) -> CityGrid {
    CityGrid {
        blocks: 24,
        lamps_per_line: 96,
        plaza_every: 4,
        total,
    }
}

#[test]
fn the_city_takes_what_it_holds_and_the_hills_the_rest() {
    let layout = city(1_000_000);
    let c = layout.counts();
    assert_eq!(c.buildings, 4 * 24 * 24);
    assert_eq!(c.lamps, 2 * 25 * 2 * 96);
    // Crossings 2, 6, 10, 14, 18 and 22 on each axis.
    assert_eq!(c.plaza_slots, 5 * 6 * 6);
    assert_eq!(c.buildings + c.lamps + c.plaza_slots + c.rocks, 1_000_000);
}

#[test]
fn a_small_total_leaves_no_rocks() {
    let c = city(10).counts();
    assert_eq!(c.rocks, 0);
    // A zero period counts as one: every crossing 0..=24 holds a plaza.
    let every = CityGrid { plaza_every: 0, ..city(0) };
    assert_eq!(every.plazas_per_side(), 25);
    // Period 5: crossings 2, 7, 12, 17 and 22.
    let fifth = CityGrid { plaza_every: 5, ..city(0) };
    assert_eq!(fifth.plazas_per_side(), 5);
}

#[test]
fn the_mirror_counts_each_mesh() {
    let meshes = CityMeshes {
        buildings: vec![MeshId::from_index(10), MeshId::from_index(11)],
        rocks: vec![MeshId::from_index(20)],
        lamp: MeshId::from_index(30),
        fountain: MeshId::from_index(31),
        column: MeshId::from_index(32),
    };
    let counts = CategoryCounts {
        buildings: 5,
        lamps: 7,
        plaza_slots: 10,
        rocks: 3,
    };
    let out = mesh_counts(&counts, &meshes, &vec![0, 1, 1, 0, 1], &vec![0, 0, 0]);
    let got: Vec<(u32, u32)> = out.iter().map(|&(m, n)| (m.index(), n)).collect();
    assert_eq!(got, vec![(10, 2), (11, 3), (20, 3), (30, 7), (31, 2), (32, 8)]);
    assert_eq!(tally(&vec![2, 2, 0], 4), vec![1, 0, 2, 0]);
}

#[test]
fn the_checksum_is_fnv1a() {
    assert_eq!(fnv1a64(&[]), 0xcbf2_9ce4_8422_2325);
    assert_eq!(fnv1a64(b"a"), 0xaf63_dc4c_8601_ec8c);
    assert_eq!(fnv1a64(b"foobar"), 0x8594_4171_f739_67e8);
}

#[test]
fn bits_spread_to_the_even_places() {
    assert_eq!(spread_bits(0), 0);
    assert_eq!(spread_bits(0xFFFF), 0x5555_5555);
    assert_eq!(spread_bits(0b1011), 0b100_0101);
    assert_eq!(spread_bits(0x1_0001), 1, "only the low 16 bits");
    assert_eq!(morton_code(1, 0), 1);
    assert_eq!(morton_code(0, 1), 2);
    assert_eq!(morton_code(3, 3), 15);
}

#[test]
fn the_morton_order_sorts_by_code_then_index() {
    let codes = vec![5_u32, 1, 5, 0, 1];
    assert_eq!(morton_order(&codes), vec![3, 1, 4, 0, 2]);
    assert!(morton_order(&vec![]).is_empty());
}

#[test]
fn a_grid_in_morton_order_runs_in_blocks() {
    // A 4 × 4 grid of cells in scrambled order: runs of four consecutive records along
    // the curve are 2 × 2 blocks.
    let cells: Vec<(u32, u32)> = (0..16_u32).map(|k| ((k * 7) % 16 % 4, (k * 7) % 16 / 4)).collect();
    let codes: Vec<u32> = cells.iter().map(|&(x, z)| morton_code(x, z)).collect();
    let order = morton_order(&codes);
    for run in order.chunks(4) {
        let xs: Vec<u32> = run.iter().map(|&i| cells[i as usize].0 / 2).collect();
        let zs: Vec<u32> = run.iter().map(|&i| cells[i as usize].1 / 2).collect();
        assert!(xs.iter().all(|&x| x == xs[0]) && zs.iter().all(|&z| z == zs[0]));
    }
}

/// The records of `table` (`record` bytes each, the centre's x at bytes 64..68 and z at
/// 72..76) along the Morton curve of their centres over the square of half-side `half`.
fn morton_sorted(table: &[u8], record: usize, half: f32) -> Vec<u8> {
    let records: Vec<&[u8]> = table.chunks_exact(record).collect();
    let coordinate = |bytes: &[u8]| f32::from_le_bytes(bytes.try_into().expect("4 bytes"));
    let cell = |v: f32| (((v + half) / (2.0 * half)).clamp(0.0, 1.0) * 65535.0) as u32;
    let codes: Vec<u32> = records
        .iter()
        .map(|r| morton_code(cell(coordinate(&r[64..68])), cell(coordinate(&r[72..76]))))
        .collect();
    morton_order(&codes).iter().flat_map(|&i| records[i as usize].iter().copied()).collect()
}

#[test]
fn the_morton_order_keeps_every_record_and_packs_neighbours_together() {
    // 256 records on a 16 × 16 grid of 10 m, in a scrambled order, their index as the id.
    const RECORD: usize = 96;
    let mut table = Vec::new();
    for k in 0..256_u32 {
        let i = (k * 97) % 256;
        let (x, z) = ((i % 16) as f32 * 10.0 - 75.0, (i / 16) as f32 * 10.0 - 75.0);
        let mut record = [0_u8; RECORD];
        record[64..68].copy_from_slice(&x.to_le_bytes());
        record[72..76].copy_from_slice(&z.to_le_bytes());
        record[84..88].copy_from_slice(&i.to_le_bytes());
        table.extend_from_slice(&record);
    }
    let sorted = morton_sorted(&table, RECORD, 80.0);
    let field = |r: &[u8], at: usize| f32::from_le_bytes(r[at..at + 4].try_into().unwrap());
    let records: Vec<&[u8]> = sorted.chunks_exact(RECORD).collect();
    let mut ids: Vec<u32> = records.iter().map(|r| u32::from_le_bytes(r[84..88].try_into().unwrap())).collect();
    ids.sort_unstable();
    assert_eq!(ids, (0..256).collect::<Vec<_>>());
    // Along the curve, every run of 16 records is a 4 × 4 block of the grid.
    for run in records.chunks(16) {
        for at in [64, 72] {
            let values = run.iter().map(|r| field(r, at));
            let (lo, hi) = values.fold((f32::MAX, f32::MIN), |(l, h), v| (l.min(v), h.max(v)));
            assert_eq!(hi - lo, 30.0);
        }
    }
}

/// A table of 96-byte records whose mesh fields (bytes 80..84, little endian) are `meshes`,
/// with a trailing partial record.
fn table_of(meshes: &[u32]) -> Vec<u8> {
    let mut bytes = Vec::new();
    for (i, mesh) in meshes.iter().enumerate() {
        let mut record = vec![i as u8; 96];
        record[80..84].copy_from_slice(&mesh.to_le_bytes());
        bytes.extend_from_slice(&record);
    }
    bytes.extend_from_slice(&[7u8; 40]);
    bytes
}

#[test]
fn the_read_back_meshes_match_the_mirror_entries_added_up_and_empty_ones_left_out() {
    let bytes = table_of(&[3, 70000, 3, 3]);
    let id = MeshId::from_index;
    assert!(matches_mirror(&bytes, &vec![(id(3), 2), (id(70000), 1), (id(9), 0), (id(3), 1)]));
    assert!(!matches_mirror(&bytes, &vec![(id(3), 3)]));
    assert!(!matches_mirror(&bytes, &vec![(id(3), 3), (id(70000), 1), (id(9), 1)]));
    assert!(!matches_mirror(&bytes, &vec![(id(3), 2), (id(70000), 2)]));
    assert!(matches_mirror(&table_of(&[]), &vec![(id(1), 0)]));
}
