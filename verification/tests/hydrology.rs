use std::cmp::Reverse;
use std::collections::BinaryHeap;

use lib::flow::{cell_coords, cell_index, drainage, on_border};
use lib::hydrology::{trace_rivers, Mouth, Rivers};

/// The eight neighbours, `(dx, dy)`, and their distance in cells.
const NEIGHBOURS: [(i32, i32, f32); 8] = [
    (1, 0, 1.0),
    (-1, 0, 1.0),
    (0, 1, 1.0),
    (0, -1, 1.0),
    (1, 1, std::f32::consts::SQRT_2),
    (-1, 1, std::f32::consts::SQRT_2),
    (1, -1, std::f32::consts::SQRT_2),
    (-1, -1, std::f32::consts::SQRT_2),
];

/// The bits of a float in height order.
fn ordered(h: f32) -> u32 {
    let bits = h.to_bits();
    if bits & 0x8000_0000 != 0 {
        !bits
    } else {
        bits | 0x8000_0000
    }
}

/// A `size`² field of `f(x, y)`, row after row.
fn field(size: u32, f: impl Fn(u32, u32) -> f32) -> Vec<f32> {
    (0..size * size).map(|i| f(i % size, i / size)).collect()
}

/// The flood, the D8 receivers (sea level 0), the stack and the areas of a field.
fn drain(size: u32, height: &[f32]) -> (Vec<u32>, Vec<u32>, Vec<u32>) {
    let mut filled = height.to_vec();
    let mut seen = vec![false; height.len()];
    let mut heap = BinaryHeap::new();
    for (i, &h) in height.iter().enumerate() {
        let (x, y) = cell_coords(size, i);
        if h <= 0.0 || on_border(size, x, y) {
            seen[i] = true;
            heap.push(Reverse((ordered(h), i as u32)));
        }
    }
    while let Some(Reverse((_, i))) = heap.pop() {
        let (x, y) = cell_coords(size, i as usize);
        let h = filled[i as usize];
        for (dx, dy, _) in NEIGHBOURS {
            let (nx, ny) = (x as i32 + dx, y as i32 + dy);
            if nx < 0 || ny < 0 || nx >= size as i32 || ny >= size as i32 {
                continue;
            }
            let j = cell_index(size, nx as u32, ny as u32);
            if seen[j] {
                continue;
            }
            seen[j] = true;
            if filled[j] <= h {
                filled[j] = h.next_up();
            }
            heap.push(Reverse((ordered(filled[j]), j as u32)));
        }
    }
    let mut receiver = vec![0_u32; filled.len()];
    for i in 0..filled.len() {
        let (x, y) = cell_coords(size, i);
        let h = filled[i];
        receiver[i] = i as u32;
        if h <= 0.0 || on_border(size, x, y) {
            continue;
        }
        let mut best_slope = 0.0_f32;
        for (dx, dy, d) in NEIGHBOURS {
            let (nx, ny) = (x as i32 + dx, y as i32 + dy);
            if nx < 0 || ny < 0 || nx >= size as i32 || ny >= size as i32 {
                continue;
            }
            let j = cell_index(size, nx as u32, ny as u32);
            let slope = (h - filled[j]) / d;
            if slope > best_slope || (slope == best_slope && slope > 0.0 && (j as u32) < receiver[i]) {
                best_slope = slope;
                receiver[i] = j as u32;
            }
        }
    }
    let (stack, area) = drainage(&receiver);
    (receiver, stack, area)
}

fn max_order(rivers: &Rivers) -> u8 {
    rivers.max_order()
}

#[test]
fn a_valley_gives_one_river_to_the_border_and_a_fork_gives_orders() {
    // A V-shaped valley along x = 10 falling towards y = 0, the border and the outlet.
    let valley = field(21, |x, y| 2.0 * (x as f32 - 10.0).abs() + y as f32 + 1.0);
    let (receiver, stack, area) = drain(21, &valley);
    let rivers = trace_rivers(&receiver, &stack, &area, 15);
    assert_eq!(rivers.rivers.len(), 1);
    let river = &rivers.rivers[0];
    assert_eq!(river.order, 1);
    assert!(matches!(river.mouth, Mouth::Outlet(_)));
    assert!(river.cells.iter().all(|&c| cell_coords(21, c as usize).0 == 10));
    // Head first: the rows decrease towards the border, the area grows.
    assert!(river.cells.windows(2).all(|w| cell_coords(21, w[1] as usize).1 < cell_coords(21, w[0] as usize).1));
    assert!(river.area.windows(2).all(|w| w[1] > w[0]));
    // Ten metres a cell: more than a hundred metres long.
    assert!((river.cells.len() - 1) * 10 > 100);
    // Two valleys meeting: a Y. The trunk takes the larger branch, the other is a
    // tributary joining it, and the junction of two firsts is a second.
    let fork = field(41, |x, y| {
        let (fx, fy) = (x as f32, y as f32);
        let spread = (fy - 20.0).max(0.0) * 0.5;
        let branch = (fx - (20.0 - spread)).abs().min((fx - (20.0 + spread)).abs());
        2.0 * branch + fy + 1.0
    });
    let (receiver, stack, area) = drain(41, &fork);
    let rivers = trace_rivers(&receiver, &stack, &area, 30);
    assert!(rivers.rivers.len() >= 2, "{} rivers", rivers.rivers.len());
    let trunks = rivers.rivers.iter().filter(|r| matches!(r.mouth, Mouth::Outlet(_))).count();
    assert_eq!(trunks, 1);
    assert!(max_order(&rivers) >= 2);
    for (k, river) in rivers.rivers.iter().enumerate() {
        assert!(river.cells.iter().all(|&c| rivers.river_of[c as usize] == k as u32));
        if let Mouth::Junction { river: into, point } = river.mouth {
            let into = &rivers.rivers[into as usize];
            assert!((into.order >= river.order) && (point as usize) < into.cells.len());
            // The tributary's last cell drains into the junction point.
            let last = *river.cells.last().unwrap() as usize;
            assert_eq!(receiver[last], into.cells[point as usize]);
        }
    }
    // Deterministic.
    let again = trace_rivers(&receiver, &stack, &area, 30);
    assert_eq!(again.river_of, rivers.river_of);
    assert_eq!(again.order, rivers.order);
    assert_eq!(again.rivers.len(), rivers.rivers.len());
    for (a, b) in again.rivers.iter().zip(&rivers.rivers) {
        assert_eq!((&a.cells, &a.area, a.order, a.mouth), (&b.cells, &b.area, b.order, b.mouth));
    }
}
