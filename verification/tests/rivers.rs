use lib::flow::drainage;
use lib::hydrology::{trace_rivers, Mouth, NO_RIVER};
use lib::rivers::{river_donors, strahler_orders};

/// A straight valley: cell 0 is the outlet, every other cell drains into the one before it.
fn valley() -> Vec<u32> {
    vec![0, 0, 1, 2, 3, 4]
}

/// A Y: cell 0 is the outlet, 1 drains into 0 and 2 into 1; at 2 two branches meet, the
/// larger 3 <- 4 <- 5 and the smaller 6 <- 7.
fn fork() -> Vec<u32> {
    vec![0, 0, 1, 2, 3, 4, 2, 6]
}

#[test]
fn a_valley_is_one_river_to_the_outlet_head_first() {
    let receiver = valley();
    let (stack, area) = drainage(&receiver);
    assert_eq!(area, vec![6, 5, 4, 3, 2, 1]);
    let rivers = trace_rivers(&receiver, &stack, &area, 1);
    assert_eq!(rivers.rivers.len(), 1);
    let river = &rivers.rivers[0];
    assert_eq!(river.cells, vec![5, 4, 3, 2, 1]);
    assert_eq!(river.area, vec![1, 2, 3, 4, 5]);
    assert_eq!(river.order, 1);
    assert_eq!(river.mouth, Mouth::Outlet(0));
    assert_eq!(rivers.river_of, vec![NO_RIVER, 0, 0, 0, 0, 0]);
    assert_eq!(rivers.order, vec![0, 1, 1, 1, 1, 1]);
    assert_eq!(rivers.max_order(), 1);
}

#[test]
fn the_river_donors_come_largest_first() {
    let receiver = fork();
    let (_, area) = drainage(&receiver);
    assert_eq!(area, vec![8, 7, 6, 3, 2, 1, 2, 1]);
    let lists = river_donors(&receiver, &area, 1);
    assert_eq!(lists[2], vec![3, 6]);
    assert_eq!(lists[1], vec![2]);
    assert_eq!(lists[5], Vec::<u32>::new());
    // The outlet is no river cell and lists nothing.
    assert_eq!(lists[0], Vec::<u32>::new());
    // Equal catchments: the lower index first.
    let twins = vec![0, 0, 1, 1];
    let (_, area) = drainage(&twins);
    assert_eq!(river_donors(&twins, &area, 1)[1], vec![2, 3]);
}

#[test]
fn two_firsts_make_a_second() {
    let receiver = fork();
    let (stack, area) = drainage(&receiver);
    let lists = river_donors(&receiver, &area, 1);
    let order = strahler_orders(&receiver, &stack, &area, 1, &lists);
    assert_eq!(order, vec![0, 2, 2, 1, 1, 1, 1, 1]);
    // A second and a first make a second: at 1, the branch 2 (two firsts meeting) and the
    // plain chain 5 <- 6 <- 7.
    let receiver = vec![0, 0, 1, 2, 2, 1, 5, 6];
    let (stack, area) = drainage(&receiver);
    let lists = river_donors(&receiver, &area, 1);
    let order = strahler_orders(&receiver, &stack, &area, 1, &lists);
    assert_eq!(order[2], 2);
    assert_eq!(order[5], 1);
    assert_eq!(order[1], 2);
}

#[test]
fn a_fork_gives_a_trunk_and_a_tributary_at_its_junction() {
    let receiver = fork();
    let (stack, area) = drainage(&receiver);
    let rivers = trace_rivers(&receiver, &stack, &area, 1);
    assert_eq!(rivers.rivers.len(), 2);
    let trunk = &rivers.rivers[0];
    assert_eq!(trunk.cells, vec![5, 4, 3, 2, 1]);
    assert_eq!(trunk.area, vec![1, 2, 3, 6, 7]);
    assert_eq!(trunk.order, 2);
    assert_eq!(trunk.mouth, Mouth::Outlet(0));
    let tributary = &rivers.rivers[1];
    assert_eq!(tributary.cells, vec![7, 6]);
    assert_eq!(tributary.order, 1);
    assert_eq!(tributary.mouth, Mouth::Junction { river: 0, point: 3 });
    // The tributary's last cell drains into the junction point, and the river it joins is
    // the larger just above it.
    assert_eq!(receiver[6], trunk.cells[3]);
    assert!(trunk.area[2] >= tributary.area[1]);
    assert_eq!(rivers.river_of, vec![NO_RIVER, 0, 0, 0, 0, 0, 1, 1]);
    for (k, river) in rivers.rivers.iter().enumerate() {
        assert!(river.cells.iter().all(|&c| rivers.river_of[c as usize] == k as u32));
    }
    assert_eq!(rivers.max_order(), 2);
}

#[test]
fn the_threshold_leaves_small_catchments_off_the_network() {
    let receiver = fork();
    let (stack, area) = drainage(&receiver);
    let rivers = trace_rivers(&receiver, &stack, &area, 3);
    assert_eq!(rivers.rivers.len(), 1);
    assert_eq!(rivers.rivers[0].cells, vec![3, 2, 1]);
    assert_eq!(rivers.rivers[0].order, 1);
    assert_eq!(rivers.river_of, vec![NO_RIVER, 0, 0, 0, NO_RIVER, NO_RIVER, NO_RIVER, NO_RIVER]);
    assert_eq!(rivers.order, vec![0, 1, 1, 1, 0, 0, 0, 0]);
    // Above every catchment there is no network at all.
    let none = trace_rivers(&receiver, &stack, &area, 100);
    assert_eq!(none.rivers.len(), 0);
    assert_eq!(none.max_order(), 0);
    assert!(none.river_of.iter().all(|&r| r == NO_RIVER));
}

#[test]
fn two_outlets_give_two_trunks_in_index_order() {
    // Outlets 0 and 3; 1 drains into 0, 2 into 1, 4 into 3.
    let receiver = vec![0, 0, 1, 3, 3];
    let (stack, area) = drainage(&receiver);
    let rivers = trace_rivers(&receiver, &stack, &area, 1);
    assert_eq!(rivers.rivers.len(), 2);
    assert_eq!(rivers.rivers[0].cells, vec![2, 1]);
    assert_eq!(rivers.rivers[0].mouth, Mouth::Outlet(0));
    assert_eq!(rivers.rivers[1].cells, vec![4]);
    assert_eq!(rivers.rivers[1].mouth, Mouth::Outlet(3));
}

#[test]
fn a_cycle_carries_no_river() {
    // Cells 1 and 2 drain into each other and never reach the outlet 0.
    let receiver = vec![0, 2, 1, 0];
    let (stack, area) = drainage(&receiver);
    let rivers = trace_rivers(&receiver, &stack, &area, 1);
    assert_eq!(rivers.river_of[1], NO_RIVER);
    assert_eq!(rivers.river_of[2], NO_RIVER);
    assert_eq!(rivers.river_of[3], 0);
    assert_eq!(rivers.rivers.len(), 1);
}

#[test]
fn two_equal_highest_orders_make_one_more_whatever_the_areas() {
    // At 1: a long plain chain (area 5, order 1) and two small forks (area 3, order 2 each).
    let receiver = vec![0, 0, 1, 2, 3, 4, 5, 1, 7, 7, 1, 10, 10];
    let (stack, area) = drainage(&receiver);
    assert_eq!(area[2], 5);
    assert_eq!((area[7], area[10]), (3, 3));
    let lists = river_donors(&receiver, &area, 1);
    assert_eq!(lists[1], vec![2, 7, 10]);
    let order = strahler_orders(&receiver, &stack, &area, 1, &lists);
    assert_eq!((order[2], order[7], order[10]), (1, 2, 2));
    assert_eq!(order[1], 3);
}

#[test]
fn tributaries_of_one_point_come_the_larger_first() {
    let receiver = vec![0, 1, 2, 4, 1, 4, 3, 4, 5];
    let (stack, area) = drainage(&receiver);
    assert_eq!(stack, vec![0, 1, 4, 3, 6, 5, 8, 7, 2]);
    assert_eq!(area, vec![1, 7, 1, 2, 6, 2, 1, 1, 1]);
    let rivers = trace_rivers(&receiver, &stack, &area, 1);
    let cells: Vec<Vec<u32>> = rivers.rivers.iter().map(|r| r.cells.clone()).collect();
    assert_eq!(cells, vec![vec![6, 3, 4], vec![8, 5], vec![7]]);
    let mouths: Vec<Mouth> = rivers.rivers.iter().map(|r| r.mouth).collect();
    assert_eq!(
        mouths,
        vec![
            Mouth::Outlet(1),
            Mouth::Junction { river: 0, point: 2 },
            Mouth::Junction { river: 0, point: 2 },
        ]
    );
    assert_eq!(rivers.rivers[0].area, vec![1, 2, 6]);
    assert_eq!(rivers.rivers[1].area, vec![1, 2]);
    let orders: Vec<u8> = rivers.rivers.iter().map(|r| r.order).collect();
    assert_eq!(orders, vec![2, 1, 1]);
    assert_eq!(rivers.river_of, vec![NO_RIVER, NO_RIVER, NO_RIVER, 0, 0, 1, 0, 2, 1]);
    assert_eq!(rivers.order, vec![0, 0, 0, 1, 2, 1, 1, 1, 1]);
}

#[test]
fn a_river_is_followed_by_its_tributaries_nearest_the_mouth_first_each_with_its_own() {
    // The trunk 10 <- 9 <- 8 <- 3 <- 2 <- 1 drains into outlet 0; 4 joins it at 1, and the
    // branch 6 <- 5 (with 7 joining at 5) at 2.
    let receiver = vec![0, 0, 1, 2, 1, 2, 5, 5, 3, 8, 9];
    let (stack, area) = drainage(&receiver);
    assert_eq!(area, vec![11, 10, 8, 4, 1, 3, 1, 1, 3, 2, 1]);
    let rivers = trace_rivers(&receiver, &stack, &area, 1);
    let cells: Vec<Vec<u32>> = rivers.rivers.iter().map(|r| r.cells.clone()).collect();
    assert_eq!(cells, vec![vec![10, 9, 8, 3, 2, 1], vec![4], vec![6, 5], vec![7]]);
    let mouths: Vec<Mouth> = rivers.rivers.iter().map(|r| r.mouth).collect();
    assert_eq!(
        mouths,
        vec![
            Mouth::Outlet(0),
            Mouth::Junction { river: 0, point: 5 },
            Mouth::Junction { river: 0, point: 4 },
            Mouth::Junction { river: 2, point: 1 },
        ]
    );
    let orders: Vec<u8> = rivers.rivers.iter().map(|r| r.order).collect();
    assert_eq!(orders, vec![2, 1, 2, 1]);
    assert_eq!(rivers.river_of, vec![NO_RIVER, 0, 0, 0, 1, 2, 2, 3, 0, 0, 0]);
}
