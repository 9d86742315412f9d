use lib::flow::{drainage, drainage_area, flow_stack};

/// Cells 0 and 5 are outlets; 1, 2 drain into 0; 3 into 1; 4 into 3; 6 into 5.
fn receivers() -> Vec<u32> {
    vec![0, 0, 0, 1, 3, 5, 5]
}

#[test]
fn the_stack_visits_a_receiver_before_its_donors() {
    let receiver = receivers();
    let stack = flow_stack(&receiver);
    // The outlets in index order, each followed depth first by its donors in index order.
    assert_eq!(stack, vec![0, 1, 3, 4, 2, 5, 6]);
    let mut position = vec![usize::MAX; 7];
    for (k, &cell) in stack.iter().enumerate() {
        position[cell as usize] = k;
    }
    for i in 0..7 {
        assert!(position[receiver[i] as usize] <= position[i]);
    }
}

#[test]
fn the_areas_count_the_cells_upstream() {
    let (stack, area) = drainage(&receivers());
    assert_eq!(stack.len(), 7);
    assert_eq!(area, vec![5, 3, 1, 2, 1, 2, 1]);
    // Every cell drains to an outlet: the outlets' areas sum to the cells.
    assert_eq!(area[0] + area[5], 7);
}

#[test]
fn a_cycle_never_reaches_the_stack() {
    // 1 and 2 drain into each other, 3 into 2: none of them reaches the outlet 0.
    let receiver = vec![0, 2, 1, 2];
    let stack = flow_stack(&receiver);
    assert_eq!(stack, vec![0]);
    assert_eq!(drainage_area(&receiver, &stack), vec![1, 1, 1, 1]);
}

#[test]
fn the_stack_goes_depth_first_through_the_donors_in_index_order() {
    // Two outlets: 0 takes 1 and 2, 1 takes 3 and 4, 2 takes 7; 5 takes 6.
    let receiver = vec![0, 0, 0, 1, 1, 5, 5, 2];
    assert_eq!(flow_stack(&receiver), vec![0, 1, 3, 4, 2, 7, 5, 6]);
}
