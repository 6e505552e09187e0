use flowfield::{CostField, Direction, FlowField, IntegrationField, TodoItem};

const SENTINEL: u16 = 0xffff;

fn uniform_field(width: usize, height: usize) -> (CostField, IntegrationField) {
    (CostField::new(width, height), IntegrationField::new(width, height))
}

#[test]
fn cost_field_defaults_to_one() {
    let costs = CostField::new(4, 3);
    for y in 0..3 {
        for x in 0..4 {
            assert_eq!(costs.get(x, y), 1);
        }
    }
}

#[test]
fn cost_field_set_get_roundtrip() {
    let mut costs = CostField::new(5, 5);
    costs.set(2, 3, 99);
    costs.set(0, 0, 0);
    costs.set(4, 4, 255);
    assert_eq!(costs.get(2, 3), 99);
    assert_eq!(costs.get(0, 0), 0);
    assert_eq!(costs.get(4, 4), 255);
    assert_eq!(costs.get(1, 1), 1);
}

#[test]
fn todo_item_accessors() {
    let item = TodoItem::new(7, 11, 42);
    assert_eq!(item.x(), 7);
    assert_eq!(item.y(), 11);
    assert_eq!(item.cost, 42);
}

#[test]
fn reset_fills_every_cell_with_sentinel() {
    for (w, h) in [(1, 1), (3, 1), (4, 7), (16, 16)] {
        let mut field = IntegrationField::new(w, h);
        for y in 0..h {
            for x in 0..w {
                field.set(x, y, 17);
            }
        }
        field.reset();
        for y in 0..h {
            for x in 0..w {
                assert_eq!(field.get(x, y), SENTINEL);
            }
        }
    }
}

#[test]
fn reset_and_reset_safe_are_identical() {
    let mut a = IntegrationField::new(9, 6);
    let mut b = IntegrationField::new(9, 6);
    for y in 0..6 {
        for x in 0..9 {
            a.set(x, y, (x * 10 + y) as u16);
            b.set(x, y, (x * 31 + y) as u16);
        }
    }
    a.reset();
    b.reset_safe();
    for y in 0..6 {
        for x in 0..9 {
            assert_eq!(a.get(x, y), b.get(x, y));
            assert_eq!(a.get(x, y), SENTINEL);
        }
    }
}

#[test]
fn relax_only_stores_strict_improvements() {
    let mut field = IntegrationField::new(3, 3);
    assert!(field.relax(1, 1, 100));
    assert_eq!(field.get(1, 1), 100);
    assert!(!field.relax(1, 1, 100));
    assert!(!field.relax(1, 1, 200));
    assert_eq!(field.get(1, 1), 100);
    assert!(field.relax(1, 1, 99));
    assert_eq!(field.get(1, 1), 99);
}

#[test]
fn goal_cell_keeps_its_own_entry_cost() {
    let mut costs = CostField::new(3, 3);
    costs.set(1, 1, 5);
    let mut field = IntegrationField::new(3, 3);
    field.calculate(1, 1, &costs);
    assert_eq!(field.get(1, 1), 5);

    let (costs2, mut field2) = uniform_field(4, 4);
    field2.calculate(2, 3, &costs2);
    assert_eq!(field2.get(2, 3), costs2.get(2, 3));
}

#[test]
fn calculate_reports_work_items() {
    let (costs, mut field) = uniform_field(5, 5);
    let processed = field.calculate(2, 2, &costs);
    assert!(processed >= 1);
}

#[test]
fn linear_strip_values_and_directions() {
    let (costs, mut field) = uniform_field(3, 1);
    field.calculate(1, 0, &costs);
    assert_eq!(field.get(0, 0), 2);
    assert_eq!(field.get(1, 0), 1);
    assert_eq!(field.get(2, 0), 2);

    let flow = FlowField::from_integration_field(&field);
    assert!(flow.get(0, 0) == Direction::east());
    assert!(flow.get(1, 0) == Direction::none());
    assert!(flow.get(2, 0) == Direction::west());
}

#[test]
fn uniform_three_by_three_wavefront() {
    let (costs, mut field) = uniform_field(3, 3);
    field.calculate(1, 1, &costs);
    // center, edge midpoints, corners
    assert_eq!(field.get(1, 1), 1);
    assert_eq!(field.get(1, 0), 2);
    assert_eq!(field.get(0, 1), 2);
    assert_eq!(field.get(2, 1), 2);
    assert_eq!(field.get(1, 2), 2);
    assert_eq!(field.get(0, 0), 3);
    assert_eq!(field.get(2, 0), 3);
    assert_eq!(field.get(0, 2), 3);
    assert_eq!(field.get(2, 2), 3);

    let flow = FlowField::from_integration_field(&field);
    // the goal is a local minimum and gets no direction
    assert!(flow.get(1, 1) == Direction::none());
    // each edge midpoint points straight at the center
    assert!(flow.get(1, 0) == Direction::south());
    assert!(flow.get(0, 1) == Direction::east());
    assert!(flow.get(2, 1) == Direction::west());
    assert!(flow.get(1, 2) == Direction::north());
    // each corner sees the center diagonally at value 1, cheaper than both
    // adjacent edge midpoints at 2, so it points diagonally at the center
    assert!(flow.get(0, 0) == Direction::southeast());
    assert!(flow.get(2, 0) == Direction::southwest());
    assert!(flow.get(0, 2) == Direction::northeast());
    assert!(flow.get(2, 2) == Direction::northwest());
}

#[test]
fn cost_not_distance_drives_ordering() {
    let mut costs = CostField::new(3, 1);
    costs.set(0, 0, 1);
    costs.set(1, 0, 10);
    costs.set(2, 0, 1);
    let mut field = IntegrationField::new(3, 1);
    field.calculate(0, 0, &costs);
    // the only route runs through the expensive middle cell
    assert_eq!(field.get(0, 0), 1);
    assert_eq!(field.get(1, 0), 11);
    assert_eq!(field.get(2, 0), 12);
}

#[test]
fn cheaper_detour_beats_direct_route() {
    // a wall of cost 50 splits the grid; the wavefront goes around it
    let mut costs = CostField::new(4, 3);
    costs.set(1, 0, 50);
    costs.set(1, 1, 50);
    let mut field = IntegrationField::new(4, 3);
    field.calculate(0, 0, &costs);
    assert_eq!(field.get(0, 0), 1);
    // straight east would cost 1 + 50; around the wall costs 1 + 4 steps of 1
    assert_eq!(field.get(2, 0), 7);
    assert_eq!(field.get(1, 2), 4);
}

#[test]
fn all_cells_reached_on_connected_grid() {
    let (costs, mut field) = uniform_field(8, 5);
    field.calculate(3, 2, &costs);
    for y in 0..5 {
        for x in 0..8 {
            assert!(field.get(x, y) != SENTINEL);
        }
    }
}

#[test]
fn cells_beyond_sentinel_cost_stay_unreached() {
    // along a strip of maximal cost, cell i costs 255 * (i + 1) in total;
    // from index 256 on that reaches the sentinel and the cell stays unreached
    let mut costs = CostField::new(300, 1);
    for x in 0..300 {
        costs.set(x, 0, 255);
    }
    let mut field = IntegrationField::new(300, 1);
    field.calculate(0, 0, &costs);
    assert_eq!(field.get(0, 0), 255);
    assert_eq!(field.get(255, 0), 65280);
    assert_eq!(field.get(256, 0), SENTINEL);
    assert_eq!(field.get(299, 0), SENTINEL);
}

#[test]
fn zero_cost_cells_terminate_and_propagate() {
    let mut costs = CostField::new(4, 1);
    for x in 0..4 {
        costs.set(x, 0, 0);
    }
    let mut field = IntegrationField::new(4, 1);
    field.calculate(1, 0, &costs);
    for x in 0..4 {
        assert_eq!(field.get(x, 0), 0);
    }
}

#[test]
fn direction_prefers_earliest_of_equal_minima() {
    // two equal minima: the first in N, NE, E, SE, S, SW, W, NW order wins
    assert!(flowfield::direction::direction(5, &[3, 4, 3, 4, 4, 4, 4, 4]) == Direction::north());
    assert!(flowfield::direction::direction(5, &[9, 3, 4, 3, 9, 9, 9, 9]) == Direction::northeast());
    assert!(flowfield::direction::direction(5, &[9, 9, 9, 9, 9, 2, 9, 2]) == Direction::southwest());
    // all eight equal and smaller: north wins
    assert!(flowfield::direction::direction(5, &[4, 4, 4, 4, 4, 4, 4, 4]) == Direction::north());
}

#[test]
fn direction_none_when_no_neighbour_is_smaller() {
    assert!(flowfield::direction::direction(3, &[3, 3, 3, 3, 3, 3, 3, 3]) == Direction::none());
    assert!(flowfield::direction::direction(0, &[1, 2, 3, 4, 5, 6, 7, 8]) == Direction::none());
    // unreached neighbours never attract, even from an unreached cell
    assert!(
        flowfield::direction::direction(
            SENTINEL,
            &[SENTINEL, SENTINEL, SENTINEL, SENTINEL, SENTINEL, SENTINEL, SENTINEL, SENTINEL],
        ) == Direction::none()
    );
}

#[test]
fn direction_picks_unique_minimum() {
    assert!(flowfield::direction::direction(9, &[8, 7, 6, 5, 4, 3, 2, 1]) == Direction::northwest());
    assert!(flowfield::direction::direction(9, &[8, 7, 0, 5, 4, 3, 2, 1]) == Direction::east());
}

#[test]
fn bounded_accessor_returns_sentinel_off_grid() {
    let (costs, mut field) = uniform_field(2, 2);
    field.calculate(0, 0, &costs);
    assert_eq!(field.get_bounding(-1, 0), SENTINEL);
    assert_eq!(field.get_bounding(0, -1), SENTINEL);
    assert_eq!(field.get_bounding(2, 0), SENTINEL);
    assert_eq!(field.get_bounding(0, 2), SENTINEL);
    assert_eq!(field.get_bounding(0, 0), field.get(0, 0));
    assert_eq!(field.get_bounding(1, 1), field.get(1, 1));
}

#[test]
fn repeated_calculate_is_idempotent() {
    let mut costs = CostField::new(10, 10);
    costs.set(1, 2, 5);
    costs.set(2, 2, 5);
    costs.set(7, 7, 5);
    costs.set(7, 8, 5);
    costs.set(8, 7, 5);
    costs.set(8, 8, 5);
    let mut first = IntegrationField::new(10, 10);
    first.calculate(0, 0, &costs);
    let flow_first = FlowField::from_integration_field(&first);
    let mut second = IntegrationField::new(10, 10);
    second.calculate(0, 0, &costs);
    second.calculate(0, 0, &costs);
    let flow_second = FlowField::from_integration_field(&second);
    for y in 0..10 {
        for x in 0..10 {
            assert_eq!(first.get(x, y), second.get(x, y));
            assert!(flow_first.get(x, y) == flow_second.get(x, y));
        }
    }
}

#[test]
fn values_are_stable_under_recalculation_with_new_goal_and_back() {
    let (costs, mut field) = uniform_field(6, 4);
    field.calculate(5, 3, &costs);
    let snapshot: Vec<u16> = (0..4).flat_map(|y| (0..6).map(move |x| (x, y))).map(|(x, y)| field.get(x, y)).collect();
    field.calculate(0, 0, &costs);
    field.calculate(5, 3, &costs);
    let again: Vec<u16> = (0..4).flat_map(|y| (0..6).map(move |x| (x, y))).map(|(x, y)| field.get(x, y)).collect();
    assert_eq!(snapshot, again);
}

#[test]
fn field_dimension_accessors() {
    let field = IntegrationField::new(7, 9);
    assert_eq!(field.width(), 7);
    assert_eq!(field.height(), 9);
    let (costs, mut f2) = uniform_field(3, 2);
    f2.calculate(0, 0, &costs);
    let flow = FlowField::from_integration_field(&f2);
    assert_eq!(flow.width(), 3);
    assert_eq!(flow.height(), 2);
}

#[test]
fn add_two_adds_two() {
    assert_eq!(flowfield::add_two(2), 4);
    assert_eq!(flowfield::add_two(-7), -5);
}
