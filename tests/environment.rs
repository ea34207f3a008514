use particules::environment::Cell;
use particules::environment::Environment;
use particules::environment::wrap;
use particules::environment::GridError;
use particules::fish::Fish;
use particules::AgentRef;
use particules::Point;

#[test]
fn should_get_index() {
    let env = Environment::new(5, 5, false);

    assert_eq!(env.get_index(Point::new(0, 0)), 0);
    assert_eq!(env.get_index(Point::new(1, 0)), 1);
    assert_eq!(env.get_index(Point::new(2, 0)), 2);
    assert_eq!(env.get_index(Point::new(3, 0)), 3);
    assert_eq!(env.get_index(Point::new(4, 0)), 4);
    assert_eq!(env.get_index(Point::new(0, 1)), 5);
    assert_eq!(env.get_index(Point::new(1, 1)), 6);
    assert_eq!(env.get_index(Point::new(1, 2)), 11);
}

#[test]
fn should_set_cell() {
    let mut env = Environment::new(5, 5, false);

    let agent = Fish { breed_count_down: 0 };
    env.arena.push(AgentRef::from_fish(agent, Point::new(0, 0)));

    env.set_cell(Point::new(0, 0), Cell::Filled(0)).unwrap();

    let res = env.get_cell(Point::new(0, 0)).unwrap();
    match res {
        Cell::Filled(a) => {
            assert_eq!(0, env.arena[a].coordinate().x);
            assert_eq!(0, env.arena[a].coordinate().y);
        }
        _ => panic!("expected an agent"),
    }
}

#[test]
fn should_swap_cells() {
    let mut env = Environment::new(5, 5, false);

    let agent = Fish { breed_count_down: 0 };
    env.arena.push(AgentRef::from_fish(agent, Point::new(0, 0)));
    env.set_cell(Point::new(0, 0), Cell::Filled(0)).unwrap();
    env.set_agent_cell(Point::new(0, 0), Point::new(1, 0));

    let expected_filled = env.get_cell(Point::new(1, 0)).unwrap();
    let expected_empty = env.get_cell(Point::new(0, 0)).unwrap();

    match expected_filled {
        Cell::Filled(a) => {
            assert_eq!(1, env.arena[a].coordinate().x);
            assert_eq!(0, env.arena[a].coordinate().y);
        }
        _ => panic!("expected an agent"),
    };

    match expected_empty {
        Cell::Empty => (),
        _ => panic!("expected empty"),
    };
}

#[test]
fn out_of_bounds_is_reported_not_panicked() {
    let mut env = Environment::new(3, 2, false);
    assert!(env.get_cell(Point::new(3, 0)).is_none());
    assert!(env.get_cell(Point::new(0, -1)).is_none());
    assert_eq!(env.set_cell(Point::new(-1, 0), Cell::Filled(0)), Err(GridError::OutOfBounds));
    assert_eq!(env.get_cell(Point::new(2, 1)), Some(Cell::Empty));
    assert!(env.is_out_of_bound_x(3));
    assert!(env.is_out_of_bound_x(-1));
    assert!(!env.is_out_of_bound_x(2));
    assert!(env.is_out_of_bound_y(2));
    assert!(!env.is_out_of_bound_y(1));
}

#[test]
fn borderless_lookups_wrap() {
    let env = Environment::new(4, 3, true);
    assert!(!env.is_out_of_bound_x(-7));
    assert!(!env.is_out_of_bound_y(100));
    assert_eq!(env.get_index(Point::new(4, 0)), 0);
    assert_eq!(env.get_index(Point::new(-1, 0)), 3);
    assert_eq!(env.get_index(Point::new(0, -1)), 8);
    assert_eq!(env.get_index(Point::new(5, 4)), 5);
    assert_eq!(env.normalize(Point::new(-5, -4)), Point::new(3, 2));
}

#[test]
fn wrap_is_euclidean() {
    assert_eq!(wrap(7, 5), 2);
    assert_eq!(wrap(-1, 5), 4);
    assert_eq!(wrap(-5, 5), 0);
    assert_eq!(wrap(-6, 5), 4);
    assert_eq!(wrap(i32::MIN, 7), 5);
}

#[test]
fn swap_exchanges_cells() {
    let mut env = Environment::new(3, 3, false);
    env.set_cell(Point::new(0, 0), Cell::Filled(4)).unwrap();
    env.swap(Point::new(0, 0), Point::new(2, 2));
    assert_eq!(env.get_cell(Point::new(0, 0)), Some(Cell::Empty));
    assert_eq!(env.get_cell(Point::new(2, 2)), Some(Cell::Filled(4)));
}

#[test]
fn empty_grid_has_no_cell() {
    let env = Environment::new(0, 0, true);
    assert!(env.cells.is_empty());
    assert!(env.get_cell(Point::new(0, 0)).is_none());
}
