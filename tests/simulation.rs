use particules::agent::Agent;
use particules::color::Color;
use particules::environment::Cell;
use particules::fish::Fish;
use particules::shark;
use particules::shark::Shark;
use particules::sma::direction_from_index;
use particules::sma::pick_direction;
use particules::sma::PlacementError;
use particules::sma::Sma;
use particules::sma::DRAW_RANGE;
use particules::AgentBody;
use particules::AgentKind;
use particules::AgentRef;
use particules::Direction;
use particules::HDirection;
use particules::Point;
use particules::VDirection;

fn coord(s: &Sma, id: usize) -> (i32, i32) {
    let c = s.env.arena[id].coordinate();
    (c.x, c.y)
}

fn check_grid(s: &Sma) {
    assert!(s.next_generation.is_empty());
    for &id in &s.agents {
        let c = s.env.arena[id].coordinate();
        assert!(!s.env.arena[id].marked_for_removal);
        let i = s.env.get_index(c);
        assert_eq!(s.env.cells[i], Cell::Filled(id));
        let holding = s.env.cells.iter().filter(|c| **c == Cell::Filled(id)).count();
        assert_eq!(holding, 1);
    }
    for (i, cell) in s.env.cells.iter().enumerate() {
        if let Cell::Filled(id) = cell {
            assert!(s.agents.contains(id));
            assert_eq!(s.env.get_index(s.env.arena[*id].coordinate()), i);
        }
    }
}

#[test]
fn bouncer_crosses_row_and_bounces_back() {
    let mut s = Sma::new(5, 5, false);
    s.gen_agent(Point::new(0, 0), Direction::new(HDirection::Right, VDirection::Still)).unwrap();
    let mut seen = vec![];
    for _ in 0..4 {
        s.tick();
        seen.push(coord(&s, 0));
    }
    assert_eq!(seen, vec![(1, 0), (2, 0), (3, 0), (4, 0)]);
    s.tick();
    assert_eq!(coord(&s, 0), (4, 0));
    assert_eq!(s.env.arena[0].direction(), Direction::new(HDirection::Left, VDirection::Still));
    assert!(s.env.arena[0].collision());
    s.tick();
    assert_eq!(coord(&s, 0), (3, 0));
    assert!(!s.env.arena[0].collision());
    s.tick();
    s.tick();
    s.tick();
    assert_eq!(coord(&s, 0), (0, 0));
    assert_eq!(s.turn, 9);
    check_grid(&s);
}

#[test]
fn head_on_bouncers_swap_directions() {
    let mut s = Sma::new(3, 1, false);
    s.gen_agent(Point::new(0, 0), Direction::new(HDirection::Right, VDirection::Still)).unwrap();
    s.gen_agent(Point::new(2, 0), Direction::new(HDirection::Left, VDirection::Still)).unwrap();
    s.tick_with(&vec![]);
    // the first mover steps next to the other, which then finds it ahead
    assert_eq!(coord(&s, 0), (1, 0));
    assert_eq!(coord(&s, 1), (2, 0));
    assert_eq!(s.env.arena[0].direction(), Direction::new(HDirection::Left, VDirection::Still));
    assert_eq!(s.env.arena[1].direction(), Direction::new(HDirection::Right, VDirection::Still));
    assert!(s.env.arena[0].collision());
    assert!(s.env.arena[1].collision());
    check_grid(&s);
}

#[test]
fn corner_bouncer_inverts_both_axes() {
    let mut s = Sma::new(4, 4, false);
    s.gen_agent(Point::new(0, 0), Direction::new(HDirection::Left, VDirection::Up)).unwrap();
    let rec = s.env.arena[0];
    let a = match rec.body {
        AgentBody::Bouncer(a) => a,
        _ => panic!("expected a bouncer"),
    };
    let d = a.decide(rec.coordinate, &s.env);
    assert_eq!(
        d,
        particules::agent::Decision::ChangeCourseOutOfBound(Direction::new(
            HDirection::Right,
            VDirection::Down
        ))
    );
    s.tick();
    assert_eq!(coord(&s, 0), (0, 0));
    assert_eq!(s.env.arena[0].direction(), Direction::new(HDirection::Right, VDirection::Down));
    assert!(s.env.arena[0].collision());
    s.tick();
    assert_eq!(coord(&s, 0), (1, 1));
}

#[test]
fn borderless_bouncer_wraps_around() {
    let mut s = Sma::new(6, 2, true);
    s.gen_agent(Point::new(5, 1), Direction::new(HDirection::Right, VDirection::Still)).unwrap();
    s.tick();
    assert_eq!(coord(&s, 0), (0, 1));
    s.gen_agent(Point::new(-1, -1), Direction::new(HDirection::Left, VDirection::Down)).unwrap();
    assert_eq!(coord(&s, 1), (5, 1));
    s.tick_with(&vec![]);
    assert_eq!(coord(&s, 1), (4, 0));
    check_grid(&s);
}

#[test]
fn placement_conflicts_are_reported() {
    let mut s = Sma::new(3, 3, false);
    let d = Direction::new(HDirection::Right, VDirection::Still);
    assert_eq!(s.gen_agent(Point::new(1, 1), d), Ok(()));
    assert_eq!(s.gen_agent(Point::new(1, 1), d), Err(PlacementError::Occupied));
    assert_eq!(s.gen_agent(Point::new(3, 0), d), Err(PlacementError::OutOfBounds));
    assert_eq!(s.agents.len(), 1);
    let fish = AgentRef::from_fish(Fish { breed_count_down: 2 }, Point::new(0, 0));
    assert_eq!(s.add_agent(fish), Ok(()));
    assert_eq!(s.env.arena[1].kind(), AgentKind::Fish);
    assert_eq!(s.env.arena[0].kind(), AgentKind::Other);
    assert_eq!(s.place_at_slot(9, AgentBody::Fish(Fish { breed_count_down: 0 })), Err(PlacementError::OutOfBounds));
    assert_eq!(s.place_at_slot(4, AgentBody::Fish(Fish { breed_count_down: 0 })), Err(PlacementError::Occupied));
    assert_eq!(s.place_at_slot(5, AgentBody::Fish(Fish { breed_count_down: 0 })), Ok(()));
    assert_eq!(coord(&s, 2), (2, 1));
    check_grid(&s);
}

#[test]
fn fish_breeds_on_the_cell_it_leaves() {
    let mut s = Sma::new_with_fish(3, 3, false, 5, 7, 9);
    s.add_agent(AgentRef::from_fish(Fish { breed_count_down: 0 }, Point::new(1, 1))).unwrap();
    s.tick_with(&vec![0]);
    // the first empty neighbour is the one below
    assert_eq!(coord(&s, 0), (1, 2));
    assert_eq!(s.env.arena.len(), 2);
    assert_eq!(s.env.arena[1].body, AgentBody::Fish(Fish { breed_count_down: 5 }));
    assert_eq!(coord(&s, 1), (1, 1));
    assert_eq!(s.env.arena[0].body, AgentBody::Fish(Fish { breed_count_down: 4 }));
    assert_eq!(s.agents.len(), 2);
    check_grid(&s);
}

#[test]
fn fish_without_breeding_only_moves() {
    let mut s = Sma::new_with_fish(3, 3, false, 5, 7, 9);
    s.add_agent(AgentRef::from_fish(Fish { breed_count_down: 3 }, Point::new(1, 1))).unwrap();
    s.tick_with(&vec![2]);
    // the third candidate is the one to the right
    assert_eq!(coord(&s, 0), (2, 1));
    assert_eq!(s.env.arena.len(), 1);
    assert_eq!(s.env.arena[0].body, AgentBody::Fish(Fish { breed_count_down: 2 }));
    assert_eq!(s.env.get_cell(Point::new(1, 1)), Some(Cell::Empty));
}

#[test]
fn stalled_fish_leaves_the_grid_alone() {
    let mut s = Sma::new_with_fish(1, 1, false, 5, 7, 9);
    s.add_agent(AgentRef::from_fish(Fish { breed_count_down: 0 }, Point::new(0, 0))).unwrap();
    let before = s.env.cells.clone();
    s.tick();
    assert_eq!(s.env.cells, before);
    assert_eq!(s.env.arena.len(), 1);
    assert_eq!(s.env.arena[0].body, AgentBody::Fish(Fish { breed_count_down: 0 }));
}

#[test]
fn boxed_in_shark_stalls() {
    let mut s = Sma::new_with_fish(2, 1, false, 5, 7, 9);
    let sh = Shark { breed_count_down: 3, starve_time: 5 };
    s.add_agent(AgentRef::from_shark(sh, Point::new(0, 0))).unwrap();
    s.add_agent(AgentRef::from_shark(sh, Point::new(1, 0))).unwrap();
    let before = s.env.cells.clone();
    s.tick();
    assert_eq!(s.env.cells, before);
    assert_eq!(s.agents.len(), 2);
}

#[test]
fn shark_eats_fish_and_never_a_shark() {
    let mut s = Sma::new_with_fish(3, 3, false, 5, 7, 9);
    let sh = Shark { breed_count_down: 3, starve_time: 5 };
    s.add_agent(AgentRef::from_shark(sh, Point::new(0, 0))).unwrap();
    s.add_agent(AgentRef::from_shark(sh, Point::new(0, 1))).unwrap();
    s.add_agent(AgentRef::from_fish(Fish { breed_count_down: 3 }, Point::new(1, 0))).unwrap();
    for draw in 0..4 {
        let (next, d) = sh.decide(Point::new(0, 0), &s.env, draw);
        assert_eq!(d, shark::Decision::Eat(Point::new(1, 0), 2));
        assert_eq!(next, Shark { breed_count_down: 2, starve_time: 4 });
    }
    s.tick_with(&vec![0, 0, 0]);
    assert_eq!(coord(&s, 0), (1, 0));
    assert!(!s.agents.contains(&2));
    assert_eq!(s.env.arena[0].body, AgentBody::Shark(Shark { breed_count_down: 2, starve_time: 9 }));
    check_grid(&s);
}

#[test]
fn shark_eats_and_breeds() {
    let mut s = Sma::new_with_fish(3, 1, false, 5, 7, 9);
    s.add_agent(AgentRef::from_shark(Shark { breed_count_down: 0, starve_time: 5 }, Point::new(0, 0)))
        .unwrap();
    s.add_agent(AgentRef::from_fish(Fish { breed_count_down: 3 }, Point::new(1, 0))).unwrap();
    s.tick_with(&vec![0, 0]);
    assert_eq!(coord(&s, 0), (1, 0));
    assert_eq!(s.agents.len(), 2);
    assert!(s.agents.contains(&2));
    assert_eq!(coord(&s, 2), (0, 0));
    assert_eq!(s.env.arena[2].body, AgentBody::Shark(Shark { breed_count_down: 7, starve_time: 9 }));
    assert_eq!(s.env.arena[0].body, AgentBody::Shark(Shark { breed_count_down: 6, starve_time: 9 }));
    check_grid(&s);
}

#[test]
fn starving_shark_is_swept() {
    let mut s = Sma::new_with_fish(3, 3, false, 5, 7, 9);
    s.add_agent(AgentRef::from_shark(Shark { breed_count_down: 3, starve_time: 1 }, Point::new(1, 1)))
        .unwrap();
    s.add_agent(AgentRef::from_fish(Fish { breed_count_down: 3 }, Point::new(0, 0))).unwrap();
    s.tick_with(&vec![0, 0]);
    assert!(!s.agents.contains(&0));
    assert_eq!(s.env.get_cell(Point::new(1, 1)), Some(Cell::Empty));
    assert_eq!(s.agents.len(), 1);
    check_grid(&s);
}

#[test]
fn random_worlds_keep_the_grid_consistent() {
    let mut s = Sma::new_with_fish(10, 10, false, 3, 5, 4);
    s.gen_fish_agents(30, 10);
    assert_eq!(s.agents.len(), 40);
    check_grid(&s);
    for _ in 0..30 {
        s.tick();
        check_grid(&s);
    }
    let mut b = Sma::new(8, 8, true);
    b.gen_agents(50);
    assert_eq!(b.agents.len(), 32);
    for _ in 0..30 {
        b.tick();
        check_grid(&b);
    }
}

#[test]
fn densities_fill_distinct_cells() {
    let mut s = Sma::new(10, 10, false);
    s.gen_agents(37);
    assert_eq!(s.agents.len(), 37);
    let filled = s.env.cells.iter().filter(|c| **c != Cell::Empty).count();
    assert_eq!(filled, 37);
    let mut full = Sma::new(4, 5, false);
    full.gen_agents(100);
    assert_eq!(full.agents.len(), 20);
    let mut none = Sma::new(4, 5, false);
    none.gen_agents(0);
    assert_eq!(none.agents.len(), 0);
    let mut over = Sma::new_with_fish(4, 5, false, 1, 1, 1);
    over.gen_fish_agents(80, 80);
    assert_eq!(over.agents.len(), 20);
    check_grid(&over);
}

#[test]
fn shuffle_reorders_but_keeps_agents() {
    let mut s = Sma::new(10, 10, false);
    s.gen_agents(100);
    let before = s.agents.clone();
    s.shuffle_agents();
    assert_ne!(s.agents, before);
    let mut a = s.agents.clone();
    a.sort();
    let mut b = before.clone();
    b.sort();
    assert_eq!(a, b);
}

#[test]
fn directions_and_colors() {
    assert_eq!(HDirection::Right.invert(), HDirection::Left);
    assert_eq!(HDirection::Left.invert(), HDirection::Right);
    assert_eq!(HDirection::Still.invert(), HDirection::Still);
    assert_eq!(VDirection::Up.invert(), VDirection::Down);
    assert_eq!(VDirection::Down.invert(), VDirection::Up);
    assert_eq!(VDirection::Still.invert(), VDirection::Still);
    assert_eq!(direction_from_index(0), Direction::new(HDirection::Right, VDirection::Still));
    assert_eq!(direction_from_index(7), Direction::new(HDirection::Left, VDirection::Down));
    for _ in 0..50 {
        let d = pick_direction();
        assert!(!(d.x == HDirection::Still && d.y == VDirection::Still));
    }
    assert_eq!(DRAW_RANGE % 8, 0);
    assert_eq!(DRAW_RANGE % 7, 0);
    assert_eq!(Color::from(true), Color::Red);
    assert_eq!(Color::from(false), Color::Black);
    assert_eq!(Color::Red.as_str(), "cell-red");
    assert_eq!(Color::Black.as_str(), "cell-black");
    assert_eq!(Color::Empty.as_str(), "cell-empty");
    let a = Agent::new(Direction::new(HDirection::Left, VDirection::Up));
    assert!(!a.collision);
}

#[test]
fn generators_use_the_empty_cells_only() {
    let mut s = Sma::new(5, 2, false);
    for x in 0..5 {
        s.gen_agent(Point::new(x, 0), Direction::new(HDirection::Right, VDirection::Still)).unwrap();
    }
    // 80% of 10 cells is 8, but only 5 are empty: all of them are taken
    s.gen_agents(80);
    assert_eq!(s.agents.len(), 10);
    for id in 5..10 {
        let c = s.env.arena[id].coordinate();
        assert_eq!(c.y, 1);
        assert!(!s.env.arena[id].collision());
        let d = s.env.arena[id].direction();
        assert!(!(d.x == HDirection::Still && d.y == VDirection::Still));
    }
    check_grid(&s);
    let mut t = Sma::new(10, 10, false);
    for x in 0..10 {
        t.gen_agent(Point::new(x, 3), Direction::new(HDirection::Left, VDirection::Still)).unwrap();
    }
    t.gen_agents(50);
    assert_eq!(t.agents.len(), 60);
    check_grid(&t);
}

#[test]
fn generated_fish_and_sharks_start_from_the_configured_times() {
    let mut s = Sma::new_with_fish(4, 5, false, 3, 6, 8);
    s.add_agent(AgentRef::from_fish(Fish { breed_count_down: 0 }, Point::new(0, 0))).unwrap();
    s.gen_fish_agents(25, 50);
    // 5 fish and 10 sharks on the 19 empty cells
    assert_eq!(s.agents.len(), 16);
    for id in 1..6 {
        assert_eq!(s.env.arena[id].body, AgentBody::Fish(Fish { breed_count_down: 3 }));
    }
    for id in 6..16 {
        assert_eq!(
            s.env.arena[id].body,
            AgentBody::Shark(Shark { breed_count_down: 6, starve_time: 8 })
        );
    }
    check_grid(&s);
    let mut full = Sma::new_with_fish(2, 2, false, 1, 1, 1);
    full.gen_fish_agents(75, 75);
    // 3 fish, then the one cell left for sharks
    assert_eq!(full.agents.len(), 4);
    assert_eq!(full.env.arena[3].kind(), AgentKind::Other);
    assert_eq!(full.env.arena[2].kind(), AgentKind::Fish);
}
