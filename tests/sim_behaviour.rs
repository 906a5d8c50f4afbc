use rand::{SeedableRng, XorShiftRng};
use traffic_sim::network::{pathfind, LaneType, RoadMap};
use traffic_sim::queries::DrawCar;
use traffic_sim::rng::choose_different;
use traffic_sim::sim::{CarState, Sim};

/// Two roads, each with a driving, a parking and a sidewalk lane; turns join the
/// driving lanes both ways, and the sidewalks both ways.
fn two_roads(with_sidewalk_turns: bool) -> RoadMap {
    let mut map = RoadMap::new();
    for _ in 0..2 {
        let r = map.add_road();
        map.add_lane(r, LaneType::Driving);
        map.add_lane(r, LaneType::Parking);
        map.add_lane(r, LaneType::Sidewalk);
    }
    map.add_turn(0, 3);
    map.add_turn(3, 0);
    if with_sidewalk_turns {
        map.add_turn(2, 5);
        map.add_turn(5, 2);
    }
    map
}

fn sorted(v: &[usize]) -> Vec<usize> {
    let mut v = v.to_vec();
    v.sort();
    v
}

#[test]
fn pathfind_finds_connected_lanes() {
    let map = two_roads(true);
    assert_eq!(pathfind(&map, 0, 3), Some(vec![0, 3]));
    assert_eq!(pathfind(&map, 2, 2), Some(vec![2]));
    assert_eq!(pathfind(&map, 0, 5), None);
    assert_eq!(pathfind(&map, 0, 99), None);
}

#[test]
fn new_sim_is_empty() {
    let map = two_roads(true);
    let sim = Sim::new(&map, Some(42));
    assert_eq!(sim.summary(), "Time: 0, 0 / 0 active cars waiting, 0 cars parked, 0 pedestrians");
    assert_eq!(sorted(&sim.driving_state.lanes), vec![0, 3]);
    assert_eq!(sorted(&sim.parking_state.lanes), vec![1, 4]);
}

#[test]
fn seeding_full_parking_fills_every_spot() {
    let map = two_roads(true);
    let mut sim = Sim::new(&map, Some(42));
    sim.seed_parked_cars(100);
    assert_eq!(sim.car_id_counter, 8);
    assert_eq!(sim.parking_state.total_count(), 8);
    assert_eq!(sim.get_car_state(0), CarState::Parked);
    assert_eq!(sim.get_draw_car(3, &map), Some(DrawCar { id: 3, lane: 1, parked: true }));
    assert_eq!(sim.get_draw_car(8, &map), None);
}

#[test]
fn seeding_zero_percent_parks_nothing() {
    let map = two_roads(true);
    let mut sim = Sim::new(&map, Some(42));
    sim.seed_parked_cars(0);
    assert_eq!(sim.car_id_counter, 0);
    assert_eq!(sim.parking_state.total_count(), 0);
}

#[test]
fn zero_count_spawn_is_a_no_op() {
    let map = two_roads(true);
    let mut sim = Sim::new(&map, Some(3));
    sim.seed_parked_cars(100);
    let before = sim.summary();
    let spots = sim.parking_state.spots.clone();
    assert_eq!(sim.start_many_parked_cars(&map, 0), (0, 0));
    assert_eq!(sim.summary(), before);
    assert_eq!(sim.parking_state.spots, spots);
    assert_eq!(sim.driving_state.cars.len(), 0);
}

#[test]
fn many_parked_cars_start_from_their_road() {
    let map = two_roads(true);
    let mut sim = Sim::new(&map, Some(42));
    sim.seed_parked_cars(100);
    assert_eq!(sim.start_many_parked_cars(&map, 5), (2, 2));
    assert_eq!(sim.summary(), "Time: 0, 0 / 2 active cars waiting, 6 cars parked, 0 pedestrians");
    assert_eq!(sim.get_car_state(3), CarState::Moving);
    assert_eq!(sim.get_car_state(7), CarState::Moving);
    assert_eq!(sim.get_draw_car(3, &map), Some(DrawCar { id: 3, lane: 0, parked: false }));
    assert_eq!(sim.get_draw_car(7, &map), Some(DrawCar { id: 7, lane: 3, parked: false }));
    sim.step(&map);
    assert_eq!(sim.time, 1);
    assert_eq!(sim.intersection_state.last_served, 2);
    // Both cars reached their goal in one tick and parked on the goal's road.
    assert_eq!(sim.summary(), "Time: 1, 0 / 0 active cars waiting, 8 cars parked, 0 pedestrians");
    assert_eq!(sim.get_car_state(3), CarState::Parked);
    assert_eq!(sim.get_draw_car(3, &map), Some(DrawCar { id: 3, lane: 4, parked: true }));
    assert_eq!(sim.get_draw_car(7, &map), Some(DrawCar { id: 7, lane: 1, parked: true }));
    assert!(sim.get_draw_cars_on_lane(0, &map).is_empty());
    assert_eq!(sim.get_draw_cars_on_lane(1, &map).last(), Some(&DrawCar { id: 7, lane: 1, parked: true }));
}

#[test]
fn car_is_stuck_when_its_next_lane_is_gone() {
    let mut map = two_roads(true);
    let mut sim = Sim::new(&map, Some(42));
    sim.seed_parked_cars(100);
    assert!(sim.start_agent(&map, 0));
    map.set_lane_type(3, LaneType::Biking);
    sim.edit_lane_type(3, LaneType::Driving, &map);
    sim.step(&map);
    assert_eq!(sim.get_car_state(3), CarState::Stuck);
    assert_eq!(sim.get_draw_cars_on_turn(0, &map), vec![DrawCar { id: 3, lane: 0, parked: false }]);
    assert_eq!(sim.summary(), "Time: 1, 1 / 1 active cars waiting, 7 cars parked, 0 pedestrians");
}

#[test]
fn goal_selection_avoids_the_excluded_lane() {
    let mut rng = XorShiftRng::from_seed([9; 16]);
    let pool = vec![10, 20];
    for _ in 0..200 {
        assert_eq!(choose_different(&mut rng, &pool, 10), 20);
        assert_eq!(choose_different(&mut rng, &pool, 20), 10);
    }
}

#[test]
fn pedestrians_spawn_when_paths_exist() {
    let map = two_roads(true);
    let mut sim = Sim::new(&map, Some(5));
    assert_eq!(sim.seed_pedestrians(&map, 3), (3, 3));
    assert_eq!(sim.walking_state.total_count(), 3);
    assert_eq!(sim.get_draw_peds_on_lane(2, &map).len() + sim.get_draw_peds_on_lane(5, &map).len(), 3);
}

#[test]
fn pedestrians_without_paths_are_counted_as_failures() {
    let map = two_roads(false);
    let mut sim = Sim::new(&map, Some(5));
    assert_eq!(sim.seed_pedestrians(&map, 4), (4, 0));
    assert_eq!(sim.walking_state.total_count(), 0);
    assert_eq!(sim.summary(), "Time: 0, 0 / 0 active cars waiting, 0 cars parked, 0 pedestrians");
}

#[test]
fn start_agent_by_lane_type() {
    let mut map = two_roads(true);
    let r = map.add_road();
    let bike = map.add_lane(r, LaneType::Biking);
    let lonely_parking = map.add_lane(r, LaneType::Parking);
    let mut sim = Sim::new(&map, Some(11));
    assert!(!sim.start_agent(&map, bike));
    assert!(!sim.start_agent(&map, lonely_parking));
    // No parked car yet: a driving lane cannot start one.
    assert!(!sim.start_agent(&map, 0));
    assert!(sim.start_agent(&map, 2));
    assert_eq!(sim.debug_ped(0), Some(vec![2, 5]));
    sim.seed_parked_cars(100);
    assert!(sim.start_agent(&map, 4));
    assert_eq!(sim.get_draw_car(7, &map), Some(DrawCar { id: 7, lane: 3, parked: false }));
    assert_eq!(sim.get_draw_peds_on_turn(2, &map).len(), 1);
}

#[test]
fn edit_round_trip_restores_the_lane() {
    let mut map = two_roads(true);
    let mut sim = Sim::new(&map, Some(1));
    sim.seed_parked_cars(50);
    let spots = sim.parking_state.spots.clone();
    map.set_lane_type(0, LaneType::Parking);
    sim.edit_lane_type(0, LaneType::Driving, &map);
    assert_eq!(sorted(&sim.driving_state.lanes), vec![3]);
    assert_eq!(sorted(&sim.parking_state.lanes), vec![0, 1, 4]);
    map.set_lane_type(0, LaneType::Driving);
    sim.edit_lane_type(0, LaneType::Parking, &map);
    assert_eq!(sorted(&sim.driving_state.lanes), vec![0, 3]);
    assert_eq!(sorted(&sim.parking_state.lanes), vec![1, 4]);
    assert_eq!(sim.parking_state.spots, spots);
}

#[test]
fn sidewalk_edits_close_and_reopen() {
    let mut map = two_roads(true);
    let mut sim = Sim::new(&map, Some(1));
    map.set_lane_type(5, LaneType::Biking);
    sim.edit_lane_type(5, LaneType::Sidewalk, &map);
    assert_eq!(sim.walking_state.closed_lanes, vec![5]);
    map.set_lane_type(5, LaneType::Sidewalk);
    sim.edit_lane_type(5, LaneType::Biking, &map);
    assert!(sim.walking_state.closed_lanes.is_empty());
}

#[test]
fn turn_edits_go_to_the_right_sub_simulator() {
    let map = two_roads(true);
    let mut sim = Sim::new(&map, Some(1));
    let walk_turn = *map.get_t(2);
    let drive_turn = *map.get_t(0);
    sim.edit_remove_turn(&walk_turn);
    assert_eq!(sim.walking_state.closed_turns, vec![2]);
    sim.edit_remove_turn(&drive_turn);
    assert_eq!(sorted(&sim.driving_state.turns), vec![1]);
    sim.edit_add_turn(&walk_turn, &map);
    sim.edit_add_turn(&drive_turn, &map);
    assert!(sim.walking_state.closed_turns.is_empty());
    assert_eq!(sorted(&sim.driving_state.turns), vec![0, 1]);
}

fn run_scenario(seed: u8) -> Vec<String> {
    let map = two_roads(true);
    let mut sim = Sim::new(&map, Some(seed));
    sim.seed_parked_cars(60);
    sim.start_many_parked_cars(&map, 2);
    sim.seed_pedestrians(&map, 5);
    let mut trace = Vec::new();
    for _ in 0..4 {
        sim.step(&map);
        trace.push(sim.summary());
        for id in 0..sim.car_id_counter {
            trace.push(format!("{:?} {:?}", sim.get_car_state(id), sim.get_draw_car(id, &map)));
        }
        for id in 0..sim.walking_state.total_count() {
            trace.push(format!("{:?}", sim.get_draw_ped(id, &map)));
        }
    }
    trace
}

#[test]
fn same_seed_gives_the_same_run() {
    assert_eq!(run_scenario(7), run_scenario(7));
    assert_eq!(run_scenario(200), run_scenario(200));
}

#[test]
fn every_car_is_either_moving_or_parked() {
    let map = two_roads(true);
    let mut sim = Sim::new(&map, Some(13));
    sim.seed_parked_cars(100);
    sim.start_many_parked_cars(&map, 2);
    for _ in 0..3 {
        sim.step(&map);
        for id in 0..sim.car_id_counter {
            let moving = sim.driving_state.cars.iter().any(|c| c.id == id);
            let parked = sim.parking_state.spots.iter().any(|s| s.1 == id);
            assert!(moving != parked);
            assert_eq!(sim.get_car_state(id) == CarState::Parked, parked);
        }
    }
}

#[test]
fn tooltips_and_debugging() {
    let map = two_roads(true);
    let mut sim = Sim::new(&map, Some(42));
    sim.seed_parked_cars(100);
    assert_eq!(sim.ped_tooltip(4), vec!["Hello to 4".to_string()]);
    assert_eq!(sim.car_tooltip(3), vec!["Car 3 is parked".to_string()]);
    assert!(!sim.toggle_debug(3));
    assert!(sim.start_agent(&map, 0));
    assert_eq!(sim.car_tooltip(3), vec!["Car 3 on lane 0, waiting for None".to_string()]);
    assert!(sim.toggle_debug(3));
    assert_eq!(sim.debug, Some(3));
    assert!(sim.driving_state.cars[0].debug);
    assert!(sim.toggle_debug(3));
    assert!(!sim.driving_state.cars[0].debug);
    assert_eq!(sim.ticks_since(0), 0);
}

/// One road per driving lane, each with a parking lane, all driving lanes joined in a ring.
fn ring(n: usize) -> RoadMap {
    let mut map = RoadMap::new();
    for _ in 0..n {
        let r = map.add_road();
        map.add_lane(r, LaneType::Driving);
        map.add_lane(r, LaneType::Parking);
    }
    for i in 0..n {
        map.add_turn(2 * i, 2 * ((i + 1) % n));
    }
    map
}

#[test]
fn planned_starts_are_shuffled_empty_lanes() {
    let map = ring(6);
    let mut orders = Vec::new();
    for seed in 1..=5u8 {
        let mut sim = Sim::new(&map, Some(seed));
        let plan = sim.plan_parked_cars(6);
        assert_eq!(plan.len(), 6);
        let starts: Vec<usize> = plan.iter().map(|p| p.0).collect();
        assert_eq!(sorted(&starts), vec![0, 2, 4, 6, 8, 10]);
        for (s, g) in &plan {
            assert_ne!(s, g);
            assert_eq!(g % 2, 0);
        }
        orders.push(starts);
    }
    assert!(orders.iter().any(|o| *o != vec![0, 2, 4, 6, 8, 10]));
}

#[test]
fn planned_count_is_capped_by_empty_lanes() {
    let map = ring(3);
    let mut sim = Sim::new(&map, Some(9));
    assert_eq!(sim.plan_parked_cars(10).len(), 3);
    assert_eq!(sim.plan_parked_cars(2).len(), 2);
}

#[test]
fn planned_pedestrians_walk_between_distinct_sidewalks() {
    let map = two_roads(true);
    let mut sim = Sim::new(&map, Some(21));
    let plan = sim.plan_pedestrians(&map, 10);
    assert_eq!(plan.len(), 10);
    for (s, g) in plan {
        assert!((s, g) == (2, 5) || (s, g) == (5, 2));
    }
}

#[test]
fn ring_cars_travel_one_lane_per_tick() {
    let map = ring(4);
    let mut sim = Sim::new(&map, Some(2));
    sim.seed_parked_cars(100);
    let (requested, started) = sim.start_many_parked_cars(&map, 4);
    assert_eq!(requested, 4);
    assert_eq!(started, 4);
    assert_eq!(sim.parking_state.total_count(), 12);
    let before: Vec<(usize, usize)> = sim.driving_state.cars.iter().map(|c| (c.id, c.path.len())).collect();
    sim.step(&map);
    for (id, len) in &before {
        let now = sim.driving_state.cars.iter().find(|c| c.id == *id).map(|c| c.path.len());
        if *len == 2 {
            assert_eq!(now, None);
            assert_eq!(sim.get_car_state(*id), CarState::Parked);
        } else {
            assert_eq!(now, Some(len - 1));
        }
    }
    assert_eq!(sim.intersection_state.last_served, 4);
    assert_eq!(sim.parking_state.total_count() + sim.driving_state.cars.len(), 16);
}

#[test]
fn seeding_stops_when_ids_run_out() {
    let map = two_roads(true);
    let mut sim = Sim::new(&map, Some(4));
    sim.car_id_counter = usize::MAX - 2;
    sim.seed_parked_cars(100);
    assert_eq!(sim.car_id_counter, usize::MAX);
    assert_eq!(sim.parking_state.total_count(), 2);
}

#[test]
fn clock_counts_ticks() {
    let map = two_roads(true);
    let mut sim = Sim::new(&map, None);
    for _ in 0..5 {
        sim.step(&map);
    }
    assert_eq!(sim.time, 5);
    assert_eq!(sim.ticks_since(2), 3);
    assert_eq!(sim.summary(), "Time: 5, 0 / 0 active cars waiting, 0 cars parked, 0 pedestrians");
}

#[test]
fn one_seed_gives_one_starting_state() {
    let map = ring(5);
    let mut a = Sim::new(&map, Some(17));
    let mut b = Sim::new(&map, Some(17));
    assert_eq!(a.driving_state.lanes, vec![0, 2, 4, 6, 8]);
    assert_eq!(a.driving_state.lanes, b.driving_state.lanes);
    assert_eq!(a.driving_state.turns, b.driving_state.turns);
    assert_eq!(a.parking_state.lanes, vec![1, 3, 5, 7, 9]);
    assert_eq!(a.plan_parked_cars(5), b.plan_parked_cars(5));
}

#[test]
fn edit_round_trip_restores_lane_order() {
    let mut map = ring(4);
    let mut sim = Sim::new(&map, Some(8));
    let lanes = sim.driving_state.lanes.clone();
    map.set_lane_type(2, LaneType::Parking);
    sim.edit_lane_type(2, LaneType::Driving, &map);
    map.set_lane_type(2, LaneType::Driving);
    sim.edit_lane_type(2, LaneType::Parking, &map);
    assert_eq!(sim.driving_state.lanes, lanes);
    assert_eq!(sim.parking_state.lanes, vec![1, 3, 5, 7]);
}

#[test]
fn agents_start_when_every_goal_is_reachable() {
    let map = ring(3);
    for seed in 1..=6u8 {
        let mut sim = Sim::new(&map, Some(seed));
        sim.seed_parked_cars(100);
        assert!(sim.start_agent(&map, 0));
        assert!(sim.start_agent(&map, 3));
    }
    let walk = two_roads(true);
    let mut sim = Sim::new(&walk, Some(3));
    assert_eq!(sim.seed_pedestrians(&walk, 6), (6, 6));
    for id in 0..6 {
        let path = sim.debug_ped(id).unwrap();
        assert!(path == vec![2, 5] || path == vec![5, 2]);
    }
}
