use rust_solver::{solve, AlgorithmSolution, Order, Problem, ProblemSolution, Vehicle};

/// Points on a line: the distance between two points is the difference of
/// their positions.
fn on_line(positions: &[u32]) -> Vec<u32> {
    let mut d = Vec::new();
    for &a in positions {
        for &b in positions {
            d.push(if a > b { a - b } else { b - a });
        }
    }
    d
}

/// Vehicles as (id, position, price); orders as (id, pickup, delivery,
/// load), positions on a line; capacity as given.
fn line_problem(vehicles: &[(u32, u32, u32)], orders: &[(u32, u32, u32, u32)], capacity: u32) -> Problem {
    let mut pos = Vec::new();
    let mut vs = Vec::new();
    for &(id, at, price) in vehicles {
        pos.push(at);
        vs.push(Vehicle { id, start_location: pos.len() - 1, price_km: price });
    }
    let mut os = Vec::new();
    for &(id, p, d, load) in orders {
        pos.push(p);
        pos.push(d);
        os.push(Order { id, pickup_location: pos.len() - 2, delivery_location: pos.len() - 1, load });
    }
    Problem { vehicles: vs, orders: os, num_points: pos.len(), distances: on_line(&pos), capacity }
}

fn all(r: &AlgorithmSolution) -> [&ProblemSolution; 3] {
    [&r.best_distance_solution, &r.best_price_solution, &r.best_empty_solution]
}

fn sample() -> Problem {
    line_problem(
        &[(1, 0, 3), (2, 50, 1), (3, 100, 2)],
        &[(10, 5, 20, 1), (11, 60, 40, 1), (12, 90, 95, 2), (13, 10, 70, 1)],
        2,
    )
}

fn point_of(p: &Problem, order_id: u32, pickup: bool) -> usize {
    let o = p.orders.iter().find(|o| o.id == order_id).unwrap();
    if pickup { o.pickup_location } else { o.delivery_location }
}

fn dist(p: &Problem, a: usize, b: usize) -> u64 {
    p.distances[a * p.num_points + b] as u64
}

#[test]
fn each_order_is_picked_up_once_then_delivered_once() {
    let p = sample();
    let r = solve(p.clone());
    for s in all(&r) {
        for (_, route) in &s.routes {
            for o in &p.orders {
                let picks: Vec<usize> = (0..route.stops.len())
                    .filter(|&i| route.stops[i].order_id == o.id && route.stops[i].type_ == "pickup")
                    .collect();
                let drops: Vec<usize> = (0..route.stops.len())
                    .filter(|&i| route.stops[i].order_id == o.id && route.stops[i].type_ == "delivery")
                    .collect();
                assert_eq!(picks.len(), drops.len());
                assert!(picks.len() <= 1);
                if picks.len() == 1 {
                    assert!(picks[0] < drops[0]);
                }
            }
        }
    }
}

#[test]
fn load_on_board_never_exceeds_capacity() {
    let p = sample();
    let r = solve(p.clone());
    let mut carried_two = false;
    for s in all(&r) {
        for (_, route) in &s.routes {
            let mut load: u64 = 0;
            let mut on_board = 0;
            for stop in &route.stops {
                let o = p.orders.iter().find(|o| o.id == stop.order_id).unwrap();
                if stop.type_ == "pickup" {
                    load += o.load as u64;
                    on_board += 1;
                } else {
                    load -= o.load as u64;
                    on_board -= 1;
                }
                assert!(load <= p.capacity as u64);
                carried_two |= on_board == 2;
            }
        }
    }
    // with capacity 2 and unit loads, some route carries two orders at once
    assert!(carried_two);
}

#[test]
fn every_order_goes_to_exactly_one_vehicle() {
    let p = sample();
    let r = solve(p.clone());
    for s in all(&r) {
        let mut seen: Vec<u32> = Vec::new();
        let mut vehicles: Vec<u32> = Vec::new();
        for (v, route) in &s.routes {
            assert!(!vehicles.contains(v));
            vehicles.push(*v);
            for stop in &route.stops {
                if stop.type_ == "pickup" {
                    assert!(!seen.contains(&stop.order_id));
                    seen.push(stop.order_id);
                }
            }
        }
        seen.sort();
        assert_eq!(seen, vec![10, 11, 12, 13]);
    }
}

#[test]
fn route_totals_are_sums_over_legs() {
    let p = sample();
    let r = solve(p.clone());
    for s in all(&r) {
        for (v, route) in &s.routes {
            let vehicle = p.vehicles.iter().find(|x| x.id == *v).unwrap();
            let mut at = vehicle.start_location;
            let (mut total, mut empty, mut price) = (0u64, 0u64, 0u128);
            let mut on_board = 0;
            for stop in &route.stops {
                let pickup = stop.type_ == "pickup";
                let next = point_of(&p, stop.order_id, pickup);
                let leg = dist(&p, at, next);
                total += leg;
                price += leg as u128 * vehicle.price_km as u128;
                if pickup && on_board == 0 {
                    empty += leg;
                }
                on_board += if pickup { 1 } else { -1 };
                at = next;
            }
            assert_eq!(route.total_distance, total);
            assert_eq!(route.empty_distance, empty);
            assert_eq!(route.total_price, price);
        }
    }
}

#[test]
fn solution_totals_are_sums_over_routes() {
    let r = solve(sample());
    for s in all(&r) {
        assert_eq!(s.total_distance, s.routes.iter().map(|x| x.1.total_distance).sum::<u64>());
        assert_eq!(s.empty_distance, s.routes.iter().map(|x| x.1.empty_distance).sum::<u64>());
        assert_eq!(s.total_price, s.routes.iter().map(|x| x.1.total_price).sum::<u128>());
    }
}

#[test]
fn no_assignment_beats_the_reported_ones() {
    // one vehicle at 0, two orders far apart: serving both with the single
    // vehicle is the only assignment, and its best order is known
    let p = line_problem(&[(1, 0, 1)], &[(1, 10, 20, 1), (2, 30, 40, 1)], 1);
    let r = solve(p);
    assert_eq!(r.best_distance_solution.total_distance, 40);
    assert_eq!(r.best_empty_solution.empty_distance, 20);
    assert_eq!(r.best_price_solution.total_price, 40);
    // two vehicles: the second at 30 takes the far order
    let p = line_problem(&[(1, 0, 1), (2, 30, 1)], &[(1, 10, 20, 1), (2, 30, 40, 1)], 1);
    let r = solve(p);
    assert_eq!(r.best_distance_solution.total_distance, 30);
    assert_eq!(r.best_distance_solution.routes.len(), 2);
    assert_eq!(r.best_empty_solution.empty_distance, 10);
}

#[test]
fn solving_twice_gives_the_same_solutions() {
    assert_eq!(solve(sample()), solve(sample()));
}

fn totals(r: &AlgorithmSolution) -> [(u64, u64, u128); 3] {
    let f = |s: &ProblemSolution| (s.total_distance, s.empty_distance, s.total_price);
    [f(&r.best_distance_solution), f(&r.best_price_solution), f(&r.best_empty_solution)]
}

#[test]
fn reordering_vehicles_keeps_the_totals() {
    let a = line_problem(&[(1, 0, 3), (2, 50, 1), (3, 100, 2)], &[(10, 5, 20, 1), (11, 60, 40, 1), (12, 90, 95, 2)], 2);
    let b = line_problem(&[(3, 100, 2), (1, 0, 3), (2, 50, 1)], &[(10, 5, 20, 1), (11, 60, 40, 1), (12, 90, 95, 2)], 2);
    assert_eq!(totals(&solve(a)), totals(&solve(b)));
}

#[test]
fn reordering_orders_keeps_the_totals() {
    let a = line_problem(&[(1, 0, 3), (2, 50, 1)], &[(10, 5, 20, 1), (11, 60, 40, 1), (12, 90, 95, 2)], 2);
    let b = line_problem(&[(1, 0, 3), (2, 50, 1)], &[(12, 90, 95, 2), (10, 5, 20, 1), (11, 60, 40, 1)], 2);
    assert_eq!(totals(&solve(a)), totals(&solve(b)));
}

#[test]
fn no_orders_and_many_vehicles() {
    let r = solve(line_problem(&[(1, 0, 1), (2, 5, 2), (3, 9, 3)], &[], 1));
    for s in all(&r) {
        assert!(s.routes.is_empty());
        assert_eq!((s.total_distance, s.empty_distance, s.total_price), (0, 0, 0));
    }
}

#[test]
fn one_vehicle_serves_every_order() {
    let r = solve(line_problem(&[(4, 0, 1)], &[(1, 10, 5, 1), (2, 3, 30, 1), (3, 25, 2, 1)], 1));
    for s in all(&r) {
        assert_eq!(s.routes.len(), 1);
        assert_eq!(s.routes[0].0, 4);
        assert_eq!(s.routes[0].1.stops.len(), 6);
    }
}

#[test]
fn eight_orders_on_one_vehicle() {
    let orders: Vec<(u32, u32, u32, u32)> = (0..8).map(|k| (k, 10 * k + 1, 10 * k + 6, 1)).collect();
    let r = solve(line_problem(&[(1, 0, 1)], &orders, 1));
    let s = &r.best_distance_solution;
    assert_eq!(s.routes[0].1.stops.len(), 16);
    assert_eq!(s.total_distance, 76);
    assert_eq!(s.empty_distance, 1 + 7 * 5);
}

#[test]
fn zero_price_vehicles_cost_nothing() {
    let r = solve(line_problem(&[(1, 0, 0)], &[(1, 10, 20, 1)], 1));
    assert_eq!(r.best_price_solution.total_price, 0);
    assert_eq!(r.best_price_solution.total_distance, 20);
}
