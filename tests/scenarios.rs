use rust_solver::{solve, solve_brute_force, AlgorithmSolution, Order, Problem, ProblemSolution, Vehicle};

/// Great-circle distance in metres, rounded, between two (lat, lon) points.
fn metres(a: (f64, f64), b: (f64, f64)) -> u32 {
    let (la1, lo1) = (a.0.to_radians(), a.1.to_radians());
    let (la2, lo2) = (b.0.to_radians(), b.1.to_radians());
    let c = la1.sin() * la2.sin() + la1.cos() * la2.cos() * (lo1 - lo2).cos();
    let c = c.clamp(-1.0, 1.0);
    (c.acos() * 6371.0 * 1000.0).round() as u32
}

/// Vehicles as (id, start, price in thousandths per km); orders as
/// (id, pickup, delivery); every order fills the vehicle.
fn problem(vehicles: &[(u32, (f64, f64), u32)], orders: &[(u32, (f64, f64), (f64, f64))]) -> Problem {
    let mut points: Vec<(f64, f64)> = Vec::new();
    let mut vs = Vec::new();
    for &(id, start, price) in vehicles {
        points.push(start);
        vs.push(Vehicle { id, start_location: points.len() - 1, price_km: price });
    }
    let mut os = Vec::new();
    for &(id, p, d) in orders {
        points.push(p);
        points.push(d);
        os.push(Order { id, pickup_location: points.len() - 2, delivery_location: points.len() - 1, load: 1_000_000 });
    }
    let mut distances = Vec::new();
    for &a in &points {
        for &b in &points {
            distances.push(metres(a, b));
        }
    }
    Problem { vehicles: vs, orders: os, num_points: points.len(), distances, capacity: 1_000_001 }
}

fn is_empty(s: &ProblemSolution) -> bool {
    s.routes.is_empty() && s.total_distance == 0 && s.empty_distance == 0 && s.total_price == 0
}

fn stops(s: &ProblemSolution, i: usize) -> Vec<(u32, String)> {
    s.routes[i].1.stops.iter().map(|x| (x.order_id, x.type_.clone())).collect()
}

fn all(r: &AlgorithmSolution) -> [&ProblemSolution; 3] {
    [&r.best_distance_solution, &r.best_price_solution, &r.best_empty_solution]
}

#[test]
fn no_orders_gives_empty_solutions() {
    let r = solve(problem(&[(1, (0.0, 0.0), 1000)], &[]));
    for s in all(&r) {
        assert!(is_empty(s));
    }
}

#[test]
fn one_order_one_vehicle() {
    let r = solve(problem(&[(7, (0.0, 0.0), 2000)], &[(3, (0.0, 0.0), (0.0, 1.0))]));
    for s in all(&r) {
        assert_eq!(s.routes.len(), 1);
        assert_eq!(s.routes[0].0, 7);
        assert_eq!(stops(s, 0), vec![(3, "pickup".to_string()), (3, "delivery".to_string())]);
        assert_eq!(s.total_distance, 111195);
        assert_eq!(s.empty_distance, 0);
        assert_eq!(s.total_price, 111195 * 2000);
    }
    assert_eq!(r.best_distance_solution, r.best_price_solution);
    assert_eq!(r.best_distance_solution, r.best_empty_solution);
}

#[test]
fn twin_orders_split_over_twin_vehicles() {
    let r = solve(problem(
        &[(1, (0.0, 0.0), 1000), (2, (0.0, 0.0), 1000)],
        &[(10, (0.0, 1.0), (0.0, 2.0)), (11, (0.0, 1.0), (0.0, 2.0))],
    ));
    let single = solve(problem(&[(1, (0.0, 0.0), 1000)], &[(10, (0.0, 1.0), (0.0, 2.0))]));
    let s = &r.best_distance_solution;
    // driving back to the shared pickup costs what the second vehicle's
    // approach costs, so all splits tie and the first one visited stays:
    // the first vehicle with both orders
    assert_eq!(s.routes.len(), 1);
    assert_eq!(s.routes[0].0, 1);
    assert_eq!(
        stops(s, 0),
        vec![
            (10, "pickup".to_string()),
            (10, "delivery".to_string()),
            (11, "pickup".to_string()),
            (11, "delivery".to_string()),
        ]
    );
    assert_eq!(s.total_distance, 2 * single.best_distance_solution.total_distance);
    assert_eq!(s.total_price, 2 * single.best_distance_solution.total_price);
}

#[test]
fn full_loads_are_carried_one_at_a_time() {
    let orders = [(1, (0.0, 1.0), (0.0, 2.0)), (2, (0.0, 3.0), (0.0, 4.0))];
    let one = solve(problem(&[(5, (0.0, 0.0), 1000)], &orders));
    let s = &one.best_distance_solution;
    assert_eq!(s.routes.len(), 1);
    assert_eq!(
        stops(s, 0),
        vec![
            (1, "pickup".to_string()),
            (1, "delivery".to_string()),
            (2, "pickup".to_string()),
            (2, "delivery".to_string()),
        ]
    );
    let two = solve(problem(&[(5, (0.0, 0.0), 1000), (6, (0.0, 3.0), 1000)], &orders));
    let s = &two.best_distance_solution;
    assert_eq!(s.routes.len(), 2);
    assert_eq!(s.routes[0].1.stops[0].order_id, 1);
    assert_eq!(s.routes[1].1.stops[0].order_id, 2);
}

#[test]
fn meridian_orders_in_sequence() {
    let start = (0.0, 0.0);
    let orders = [(1, (1.0, 0.0), (2.0, 0.0)), (2, (3.0, 0.0), (4.0, 0.0)), (3, (5.0, 0.0), (6.0, 0.0))];
    let r = solve(problem(&[(9, start, 1000)], &orders));
    let s = &r.best_distance_solution;
    let ids: Vec<(u32, String)> = stops(s, 0);
    assert_eq!(
        ids,
        vec![
            (1, "pickup".to_string()),
            (1, "delivery".to_string()),
            (2, "pickup".to_string()),
            (2, "delivery".to_string()),
            (3, "pickup".to_string()),
            (3, "delivery".to_string()),
        ]
    );
    assert_eq!(s.total_distance, metres(start, (6.0, 0.0)) as u64);
    // each leg to a pickup starts with nothing on board
    let empty = metres(start, (1.0, 0.0)) + metres((2.0, 0.0), (3.0, 0.0)) + metres((4.0, 0.0), (5.0, 0.0));
    assert_eq!(s.empty_distance, empty as u64);
    assert_eq!(r.best_empty_solution.empty_distance, empty as u64);
}

#[test]
fn price_and_distance_choose_different_vehicles() {
    let r = solve(problem(
        &[(1, (0.0, 0.9), 5000), (2, (0.0, -1.0), 1000)],
        &[(4, (0.0, 1.0), (0.0, 2.0))],
    ));
    assert_eq!(r.best_distance_solution.routes.len(), 1);
    assert_eq!(r.best_distance_solution.routes[0].0, 1);
    assert_eq!(r.best_price_solution.routes.len(), 1);
    assert_eq!(r.best_price_solution.routes[0].0, 2);
    assert!(r.best_price_solution.total_distance > r.best_distance_solution.total_distance);
    assert!(r.best_price_solution.total_price < r.best_distance_solution.total_price);
}

#[test]
fn brute_force_entry_matches_solve() {
    let p = problem(
        &[(1, (0.0, 0.0), 1500), (2, (1.0, 1.0), 900)],
        &[(1, (0.0, 1.0), (1.0, 2.0)), (2, (2.0, 0.0), (0.5, 0.5))],
    );
    assert_eq!(solve(p.clone()), solve_brute_force(p));
}

#[test]
fn overweight_order_leaves_all_solutions_empty() {
    let mut p = problem(&[(1, (0.0, 0.0), 1000)], &[(1, (0.0, 1.0), (0.0, 2.0))]);
    p.orders[0].load = 2_000_000;
    let r = solve(p);
    for s in all(&r) {
        assert!(is_empty(s));
    }
}

#[test]
fn twin_orders_at_the_shared_start() {
    let r = solve(problem(
        &[(1, (0.0, 0.0), 1000), (2, (0.0, 0.0), 1000)],
        &[(10, (0.0, 0.0), (0.0, 1.0)), (11, (0.0, 0.0), (0.0, 1.0))],
    ));
    for s in all(&r) {
        // the first vehicle tries the higher-numbered order alone first; the
        // other split ties and does not replace it
        assert_eq!(s.routes.len(), 2);
        assert_eq!(s.routes[0].0, 1);
        assert_eq!(stops(s, 0), vec![(11, "pickup".to_string()), (11, "delivery".to_string())]);
        assert_eq!(s.routes[1].0, 2);
        assert_eq!(stops(s, 1), vec![(10, "pickup".to_string()), (10, "delivery".to_string())]);
        assert_eq!(s.total_distance, 2 * 111195);
        assert_eq!(s.empty_distance, 0);
        assert_eq!(s.total_price, 2 * 111195 * 1000);
    }
}
