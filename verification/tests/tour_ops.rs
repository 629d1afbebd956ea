use tsp_bb::{get_initial_stack, DistanceMatrix, Tour};

fn four_cities() -> DistanceMatrix {
    DistanceMatrix::new(vec![
        vec![0, 10, 15, 20],
        vec![10, 0, 35, 25],
        vec![15, 35, 0, 30],
        vec![20, 25, 30, 0],
    ])
    .expect("valid matrix")
}

fn recompute(d: &DistanceMatrix, cities: &Vec<usize>) -> u64 {
    let mut total = 0u64;
    for w in cities.windows(2) {
        total += d.dist(w[0], w[1]);
    }
    total + d.dist(cities[cities.len() - 1], cities[0])
}

#[test]
fn extend_updates_closed_cycle_cost() {
    let d = four_cities();
    let mut t = Tour::start();
    assert_eq!(t.cities, vec![0]);
    assert_eq!(t.cost, 0);
    t.add_city(&1, &d);
    assert_eq!(t.cities, vec![0, 1]);
    assert_eq!(t.cost, 20);
    t.add_city(&3, &d);
    assert_eq!(t.cities, vec![0, 1, 3]);
    assert_eq!(t.cost, 55);
    t.add_city(&2, &d);
    assert_eq!(t.cities, vec![0, 1, 3, 2]);
    assert_eq!(t.cost, 80);
    assert_eq!(recompute(&d, &t.cities), t.cost);
}

#[test]
fn retract_restores_exactly() {
    let d = four_cities();
    let mut t = Tour::start();
    t.add_city(&2, &d);
    let saved_cities = t.cities.clone();
    let saved_cost = t.cost;
    t.add_city(&3, &d);
    t.remove_last_city(&d);
    assert_eq!(t.cities, saved_cities);
    assert_eq!(t.cost, saved_cost);
    assert_eq!(recompute(&d, &t.cities), t.cost);
}

#[test]
fn cost_cache_matches_recomputation_along_a_walk() {
    let d = four_cities();
    let mut t = Tour::start();
    t.add_city(&1, &d);
    t.add_city(&2, &d);
    assert_eq!(recompute(&d, &t.cities), t.cost);
    t.remove_last_city(&d);
    assert_eq!(recompute(&d, &t.cities), t.cost);
    t.add_city(&3, &d);
    assert_eq!(recompute(&d, &t.cities), t.cost);
    t.remove_last_city(&d);
    t.remove_last_city(&d);
    assert_eq!(t.cities, vec![0]);
    assert_eq!(t.cost, 0);
}

#[test]
fn retract_at_root_is_noop() {
    let d = four_cities();
    let mut t = Tour::start();
    t.remove_last_city(&d);
    assert_eq!(t.cities, vec![0]);
    assert_eq!(t.cost, 0);
}

#[test]
fn feasibility_tracks_visited_cities() {
    let d = four_cities();
    let mut t = Tour::start();
    assert!(!t.is_feasible(&0));
    assert!(t.is_feasible(&1));
    t.add_city(&1, &d);
    assert!(!t.is_feasible(&1));
    assert!(t.is_feasible(&2));
    assert!(t.is_feasible(&3));
}

#[test]
fn matrix_validation() {
    assert!(DistanceMatrix::new(vec![]).is_none());
    assert!(DistanceMatrix::new(vec![vec![0, 1], vec![1, 0, 2]]).is_none());
    assert!(DistanceMatrix::new(vec![vec![1, 2], vec![2, 0]]).is_none());
    assert!(DistanceMatrix::new(vec![vec![0, u64::MAX], vec![u64::MAX, 0]]).is_none());
    let d = DistanceMatrix::new(vec![vec![0, 7], vec![7, 0]]).expect("valid");
    assert_eq!(d.size(), 2);
    assert_eq!(d.dist(0, 1), 7);
    assert_eq!(d.dist(1, 1), 0);
}

#[test]
fn seed_expansion_reaches_worker_count() {
    let d = four_cities();
    let (queue, best) = get_initial_stack(&d, 3);
    assert!(queue.len() >= 3);
    assert!(best.is_none());
    for t in &queue {
        assert_eq!(t.cities[0], 0);
        assert_eq!(recompute(&d, &t.cities), t.cost);
    }
}

#[test]
fn seed_expansion_exhausts_tiny_instance() {
    let d = DistanceMatrix::new(vec![vec![0]]).expect("valid");
    let (queue, best) = get_initial_stack(&d, 2);
    assert!(queue.is_empty());
    let best = best.expect("search collapsed into the incumbent");
    assert_eq!(best.cities, vec![0]);
    assert_eq!(best.cost, 0);
}
