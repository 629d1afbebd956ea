use tsp_bb::DistanceMatrix;
use tsp_bb::{parallel_tsp_bb, serial_tsp_bb};

fn matrix(rows: Vec<Vec<u64>>) -> DistanceMatrix {
    DistanceMatrix::new(rows).expect("valid matrix")
}

fn four_cities() -> DistanceMatrix {
    matrix(vec![
        vec![0, 10, 15, 20],
        vec![10, 0, 35, 25],
        vec![15, 35, 0, 30],
        vec![20, 25, 30, 0],
    ])
}

fn check_valid(cities: &Vec<usize>, n: usize) {
    assert_eq!(cities.len(), n);
    assert_eq!(cities[0], 0);
    for i in 0..n {
        assert!(cities.contains(&i), "city {} missing", i);
    }
}

fn recompute(d: &DistanceMatrix, cities: &Vec<usize>) -> u64 {
    let mut total = 0u64;
    for w in cities.windows(2) {
        total += d.dist(w[0], w[1]);
    }
    total + d.dist(cities[cities.len() - 1], cities[0])
}

#[test]
fn serial_four_cities_optimum() {
    let d = four_cities();
    let best = serial_tsp_bb(&d);
    assert_eq!(best.cost, 80);
    check_valid(&best.cities, 4);
    assert_eq!(recompute(&d, &best.cities), best.cost);
}

#[test]
fn parallel_four_cities_optimum() {
    let d = four_cities();
    for w in [1, 2, 4] {
        let best = parallel_tsp_bb(&d, w);
        assert_eq!(best.cost, 80, "workers = {}", w);
        check_valid(&best.cities, 4);
        assert_eq!(recompute(&d, &best.cities), best.cost);
    }
}

#[test]
fn asymmetric_matrix_rejected() {
    let rows = vec![
        vec![0, 2, 9, 10],
        vec![1, 0, 6, 4],
        vec![15, 7, 0, 8],
        vec![6, 3, 12, 0],
    ];
    assert!(DistanceMatrix::new(rows).is_none());
}

#[test]
fn unit_triangle_cost() {
    let d = matrix(vec![vec![0, 1, 1], vec![1, 0, 1], vec![1, 1, 0]]);
    let best = serial_tsp_bb(&d);
    assert_eq!(best.cost, 3);
    check_valid(&best.cities, 3);
    let par = parallel_tsp_bb(&d, 2);
    assert_eq!(par.cost, 3);
}

#[test]
fn single_city() {
    let d = matrix(vec![vec![0]]);
    let best = serial_tsp_bb(&d);
    assert_eq!(best.cities, vec![0]);
    assert_eq!(best.cost, 0);
    let par = parallel_tsp_bb(&d, 3);
    assert_eq!(par.cities, vec![0]);
    assert_eq!(par.cost, 0);
}

fn line_metric(n: usize) -> DistanceMatrix {
    let mut rows = Vec::new();
    for i in 0..n {
        let mut row = Vec::new();
        for j in 0..n {
            if i == j {
                row.push(0);
            } else {
                let gap = if i > j { i - j } else { j - i };
                row.push(gap as u64 + 2);
            }
        }
        rows.push(row);
    }
    matrix(rows)
}

#[test]
fn benchmark_serial_parallel_agree() {
    let n = 13;
    let d = line_metric(n);
    let serial = serial_tsp_bb(&d);
    let par = parallel_tsp_bb(&d, 2);
    assert_eq!(serial.cost, par.cost);
    // The line metric's optimum walks the cities in order: the gaps sum to
    // twice the span, plus the constant offset on each of the n edges.
    assert_eq!(serial.cost, 2 * (n as u64 - 1) + 2 * n as u64);
    check_valid(&par.cities, n);
    assert_eq!(recompute(&d, &par.cities), par.cost);
}

fn scrambled_metric(n: usize) -> DistanceMatrix {
    // Pseudo-random symmetric weights in [8, 15]; any such range satisfies
    // the triangle inequality, so all engines must agree on the optimum.
    let mut rows = Vec::new();
    for i in 0..n {
        let mut row = Vec::new();
        for j in 0..n {
            if i == j {
                row.push(0);
            } else {
                row.push(8 + ((i * j + i + j) % 8) as u64);
            }
        }
        rows.push(row);
    }
    matrix(rows)
}

#[test]
fn worker_counts_agree() {
    let d = scrambled_metric(7);
    let serial = serial_tsp_bb(&d);
    for w in [1, 2, 4] {
        let par = parallel_tsp_bb(&d, w);
        assert_eq!(par.cost, serial.cost, "workers = {}", w);
        check_valid(&par.cities, 7);
        assert_eq!(recompute(&d, &par.cities), par.cost);
    }
}

#[test]
fn pruning_is_heuristic_without_triangle_inequality() {
    // One long edge breaks the triangle inequality, so the closed-cycle
    // bound over-prunes: the returned tour is valid but not minimal
    // (the cycle visiting 1, 3, 2 in between costs 4).
    let d = matrix(vec![
        vec![0, 1, 1, 10],
        vec![1, 0, 0, 1],
        vec![1, 0, 0, 1],
        vec![10, 1, 1, 0],
    ]);
    let best = serial_tsp_bb(&d);
    check_valid(&best.cities, 4);
    assert_eq!(recompute(&d, &best.cities), best.cost);
    assert_eq!(best.cost, 12);
}
