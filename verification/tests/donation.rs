use tsp_bb::{is_terminated, split_stack, DistanceMatrix, NewStack, Tour};

fn four_cities() -> DistanceMatrix {
    DistanceMatrix::new(vec![
        vec![0, 10, 15, 20],
        vec![10, 0, 35, 25],
        vec![15, 35, 0, 30],
        vec![20, 25, 30, 0],
    ])
    .expect("valid matrix")
}

/// Distinct tours [0], [0,1], [0,2], [0,3], ... to tell the halves apart.
fn sample_tours(count: usize) -> Vec<Tour> {
    let d = four_cities();
    let mut out = Vec::new();
    out.push(Tour::start());
    for c in 1..count {
        let mut t = Tour::start();
        t.add_city(&c, &d);
        out.push(t);
    }
    out
}

#[test]
fn split_keeps_even_donates_odd() {
    let mut stack = sample_tours(4);
    let expected: Vec<Vec<usize>> = stack.iter().map(|t| t.cities.clone()).collect();
    let donated = split_stack(&mut stack);
    assert_eq!(stack.len(), 2);
    assert_eq!(donated.len(), 2);
    assert_eq!(stack[0].cities, expected[0]);
    assert_eq!(stack[1].cities, expected[2]);
    assert_eq!(donated[0].cities, expected[1]);
    assert_eq!(donated[1].cities, expected[3]);
}

#[test]
fn split_of_odd_length_stack() {
    let mut stack = sample_tours(3);
    let expected: Vec<Vec<usize>> = stack.iter().map(|t| t.cities.clone()).collect();
    let donated = split_stack(&mut stack);
    assert_eq!(stack.len(), 2);
    assert_eq!(donated.len(), 1);
    assert_eq!(stack[0].cities, expected[0]);
    assert_eq!(stack[1].cities, expected[2]);
    assert_eq!(donated[0].cities, expected[1]);
}

#[test]
fn donor_fills_free_slot_for_a_waiter() {
    let mut stack = sample_tours(4);
    let mut shared = NewStack::new();
    shared.threads_waiting = 1;
    let done = is_terminated(&mut stack, &mut shared, 2);
    assert!(!done);
    assert_eq!(stack.len(), 2);
    let donated = shared.stack.expect("donation parked in the slot");
    assert_eq!(donated.len(), 2);
    assert_eq!(shared.threads_waiting, 1);
}

#[test]
fn small_stack_does_not_donate() {
    let mut stack = sample_tours(2);
    let mut shared = NewStack::new();
    shared.threads_waiting = 1;
    let done = is_terminated(&mut stack, &mut shared, 2);
    assert!(!done);
    assert_eq!(stack.len(), 2);
    assert!(shared.stack.is_none());
}

#[test]
fn idle_worker_takes_pending_donation() {
    let mut stack: Vec<Tour> = Vec::new();
    let mut shared = NewStack::new();
    shared.stack = Some(sample_tours(2));
    shared.threads_waiting = 1;
    let done = is_terminated(&mut stack, &mut shared, 2);
    assert!(!done);
    assert_eq!(stack.len(), 2);
    assert!(shared.stack.is_none());
    assert_eq!(shared.threads_waiting, 1);
}

#[test]
fn last_idle_worker_detects_termination() {
    let mut stack: Vec<Tour> = Vec::new();
    let mut shared = NewStack::new();
    shared.threads_waiting = 1;
    let done = is_terminated(&mut stack, &mut shared, 2);
    assert!(done);
    assert_eq!(shared.threads_waiting, 2);
}

#[test]
fn early_idle_worker_registers_as_waiting() {
    let mut stack: Vec<Tour> = Vec::new();
    let mut shared = NewStack::new();
    let done = is_terminated(&mut stack, &mut shared, 3);
    assert!(!done);
    assert!(stack.is_empty());
    assert_eq!(shared.threads_waiting, 1);
}

#[test]
fn can_be_updated_needs_waiter_and_free_slot() {
    let mut shared = NewStack::new();
    assert!(!shared.can_be_updated());
    shared.threads_waiting = 1;
    assert!(shared.can_be_updated());
    shared.stack = Some(Vec::new());
    assert!(!shared.can_be_updated());
}
