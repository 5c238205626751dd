use ed2k::{worker_count, Reorder};

/// Feeds the arrivals to a new collector and returns all that it hands on.
fn run(arrivals: &[usize]) -> Vec<String> {
    let mut reorder = Reorder::new();
    let mut out = Vec::new();
    for &index in arrivals {
        out.extend(reorder.accept(index, format!("job {}", index)));
    }
    out
}

fn jobs(count: usize) -> Vec<String> {
    (0..count).map(|index| format!("job {}", index)).collect()
}

/// Every order of the indices below `count`.
fn orders(count: usize) -> Vec<Vec<usize>> {
    if count == 0 {
        return vec![Vec::new()];
    }
    let mut all = Vec::new();
    for shorter in orders(count - 1) {
        for place in 0..=shorter.len() {
            let mut order = shorter.clone();
            order.insert(place, count - 1);
            all.push(order);
        }
    }
    all
}

#[test]
fn results_in_order_pass_straight_through() {
    let mut reorder = Reorder::new();
    assert_eq!(reorder.accept(0, 'a'), vec!['a']);
    assert_eq!(reorder.accept(1, 'b'), vec!['b']);
    assert_eq!(reorder.accept(2, 'c'), vec!['c']);
}

#[test]
fn early_results_wait_for_their_turn() {
    let mut reorder = Reorder::new();
    assert_eq!(reorder.accept(2, 'c'), Vec::<char>::new());
    assert_eq!(reorder.accept(1, 'b'), Vec::<char>::new());
    assert_eq!(reorder.accept(0, 'a'), vec!['a', 'b', 'c']);
    assert_eq!(reorder.accept(3, 'd'), vec!['d']);
}

#[test]
fn a_gap_holds_back_what_comes_after_it() {
    let mut reorder = Reorder::new();
    assert_eq!(reorder.accept(1, 'b'), Vec::<char>::new());
    assert_eq!(reorder.accept(3, 'd'), Vec::<char>::new());
    assert_eq!(reorder.accept(0, 'a'), vec!['a', 'b']);
    assert_eq!(reorder.accept(4, 'e'), Vec::<char>::new());
    assert_eq!(reorder.accept(2, 'c'), vec!['c', 'd', 'e']);
}

#[test]
fn every_order_of_five_jobs_comes_out_in_order() {
    let all = orders(5);
    assert_eq!(all.len(), 120);
    for order in all {
        assert_eq!(run(&order), jobs(5));
    }
}

#[test]
fn every_order_of_few_jobs_comes_out_in_order() {
    for count in 0..5 {
        for order in orders(count) {
            assert_eq!(run(&order), jobs(count));
        }
    }
}

#[test]
fn many_jobs_in_reverse() {
    let order: Vec<usize> = (0..1000).rev().collect();
    assert_eq!(run(&order), jobs(1000));
}

#[test]
fn many_jobs_shuffled() {
    let count = 1009;
    let order: Vec<usize> = (0..count).map(|i| (i * 373 + 11) % count).collect();
    assert_eq!(run(&order), jobs(count));
}

#[test]
fn failures_keep_their_place() {
    let mut reorder: Reorder<Result<u32, String>> = Reorder::new();
    assert!(reorder.accept(1, Err(String::from("no such file"))).is_empty());
    assert_eq!(
        reorder.accept(0, Ok(7)),
        vec![Ok(7), Err(String::from("no such file"))]
    );
}

#[test]
fn an_index_that_was_handed_on_before_is_not_handed_on_again() {
    let mut reorder = Reorder::new();
    assert_eq!(reorder.accept(0, 'a'), vec!['a']);
    assert_eq!(reorder.accept(0, 'x'), Vec::<char>::new());
    assert_eq!(reorder.accept(1, 'b'), vec!['b']);
}

#[test]
fn a_later_result_for_a_held_index_takes_its_place() {
    let mut reorder = Reorder::new();
    assert_eq!(reorder.accept(1, 'b'), Vec::<char>::new());
    assert_eq!(reorder.accept(1, 'B'), Vec::<char>::new());
    assert_eq!(reorder.accept(0, 'a'), vec!['a', 'B']);
}

#[test]
fn the_largest_index_ends_the_count() {
    let mut reorder = Reorder::new();
    assert_eq!(reorder.accept(usize::MAX, 'z'), Vec::<char>::new());
    assert_eq!(reorder.accept(0, 'a'), vec!['a']);
}

#[test]
fn workers_asked_for() {
    assert_eq!(worker_count(Some(3), 8, 10), 3);
    assert_eq!(worker_count(Some(3), 8, 2), 2);
    assert_eq!(worker_count(Some(16), 8, 20), 16);
    assert_eq!(worker_count(Some(1), 8, 1), 1);
}

#[test]
fn workers_by_the_number_of_processors() {
    assert_eq!(worker_count(None, 8, 10), 8);
    assert_eq!(worker_count(None, 8, 8), 8);
    assert_eq!(worker_count(None, 8, 3), 3);
    assert_eq!(worker_count(None, 1, 3), 1);
}

#[test]
fn no_jobs_need_no_workers() {
    assert_eq!(worker_count(None, 8, 0), 0);
    assert_eq!(worker_count(Some(4), 8, 0), 0);
}
