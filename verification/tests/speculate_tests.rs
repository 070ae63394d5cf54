use std::cell::RefCell;
use std::rc::Rc;

use spec_css::speculate::{specfold, speculate};

#[test]
fn test_spec() {
    assert!(speculate(|| 2 + 2, || 4, |x| x + 2) == 6);
    assert!(speculate(|| 2 + 2, || 1, |x| x + 2) == 6);
}

#[test]
fn test_specfold_correct_prediction() {
    let log: Rc<RefCell<Vec<usize>>> = Rc::new(RefCell::new(Vec::new()));
    let body_log = Rc::clone(&log);
    let loop_body = move |idx: usize, val: usize| -> usize {
        let res = idx + val;
        body_log.borrow_mut().push(res);
        res
    };
    let loop_results = vec![0, 0, 1, 3, 6];
    let predictor = move |idx: usize| loop_results[idx];

    let stats = specfold(5, loop_body, predictor);
    assert!(stats.iters == 5);
    assert!(stats.mispredictions == vec![false, false, false, false, false]);
    assert!(*log.borrow() == vec![0, 1, 3, 6, 10]);
}

#[test]
fn test_specfold_incorrect_prediction() {
    let log: Rc<RefCell<Vec<usize>>> = Rc::new(RefCell::new(Vec::new()));
    let body_log = Rc::clone(&log);
    let loop_body = move |idx: usize, val: usize| -> usize {
        let res = idx + val + 5;
        body_log.borrow_mut().push(res);
        res
    };
    let predictor = move |_idx: usize| 0;

    let stats = specfold(1, loop_body, predictor);
    assert!(stats.iters == 1);
    assert!(stats.mispredictions == vec![false]);
    assert!(*log.borrow() == vec![5]);
}

#[test]
fn test_specfold_no_tasks() {
    let log: Rc<RefCell<Vec<usize>>> = Rc::new(RefCell::new(Vec::new()));
    let body_log = Rc::clone(&log);
    let loop_body = move |idx: usize, val: usize| -> usize {
        let res = idx + val + 5;
        body_log.borrow_mut().push(res);
        res
    };
    let predictor = move |_idx: usize| 0;

    let stats = specfold(0, loop_body, predictor);
    assert!(stats.iters == 0);
    assert!(stats.mispredictions.is_empty());
    assert!(log.borrow().is_empty());
}

#[test]
fn specfold_replays_mispredicted_iteration() {
    let log: Rc<RefCell<Vec<usize>>> = Rc::new(RefCell::new(Vec::new()));
    let body_log = Rc::clone(&log);
    let loop_body = move |_idx: usize, val: usize| -> usize {
        let res = val + 1;
        body_log.borrow_mut().push(res);
        res
    };
    // the guess for iteration 2 disagrees with iteration 1's true output
    let predictor = move |idx: usize| if idx == 2 { 99 } else { idx };

    let stats = specfold(5, loop_body, predictor);
    assert!(stats.iters == 5);
    assert!(stats.mispredictions == vec![false, false, true, false, false]);
    // the replay threads the corrected value into the chain
    assert!(*log.borrow() == vec![1, 2, 3, 4, 5]);
}
