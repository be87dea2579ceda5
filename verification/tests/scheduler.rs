use ziggurat::options::{ConfigError, RequestOptions};
use ziggurat::scheduler::{partition, Action, BatchScheduler, TranslationError};

fn texts(count: usize) -> Vec<String> {
    (0..count).map(|i| format!("s{}", i)).collect()
}

fn translated(batch: &[String]) -> Vec<String> {
    batch.iter().map(|text| format!("<{}>", text)).collect()
}

fn options(batch_size: usize, max_concurrency: usize) -> RequestOptions {
    RequestOptions::new(batch_size, max_concurrency).unwrap()
}

/// Starts every call that may be started and says which batches they are for.
fn launch_all(scheduler: &mut BatchScheduler) -> (Vec<(usize, Vec<String>)>, Action) {
    let mut launched = Vec::new();
    loop {
        match scheduler.next_action() {
            Action::Launch { batch, snippets } => launched.push((batch, snippets)),
            other => return (launched, other),
        }
    }
}

#[test]
fn partition_cuts_into_batches_of_the_size() {
    let cut = partition(&texts(5), 2).unwrap();
    assert_eq!(cut, vec![vec!["s0", "s1"], vec!["s2", "s3"], vec!["s4"]]);
}

#[test]
fn partition_counts_the_rounded_up_quotient() {
    for (n, size, count) in [(0, 3, 0), (1, 3, 1), (3, 3, 1), (4, 3, 2), (20, 1, 20), (7, 10, 1)] {
        let cut = partition(&texts(n), size).unwrap();
        assert_eq!(cut.len(), count);
        assert_eq!(cut.concat(), texts(n));
    }
}

#[test]
fn partition_refuses_a_batch_size_of_zero() {
    assert_eq!(partition(&texts(3), 0), Err(ConfigError::ZeroBatchSize));
}

#[test]
fn scheduler_refuses_zero_options() {
    let zero_batch = RequestOptions { batch_size: 0, max_concurrency: 0 };
    assert!(matches!(
        BatchScheduler::new(texts(3), &zero_batch),
        Err(ConfigError::ZeroBatchSize)
    ));
    let zero_calls = RequestOptions { batch_size: 2, max_concurrency: 0 };
    assert!(matches!(
        BatchScheduler::new(texts(3), &zero_calls),
        Err(ConfigError::ZeroConcurrency)
    ));
}

#[test]
fn empty_input_is_done_at_once() {
    let mut scheduler = BatchScheduler::new(Vec::new(), &options(10, 5)).unwrap();
    assert!(matches!(scheduler.next_action(), Action::Stop));
    assert_eq!(scheduler.batch_total(), 0);
    match scheduler.outcome() {
        Some(Ok(output)) => assert!(output.is_empty()),
        other => panic!("unexpected outcome {:?}", other.is_some()),
    }
}

#[test]
fn output_is_in_input_order_whatever_the_order_of_completion() {
    let input = texts(7);
    let expected: Vec<String> = translated(&input);
    for order in [[0usize, 1, 2, 3], [3, 2, 1, 0], [2, 0, 3, 1], [1, 3, 0, 2]] {
        let mut scheduler = BatchScheduler::new(input.clone(), &options(2, 4)).unwrap();
        let (launched, next) = launch_all(&mut scheduler);
        assert!(matches!(next, Action::Wait));
        assert_eq!(launched.len(), 4);
        assert!(scheduler.outcome().is_none());
        for batch in order {
            assert!(scheduler.complete(batch, Ok(translated(&launched[batch].1))));
        }
        assert!(matches!(scheduler.next_action(), Action::Stop));
        match scheduler.outcome() {
            Some(Ok(output)) => assert_eq!(output, expected),
            _ => panic!("the run did not end well"),
        }
    }
}

#[test]
fn batches_are_handed_out_in_order_with_their_snippets() {
    let mut scheduler = BatchScheduler::new(texts(5), &options(2, 8)).unwrap();
    let (launched, _) = launch_all(&mut scheduler);
    assert_eq!(
        launched,
        vec![
            (0, vec!["s0".to_string(), "s1".to_string()]),
            (1, vec!["s2".to_string(), "s3".to_string()]),
            (2, vec!["s4".to_string()]),
        ]
    );
}

#[test]
fn no_more_calls_run_than_the_cap_allows() {
    let mut scheduler = BatchScheduler::new(texts(20), &options(1, 5)).unwrap();
    assert_eq!(scheduler.batch_total(), 20);
    let mut running: Vec<(usize, Vec<String>)> = Vec::new();
    let mut finished = 0;
    let mut most = 0;
    loop {
        match scheduler.next_action() {
            Action::Launch { batch, snippets } => {
                running.push((batch, snippets));
                assert!(running.len() <= 5);
                assert_eq!(scheduler.in_flight(), running.len());
                most = most.max(running.len());
            }
            Action::Wait => {
                assert_eq!(running.len(), 5.min(20 - finished));
                // The call that was started last ends first.
                let (batch, snippets) = running.pop().unwrap();
                assert!(scheduler.complete(batch, Ok(translated(&snippets))));
                finished += 1;
            }
            Action::Stop => break,
        }
    }
    assert_eq!(most, 5);
    assert_eq!(finished + running.len(), 20);
    assert!(running.is_empty());
    match scheduler.outcome() {
        Some(Ok(output)) => assert_eq!(output, translated(&texts(20))),
        _ => panic!("the run did not end well"),
    }
}

#[test]
fn one_failing_call_fails_the_run() {
    let mut scheduler = BatchScheduler::new(texts(6), &options(2, 2)).unwrap();
    let (launched, next) = launch_all(&mut scheduler);
    assert_eq!(launched.len(), 2);
    assert!(matches!(next, Action::Wait));
    assert!(scheduler.complete(1, Err("timeout".to_string())));
    assert!(matches!(scheduler.next_action(), Action::Stop));
    match scheduler.outcome() {
        Some(Err(TranslationError::CallFailed { batch, message })) => {
            assert_eq!(batch, 1);
            assert_eq!(message, "timeout");
        }
        _ => panic!("the failure was not reported"),
    }
    // What comes back later is taken in and changes nothing.
    assert!(scheduler.complete(0, Ok(translated(&launched[0].1))));
    assert!(matches!(scheduler.next_action(), Action::Stop));
    assert!(matches!(
        scheduler.outcome(),
        Some(Err(TranslationError::CallFailed { batch: 1, .. }))
    ));
}

#[test]
fn the_first_failure_is_the_one_reported() {
    let mut scheduler = BatchScheduler::new(texts(4), &options(1, 4)).unwrap();
    launch_all(&mut scheduler);
    assert!(scheduler.complete(2, Err("second".to_string())));
    assert!(scheduler.complete(0, Err("first".to_string())));
    match scheduler.outcome() {
        Some(Err(fault)) => assert_eq!(fault.batch(), 2),
        _ => panic!("the failure was not reported"),
    }
}

#[test]
fn an_answer_of_another_length_is_a_fault() {
    let mut scheduler = BatchScheduler::new(texts(3), &options(2, 2)).unwrap();
    launch_all(&mut scheduler);
    assert!(scheduler.complete(0, Ok(vec!["only one".to_string()])));
    assert!(matches!(
        scheduler.outcome(),
        Some(Err(TranslationError::LengthMismatch { batch: 0, expected: 2, returned: 1 }))
    ));
}

#[test]
fn a_report_on_a_call_that_does_not_run_is_turned_away() {
    let mut scheduler = BatchScheduler::new(texts(4), &options(2, 1)).unwrap();
    assert!(!scheduler.complete(0, Ok(vec![])));
    assert!(matches!(scheduler.next_action(), Action::Launch { batch: 0, .. }));
    assert!(!scheduler.complete(1, Ok(vec![])));
    assert!(!scheduler.complete(7, Ok(vec![])));
    assert!(scheduler.complete(0, Ok(vec!["a".to_string(), "b".to_string()])));
    assert!(!scheduler.complete(0, Ok(vec!["a".to_string(), "b".to_string()])));
    assert_eq!(scheduler.in_flight(), 0);
}

#[test]
fn error_duplicate_is_the_same_error() {
    let fault = TranslationError::CallFailed { batch: 3, message: "no".to_string() };
    match fault.duplicate() {
        TranslationError::CallFailed { batch, message } => {
            assert_eq!(batch, 3);
            assert_eq!(message, "no");
        }
        _ => panic!("another error"),
    }
}
