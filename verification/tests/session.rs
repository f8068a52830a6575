use threen::session::respond;
use threen::{max_cycle_length, step, Action, BoundPair, InputError, SequenceError, SessionResult};

fn run(input: &str) -> (Vec<String>, Vec<String>, bool) {
    let mut out = Vec::new();
    let mut diagnostics = Vec::new();
    for line in input.split_inclusive('\n') {
        let action = step(Ok(line));
        let last = action.ends_session();
        match action {
            Action::Stop => {}
            Action::Emit { result, warning } => {
                if warning {
                    diagnostics.push("WARNING: Input arguments are out of order.".to_string());
                }
                out.push(format!(
                    "{} {} {}",
                    result.low, result.high, result.max_cycle_length
                ));
            }
            Action::Report(e) => diagnostics.push(format!("{:?}", e)),
            Action::Abort(e) => panic!("{:?}", e),
            Action::Fail(e) => panic!("{:?}", e),
        }
        if last {
            return (out, diagnostics, true);
        }
    }
    (out, diagnostics, false)
}

#[test]
fn longest_cycle_from_one_to_ten() {
    assert_eq!(max_cycle_length(1, 10), Ok(20));
}

#[test]
fn longest_cycle_of_known_ranges() {
    assert_eq!(max_cycle_length(100, 200), Ok(125));
    assert_eq!(max_cycle_length(201, 210), Ok(89));
    assert_eq!(max_cycle_length(900, 1000), Ok(174));
    assert_eq!(max_cycle_length(1, 1), Ok(1));
    assert_eq!(max_cycle_length(9, 9), Ok(20));
    assert_eq!(max_cycle_length(1, 999), Ok(179));
}

#[test]
fn longest_cycle_is_the_maximum_of_the_lengths() {
    for low in 1..60u32 {
        for high in low..60u32 {
            let expected = (low..=high)
                .map(|k| threen::cycle_length(k).unwrap())
                .max()
                .unwrap();
            assert_eq!(max_cycle_length(low, high), Ok(expected));
        }
    }
}

#[test]
fn a_range_with_an_overflowing_sequence_fails() {
    assert_eq!(max_cycle_length(159480, 159490), Err(SequenceError::Overflow));
    assert_eq!(max_cycle_length(159487, 159487), Err(SequenceError::Overflow));
    assert_eq!(max_cycle_length(u32::MAX, u32::MAX), Err(SequenceError::Overflow));
    assert_eq!(max_cycle_length(159480, 159486), Ok(184));
}

#[test]
fn a_session_answers_each_line_until_the_blank_one() {
    let (out, diagnostics, ended) = run("1 10\n100 200\n\n");
    assert_eq!(out, vec!["1 10 20", "100 200 125"]);
    assert!(diagnostics.is_empty());
    assert!(ended);
}

#[test]
fn a_session_goes_on_after_a_bad_line() {
    let (out, diagnostics, ended) = run("abc 5\n5 0\n5\n10 1\n\n9 9\n");
    assert_eq!(out, vec!["1 10 20"]);
    assert_eq!(
        diagnostics,
        vec![
            "ParseError(InvalidDigit)",
            "ZeroError",
            "ArgCountError { count: 1 }",
            "WARNING: Input arguments are out of order.",
        ]
    );
    assert!(ended);
}

#[test]
fn step_answers_in_the_order_of_the_range() {
    match step(Ok("210 201\n")) {
        Action::Emit { result, warning } => {
            assert_eq!(
                result,
                SessionResult { low: 201, high: 210, max_cycle_length: 89 }
            );
            assert!(warning);
        }
        other => panic!("unexpected {:?}", other),
    }
    match step(Ok("201 210")) {
        Action::Emit { result, warning } => {
            assert_eq!(
                result,
                SessionResult { low: 201, high: 210, max_cycle_length: 89 }
            );
            assert!(!warning);
        }
        other => panic!("unexpected {:?}", other),
    }
}

#[test]
fn step_stops_on_a_blank_line_and_aborts_on_a_failed_read() {
    let stop = step(Ok("   \n"));
    assert!(matches!(stop, Action::Stop));
    assert!(stop.ends_session());
    let e = std::io::Error::new(std::io::ErrorKind::BrokenPipe, "closed");
    let abort = step(Err(e));
    assert!(abort.ends_session());
    match abort {
        Action::Abort(InputError::IOError(inner)) => {
            assert_eq!(inner.kind(), std::io::ErrorKind::BrokenPipe)
        }
        other => panic!("unexpected {:?}", other),
    }
}

#[test]
fn step_reports_and_goes_on() {
    let report = step(Ok("1 2 3"));
    assert!(!report.ends_session());
    assert!(matches!(
        report,
        Action::Report(InputError::ArgCountError { count: 3 })
    ));
    let answer = step(Ok("1 2"));
    assert!(!answer.ends_session());
}

#[test]
fn step_fails_on_an_overflowing_range() {
    let fail = step(Ok("159487 159487"));
    assert!(fail.ends_session());
    assert!(matches!(fail, Action::Fail(SequenceError::Overflow)));
}

#[test]
fn respond_follows_the_outcome_of_reading() {
    assert!(matches!(respond(Ok(None)), Action::Stop));
    assert!(matches!(
        respond(Err(InputError::ZeroError)),
        Action::Report(InputError::ZeroError)
    ));
    let e = std::io::Error::new(std::io::ErrorKind::Other, "lost");
    assert!(matches!(
        respond(Err(InputError::IOError(e))),
        Action::Abort(InputError::IOError(_))
    ));
    assert!(matches!(
        respond(Err(InputError::OutOfOrderError)),
        Action::Report(InputError::OutOfOrderError)
    ));
    let pair = BoundPair { low: 1, high: 10, reordered: false };
    match respond(Ok(Some(pair))) {
        Action::Emit { result, warning } => {
            assert_eq!(result, SessionResult { low: 1, high: 10, max_cycle_length: 20 });
            assert!(!warning);
        }
        other => panic!("unexpected {:?}", other),
    }
}
