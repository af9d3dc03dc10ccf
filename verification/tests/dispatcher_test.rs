use zsplit::destination::Destination;
use zsplit::dispatcher::{Action, Dispatcher, Event, Phase};
use zsplit::split::{map_line_destinations, SplitError};

fn dispatcher(weights: &[usize]) -> Dispatcher {
    let destinations: Vec<Destination<Vec<u8>>> = weights
        .iter()
        .map(|weight| Destination::buffer_with_lines(*weight))
        .collect();
    Dispatcher::new(map_line_destinations(&destinations), destinations.len())
}

fn write_lines(dispatcher: &mut Dispatcher, count: usize) -> Vec<usize> {
    let mut targets = Vec::new();
    for _ in 0..count {
        match dispatcher.handle(Event::Line) {
            Action::WriteLine { destination } => targets.push(destination),
            other => panic!("unexpected action {:?}", other),
        }
        assert_eq!(dispatcher.handle(Event::Written), Action::ReadLine);
    }
    targets
}

#[test]
fn starts_by_reading() {
    let dispatcher = dispatcher(&[1, 1]);

    assert_eq!(dispatcher.phase(), Phase::Reading);
    assert_eq!(dispatcher.action(), Action::ReadLine);
}

#[test]
fn lines_follow_the_ring() {
    let mut dispatcher = dispatcher(&[3, 3]);

    let targets = write_lines(&mut dispatcher, 10);

    assert_eq!(targets, [0, 0, 0, 1, 1, 1, 0, 0, 0, 1]);
    assert_eq!(dispatcher.phase(), Phase::Reading);
}

#[test]
fn zero_weight_is_skipped_but_flushed() {
    let mut dispatcher = dispatcher(&[1, 0, 2]);

    let targets = write_lines(&mut dispatcher, 6);

    assert_eq!(targets, [0, 2, 2, 0, 2, 2]);
    assert_eq!(
        dispatcher.handle(Event::EndOfInput),
        Action::Flush { destination: 0 }
    );
    assert_eq!(dispatcher.phase(), Phase::Flushing);
    assert_eq!(
        dispatcher.handle(Event::Flushed),
        Action::Flush { destination: 1 }
    );
    assert_eq!(
        dispatcher.handle(Event::Flushed),
        Action::Flush { destination: 2 }
    );
    assert_eq!(dispatcher.handle(Event::Flushed), Action::Stop(Ok(())));
    assert_eq!(dispatcher.phase(), Phase::Done);
}

#[test]
fn empty_source_flushes_every_sink_and_succeeds() {
    let mut dispatcher = dispatcher(&[1, 2, 3]);

    assert_eq!(
        dispatcher.handle(Event::EndOfInput),
        Action::Flush { destination: 0 }
    );
    assert_eq!(
        dispatcher.handle(Event::Flushed),
        Action::Flush { destination: 1 }
    );
    assert_eq!(
        dispatcher.handle(Event::Flushed),
        Action::Flush { destination: 2 }
    );
    assert_eq!(dispatcher.handle(Event::Flushed), Action::Stop(Ok(())));
}

#[test]
fn empty_source_without_destinations_is_done_at_once() {
    let mut dispatcher = dispatcher(&[]);

    assert_eq!(dispatcher.handle(Event::EndOfInput), Action::Stop(Ok(())));
    assert_eq!(dispatcher.phase(), Phase::Done);
}

#[test]
fn empty_ring_flushes_when_there_is_no_line() {
    let mut dispatcher = dispatcher(&[0, 0]);

    assert_eq!(
        dispatcher.handle(Event::EndOfInput),
        Action::Flush { destination: 0 }
    );
    assert_eq!(
        dispatcher.handle(Event::Flushed),
        Action::Flush { destination: 1 }
    );
    assert_eq!(dispatcher.handle(Event::Flushed), Action::Stop(Ok(())));
}

#[test]
fn line_without_a_ring_fails() {
    let mut dispatcher = dispatcher(&[0, 0]);

    assert_eq!(
        dispatcher.handle(Event::Line),
        Action::Stop(Err(SplitError::EmptyRing))
    );
    assert_eq!(dispatcher.phase(), Phase::Failed);
}

#[test]
fn read_failure_aborts() {
    let mut dispatcher = dispatcher(&[1, 1]);
    write_lines(&mut dispatcher, 3);

    assert_eq!(
        dispatcher.handle(Event::ReadFailed),
        Action::Stop(Err(SplitError::Read))
    );
    assert_eq!(dispatcher.phase(), Phase::Failed);
}

#[test]
fn write_failure_aborts_and_names_the_destination() {
    let mut dispatcher = dispatcher(&[1, 2]);
    write_lines(&mut dispatcher, 2);

    assert_eq!(
        dispatcher.handle(Event::Line),
        Action::WriteLine { destination: 1 }
    );
    assert_eq!(
        dispatcher.handle(Event::WriteFailed),
        Action::Stop(Err(SplitError::Write { destination: 1 }))
    );
    assert_eq!(dispatcher.phase(), Phase::Failed);
}

#[test]
fn flush_failure_stops_the_flushing() {
    let mut dispatcher = dispatcher(&[1, 1, 1]);
    write_lines(&mut dispatcher, 1);
    dispatcher.handle(Event::EndOfInput);
    dispatcher.handle(Event::Flushed);

    assert_eq!(
        dispatcher.handle(Event::FlushFailed),
        Action::Stop(Err(SplitError::Flush { destination: 1 }))
    );
    assert_eq!(
        dispatcher.handle(Event::Flushed),
        Action::Stop(Err(SplitError::Flush { destination: 1 }))
    );
    assert_eq!(dispatcher.phase(), Phase::Failed);
}

#[test]
fn events_that_answer_nothing_are_ignored() {
    let mut dispatcher = dispatcher(&[1, 1]);

    assert_eq!(dispatcher.handle(Event::Written), Action::ReadLine);
    assert_eq!(dispatcher.handle(Event::WriteFailed), Action::ReadLine);
    assert_eq!(dispatcher.handle(Event::Flushed), Action::ReadLine);
    assert_eq!(dispatcher.handle(Event::FlushFailed), Action::ReadLine);
    assert_eq!(
        dispatcher.handle(Event::Line),
        Action::WriteLine { destination: 0 }
    );
    assert_eq!(
        dispatcher.handle(Event::Line),
        Action::WriteLine { destination: 0 }
    );
    assert_eq!(
        dispatcher.handle(Event::EndOfInput),
        Action::WriteLine { destination: 0 }
    );
    assert_eq!(
        dispatcher.handle(Event::ReadFailed),
        Action::WriteLine { destination: 0 }
    );
    assert_eq!(dispatcher.handle(Event::Written), Action::ReadLine);
    assert_eq!(
        dispatcher.handle(Event::EndOfInput),
        Action::Flush { destination: 0 }
    );
    assert_eq!(
        dispatcher.handle(Event::Line),
        Action::Flush { destination: 0 }
    );
    assert_eq!(
        dispatcher.handle(Event::Written),
        Action::Flush { destination: 0 }
    );
}

#[test]
fn nothing_happens_once_the_split_is_over() {
    let mut dispatcher = dispatcher(&[1]);
    dispatcher.handle(Event::EndOfInput);
    assert_eq!(dispatcher.handle(Event::Flushed), Action::Stop(Ok(())));

    for event in [
        Event::Line,
        Event::EndOfInput,
        Event::ReadFailed,
        Event::Written,
        Event::WriteFailed,
        Event::Flushed,
        Event::FlushFailed,
    ] {
        assert_eq!(dispatcher.handle(event), Action::Stop(Ok(())));
        assert_eq!(dispatcher.phase(), Phase::Done);
    }
}

#[test]
fn arbitrary_table_is_followed() {
    let mut dispatcher = Dispatcher::new(vec![1, 1, 0], 2);

    assert_eq!(write_lines(&mut dispatcher, 7), [1, 1, 0, 1, 1, 0, 1]);
}
