use rasterlab::algorithm::{execute, Algorithm, Rendered, Request};
use rasterlab::circle::bresenham_circle;
use rasterlab::line::bresenham_line;
use rasterlab::logger::{Logger, NoOpLogger, StringLogger};
use rasterlab::pixel::Pixel;

#[test]
fn noop_logger_records_nothing() {
    let log = NoOpLogger;
    assert!(!log.can_write());
    let mut log = NoOpLogger;
    log.log(String::from("ignored"));
    assert_eq!(log.results(), "\u{41b}\u{43e}\u{433}\u{438}\u{440}\u{43e}\u{432}\u{430}\u{43d}\u{438}\u{435} \u{431}\u{44b}\u{43b}\u{43e} \u{43e}\u{442}\u{43a}\u{43b}\u{44e}\u{447}\u{435}\u{43d}\u{43e}.");
}

#[test]
fn string_logger_accumulates_lines() {
    let mut log = StringLogger::new();
    assert!(log.can_write());
    log.log(String::from("first"));
    log.log(String::from("second"));
    assert_eq!(log.results(), "first\nsecond\n");
}

#[test]
fn string_logger_reports_an_empty_trace() {
    let log = StringLogger::new();
    assert_eq!(log.results(), "\u{410}\u{43b}\u{433}\u{43e}\u{440}\u{438}\u{442}\u{43c} \u{43d}\u{435} \u{43f}\u{440}\u{43e}\u{438}\u{437}\u{432}\u{435}\u{43b} \u{43d}\u{438}\u{43a}\u{430}\u{43a}\u{438}\u{445} \u{43b}\u{43e}\u{433}\u{43e}\u{432}.");
}

#[test]
fn algorithms_write_a_trace_when_asked() {
    let mut log = StringLogger::new();
    let pixels = bresenham_line(Pixel { x: 0, y: 0 }, Pixel { x: 3, y: 1 }, &mut log);
    assert_eq!(pixels.len(), 4);
    let text = log.results();
    assert!(!text.is_empty());
    assert!(text.contains("pixel (0, 0)"));
    assert!(text.lines().count() == 4);
}

#[test]
fn algorithms_stay_silent_on_a_noop_sink() {
    let mut log = NoOpLogger;
    let pixels = bresenham_line(Pixel { x: 0, y: 0 }, Pixel { x: 3, y: 1 }, &mut log);
    assert_eq!(pixels.len(), 4);
    assert_eq!(log.results(), "\u{41b}\u{43e}\u{433}\u{438}\u{440}\u{43e}\u{432}\u{430}\u{43d}\u{438}\u{435} \u{431}\u{44b}\u{43b}\u{43e} \u{43e}\u{442}\u{43a}\u{43b}\u{44e}\u{447}\u{435}\u{43d}\u{43e}.");
}

#[test]
fn algorithm_variants_have_names() {
    assert_eq!(Algorithm::StepByStep.name(), "StepByStep");
    assert_eq!(Algorithm::DDA.name(), "DDA");
    assert_eq!(Algorithm::BresenhamLine.name(), "BresenhamLine");
    assert_eq!(Algorithm::BresenhamCircle.name(), "BresenhamCircle");
    assert_eq!(Algorithm::CastlePitway.name(), "CastlePitway");
    assert_eq!(Algorithm::WuLine.name(), "WuLine");
    assert_eq!(Algorithm::StepByStepAA.name(), "StepByStepAA");
    assert_eq!(Algorithm::DdaAA.name(), "DdaAA");
    assert_eq!(Algorithm::BresenhamAA.name(), "BresenhamAA");
}

#[test]
fn dispatch_runs_the_requested_algorithm() {
    let a = Pixel { x: 0, y: 0 };
    let b = Pixel { x: 3, y: 1 };
    let mut log = NoOpLogger;
    match execute(Request::BresenhamLine(a, b), &mut log) {
        Rendered::Pixels(v) => assert_eq!(v, bresenham_line(a, b, &mut log)),
        Rendered::Antialiased(_) => panic!("a line request must yield plain pixels"),
    }
    match execute(Request::WuLine(a, b), &mut log) {
        Rendered::Antialiased(v) => assert_eq!(v.len(), 8),
        Rendered::Pixels(_) => panic!("an antialiased request must yield coverage pixels"),
    }
    match execute(Request::BresenhamCircle(a, 5), &mut log) {
        Rendered::Pixels(v) => assert_eq!(v, bresenham_circle(a, 5, &mut log)),
        Rendered::Antialiased(_) => panic!("a circle request must yield plain pixels"),
    }
    match execute(Request::CastlePitway(vec![a]), &mut log) {
        Rendered::Pixels(v) => assert_eq!(v.len(), 0),
        Rendered::Antialiased(_) => panic!("a curve request must yield plain pixels"),
    }
}

#[test]
fn dispatch_feeds_the_trace_sink() {
    let mut log = StringLogger::new();
    let r = execute(
        Request::StepByStep(Pixel { x: 0, y: 0 }, Pixel { x: 2, y: 1 }),
        &mut log,
    );
    match r {
        Rendered::Pixels(v) => assert_eq!(v.len(), 3),
        Rendered::Antialiased(_) => panic!("a line request must yield plain pixels"),
    }
    assert_eq!(log.results().lines().count(), 3);
}

#[test]
fn algorithm_tags_compare_by_variant() {
    assert_eq!(Algorithm::WuLine, Algorithm::WuLine);
    assert_ne!(Algorithm::WuLine, Algorithm::DdaAA);
    let copy = Algorithm::BresenhamCircle;
    assert_eq!(copy, Algorithm::BresenhamCircle);
}
