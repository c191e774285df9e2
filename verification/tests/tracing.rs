//! Exercises of the diagnostic tracer: uptime timestamps, filter
//! directive parsing and reloading, record filtering, and span
//! attachment through the layer types.
use telemetry_core::trace::{
    GetSpan, Layer, Level, LevelHandle, NewService, Span, Tracer,
};

fn bytes(s: &str) -> Vec<u8> {
    s.as_bytes().to_vec()
}

fn text(v: Vec<u8>) -> String {
    String::from_utf8(v).expect("record is utf-8")
}

fn record(t: &mut Tracer, now_nanos: u64, level: Level, target: &str, msg: &str) -> Option<String> {
    t.record(now_nanos, level, &bytes(target), &bytes(msg)).map(text)
}

#[test]
fn uptime_stamp_format() {
    let mut t = Tracer::new();
    // 3s and 7 nanos: seconds right-aligned to six columns, nanos
    // zero-padded to six digits.
    let line = record(&mut t, 3_000_000_007, Level::Info, "app", "hello").unwrap();
    assert!(line.starts_with("[     3.000007s] INFO app: hello"), "line was {:?}", line);
    // nine-digit subsecond readings print in full.
    let line = record(&mut t, 3_500_000_000, Level::Info, "app", "again").unwrap();
    assert!(line.starts_with("[     3.500000000s] INFO app: again"), "line was {:?}", line);
    let line = record(&mut t, 1_234_567_000_000_042, Level::Warn, "app", "later").unwrap();
    assert!(line.starts_with("[1234567.000042s] WARN app: later"), "line was {:?}", line);
}

#[test]
fn stamps_never_move_backwards() {
    let mut t = Tracer::new();
    let a = record(&mut t, 5_000_000_000, Level::Info, "app", "first").unwrap();
    assert!(a.starts_with("[     5.000000s]"));
    // a clock reading earlier than the last record keeps the last stamp.
    let b = record(&mut t, 3_000_000_000, Level::Info, "app", "second").unwrap();
    assert!(b.starts_with("[     5.000000s]"), "line was {:?}", b);
    let c = record(&mut t, 9_000_000_000, Level::Info, "app", "third").unwrap();
    assert!(c.starts_with("[     9.000000s]"));
}

#[test]
fn default_filter_is_info() {
    let mut t = Tracer::new();
    assert!(record(&mut t, 1, Level::Info, "app", "shown").is_some());
    assert!(record(&mut t, 2, Level::Debug, "app", "hidden").is_none());
    assert!(record(&mut t, 3, Level::Error, "app", "shown").is_some());
}

#[test]
fn set_level_reloads_and_announces() {
    let mut t = Tracer::new();
    let line = t
        .set_level(&bytes("debug"), 1_000_000)
        .expect("directive parses")
        .expect("info record is emitted");
    let line = text(line);
    assert!(line.contains("set new log level level=debug"), "line was {:?}", line);
    assert!(record(&mut t, 2, Level::Debug, "app", "now shown").is_some());
    assert!(record(&mut t, 3, Level::Trace, "app", "still hidden").is_none());
}

#[test]
fn bad_directive_keeps_prior_filter() {
    let mut t = Tracer::new();
    t.set_level(&bytes("warn"), 1).expect("directive parses");
    assert_eq!(text(t.handle.current()), "warn");
    // an unparseable directive is rejected and the prior one stays.
    assert!(t.set_level(&bytes("warn=warn=warn"), 2).is_err());
    assert_eq!(text(t.handle.current()), "warn");
    assert!(t.set_level(&bytes(",,"), 3).is_err());
    assert!(t.set_level(&bytes("app=verbose"), 4).is_err());
    assert_eq!(text(t.handle.current()), "warn");
    assert!(record(&mut t, 5, Level::Info, "app", "hidden under warn").is_none());
}

#[test]
fn per_module_selectors_override_default() {
    let mut t = Tracer::new();
    t.set_level(&bytes("warn,hyper=debug"), 1).expect("directive parses");
    assert_eq!(text(t.handle.current()), "warn,hyper=debug");
    // the selector applies to the module and its submodules.
    assert!(record(&mut t, 2, Level::Debug, "hyper", "shown").is_some());
    assert!(record(&mut t, 3, Level::Debug, "hyper::client", "shown").is_some());
    // other modules stay at the default level.
    assert!(record(&mut t, 4, Level::Info, "app", "hidden").is_none());
    assert!(record(&mut t, 5, Level::Warn, "app", "shown").is_some());
    // a name that only shares a prefix does not match.
    assert!(record(&mut t, 6, Level::Debug, "hyperx", "hidden").is_none());
}

#[test]
fn longest_selector_wins() {
    let mut t = Tracer::new();
    t.set_level(&bytes("error,hyper=trace,hyper::client=warn"), 1).expect("directive parses");
    assert!(record(&mut t, 2, Level::Trace, "hyper::server", "shown").is_some());
    assert!(record(&mut t, 3, Level::Debug, "hyper::client", "hidden").is_none());
    assert!(record(&mut t, 4, Level::Warn, "hyper::client", "shown").is_some());
}

#[test]
fn blank_directive_means_default() {
    let mut t = Tracer::new();
    t.set_level(&bytes("debug"), 1).expect("directive parses");
    t.set_level(&bytes("  "), 2).expect("blank directive parses");
    assert_eq!(text(t.handle.current()), "info");
    let mut h = LevelHandle::dangling();
    assert_eq!(text(h.current()), "info");
    assert!(h.set_level(&bytes("trace")).is_ok());
    assert_eq!(text(h.current()), "trace");
}

#[test]
fn bare_target_enables_trace() {
    let mut t = Tracer::new();
    t.set_level(&bytes("mio"), 1).expect("bare target parses");
    assert_eq!(text(t.handle.current()), "info,mio=trace");
    assert!(record(&mut t, 1, Level::Trace, "mio::poll", "shown").is_some());
    assert!(record(&mut t, 2, Level::Trace, "app", "hidden").is_none());
}

#[test]
fn records_carry_entered_spans() {
    let mut t = Tracer::new();
    let mut span = Span::new(bytes("server"));
    span.fields.push((bytes("peer"), bytes("src")));
    t.enter_span(span);
    let line = record(&mut t, 1, Level::Info, "app", "inside").unwrap();
    assert!(line.contains("server{peer=src}: app: inside"), "line was {:?}", line);
    let _ = t.exit_span();
    let line = record(&mut t, 2, Level::Info, "app", "outside").unwrap();
    assert!(!line.contains("server"), "line was {:?}", line);
}

#[test]
fn nested_spans_stack_in_order() {
    let mut t = Tracer::new();
    t.enter_span(Span::new(bytes("accept")));
    t.enter_span(Span::new(bytes("request")));
    let line = record(&mut t, 1, Level::Info, "app", "deep").unwrap();
    assert!(line.contains("accept:request: app: deep"), "line was {:?}", line);
    let _ = t.exit_span();
    let line = record(&mut t, 2, Level::Info, "app", "shallow").unwrap();
    assert!(line.contains("accept: app: shallow"), "line was {:?}", line);
}

struct Inner;

struct Echo(u32);

impl NewService<u32> for Inner {
    type Service = Echo;

    fn new_service(&self, target: u32) -> Echo {
        Echo(target)
    }
}

#[test]
fn layer_wraps_services_with_their_span() {
    let layer = Layer::new(Span::new(bytes("flow")));
    let make = layer.layer(Inner);
    let svc = make.new_service(7);
    assert_eq!(svc.inner.0, 7);
    // entering the wrapped service installs its span for the extent of
    // an operation, and leaving removes it.
    let mut t = Tracer::new();
    svc.enter(&mut t);
    let line = text(t.record(1, Level::Info, &bytes("app"), &bytes("working")).unwrap());
    assert!(line.contains("flow: app: working"), "line was {:?}", line);
    svc.leave(&mut t);
    let line = text(t.record(2, Level::Info, &bytes("app"), &bytes("done")).unwrap());
    assert!(!line.contains("flow"), "line was {:?}", line);
}

struct Target;

impl GetSpan<()> for Target {
    fn get_span(&self, _: &()) -> Span {
        Span::new(bytes("from_target"))
    }
}

#[test]
fn get_span_passes_target_through() {
    let layer = Layer::from_target();
    let make = layer.layer(TargetMaker);
    let svc = make.new_service(Target);
    let mut t = Tracer::new();
    svc.enter(&mut t);
    let line = text(t.record(1, Level::Info, &bytes("app"), &bytes("go")).unwrap());
    assert!(line.contains("from_target: app: go"), "line was {:?}", line);
}

struct TargetMaker;

impl<T> NewService<T> for TargetMaker {
    type Service = ();

    fn new_service(&self, _target: T) -> () {
        ()
    }
}
