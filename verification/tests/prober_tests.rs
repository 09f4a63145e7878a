use pingmon::{
    decode_json, run_ticks, tick, Config, Format, OutputLine, ProbeOutcome, Sample, TickEvent,
};

fn config(interval_ms: u64, format: Format) -> Config {
    Config::new(interval_ms, format).unwrap()
}

#[test]
fn config_rejects_zero_interval() {
    assert!(Config::new(0, Format::Human).is_none());
}

#[test]
fn config_keeps_interval_and_format() {
    let cfg = config(250, Format::Csv);
    assert_eq!(cfg.interval_ms, 250);
    assert_eq!(cfg.format, Format::Csv);
}

#[test]
fn tick_success_writes_rendered_sample_to_stdout() {
    let cfg = config(100, Format::Human);
    let ev = TickEvent {
        timestamp_micros: 1700000000123456,
        outcome: ProbeOutcome::Success { rtt_nanos: 12345678 },
    };
    let (out, delay) = tick(&cfg, &ev);
    assert_eq!(delay, 100);
    match out {
        OutputLine::Stdout { line } => {
            assert_eq!(line, "1700000000.123456: 12.345678 ms");
        }
        OutputLine::Stderr { .. } => panic!("success must go to stdout"),
    }
}

#[test]
fn tick_failure_writes_diagnostic_to_stderr() {
    let cfg = config(100, Format::Human);
    let ev = TickEvent {
        timestamp_micros: 1700000000123456,
        outcome: ProbeOutcome::Failure {
            reason: String::from("host unreachable"),
        },
    };
    let (out, delay) = tick(&cfg, &ev);
    assert_eq!(delay, 100);
    match out {
        OutputLine::Stderr { line } => {
            assert_eq!(line, "error: host unreachable");
        }
        OutputLine::Stdout { .. } => panic!("failure must go to stderr"),
    }
}

#[test]
fn tick_delay_is_the_interval_whatever_the_outcome() {
    let cfg = config(750, Format::Csv);
    let ok = TickEvent {
        timestamp_micros: 1,
        outcome: ProbeOutcome::Success { rtt_nanos: 2 },
    };
    let bad = TickEvent {
        timestamp_micros: 3,
        outcome: ProbeOutcome::Failure {
            reason: String::from("timeout"),
        },
    };
    assert_eq!(tick(&cfg, &ok).1, 750);
    assert_eq!(tick(&cfg, &bad).1, 750);
}

#[test]
fn run_writes_one_line_per_tick_in_order() {
    let cfg = config(100, Format::Csv);
    let events = vec![
        TickEvent {
            timestamp_micros: 1000000,
            outcome: ProbeOutcome::Success { rtt_nanos: 1000000 },
        },
        TickEvent {
            timestamp_micros: 2000000,
            outcome: ProbeOutcome::Failure {
                reason: String::from("timeout"),
            },
        },
        TickEvent {
            timestamp_micros: 3000000,
            outcome: ProbeOutcome::Success { rtt_nanos: 2500000 },
        },
    ];
    let (outs, errs) = run_ticks(&cfg, &events);
    assert_eq!(outs.len() + errs.len(), events.len());
    assert_eq!(outs.len(), 2);
    assert_eq!(outs[0], "1.000000,1");
    assert_eq!(outs[1], "3.000000,2.5");
    assert_eq!(errs.len(), 1);
    assert_eq!(errs[0], "error: timeout");
}

#[test]
fn run_survives_consecutive_failures() {
    let cfg = config(100, Format::Human);
    let n: usize = 25;
    let mut events: Vec<TickEvent> = Vec::new();
    for k in 0..n {
        events.push(TickEvent {
            timestamp_micros: k as u64,
            outcome: ProbeOutcome::Failure {
                reason: format!("unreachable {k}"),
            },
        });
    }
    let (outs, errs) = run_ticks(&cfg, &events);
    assert_eq!(outs.len(), 0);
    assert_eq!(errs.len(), n);
    for (k, line) in errs.iter().enumerate() {
        assert_eq!(line, &format!("error: unreachable {k}"));
    }
}

#[test]
fn run_timestamps_nondecreasing_across_successes() {
    let cfg = config(100, Format::Json);
    let stamps: Vec<u64> = vec![5, 5, 7, 90000000, 90000000, 123456789012];
    let mut events: Vec<TickEvent> = Vec::new();
    for (k, ts) in stamps.iter().enumerate() {
        events.push(TickEvent {
            timestamp_micros: *ts,
            outcome: if k == 2 {
                ProbeOutcome::Failure {
                    reason: String::from("timeout"),
                }
            } else {
                ProbeOutcome::Success { rtt_nanos: 5000000 }
            },
        });
    }
    let (outs, _errs) = run_ticks(&cfg, &events);
    let mut prev: Option<Sample> = None;
    for line in &outs {
        let s = decode_json(line).unwrap();
        if let Some(p) = prev {
            assert!(p.timestamp_micros <= s.timestamp_micros);
        }
        prev = Some(s);
    }
    assert_eq!(outs.len(), 5);
}
