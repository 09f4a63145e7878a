use vstd::prelude::*;
use vstd::string::StringExecFns;

use crate::format::{render, render_rep, Format};
use crate::sample::Sample;

verus! {

/// What one probe attempt produced: a measured round trip, or the
/// reason the attempt failed.
pub enum ProbeOutcome {
    Success { rtt_nanos: u64 },
    Failure { reason: String },
}

/// What the loop observed in one tick: the clock reading when the
/// probe completed, and the probe's outcome.
pub struct TickEvent {
    pub timestamp_micros: u64,
    pub outcome: ProbeOutcome,
}

/// The single line one tick writes, and the stream it goes to.
pub enum OutputLine {
    Stdout { line: String },
    Stderr { line: String },
}

/// The immutable configuration the loop runs under: the post-probe
/// delay in milliseconds, always positive, and the output encoding.
pub struct Config {
    pub interval_ms: u64,
    pub format: Format,
}

impl Config {
    /// The interval must be positive; zero is a startup-time error.
    pub fn new(interval_ms: u64, format: Format) -> (r: Option<Config>)
        ensures
            interval_ms >= 1 ==> (r matches Some(cfg) && cfg.interval_ms == interval_ms
                && cfg.format == format),
            interval_ms == 0 ==> r is None,
    {
        if interval_ms >= 1 {
            Some(Config { interval_ms, format })
        } else {
            None
        }
    }
}

pub open spec fn sample_of(timestamp_micros: u64, rtt_nanos: u64) -> Sample {
    Sample { timestamp_micros, rtt_nanos }
}

/// "error: <reason>", the diagnostic line of a failed probe.
pub open spec fn error_line_rep(reason: Seq<char>) -> Seq<char> {
    seq!['e', 'r', 'r', 'o', 'r', ':', ' '] + reason
}

/// The line a tick must write: a success renders the sample for
/// stdout, a failure puts its diagnostic on stderr.
pub open spec fn tick_output_ok(cfg: Config, ev: TickEvent, out: OutputLine) -> bool {
    match ev.outcome {
        ProbeOutcome::Success { rtt_nanos } => out matches OutputLine::Stdout { line } && line@
            == render_rep(cfg.format, sample_of(ev.timestamp_micros, rtt_nanos)),
        ProbeOutcome::Failure { reason } => out matches OutputLine::Stderr { line } && line@
            == error_line_rep(reason@),
    }
}

/// One iteration of the probe loop after the probe itself: turns the
/// tick's outcome into its single output line, and commands the fixed
/// post-probe delay — the same delay whatever the outcome was, so a
/// failure is retried at the ordinary cadence and a slow probe never
/// shortens the pause that follows it.
pub fn tick(cfg: &Config, ev: &TickEvent) -> (r: (OutputLine, u64))
    ensures
        r.1 == cfg.interval_ms,
        tick_output_ok(*cfg, *ev, r.0),
{
    match &ev.outcome {
        ProbeOutcome::Success { rtt_nanos } => {
            let s = Sample::new(ev.timestamp_micros, *rtt_nanos);
            let line = render(cfg.format, &s);
            (OutputLine::Stdout { line }, cfg.interval_ms)
        },
        ProbeOutcome::Failure { reason } => {
            let mut line = String::from_str("error: ");
            line.append(reason.as_str());
            proof {
                reveal_strlit("error: ");
                assert(line@ =~= error_line_rep(reason@));
            }
            (OutputLine::Stderr { line }, cfg.interval_ms)
        },
    }
}

/// The lines a bounded run of the loop writes to stdout, in order:
/// one rendered sample per successful tick and nothing else.
pub open spec fn stdout_lines(f: Format, evs: Seq<TickEvent>) -> Seq<Seq<char>>
    decreases evs.len(),
{
    if evs.len() == 0 {
        Seq::empty()
    } else {
        let init = stdout_lines(f, evs.drop_last());
        match evs.last().outcome {
            ProbeOutcome::Success { rtt_nanos } => init.push(
                render_rep(f, sample_of(evs.last().timestamp_micros, rtt_nanos)),
            ),
            ProbeOutcome::Failure { .. } => init,
        }
    }
}

/// The diagnostic lines the same run writes to stderr, in order: one
/// per failed tick and nothing else.
pub open spec fn stderr_lines(evs: Seq<TickEvent>) -> Seq<Seq<char>>
    decreases evs.len(),
{
    if evs.len() == 0 {
        Seq::empty()
    } else {
        let init = stderr_lines(evs.drop_last());
        match evs.last().outcome {
            ProbeOutcome::Success { .. } => init,
            ProbeOutcome::Failure { reason } => init.push(error_line_rep(reason@)),
        }
    }
}

pub open spec fn views_of(lines: Seq<String>) -> Seq<Seq<char>> {
    lines.map_values(|l: String| l@)
}

/// A bounded run of the loop body over the given tick events: the
/// stdout lines and the stderr lines, in order. No other state is
/// carried from one tick to the next.
pub fn run_ticks(cfg: &Config, events: &Vec<TickEvent>) -> (r: (Vec<String>, Vec<String>))
    ensures
        views_of(r.0@) == stdout_lines(cfg.format, events@),
        views_of(r.1@) == stderr_lines(events@),
{
    let mut outs: Vec<String> = Vec::new();
    let mut errs: Vec<String> = Vec::new();
    let mut i: usize = 0;
    proof {
        assert(views_of(outs@) =~= stdout_lines(cfg.format, events@.take(0)));
        assert(views_of(errs@) =~= stderr_lines(events@.take(0)));
    }
    while i < events.len()
        invariant
            i <= events.len(),
            views_of(outs@) == stdout_lines(cfg.format, events@.take(i as int)),
            views_of(errs@) == stderr_lines(events@.take(i as int)),
        decreases events.len() - i,
    {
        let step = tick(cfg, &events[i]);
        match step.0 {
            OutputLine::Stdout { line } => outs.push(line),
            OutputLine::Stderr { line } => errs.push(line),
        }
        i = i + 1;
        proof {
            assert(events@.take(i as int).drop_last() =~= events@.take(i as int - 1));
            assert(events@.take(i as int).last() == events@[i as int - 1]);
            assert(views_of(outs@) =~= stdout_lines(cfg.format, events@.take(i as int)));
            assert(views_of(errs@) =~= stderr_lines(events@.take(i as int)));
        }
    }
    proof {
        assert(events@.take(i as int) =~= events@);
    }
    (outs, errs)
}

/// Exactly one line per tick: over any run, the stdout and the stderr
/// line counts sum to the number of ticks — no tick is skipped, none
/// is doubled.
pub proof fn lemma_one_line_per_tick(f: Format, evs: Seq<TickEvent>)
    ensures
        stdout_lines(f, evs).len() + stderr_lines(evs).len() == evs.len(),
    decreases evs.len(),
{
    if evs.len() > 0 {
        lemma_one_line_per_tick(f, evs.drop_last());
    }
}

/// A run of consecutive failures is never fatal to the loop model: it
/// writes nothing to stdout and exactly one stderr line per tick.
pub proof fn lemma_failures_not_fatal(f: Format, evs: Seq<TickEvent>)
    requires
        forall|i: int| 0 <= i < evs.len() ==> (#[trigger] evs[i]).outcome is Failure,
    ensures
        stdout_lines(f, evs).len() == 0,
        stderr_lines(evs).len() == evs.len(),
    decreases evs.len(),
{
    if evs.len() > 0 {
        let pre = evs.drop_last();
        assert forall|i: int| 0 <= i < pre.len() implies (#[trigger] pre[i]).outcome is Failure by {
            assert(pre[i] == evs[i]);
        }
        lemma_failures_not_fatal(f, pre);
        assert(evs.last() == evs[evs.len() - 1]);
    }
}

/// The samples the successful ticks of a run produce, in order.
pub open spec fn success_samples(evs: Seq<TickEvent>) -> Seq<Sample>
    decreases evs.len(),
{
    if evs.len() == 0 {
        Seq::empty()
    } else {
        let init = success_samples(evs.drop_last());
        match evs.last().outcome {
            ProbeOutcome::Success { rtt_nanos } => init.push(
                sample_of(evs.last().timestamp_micros, rtt_nanos),
            ),
            ProbeOutcome::Failure { .. } => init,
        }
    }
}

proof fn lemma_success_samples_ts_bounded(evs: Seq<TickEvent>, bound: u64)
    requires
        forall|i: int| 0 <= i < evs.len() ==> (#[trigger] evs[i]).timestamp_micros <= bound,
    ensures
        forall|k: int|
            0 <= k < success_samples(evs).len() ==> (#[trigger] success_samples(
                evs,
            )[k]).timestamp_micros <= bound,
    decreases evs.len(),
{
    if evs.len() > 0 {
        let pre = evs.drop_last();
        assert forall|i: int| 0 <= i < pre.len() implies (#[trigger] pre[i]).timestamp_micros
            <= bound by {
            assert(pre[i] == evs[i]);
        }
        lemma_success_samples_ts_bounded(pre, bound);
        assert(evs.last() == evs[evs.len() - 1]);
        let ss = success_samples(evs);
        let ssp = success_samples(pre);
        assert forall|k: int| 0 <= k < ss.len() implies (#[trigger] ss[k]).timestamp_micros
            <= bound by {
            match evs.last().outcome {
                ProbeOutcome::Success { rtt_nanos } => {
                    assert(ss == ssp.push(sample_of(evs.last().timestamp_micros, rtt_nanos)));
                    if k < ssp.len() {
                        assert(ss[k] == ssp[k]);
                    } else {
                        assert(ss[k] == sample_of(evs.last().timestamp_micros, rtt_nanos));
                    }
                },
                ProbeOutcome::Failure { .. } => {
                    assert(ss == ssp);
                },
            }
        }
    }
}

/// When successive clock readings never go backwards, neither do the
/// timestamps of the successful samples, in order of production.
pub proof fn lemma_timestamps_nondecreasing(evs: Seq<TickEvent>)
    requires
        forall|i: int, j: int|
            0 <= i <= j < evs.len() ==> (#[trigger] evs[i]).timestamp_micros <= (
            #[trigger] evs[j]).timestamp_micros,
    ensures
        forall|i: int, j: int|
            0 <= i <= j < success_samples(evs).len() ==> (#[trigger] success_samples(
                evs,
            )[i]).timestamp_micros <= (#[trigger] success_samples(evs)[j]).timestamp_micros,
    decreases evs.len(),
{
    if evs.len() > 0 {
        let pre = evs.drop_last();
        let last = evs[evs.len() - 1];
        assert forall|i: int, j: int| 0 <= i <= j < pre.len() implies (
        #[trigger] pre[i]).timestamp_micros <= (#[trigger] pre[j]).timestamp_micros by {
            assert(pre[i] == evs[i]);
            assert(pre[j] == evs[j]);
        }
        lemma_timestamps_nondecreasing(pre);
        assert forall|i: int| 0 <= i < pre.len() implies (#[trigger] pre[i]).timestamp_micros
            <= last.timestamp_micros by {
            assert(pre[i] == evs[i]);
        }
        lemma_success_samples_ts_bounded(pre, last.timestamp_micros);
        let ss = success_samples(evs);
        let ssp = success_samples(pre);
        assert(evs.last() == last);
        assert forall|i: int, j: int| 0 <= i <= j < ss.len() implies (
        #[trigger] ss[i]).timestamp_micros <= (#[trigger] ss[j]).timestamp_micros by {
            match last.outcome {
                ProbeOutcome::Success { rtt_nanos } => {
                    assert(ss == ssp.push(sample_of(last.timestamp_micros, rtt_nanos)));
                    if j < ssp.len() {
                        assert(ss[i] == ssp[i]);
                        assert(ss[j] == ssp[j]);
                    } else {
                        assert(ss[j] == sample_of(last.timestamp_micros, rtt_nanos));
                        if i < ssp.len() {
                            assert(ss[i] == ssp[i]);
                        }
                    }
                },
                ProbeOutcome::Failure { .. } => {
                    assert(ss == ssp);
                },
            }
        }
    }
}

} // verus!
