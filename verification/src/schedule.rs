//! When the headless runner and the GIF renderer act between ticks: which
//! ticks are logged, reported or captured, and when a run ends. Stepping
//! the world, writing files and printing are the caller's.

use vstd::prelude::*;

verus! {

/// The headless runner reports progress on every tick that is a multiple
/// of this.
pub const PROGRESS_EVERY: u64 = 5000;

/// What the headless runner does after a tick.
#[derive(Clone, Copy, Debug, PartialEq, Eq, Structural)]
pub struct TickReport {
    /// Sample the metrics and log a CSV row.
    pub log_metrics: bool,
    /// Print a progress line.
    pub progress: bool,
    /// Announce that the population has died out.
    pub extinct: bool,
}

/// The headless runner's plan: the tick it stops at, how often it logs
/// metrics, and whether it has announced extinction yet.
pub struct RunSchedule {
    end: u64,
    every: u64,
    extinct_announced: bool,
}

/// The report after reaching `tick` with `population` organisms, for a run
/// ending at `end` that logs every `every` ticks and has (or has not yet)
/// announced extinction.
pub open spec fn report_of(end: u64, every: u64, announced: bool, tick: u64, population: nat) -> TickReport {
    TickReport {
        log_metrics: tick % every == 0 || tick == end,
        progress: tick % PROGRESS_EVERY == 0,
        extinct: population == 0 && !announced,
    }
}

/// Extinction is announced only when no organism is left, always the
/// first time none is, and never once it has been; metrics are logged on
/// every multiple of the interval and on the last tick; progress is
/// reported on the multiples of `PROGRESS_EVERY` alone.
pub proof fn lemma_report_meaning(end: u64, every: u64, announced: bool, tick: u64, population: nat)
    ensures
        report_of(end, every, announced, tick, population).extinct ==> population == 0,
        population == 0 && !announced ==> report_of(end, every, announced, tick, population).extinct,
        announced ==> !report_of(end, every, announced, tick, population).extinct,
        tick == end ==> report_of(end, every, announced, tick, population).log_metrics,
        tick % every == 0 ==> report_of(end, every, announced, tick, population).log_metrics,
        tick != end && tick % every != 0 ==> !report_of(end, every, announced, tick, population).log_metrics,
        report_of(end, every, announced, tick, population).progress <==> tick % PROGRESS_EVERY == 0,
{
}

/// How many of the reports for `events` (tick and population after each
/// step, in order) announce extinction, starting from `announced`.
pub open spec fn extinctions(end: u64, every: u64, announced: bool, events: Seq<(u64, nat)>) -> nat
    decreases events.len(),
{
    if events.len() == 0 {
        0
    } else {
        let (tick, population) = events[0];
        let now = report_of(end, every, announced, tick, population).extinct;
        (if now {
            1nat
        } else {
            0nat
        }) + extinctions(end, every, announced || now, events.drop_first())
    }
}

/// However the population rises and falls, a run announces extinction at
/// most once, and never again once it has.
pub proof fn lemma_extinction_announced_once(
    end: u64,
    every: u64,
    announced: bool,
    events: Seq<(u64, nat)>,
)
    ensures
        extinctions(end, every, announced, events) <= 1,
        announced ==> extinctions(end, every, announced, events) == 0,
    decreases events.len(),
{
    if events.len() > 0 {
        let (tick, population) = events[0];
        let now = report_of(end, every, announced, tick, population).extinct;
        lemma_extinction_announced_once(end, every, announced || now, events.drop_first());
    }
}

impl RunSchedule {
    #[verifier::type_invariant]
    closed spec fn every_positive(&self) -> bool {
        self.every >= 1
    }

    /// The tick the run stops at.
    pub closed spec fn spec_end(&self) -> u64 {
        self.end
    }

    /// Metrics are logged on every tick that is a multiple of this.
    pub closed spec fn spec_every(&self) -> u64 {
        self.every
    }

    /// Whether extinction has been announced.
    pub closed spec fn spec_announced(&self) -> bool {
        self.extinct_announced
    }

    /// A run of `ticks` more ticks from tick `start`, logging metrics every
    /// `metrics_every` ticks (every tick if 0).
    pub fn new(start: u64, ticks: u64, metrics_every: u64) -> (s: RunSchedule)
        requires
            start + ticks <= u64::MAX,
        ensures
            s.spec_end() == start + ticks,
            s.spec_every() == (if metrics_every == 0 {
                1
            } else {
                metrics_every
            }),
            !s.spec_announced(),
    {
        let every = if metrics_every == 0 {
            1
        } else {
            metrics_every
        };
        RunSchedule { end: start + ticks, every, extinct_announced: false }
    }

    /// The tick the run stops at.
    pub fn end(&self) -> (r: u64)
        ensures
            r == self.spec_end(),
    {
        self.end
    }

    /// Whether a world at `tick` still has ticks to run.
    pub fn running(&self, tick: u64) -> (r: bool)
        ensures
            r == (tick < self.spec_end()),
    {
        tick < self.end
    }

    /// What to do after the step that reached `tick`, leaving `population`
    /// organisms alive. Metrics are logged on the multiples of the logging
    /// interval and on the last tick; extinction is announced the first
    /// time the population is found empty.
    pub fn after_step(&mut self, tick: u64, population: usize) -> (r: TickReport)
        ensures
            r == report_of(
                old(self).spec_end(),
                old(self).spec_every(),
                old(self).spec_announced(),
                tick,
                population as nat,
            ),
            final(self).spec_end() == old(self).spec_end(),
            final(self).spec_every() == old(self).spec_every(),
            final(self).spec_announced() == (old(self).spec_announced() || r.extinct),
            tick == old(self).spec_end() ==> r.log_metrics,
            r.extinct ==> population == 0,
            population == 0 && !old(self).spec_announced() ==> r.extinct,
            old(self).spec_announced() ==> !r.extinct,
    {
        proof {
            lemma_report_meaning(
                self.end,
                self.every,
                self.extinct_announced,
                tick,
                population as nat,
            );
        }
        proof {
            use_type_invariant(&*self);
        }
        let extinct = population == 0 && !self.extinct_announced;
        if extinct {
            self.extinct_announced = true;
        }
        TickReport {
            log_metrics: tick % self.every == 0 || tick == self.end,
            progress: tick % PROGRESS_EVERY == 0,
            extinct,
        }
    }
}

/// The GIF renderer's plan: frames are captured from tick `start` on,
/// every `every` ticks, through tick `start + ticks`.
pub struct FrameSchedule {
    start: u64,
    ticks: u64,
    every: u64,
}

impl FrameSchedule {
    #[verifier::type_invariant]
    closed spec fn every_positive(&self) -> bool {
        self.every >= 1
    }

    /// The first tick rendered.
    pub closed spec fn spec_start(&self) -> u64 {
        self.start
    }

    /// How many ticks past the first are rendered.
    pub closed spec fn spec_ticks(&self) -> u64 {
        self.ticks
    }

    /// A frame is captured every this many ticks.
    pub closed spec fn spec_every(&self) -> u64 {
        self.every
    }

    /// Frames from tick `start`, every `every` ticks (every tick if 0),
    /// for `ticks` ticks.
    pub fn new(start: u64, ticks: u64, every: u64) -> (s: FrameSchedule)
        ensures
            s.spec_start() == start,
            s.spec_ticks() == ticks,
            s.spec_every() == (if every == 0 {
                1
            } else {
                every
            }),
    {
        let every = if every == 0 {
            1
        } else {
            every
        };
        FrameSchedule { start, ticks, every }
    }

    /// Whether the world at `tick` is still within the rendered span.
    pub fn running(&self, tick: u64) -> (r: bool)
        requires
            tick >= self.spec_start(),
        ensures
            r == (tick - self.spec_start() <= self.spec_ticks()),
    {
        tick - self.start <= self.ticks
    }

    /// Whether the world at `tick` is captured as a frame.
    pub fn frame_due(&self, tick: u64) -> (r: bool)
        requires
            tick >= self.spec_start(),
        ensures
            r == ((tick - self.spec_start()) % (self.spec_every() as int) == 0),
    {
        proof {
            use_type_invariant(self);
        }
        (tick - self.start) % self.every == 0
    }
}

} // verus!
