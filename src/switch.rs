use crate::level::Level;
use vstd::prelude::*;

verus! {

/// Delay after an edge before the tilt switch's level is sampled.
pub const SETTLE_MS: u64 = 10;

/// Delay after a reported change before the next edge may be processed.
pub const HOLD_MS: u64 = 500;

/// The window that one reported tilt change occupies: no other edge that
/// arrives within it is reported.
pub const TILT_WINDOW_MS: u64 = 510;

/// The two indicators driven by the tilt switch, and whether the change is
/// a tilt (the line settled low).
#[derive(Clone, Copy, Debug, PartialEq, Eq, Structural)]
pub struct TiltIndication {
    pub led_1: bool,
    pub led_2: bool,
    pub tilted: bool,
}

/// The indication for a settled level: upright (high) lights the first
/// indicator, tilted (low) lights the second.
pub open spec fn tilt_indication(level: Level) -> TiltIndication {
    match level {
        Level::High => TiltIndication { led_1: true, led_2: false, tilted: false },
        Level::Low => TiltIndication { led_1: false, led_2: true, tilted: true },
    }
}

/// Whether an edge at `now` is reported, given the time of the last reported
/// edge: always for the first one, and otherwise only once the window of the
/// last one has passed.
pub open spec fn edge_accepted(last: Option<u64>, now: u64) -> bool {
    match last {
        None => true,
        Some(t) => now >= t + TILT_WINDOW_MS,
    }
}

/// The time of the last reported edge after an edge at `now`.
pub open spec fn after_edge(last: Option<u64>, now: u64) -> Option<u64> {
    if edge_accepted(last, now) {
        Some(now)
    } else {
        last
    }
}

/// How many of the edges at `times`, taken in order, are reported.
pub open spec fn reported_edges(last: Option<u64>, times: Seq<u64>) -> nat
    decreases times.len(),
{
    if times.len() == 0 {
        0
    } else {
        (if edge_accepted(last, times[0]) {
            1nat
        } else {
            0nat
        }) + reported_edges(after_edge(last, times[0]), times.drop_first())
    }
}

/// Debounces a mechanical tilt switch: each edge is reported with the level
/// the line settled to, unless it falls within the window of the last
/// reported one.
pub struct TiltSwitch {
    last_reported: Option<u64>,
}

impl View for TiltSwitch {
    type V = Option<u64>;

    closed spec fn view(&self) -> Option<u64> {
        self.last_reported
    }
}

impl TiltSwitch {
    /// A switch that has reported nothing yet.
    pub fn new() -> (r: Self)
        ensures
            r@ == None::<u64>,
    {
        TiltSwitch { last_reported: None }
    }

    /// Handles an edge seen at `now_ms` (milliseconds on a monotonic clock)
    /// whose line settled, after the settle delay, to `settled`. Returns the
    /// indication to show, or none when the edge is a bounce within the
    /// window of the last reported change.
    pub fn on_edge(&mut self, now_ms: u64, settled: Level) -> (r: Option<TiltIndication>)
        ensures
            edge_accepted(old(self)@, now_ms) ==> r == Some(tilt_indication(settled)),
            !edge_accepted(old(self)@, now_ms) ==> r == None::<TiltIndication>,
            final(self)@ == after_edge(old(self)@, now_ms),
    {
        let accepted = match self.last_reported {
            None => true,
            Some(t) => now_ms >= t && now_ms - t >= TILT_WINDOW_MS,
        };
        if accepted {
            self.last_reported = Some(now_ms);
            Some(
                match settled {
                    Level::High => TiltIndication { led_1: true, led_2: false, tilted: false },
                    Level::Low => TiltIndication { led_1: false, led_2: true, tilted: true },
                },
            )
        } else {
            None
        }
    }
}

/// Once an edge at `t` was reported, edges before `t + TILT_WINDOW_MS` are
/// not.
proof fn lemma_quiet_within_window(t: u64, times: Seq<u64>)
    requires
        forall|i: int| 0 <= i < times.len() ==> #[trigger] times[i] < t + TILT_WINDOW_MS,
    ensures
        reported_edges(Some(t), times) == 0,
    decreases times.len(),
{
    if times.len() > 0 {
        let rest = times.drop_first();
        assert forall|i: int| 0 <= i < rest.len() implies #[trigger] rest[i] < t + TILT_WINDOW_MS by {
            assert(rest[i] == times[i + 1]);
        }
        lemma_quiet_within_window(t, rest);
    }
}

/// A burst of edges that all fall within one window, such as the bounces of
/// a contact around one transition, is reported at most once, whatever
/// came before it.
pub proof fn lemma_burst_reported_once(last: Option<u64>, start: u64, times: Seq<u64>)
    requires
        forall|i: int|
            0 <= i < times.len() ==> start <= #[trigger] times[i] < start + TILT_WINDOW_MS,
    ensures
        reported_edges(last, times) <= 1,
    decreases times.len(),
{
    if times.len() > 0 {
        let rest = times.drop_first();
        assert forall|i: int| 0 <= i < rest.len() implies start <= #[trigger] rest[i] < start
            + TILT_WINDOW_MS by {
            assert(rest[i] == times[i + 1]);
        }
        if edge_accepted(last, times[0]) {
            assert forall|i: int| 0 <= i < rest.len() implies #[trigger] rest[i] < times[0]
                + TILT_WINDOW_MS by {
                assert(rest[i] == times[i + 1]);
            }
            lemma_quiet_within_window(times[0], rest);
        } else {
            lemma_burst_reported_once(last, start, rest);
        }
    }
}

/// The two indicators of a slide switch, toggled together on every edge.
#[derive(Clone, Copy, Debug, PartialEq, Eq, Structural)]
pub struct SlideIndicators {
    pub led_1: bool,
    pub led_2: bool,
}

impl SlideIndicators {
    /// The indicators at start-up for the switch's level: a low line lights
    /// only the second indicator, a high line lights both.
    pub fn initial(level: Level) -> (r: Self)
        ensures
            level == Level::Low ==> !r.led_1 && r.led_2,
            level == Level::High ==> r.led_1 && r.led_2,
    {
        match level {
            Level::Low => SlideIndicators { led_1: false, led_2: true },
            Level::High => SlideIndicators { led_1: true, led_2: true },
        }
    }

    /// Toggles both indicators, as each edge of the switch does.
    pub fn toggle(&mut self)
        ensures
            final(self).led_1 == !old(self).led_1,
            final(self).led_2 == !old(self).led_2,
    {
        self.led_1 = !self.led_1;
        self.led_2 = !self.led_2;
    }
}

} // verus!
