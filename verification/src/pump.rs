//! The scheduled watering decision.

use vstd::prelude::*;

verus! {

/// What a scheduled watering does once its interval has elapsed.
pub enum WateringAction {
    /// Run the pump for this many seconds.
    RunPump(u64),
    /// The float switch reports no water: leave the pump off.
    Skip,
}

/// The scheduled watering runs the pump for `duration_secs` when the float switch reads high,
/// and skips the watering otherwise.
pub fn watering_action(float_high: bool, duration_secs: u64) -> (a: WateringAction)
    ensures
        a == if float_high { WateringAction::RunPump(duration_secs) } else { WateringAction::Skip },
{
    if float_high {
        WateringAction::RunPump(duration_secs)
    } else {
        WateringAction::Skip
    }
}

/// What the watering task has just learnt.
pub enum WateringEvent {
    /// At the start of a cycle: the configured interval and pump duration.
    ConfigRead { interval_secs: u64, duration_secs: u64 },
    /// After the interval: the float switch level.
    FloatRead(bool),
}

/// What the watering task does next.
pub enum WateringCommand {
    /// Sleep this many seconds, then read the float switch.
    Sleep(u64),
    /// Run the pump for this many seconds.
    RunPump(u64),
    /// Leave the pump off this cycle.
    Skip,
}

/// The watering task: the pump duration read at the start of the current cycle, while the
/// task sleeps through the interval.
pub struct WateringTask {
    pub pending_duration: Option<u64>,
}

impl WateringTask {
    /// The task's state and command after `event`: reading the configuration starts a cycle by
    /// sleeping through its interval; reading the float switch ends it, running the pump for
    /// the duration read at the start of the cycle exactly when the float is high. A float
    /// reading outside a cycle never runs the pump.
    pub open spec fn step_spec(self, event: WateringEvent) -> (WateringTask, WateringCommand) {
        match event {
            WateringEvent::ConfigRead { interval_secs, duration_secs } => (
                WateringTask { pending_duration: Some(duration_secs) },
                WateringCommand::Sleep(interval_secs),
            ),
            WateringEvent::FloatRead(high) => (
                WateringTask { pending_duration: None },
                match self.pending_duration {
                    Some(d) => if high { WateringCommand::RunPump(d) } else { WateringCommand::Skip },
                    None => WateringCommand::Skip,
                },
            ),
        }
    }

    /// A task between cycles.
    pub fn new() -> (t: Self)
        ensures
            t.pending_duration is None,
    {
        WateringTask { pending_duration: None }
    }

    /// Takes in `event` and gives the next command.
    pub fn step(&mut self, event: WateringEvent) -> (c: WateringCommand)
        ensures
            (*final(self), c) == old(self).step_spec(event),
    {
        match event {
            WateringEvent::ConfigRead { interval_secs, duration_secs } => {
                self.pending_duration = Some(duration_secs);
                WateringCommand::Sleep(interval_secs)
            },
            WateringEvent::FloatRead(high) => {
                let c = match self.pending_duration {
                    Some(d) => match watering_action(high, d) {
                        WateringAction::RunPump(d) => WateringCommand::RunPump(d),
                        WateringAction::Skip => WateringCommand::Skip,
                    },
                    None => WateringCommand::Skip,
                };
                self.pending_duration = None;
                c
            },
        }
    }
}

/// The task's state and the commands it gives, from state `t`, for the events `events` in order.
pub open spec fn watering_run(t: WateringTask, events: Seq<WateringEvent>) -> (WateringTask, Seq<WateringCommand>)
    decreases events.len(),
{
    if events.len() == 0 {
        (t, Seq::empty())
    } else {
        let (t1, cmds) = watering_run(t, events.drop_last());
        let (t2, c) = t1.step_spec(events.last());
        (t2, cmds.push(c))
    }
}

/// What one watering cycle observes: the configuration read at its start and the float level
/// read after the interval.
pub struct WateringCycle {
    pub interval_secs: u64,
    pub duration_secs: u64,
    pub float_high: bool,
}

/// The events of a run of cycles, two per cycle.
pub open spec fn cycle_events(cs: Seq<WateringCycle>) -> Seq<WateringEvent>
    decreases cs.len(),
{
    if cs.len() == 0 {
        Seq::empty()
    } else {
        let c = cs.last();
        cycle_events(cs.drop_last()).push(
            WateringEvent::ConfigRead { interval_secs: c.interval_secs, duration_secs: c.duration_secs },
        ).push(WateringEvent::FloatRead(c.float_high))
    }
}

/// The commands a run of cycles should give: each cycle sleeps through the interval read at its
/// start, then runs the pump for the duration read at its start if and only if the float is
/// high.
pub open spec fn cycle_commands(cs: Seq<WateringCycle>) -> Seq<WateringCommand>
    decreases cs.len(),
{
    if cs.len() == 0 {
        Seq::empty()
    } else {
        let c = cs.last();
        cycle_commands(cs.drop_last()).push(WateringCommand::Sleep(c.interval_secs)).push(
            if c.float_high { WateringCommand::RunPump(c.duration_secs) } else { WateringCommand::Skip },
        )
    }
}

/// Over any number of cycles, a watering task started between cycles gives exactly the
/// commands of `cycle_commands`, and is between cycles again after each cycle.
pub proof fn lemma_watering_run(cs: Seq<WateringCycle>)
    ensures
        watering_run(WateringTask { pending_duration: None }, cycle_events(cs))
            == (WateringTask { pending_duration: None }, cycle_commands(cs)),
    decreases cs.len(),
{
    if cs.len() > 0 {
        let prev = cs.drop_last();
        lemma_watering_run(prev);
        let e = cycle_events(cs);
        let c = cs.last();
        let e1 = WateringEvent::ConfigRead { interval_secs: c.interval_secs, duration_secs: c.duration_secs };
        assert(e.drop_last() == cycle_events(prev).push(e1));
        assert(e.drop_last().drop_last() =~= cycle_events(prev));
        assert(e.drop_last().last() == e1);
        assert(e.last() == WateringEvent::FloatRead(c.float_high));
        let t0 = WateringTask { pending_duration: None };
        let r1 = watering_run(t0, e.drop_last());
        assert(r1 == (WateringTask { pending_duration: Some(c.duration_secs) },
            cycle_commands(prev).push(WateringCommand::Sleep(c.interval_secs))));
        let r2 = watering_run(t0, e);
        assert(r2.0 == t0);
        assert(r2.1 =~= cycle_commands(cs));
    }
}

/// In a run of cycles, cycle `k` gives two commands: a sleep for the interval read at its start,
/// then the pump for the duration read at its start when the float read high, and otherwise no
/// pumping: the pump never runs in a cycle whose float reading was low.
pub proof fn lemma_cycle_commands(cs: Seq<WateringCycle>, k: int)
    requires
        0 <= k < cs.len(),
    ensures
        cycle_commands(cs).len() == 2 * cs.len(),
        cycle_commands(cs)[2 * k] == WateringCommand::Sleep(cs[k].interval_secs),
        cycle_commands(cs)[2 * k + 1] == if cs[k].float_high {
            WateringCommand::RunPump(cs[k].duration_secs)
        } else {
            WateringCommand::Skip
        },
    decreases cs.len(),
{
    lemma_cycle_commands_len(cs);
    if k < cs.len() - 1 {
        let prev = cs.drop_last();
        lemma_cycle_commands(prev, k);
        assert(prev[k] == cs[k]);
    }
}

proof fn lemma_cycle_commands_len(cs: Seq<WateringCycle>)
    ensures
        cycle_commands(cs).len() == 2 * cs.len(),
    decreases cs.len(),
{
    if cs.len() > 0 {
        lemma_cycle_commands_len(cs.drop_last());
    }
}

} // verus!
