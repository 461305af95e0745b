//! The probe loop of one host, as the decisions it makes: which step comes
//! next, given what the last step brought. Whoever runs the loop performs
//! each step and reports back.

use crate::hosts::{HostEntry, HostEntryView};
use crate::ping::{outcome_of, outcome_of_run, probe_command, Pinger, PingerView, ProbeCommand};
use crate::ping::{ProbeCommandView, ProbeRun};
use vstd::prelude::*;

verus! {

/// How the probe loops run side by side.
#[derive(Clone, Copy, PartialEq, Eq, Structural, Debug)]
pub enum Strategy {
    /// One thread for each host. The loop of the first host also redraws the
    /// table, after each of its samples.
    Threads,
    /// One cooperative task for each host. The table is redrawn on a cadence
    /// of its own.
    Tasks,
}

/// The seconds between two redraws where the table is redrawn on a cadence
/// of its own.
pub const REDRAW_SECS: u64 = 1;

/// What the last step of a loop brought.
#[derive(Debug)]
pub enum UnitEvent {
    /// The loop has just started.
    Started,
    /// The probe command was run and ended like this.
    Probed(ProbeRun),
    /// The outcome was handed to the table.
    Recorded,
    /// The table was redrawn.
    Drawn,
    /// The pause is over.
    Woke,
}

/// The next step of a loop.
#[derive(Debug)]
pub enum UnitAction {
    /// Run this command and report how it ended.
    Probe(ProbeCommand),
    /// Hand this outcome to the table, for the host under this key.
    Record { key: String, outcome: i32 },
    /// Redraw the table.
    Draw,
    /// Pause for this many seconds.
    Sleep { secs: u64 },
}

/// What a [`UnitAction`] holds, as mathematical values.
pub enum UnitActionView {
    Probe(ProbeCommandView),
    Record { key: Seq<char>, outcome: i32 },
    Draw,
    Sleep { secs: u64 },
}

impl View for UnitAction {
    type V = UnitActionView;

    open spec fn view(&self) -> UnitActionView {
        match self {
            UnitAction::Probe(command) => UnitActionView::Probe(command@),
            UnitAction::Record { key, outcome } => UnitActionView::Record {
                key: key@,
                outcome: *outcome,
            },
            UnitAction::Draw => UnitActionView::Draw,
            UnitAction::Sleep { secs } => UnitActionView::Sleep { secs: *secs },
        }
    }
}

/// The probe loop of one host: how the host is probed, the key under which
/// its outcomes are recorded, whether this loop also redraws the table, and
/// the pause between two probes.
#[derive(Debug)]
pub struct ProbeUnit {
    pub pinger: Pinger,
    pub key: String,
    pub draws: bool,
    pub interval_secs: u64,
}

/// What a [`ProbeUnit`] holds, as mathematical values.
pub struct ProbeUnitView {
    pub pinger: PingerView,
    pub key: Seq<char>,
    pub draws: bool,
    pub interval_secs: u64,
}

impl View for ProbeUnit {
    type V = ProbeUnitView;

    open spec fn view(&self) -> ProbeUnitView {
        ProbeUnitView {
            pinger: self.pinger@,
            key: self.key@,
            draws: self.draws,
            interval_secs: self.interval_secs,
        }
    }
}

/// The probe of `host`: through its relay where it has one.
pub open spec fn pinger_of(host: HostEntryView) -> PingerView {
    PingerView { target_ip: host.ip, via_ssh: host.ssh }
}

/// The loop of `host`, which is at place `index` of the list.
pub open spec fn unit_of(
    host: HostEntryView,
    index: int,
    strategy: Strategy,
    interval_secs: u64,
) -> ProbeUnitView {
    ProbeUnitView {
        pinger: pinger_of(host),
        key: host.ip,
        draws: strategy == Strategy::Threads && index == 0,
        interval_secs,
    }
}

/// The step that follows `event` in the loop `unit`: probe, record the
/// outcome, redraw where this loop does, pause, and again.
pub open spec fn next_action(unit: ProbeUnitView, event: UnitEvent) -> UnitActionView {
    match event {
        UnitEvent::Started => UnitActionView::Probe(probe_command(unit.pinger)),
        UnitEvent::Woke => UnitActionView::Probe(probe_command(unit.pinger)),
        UnitEvent::Probed(run) => UnitActionView::Record {
            key: unit.key,
            outcome: outcome_of_run(run),
        },
        UnitEvent::Recorded => if unit.draws {
            UnitActionView::Draw
        } else {
            UnitActionView::Sleep { secs: unit.interval_secs }
        },
        UnitEvent::Drawn => UnitActionView::Sleep { secs: unit.interval_secs },
    }
}

/// The probe of `host`: through its relay where it has one.
pub fn pinger_for(host: &HostEntry) -> (pinger: Pinger)
    ensures
        pinger@ == pinger_of(host@),
{
    match &host.ssh {
        Some(relay) => Pinger::new_remote(relay.as_str(), host.ip.as_str()),
        None => Pinger::new_local(host.ip.as_str()),
    }
}

impl ProbeUnit {
    /// The loop of `host`, which is at place `index` of the list.
    pub fn new(host: &HostEntry, index: usize, strategy: Strategy, interval_secs: u64) -> (unit:
        ProbeUnit)
        ensures
            unit@ == unit_of(host@, index as int, strategy, interval_secs),
    {
        let draws = match strategy {
            Strategy::Threads => index == 0,
            Strategy::Tasks => false,
        };
        ProbeUnit { pinger: pinger_for(host), key: host.ip.clone(), draws, interval_secs }
    }

    /// The step that follows `event`.
    pub fn step(&self, event: &UnitEvent) -> (action: UnitAction)
        ensures
            action@ == next_action(self@, *event),
    {
        match event {
            UnitEvent::Started => UnitAction::Probe(self.pinger.command()),
            UnitEvent::Woke => UnitAction::Probe(self.pinger.command()),
            UnitEvent::Probed(run) => UnitAction::Record {
                key: self.key.clone(),
                outcome: outcome_of(run),
            },
            UnitEvent::Recorded => {
                if self.draws {
                    UnitAction::Draw
                } else {
                    UnitAction::Sleep { secs: self.interval_secs }
                }
            },
            UnitEvent::Drawn => UnitAction::Sleep { secs: self.interval_secs },
        }
    }
}

/// The views of `units`.
pub open spec fn unit_views(units: Seq<ProbeUnit>) -> Seq<ProbeUnitView> {
    units.map_values(|unit: ProbeUnit| unit@)
}

/// The loops for `hosts`: one for each host, in the order of the list.
pub fn units_for(hosts: &Vec<HostEntry>, strategy: Strategy, interval_secs: u64) -> (units: Vec<
    ProbeUnit,
>)
    ensures
        units.len() == hosts.len(),
        forall|i: int|
            0 <= i < hosts.len() ==> (#[trigger] units[i])@ == unit_of(
                hosts[i]@,
                i,
                strategy,
                interval_secs,
            ),
{
    let mut units: Vec<ProbeUnit> = Vec::new();
    let mut k: usize = 0;
    while k < hosts.len()
        invariant
            k <= hosts.len(),
            units.len() == k,
            forall|i: int|
                0 <= i < k ==> (#[trigger] units[i])@ == unit_of(
                    hosts[i]@,
                    i,
                    strategy,
                    interval_secs,
                ),
        decreases hosts.len() - k,
    {
        units.push(ProbeUnit::new(&hosts[k], k, strategy, interval_secs));
        k += 1;
    }
    units
}

/// The seconds between two redraws of the table on a cadence of its own, or
/// nothing where a probe loop redraws it.
pub fn redraw_cadence(strategy: Strategy) -> (secs: Option<u64>)
    ensures
        secs == match strategy {
            Strategy::Threads => None::<u64>,
            Strategy::Tasks => Some(REDRAW_SECS),
        },
{
    match strategy {
        Strategy::Threads => None,
        Strategy::Tasks => Some(REDRAW_SECS),
    }
}

/// Under either strategy a loop takes the same steps with the same
/// outcomes, but for the redraw: what is probed, what is recorded and under
/// which key, and how long the pause is do not depend on the strategy.
pub proof fn lemma_strategies_agree(host: HostEntryView, index: int, interval_secs: u64, event: UnitEvent)
    requires
        !(event is Recorded),
    ensures
        next_action(unit_of(host, index, Strategy::Threads, interval_secs), event) == next_action(
            unit_of(host, index, Strategy::Tasks, interval_secs),
            event,
        ),
{
}

} // verus!
