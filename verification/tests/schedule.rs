use butaman::hosts::HostEntry;
use butaman::ping::ProbeRun;
use butaman::schedule::{pinger_for, redraw_cadence, units_for, ProbeUnit, Strategy, UnitAction};
use butaman::schedule::{UnitEvent, REDRAW_SECS};
use butaman::state::FAILURE;

fn host(name: &str, ip: &str, ssh: Option<&str>) -> HostEntry {
    HostEntry { name: name.to_string(), ip: ip.to_string(), ssh: ssh.map(|s| s.to_string()) }
}

fn two_hosts() -> Vec<HostEntry> {
    vec![host("A", "10.0.0.1", None), host("B", "10.0.0.2", Some("relay@10.0.0.9"))]
}

fn strings(words: &[&str]) -> Vec<String> {
    words.iter().map(|w| w.to_string()).collect()
}

fn good_run() -> ProbeRun {
    ProbeRun::Exited { success: true, stdout: b"64 bytes: time=17.4 ms\n".to_vec() }
}

#[test]
fn a_host_with_a_relay_is_probed_through_it() {
    let pinger = pinger_for(&host("B", "10.0.0.2", Some("relay@10.0.0.9")));
    assert_eq!(pinger.target_ip, "10.0.0.2");
    assert_eq!(pinger.via_ssh, Some("relay@10.0.0.9".to_string()));
    let pinger = pinger_for(&host("A", "10.0.0.1", None));
    assert_eq!(pinger.target_ip, "10.0.0.1");
    assert_eq!(pinger.via_ssh, None);
}

#[test]
fn there_is_one_loop_for_each_host() {
    let units = units_for(&two_hosts(), Strategy::Threads, 1);
    assert_eq!(units.len(), 2);
    assert_eq!(units[0].key, "10.0.0.1");
    assert_eq!(units[0].pinger.target_ip, "10.0.0.1");
    assert_eq!(units[0].pinger.via_ssh, None);
    assert_eq!(units[0].interval_secs, 1);
    assert_eq!(units[1].key, "10.0.0.2");
    assert_eq!(units[1].pinger.target_ip, "10.0.0.2");
    assert_eq!(units[1].pinger.via_ssh, Some("relay@10.0.0.9".to_string()));
    assert_eq!(units[1].interval_secs, 1);
    assert!(units_for(&Vec::new(), Strategy::Tasks, 1).is_empty());
}

#[test]
fn with_threads_the_first_loop_draws_and_no_other() {
    let units = units_for(&two_hosts(), Strategy::Threads, 1);
    assert!(units[0].draws);
    assert!(!units[1].draws);
    assert_eq!(redraw_cadence(Strategy::Threads), None);
}

#[test]
fn with_tasks_no_loop_draws_and_the_table_has_its_own_cadence() {
    let units = units_for(&two_hosts(), Strategy::Tasks, 1);
    assert!(!units[0].draws);
    assert!(!units[1].draws);
    assert_eq!(REDRAW_SECS, 1);
    assert_eq!(redraw_cadence(Strategy::Tasks), Some(1));
}

#[test]
fn a_loop_starts_with_a_probe() {
    let unit = ProbeUnit::new(&host("A", "10.0.0.1", None), 0, Strategy::Threads, 1);
    match unit.step(&UnitEvent::Started) {
        UnitAction::Probe(command) => {
            assert_eq!(command.program, "ping");
            assert_eq!(command.args, strings(&["-c", "1", "-W", "1", "10.0.0.1"]));
        }
        _ => panic!("a probe was expected"),
    }
}

#[test]
fn a_loop_probes_again_when_it_wakes() {
    let unit =
        ProbeUnit::new(&host("B", "10.0.0.2", Some("relay@10.0.0.9")), 1, Strategy::Tasks, 1);
    match unit.step(&UnitEvent::Woke) {
        UnitAction::Probe(command) => {
            assert_eq!(command.program, "ssh");
            assert_eq!(
                command.args,
                strings(&["-F", "/dev/null", "relay@10.0.0.9", "ping -c 1 -W 1 10.0.0.2"])
            );
        }
        _ => panic!("a probe was expected"),
    }
}

#[test]
fn after_a_probe_its_outcome_is_recorded_under_the_hosts_key() {
    let unit = ProbeUnit::new(&host("A", "10.0.0.1", None), 0, Strategy::Threads, 1);
    match unit.step(&UnitEvent::Probed(good_run())) {
        UnitAction::Record { key, outcome } => {
            assert_eq!(key, "10.0.0.1");
            assert_eq!(outcome, 17);
        }
        _ => panic!("a record was expected"),
    }
    match unit.step(&UnitEvent::Probed(ProbeRun::NotLaunched)) {
        UnitAction::Record { key, outcome } => {
            assert_eq!(key, "10.0.0.1");
            assert_eq!(outcome, FAILURE);
        }
        _ => panic!("a record was expected"),
    }
}

#[test]
fn the_loop_that_draws_redraws_after_recording_and_then_pauses() {
    let unit = ProbeUnit::new(&host("A", "10.0.0.1", None), 0, Strategy::Threads, 3);
    assert!(matches!(unit.step(&UnitEvent::Recorded), UnitAction::Draw));
    assert!(matches!(unit.step(&UnitEvent::Drawn), UnitAction::Sleep { secs: 3 }));
}

#[test]
fn a_loop_that_does_not_draw_pauses_after_recording() {
    let unit = ProbeUnit::new(&host("B", "10.0.0.2", None), 1, Strategy::Threads, 3);
    assert!(matches!(unit.step(&UnitEvent::Recorded), UnitAction::Sleep { secs: 3 }));
    let unit = ProbeUnit::new(&host("A", "10.0.0.1", None), 0, Strategy::Tasks, 5);
    assert!(matches!(unit.step(&UnitEvent::Recorded), UnitAction::Sleep { secs: 5 }));
}

#[test]
fn a_whole_turn_of_a_loop() {
    let unit = ProbeUnit::new(&host("A", "10.0.0.1", None), 0, Strategy::Threads, 1);
    let mut event = UnitEvent::Started;
    let mut trace = Vec::new();
    for _ in 0..9 {
        let action = unit.step(&event);
        event = match &action {
            UnitAction::Probe(_) => {
                trace.push("probe");
                UnitEvent::Probed(good_run())
            }
            UnitAction::Record { .. } => {
                trace.push("record");
                UnitEvent::Recorded
            }
            UnitAction::Draw => {
                trace.push("draw");
                UnitEvent::Drawn
            }
            UnitAction::Sleep { .. } => {
                trace.push("sleep");
                UnitEvent::Woke
            }
        };
    }
    assert_eq!(
        trace,
        vec!["probe", "record", "draw", "sleep", "probe", "record", "draw", "sleep", "probe"]
    );
}
