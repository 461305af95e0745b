use butaman::ping::{outcome_of, Pinger, ProbeRun};
use butaman::state::FAILURE;

fn strings(words: &[&str]) -> Vec<String> {
    words.iter().map(|w| w.to_string()).collect()
}

#[test]
fn a_local_pinger_has_no_relay() {
    let pinger = Pinger::new_local("10.0.0.1");
    assert_eq!(pinger.target_ip, "10.0.0.1");
    assert_eq!(pinger.via_ssh, None);
}

#[test]
fn a_remote_pinger_keeps_its_relay() {
    let pinger = Pinger::new_remote("relay@10.0.0.9", "10.0.0.2");
    assert_eq!(pinger.target_ip, "10.0.0.2");
    assert_eq!(pinger.via_ssh, Some("relay@10.0.0.9".to_string()));
}

#[test]
fn new_is_a_local_pinger() {
    let pinger = Pinger::new("8.8.8.8");
    assert_eq!(pinger.target_ip, "8.8.8.8");
    assert_eq!(pinger.via_ssh, None);
}

#[test]
fn a_colon_makes_an_ipv6_address() {
    assert!(!Pinger::new_local("10.0.0.1").is_ipv6());
    assert!(Pinger::new_local("fe80::1").is_ipv6());
    assert!(Pinger::new_local("::1").is_ipv6());
    assert!(Pinger::new_local("host:").is_ipv6());
    assert!(!Pinger::new_local("").is_ipv6());
    assert!(!Pinger::new_local("example.org").is_ipv6());
    assert!(Pinger::new_remote("relay", "2001:db8::2").is_ipv6());
    assert!(!Pinger::new_remote("re:lay", "10.0.0.2").is_ipv6());
}

#[test]
fn the_local_command_sends_one_echo_and_waits_a_second() {
    let command = Pinger::new_local("10.0.0.1").command();
    assert_eq!(command.program, "ping");
    assert_eq!(command.args, strings(&["-c", "1", "-W", "1", "10.0.0.1"]));
}

#[test]
fn the_local_command_asks_for_ipv6_where_the_address_does() {
    let command = Pinger::new_local("fe80::1").command();
    assert_eq!(command.program, "ping");
    assert_eq!(command.args, strings(&["-6", "-c", "1", "-W", "1", "fe80::1"]));
}

#[test]
fn the_relayed_command_runs_the_same_probe_on_the_relay() {
    let command = Pinger::new_remote("relay@10.0.0.9", "10.0.0.2").command();
    assert_eq!(command.program, "ssh");
    assert_eq!(
        command.args,
        strings(&["-F", "/dev/null", "relay@10.0.0.9", "ping -c 1 -W 1 10.0.0.2"])
    );
}

#[test]
fn the_relayed_command_asks_for_ipv6_where_the_address_does() {
    let command = Pinger::new_remote("relay@10.0.0.9", "2001:db8::2").command();
    assert_eq!(command.program, "ssh");
    assert_eq!(
        command.args,
        strings(&["-F", "/dev/null", "relay@10.0.0.9", "ping -6 -c 1 -W 1 2001:db8::2"])
    );
}

#[test]
fn a_probe_that_was_not_launched_is_a_failure() {
    assert_eq!(outcome_of(&ProbeRun::NotLaunched), FAILURE);
}

#[test]
fn a_probe_that_exits_without_success_is_a_failure() {
    let run = ProbeRun::Exited { success: false, stdout: b"64 bytes: time=17.4 ms\n".to_vec() };
    assert_eq!(outcome_of(&run), FAILURE);
}

#[test]
fn a_successful_probe_reports_what_it_printed() {
    let run = ProbeRun::Exited { success: true, stdout: b"64 bytes: time=17.4 ms\n".to_vec() };
    assert_eq!(outcome_of(&run), 17);
}

#[test]
fn a_successful_probe_that_printed_no_time_is_a_failure() {
    let run = ProbeRun::Exited { success: true, stdout: b"nothing to see\n".to_vec() };
    assert_eq!(outcome_of(&run), FAILURE);
    let run = ProbeRun::Exited { success: true, stdout: Vec::new() };
    assert_eq!(outcome_of(&run), FAILURE);
}

#[test]
fn output_that_is_not_utf8_is_a_failure() {
    let mut stdout = b"64 bytes: time=17.4 ms\n".to_vec();
    stdout.push(0xff);
    let run = ProbeRun::Exited { success: true, stdout };
    assert_eq!(outcome_of(&run), FAILURE);
}

#[test]
fn output_in_utf8_beyond_ascii_is_read() {
    let stdout = "réponse de 10.0.0.1 : time=3.9 ms\n".as_bytes().to_vec();
    let run = ProbeRun::Exited { success: true, stdout };
    assert_eq!(outcome_of(&run), 3);
}
