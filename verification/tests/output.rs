use butaman::clock::time_text;
use butaman::hosts::HostEntry;
use butaman::output::{bucket, decimal_string, header_string, latest_string, render_row};
use butaman::output::{render_states, rtt_to_colored_bar, strip_string, tier, Tier, BUCKET_WIDTH};
use butaman::state::{State, FAILURE};
use butaman::store::StateStore;

fn host(name: &str, ip: &str) -> HostEntry {
    HostEntry { name: name.to_string(), ip: ip.to_string(), ssh: None }
}

fn state_with(samples: &[i32]) -> State {
    let mut state = State::new("A", 0);
    for (n, sample) in samples.iter().enumerate() {
        state.record(*sample, n as i64 + 1);
    }
    state
}

#[test]
fn a_bucket_is_twenty_milliseconds_wide() {
    assert_eq!(BUCKET_WIDTH, 20);
    assert_eq!(bucket(0), 0);
    assert_eq!(bucket(19), 0);
    assert_eq!(bucket(20), 1);
    assert_eq!(bucket(39), 1);
    assert_eq!(bucket(40), 2);
    assert_eq!(bucket(59), 2);
    assert_eq!(bucket(60), 3);
    assert_eq!(bucket(79), 3);
    assert_eq!(bucket(80), 4);
    assert_eq!(bucket(99), 4);
    assert_eq!(bucket(100), 5);
    assert_eq!(bucket(119), 5);
    assert_eq!(bucket(120), 6);
    assert_eq!(bucket(139), 6);
    assert_eq!(bucket(140), 7);
    assert_eq!(bucket(100000), 7);
    assert_eq!(bucket(i32::MAX), 7);
    assert_eq!(bucket(-1), 0);
    assert_eq!(bucket(i32::MIN), 0);
}

#[test]
fn the_tiers_change_at_forty_and_at_a_hundred() {
    assert_eq!(tier(0), Tier::Good);
    assert_eq!(tier(39), Tier::Good);
    assert_eq!(tier(40), Tier::Moderate);
    assert_eq!(tier(99), Tier::Moderate);
    assert_eq!(tier(100), Tier::Poor);
    assert_eq!(tier(i32::MAX), Tier::Poor);
    assert_eq!(tier(-7), Tier::Good);
}

#[test]
fn a_failure_is_a_grey_cross() {
    assert_eq!(rtt_to_colored_bar(FAILURE), "\x1b[90m×\x1b[0m");
}

#[test]
fn a_bar_is_as_high_as_its_bucket_and_coloured_by_its_tier() {
    assert_eq!(rtt_to_colored_bar(0), "\x1b[32m▁\x1b[0m");
    assert_eq!(rtt_to_colored_bar(19), "\x1b[32m▁\x1b[0m");
    assert_eq!(rtt_to_colored_bar(20), "\x1b[32m▂\x1b[0m");
    assert_eq!(rtt_to_colored_bar(39), "\x1b[32m▂\x1b[0m");
    assert_eq!(rtt_to_colored_bar(40), "\x1b[33m▃\x1b[0m");
    assert_eq!(rtt_to_colored_bar(59), "\x1b[33m▃\x1b[0m");
    assert_eq!(rtt_to_colored_bar(60), "\x1b[33m▄\x1b[0m");
    assert_eq!(rtt_to_colored_bar(80), "\x1b[33m▅\x1b[0m");
    assert_eq!(rtt_to_colored_bar(99), "\x1b[33m▅\x1b[0m");
    assert_eq!(rtt_to_colored_bar(100), "\x1b[31m▆\x1b[0m");
    assert_eq!(rtt_to_colored_bar(119), "\x1b[31m▆\x1b[0m");
    assert_eq!(rtt_to_colored_bar(120), "\x1b[31m▇\x1b[0m");
    assert_eq!(rtt_to_colored_bar(139), "\x1b[31m▇\x1b[0m");
    assert_eq!(rtt_to_colored_bar(140), "\x1b[31m█\x1b[0m");
    assert_eq!(rtt_to_colored_bar(i32::MAX), "\x1b[31m█\x1b[0m");
}

#[test]
fn a_negative_sample_that_is_no_failure_gets_the_lowest_green_bar() {
    assert_eq!(rtt_to_colored_bar(-2), "\x1b[32m▁\x1b[0m");
    assert_eq!(rtt_to_colored_bar(i32::MIN), "\x1b[32m▁\x1b[0m");
}

#[test]
fn numbers_are_written_in_decimal_digits() {
    assert_eq!(decimal_string(0), "0");
    assert_eq!(decimal_string(7), "7");
    assert_eq!(decimal_string(10), "10");
    assert_eq!(decimal_string(1234567890), "1234567890");
    assert_eq!(decimal_string(u64::MAX), "18446744073709551615");
    for n in [1u64, 9, 11, 99, 100, 101, 999, 1000, 65535, 4294967296] {
        assert_eq!(decimal_string(n), format!("{}", n));
    }
}

#[test]
fn the_newest_sample_is_shown_in_milliseconds() {
    assert_eq!(latest_string(&state_with(&[17])), "17ms");
    assert_eq!(latest_string(&state_with(&[FAILURE, 0])), "0ms");
    assert_eq!(latest_string(&state_with(&[1, 2, 2147483647])), "2147483647ms");
}

#[test]
fn a_failure_or_no_sample_is_shown_as_a_cross() {
    assert_eq!(latest_string(&state_with(&[])), "×");
    assert_eq!(latest_string(&state_with(&[FAILURE])), "×");
    assert_eq!(latest_string(&state_with(&[5, FAILURE])), "×");
}

#[test]
fn a_negative_sample_that_is_no_failure_is_shown_with_its_sign() {
    assert_eq!(latest_string(&state_with(&[-5])), "-5ms");
    assert_eq!(latest_string(&state_with(&[i32::MIN])), "-2147483648ms");
}

#[test]
fn the_strip_shows_the_newest_sample_first() {
    assert_eq!(strip_string(&state_with(&[])), "");
    assert_eq!(strip_string(&state_with(&[5])), "\x1b[32m▁\x1b[0m");
    assert_eq!(
        strip_string(&state_with(&[5, FAILURE, 150])),
        "\x1b[31m█\x1b[0m \x1b[90m×\x1b[0m \x1b[32m▁\x1b[0m"
    );
}

#[test]
fn the_strip_is_the_bars_joined_by_single_spaces() {
    let samples: Vec<i32> = (0..25).map(|n| n * 9 - 1).collect();
    let state = state_with(&samples);
    let expected = state
        .history
        .iter()
        .rev()
        .map(|rtt| rtt_to_colored_bar(*rtt))
        .collect::<Vec<_>>()
        .join(" ");
    assert_eq!(strip_string(&state), expected);
    assert_eq!(strip_string(&state).matches(' ').count(), 19);
}

#[test]
fn the_header_names_the_columns() {
    assert_eq!(
        header_string(),
        format!(
            "{:<4} {:<20} {:<30} | {:<19} | {:<5} | {:<19} | History",
            "No.", "Name", "Host", "Time", "RTT", "Last OK"
        )
    );
    assert_eq!(
        header_string(),
        "No.  Name                 Host                           | Time                | RTT   | Last OK             | History"
    );
}

#[test]
fn a_row_lines_up_with_the_header() {
    let state = state_with(&[5, 17]);
    let row = render_row(1, "10.0.0.1", &state, "2015-05-15 09:00:00", "2015-05-15 09:00:01");
    assert_eq!(
        row,
        format!(
            "{:<4} {:<20} {:<30} | {:<19} | {:<5} | {:<19} | {}",
            1,
            "A",
            "10.0.0.1",
            "2015-05-15 09:00:00",
            "17ms",
            "2015-05-15 09:00:01",
            "\x1b[32m▁\x1b[0m \x1b[32m▁\x1b[0m"
        )
    );
    assert_eq!(
        row,
        "1    A                    10.0.0.1                       | 2015-05-15 09:00:00 | 17ms  | 2015-05-15 09:00:01 | \x1b[32m▁\x1b[0m \x1b[32m▁\x1b[0m"
    );
}

#[test]
fn a_row_of_a_host_that_never_answered() {
    let state = state_with(&[FAILURE]);
    let row = render_row(12, "fe80::1", &state, "2015-05-15 09:00:00", "--:--:--");
    assert_eq!(
        row,
        format!(
            "{:<4} {:<20} {:<30} | {:<19} | {:<5} | {:<19} | {}",
            12, "A", "fe80::1", "2015-05-15 09:00:00", "×", "--:--:--", "\x1b[90m×\x1b[0m"
        )
    );
}

#[test]
fn what_is_wider_than_its_column_is_not_cut() {
    let mut state = State::new("a name of more than twenty characters", 0);
    state.record(123456, 1);
    let key = "a-host-name-of-more-than-thirty-characters.example.org";
    let row = render_row(12345, key, &state, "a time of more than nineteen", "x");
    assert_eq!(
        row,
        format!(
            "{:<4} {:<20} {:<30} | {:<19} | {:<5} | {:<19} | {}",
            12345,
            "a name of more than twenty characters",
            key,
            "a time of more than nineteen",
            "123456ms",
            "x",
            "\x1b[31m█\x1b[0m"
        )
    );
}

#[test]
fn widths_count_characters_and_not_bytes() {
    let state = State::new("ホスト", 0);
    let row = render_row(1, "10.0.0.1", &state, "t", "--:--:--");
    assert_eq!(
        row,
        format!(
            "{:<4} {:<20} {:<30} | {:<19} | {:<5} | {:<19} | {}",
            1, "ホスト", "10.0.0.1", "t", "×", "--:--:--", ""
        )
    );
}

#[test]
fn the_screen_is_cleared_and_shows_the_header_and_a_row_for_each_host() {
    let hosts = vec![host("A", "10.0.0.1"), host("B", "10.0.0.2")];
    let mut store = StateStore::new(&hosts, 1431648000);
    store.apply("10.0.0.1", 17, 1431648060);
    store.apply("10.0.0.1", FAILURE, 1431648061);
    let a = store.entry(0).unwrap().1;
    let b = store.entry(1).unwrap().1;
    let expected = format!(
        "\x1b[2J\x1b[H{}\n{}\n{}\n",
        header_string(),
        render_row(1, "10.0.0.1", a, "2015-05-15 09:01:01", "2015-05-15 09:01:00"),
        render_row(2, "10.0.0.2", b, "2015-05-15 09:00:00", "--:--:--"),
    );
    assert_eq!(render_states(&store), expected);
    assert_eq!(time_text(a.last_update), "2015-05-15 09:01:01");
}

#[test]
fn the_screen_of_an_empty_table_is_the_header_alone() {
    let store = StateStore::new(&Vec::new(), 0);
    assert_eq!(render_states(&store), format!("\x1b[2J\x1b[H{}\n", header_string()));
}

#[test]
fn the_rows_come_in_the_order_of_the_table() {
    let hosts = vec![host("z", "10.0.0.9"), host("a", "10.0.0.1"), host("m", "10.0.0.5")];
    let store = StateStore::new(&hosts, 0);
    let screen = render_states(&store);
    let lines: Vec<&str> = screen.lines().collect();
    assert_eq!(lines.len(), 4);
    assert!(lines[1].starts_with("1    z "));
    assert!(lines[2].starts_with("2    a "));
    assert!(lines[3].starts_with("3    m "));
}
