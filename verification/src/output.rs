//! The table of hosts as text for a terminal: one row for each host, with
//! its latest sample and a strip of coloured bars for its history.

use crate::clock::{no_time_text, shown_time, time_text};
use crate::state::{State, StateView, FAILURE};
use crate::store::{pair_views, StateStore};
use vstd::prelude::*;
use vstd::string::StringExecFns;

verus! {

/// How good a latency is.
#[derive(Clone, Copy, PartialEq, Eq, Structural, Debug)]
pub enum Tier {
    /// Under 40 ms.
    Good,
    /// From 40 ms, under 100 ms.
    Moderate,
    /// 100 ms and more.
    Poor,
}

/// The width of a bucket of latencies, in milliseconds.
pub const BUCKET_WIDTH: i32 = 20;

/// The magnitude bucket of `rtt`, from 0 to 7: one for every 20 ms, the last
/// for all from 140 ms on, the first also for what is negative.
pub open spec fn bucket_of(rtt: i32) -> nat {
    if rtt < 0 {
        0
    } else if rtt >= 7 * BUCKET_WIDTH {
        7
    } else {
        (rtt / BUCKET_WIDTH) as nat
    }
}

/// The tier of `rtt`.
pub open spec fn tier_of(rtt: i32) -> Tier {
    if rtt < 40 {
        Tier::Good
    } else if rtt < 100 {
        Tier::Moderate
    } else {
        Tier::Poor
    }
}

/// The bar shown for a bucket: an eighth of a block for each step.
pub open spec fn bucket_glyph(bucket: nat) -> char {
    if bucket == 0 {
        '▁'
    } else if bucket == 1 {
        '▂'
    } else if bucket == 2 {
        '▃'
    } else if bucket == 3 {
        '▄'
    } else if bucket == 4 {
        '▅'
    } else if bucket == 5 {
        '▆'
    } else if bucket == 6 {
        '▇'
    } else {
        '█'
    }
}

/// The mark shown for a failed probe.
pub open spec fn failure_glyph() -> char {
    '×'
}

/// The escape sequence that sets the colour of a tier: green, yellow, red.
pub open spec fn tier_color(tier: Tier) -> Seq<char> {
    match tier {
        Tier::Good => "\x1b[32m"@,
        Tier::Moderate => "\x1b[33m"@,
        Tier::Poor => "\x1b[31m"@,
    }
}

/// The escape sequence that sets grey, the colour of a failure.
pub open spec fn failure_color() -> Seq<char> {
    "\x1b[90m"@
}

/// The escape sequence that ends a colour.
pub open spec fn color_reset() -> Seq<char> {
    "\x1b[0m"@
}

/// The coloured bar shown for the sample `rtt`.
pub open spec fn bar_text(rtt: i32) -> Seq<char> {
    if rtt == FAILURE {
        failure_color() + seq![failure_glyph()] + color_reset()
    } else {
        tier_color(tier_of(rtt)) + seq![bucket_glyph(bucket_of(rtt))] + color_reset()
    }
}

/// The magnitude bucket of `rtt`.
pub fn bucket(rtt: i32) -> (b: u8)
    ensures
        b == bucket_of(rtt),
        b <= 7,
{
    if rtt < BUCKET_WIDTH {
        0
    } else if rtt < 2 * BUCKET_WIDTH {
        1
    } else if rtt < 3 * BUCKET_WIDTH {
        2
    } else if rtt < 4 * BUCKET_WIDTH {
        3
    } else if rtt < 5 * BUCKET_WIDTH {
        4
    } else if rtt < 6 * BUCKET_WIDTH {
        5
    } else if rtt < 7 * BUCKET_WIDTH {
        6
    } else {
        7
    }
}

/// The tier of `rtt`.
pub fn tier(rtt: i32) -> (t: Tier)
    ensures
        t == tier_of(rtt),
{
    if rtt < 40 {
        Tier::Good
    } else if rtt < 100 {
        Tier::Moderate
    } else {
        Tier::Poor
    }
}

/// The bar of bucket `b`, as text.
fn glyph_str(b: u8) -> (glyph: &'static str)
    ensures
        glyph@ == seq![bucket_glyph(b as nat)],
{
    proof {
        reveal_strlit("▁");
        reveal_strlit("▂");
        reveal_strlit("▃");
        reveal_strlit("▄");
        reveal_strlit("▅");
        reveal_strlit("▆");
        reveal_strlit("▇");
        reveal_strlit("█");
    }
    let glyph = if b == 0 {
        "▁"
    } else if b == 1 {
        "▂"
    } else if b == 2 {
        "▃"
    } else if b == 3 {
        "▄"
    } else if b == 4 {
        "▅"
    } else if b == 5 {
        "▆"
    } else if b == 6 {
        "▇"
    } else {
        "█"
    };
    assert(glyph@ =~= seq![bucket_glyph(b as nat)]);
    glyph
}

/// The coloured bar shown for the sample `rtt`: grey and crossed for a
/// failure, else as high as the latency's bucket and coloured by its tier.
pub fn rtt_to_colored_bar(rtt: i32) -> (bar: String)
    ensures
        bar@ == bar_text(rtt),
{
    if rtt == FAILURE {
        proof {
            reveal_strlit("×");
            assert("×"@ =~= seq![failure_glyph()]);
        }
        let mut bar = "\x1b[90m".to_owned();
        bar.append("×");
        bar.append("\x1b[0m");
        return bar;
    }
    let mut bar = match tier(rtt) {
        Tier::Good => "\x1b[32m".to_owned(),
        Tier::Moderate => "\x1b[33m".to_owned(),
        Tier::Poor => "\x1b[31m".to_owned(),
    };
    bar.append(glyph_str(bucket(rtt)));
    bar.append("\x1b[0m");
    bar
}

/// `text`, with spaces after it where it has fewer than `width` characters.
pub open spec fn padded(text: Seq<char>, width: nat) -> Seq<char> {
    if text.len() >= width {
        text
    } else {
        text + Seq::new((width - text.len()) as nat, |i: int| ' ')
    }
}

/// The character that writes the digit `d`.
pub open spec fn digit_char(d: nat) -> char {
    seq!['0', '1', '2', '3', '4', '5', '6', '7', '8', '9'][d as int]
}

/// `n` in decimal digits.
pub open spec fn decimal_text(n: nat) -> Seq<char>
    decreases n,
{
    if n < 10 {
        seq![digit_char(n)]
    } else {
        decimal_text(n / 10).push(digit_char(n % 10))
    }
}

/// `n` in decimal digits, with a minus sign where it is negative.
pub open spec fn int_text(n: int) -> Seq<char> {
    if n < 0 {
        seq!['-'] + decimal_text((-n) as nat)
    } else {
        decimal_text(n as nat)
    }
}

/// The newest sample as text: the milliseconds and `ms`, or the failure mark
/// where it is a failure or there is no sample yet.
pub open spec fn latest_text(history: Seq<i32>) -> Seq<char> {
    if history.len() == 0 || history.last() == FAILURE {
        seq![failure_glyph()]
    } else {
        int_text(history.last() as int) + "ms"@
    }
}

/// `parts` one after the other, with `sep` between them.
pub open spec fn joined(parts: Seq<Seq<char>>, sep: Seq<char>) -> Seq<char>
    decreases parts.len(),
{
    if parts.len() == 0 {
        Seq::empty()
    } else if parts.len() == 1 {
        parts[0]
    } else {
        joined(parts.drop_last(), sep) + sep + parts.last()
    }
}

/// The strip of bars for a history: one bar for each sample, the newest
/// first, with a space between.
pub open spec fn strip_text(history: Seq<i32>) -> Seq<char> {
    joined(history.reverse().map_values(|rtt: i32| bar_text(rtt)), seq![' '])
}

/// The time of the last success as text, or dashes where there was none.
pub open spec fn last_ok_text(last_success: Option<i64>) -> Seq<char> {
    match last_success {
        Some(secs) => shown_time(secs),
        None => no_time_text(),
    }
}

/// The line above the rows.
pub open spec fn header_text() -> Seq<char> {
    padded("No."@, 4) + seq![' '] + padded("Name"@, 20) + seq![' '] + padded("Host"@, 30) + " | "@
        + padded("Time"@, 19) + " | "@ + padded("RTT"@, 5) + " | "@ + padded("Last OK"@, 19)
        + " | History"@
}

/// The row of the host under `key`, the `no`-th of the table, whose times
/// are written as `time` and `last_ok`.
pub open spec fn row_text(
    no: nat,
    key: Seq<char>,
    state: StateView,
    time: Seq<char>,
    last_ok: Seq<char>,
) -> Seq<char> {
    padded(decimal_text(no), 4) + seq![' '] + padded(state.name, 20) + seq![' '] + padded(key, 30)
        + " | "@ + padded(time, 19) + " | "@ + padded(latest_text(state.history), 5) + " | "@
        + padded(last_ok, 19) + " | "@ + strip_text(state.history)
}

/// The rows of the first `n` hosts of `entries`, each ended by a line feed.
pub open spec fn rows_text(entries: Seq<(Seq<char>, StateView)>, n: nat) -> Seq<char>
    decreases n,
{
    if n == 0 {
        Seq::empty()
    } else {
        let (key, state) = entries[n - 1];
        rows_text(entries, (n - 1) as nat) + row_text(
            n,
            key,
            state,
            shown_time(state.last_update),
            last_ok_text(state.last_success),
        ) + seq!['\n']
    }
}

/// The sequence that clears the terminal and moves to its top left corner.
pub open spec fn clear_text() -> Seq<char> {
    "\x1B[2J\x1B[H"@
}

/// The whole screen for the table `entries`: cleared, the header, one row
/// for each host in the table's order.
pub open spec fn screen_text(entries: Seq<(Seq<char>, StateView)>) -> Seq<char> {
    clear_text() + header_text() + seq!['\n'] + rows_text(entries, entries.len())
}

/// Appends `text` to `line`, and spaces where it has fewer than `width`
/// characters.
fn push_padded(line: &mut String, text: &str, width: usize)
    ensures
        final(line)@ == old(line)@ + padded(text@, width as nat),
{
    line.append(text);
    let len = text.unicode_len();
    if len < width {
        let missing = width - len;
        let mut k: usize = 0;
        while k < missing
            invariant
                k <= missing,
                line@ == old(line)@ + text@ + Seq::new(k as nat, |i: int| ' '),
            decreases missing - k,
        {
            proof {
                reveal_strlit(" ");
                assert(Seq::new(k as nat, |i: int| ' ').push(' ') =~= Seq::new(
                    (k + 1) as nat,
                    |i: int| ' ',
                ));
            }
            line.append(" ");
            k += 1;
        }
        assert(line@ =~= old(line)@ + padded(text@, width as nat));
    } else {
        assert(line@ =~= old(line)@ + padded(text@, width as nat));
    }
}

/// The digit `d`, as text.
fn digit_str(d: u8) -> (digit: &'static str)
    requires
        d < 10,
    ensures
        digit@ == seq![digit_char(d as nat)],
{
    proof {
        reveal_strlit("0");
        reveal_strlit("1");
        reveal_strlit("2");
        reveal_strlit("3");
        reveal_strlit("4");
        reveal_strlit("5");
        reveal_strlit("6");
        reveal_strlit("7");
        reveal_strlit("8");
        reveal_strlit("9");
    }
    let digit = if d == 0 {
        "0"
    } else if d == 1 {
        "1"
    } else if d == 2 {
        "2"
    } else if d == 3 {
        "3"
    } else if d == 4 {
        "4"
    } else if d == 5 {
        "5"
    } else if d == 6 {
        "6"
    } else if d == 7 {
        "7"
    } else if d == 8 {
        "8"
    } else {
        "9"
    };
    assert(digit@ =~= seq![digit_char(d as nat)]);
    digit
}

/// `n` in decimal digits.
pub fn decimal_string(n: u64) -> (text: String)
    ensures
        text@ == decimal_text(n as nat),
    decreases n,
{
    if n < 10 {
        digit_str(n as u8).to_owned()
    } else {
        let mut text = decimal_string(n / 10);
        text.append(digit_str((n % 10) as u8));
        text
    }
}

/// The newest sample of `state` as text.
pub fn latest_string(state: &State) -> (text: String)
    ensures
        text@ == latest_text(state@.history),
{
    let n = state.history.len();
    if n == 0 || state.history[n - 1] == FAILURE {
        proof {
            reveal_strlit("×");
            assert("×"@ =~= seq![failure_glyph()]);
        }
        return "×".to_owned();
    }
    let rtt = state.history[n - 1];
    let mut text = if rtt < 0 {
        proof {
            reveal_strlit("-");
        }
        let mut text = "-".to_owned();
        let digits = decimal_string((-(rtt as i64)) as u64);
        text.append(digits.as_str());
        assert(text@ =~= int_text(rtt as int));
        text
    } else {
        decimal_string(rtt as u64)
    };
    text.append("ms");
    text
}

/// The strip of bars for the history of `state`.
pub fn strip_string(state: &State) -> (text: String)
    ensures
        text@ == strip_text(state@.history),
{
    let n = state.history.len();
    let ghost bars = state@.history.reverse().map_values(|rtt: i32| bar_text(rtt));
    let mut text = String::new();
    let mut k: usize = 0;
    while k < n
        invariant
            n == state.history.len(),
            k <= n,
            bars == state@.history.reverse().map_values(|rtt: i32| bar_text(rtt)),
            text@ == joined(bars.take(k as int), seq![' ']),
        decreases n - k,
    {
        let bar = rtt_to_colored_bar(state.history[n - 1 - k]);
        proof {
            reveal_strlit(" ");
            assert(" "@ =~= seq![' ']);
            let done = bars.take(k + 1);
            assert(done.drop_last() =~= bars.take(k as int));
            assert(done.last() == bar@);
        }
        if k > 0 {
            text.append(" ");
        }
        text.append(bar.as_str());
        k += 1;
    }
    assert(bars.take(n as int) =~= bars);
    text
}

/// The line above the rows.
pub fn header_string() -> (text: String)
    ensures
        text@ == header_text(),
{
    proof {
        reveal_strlit(" ");
        assert(" "@ =~= seq![' ']);
    }
    let mut text = String::new();
    push_padded(&mut text, "No.", 4);
    text.append(" ");
    push_padded(&mut text, "Name", 20);
    text.append(" ");
    push_padded(&mut text, "Host", 30);
    text.append(" | ");
    push_padded(&mut text, "Time", 19);
    text.append(" | ");
    push_padded(&mut text, "RTT", 5);
    text.append(" | ");
    push_padded(&mut text, "Last OK", 19);
    text.append(" | History");
    assert(text@ =~= header_text());
    text
}

/// The row of the host under `key`, the `no`-th of the table, with its
/// times written as `time` and `last_ok`.
pub fn render_row(no: usize, key: &str, state: &State, time: &str, last_ok: &str) -> (text: String)
    ensures
        text@ == row_text(no as nat, key@, state@, time@, last_ok@),
{
    proof {
        reveal_strlit(" ");
        assert(" "@ =~= seq![' ']);
    }
    let mut text = String::new();
    push_padded(&mut text, decimal_string(no as u64).as_str(), 4);
    text.append(" ");
    push_padded(&mut text, state.name.as_str(), 20);
    text.append(" ");
    push_padded(&mut text, key, 30);
    text.append(" | ");
    push_padded(&mut text, time, 19);
    text.append(" | ");
    push_padded(&mut text, latest_string(state).as_str(), 5);
    text.append(" | ");
    push_padded(&mut text, last_ok, 19);
    text.append(" | ");
    text.append(strip_string(state).as_str());
    assert(text@ =~= row_text(no as nat, key@, state@, time@, last_ok@));
    text
}

/// The whole screen for the copy `pairs` of a table: the sequence that clears
/// the terminal, the header, and one row for each host in the order of the
/// copy.
pub fn render_snapshot(pairs: &Vec<(String, State)>) -> (screen: String)
    ensures
        screen@ == screen_text(pair_views(pairs@)),
{
    proof {
        reveal_strlit("\n");
        assert("\n"@ =~= seq!['\n']);
    }
    let ghost entries = pair_views(pairs@);
    let mut screen = "\x1B[2J\x1B[H".to_owned();
    screen.append(header_string().as_str());
    screen.append("\n");
    let n = pairs.len();
    let mut k: usize = 0;
    while k < n
        invariant
            n == pairs.len(),
            k <= n,
            entries == pair_views(pairs@),
            "\n"@ == seq!['\n'],
            screen@ == clear_text() + header_text() + seq!['\n'] + rows_text(entries, k as nat),
        decreases n - k,
    {
        let key = &pairs[k].0;
        let state = &pairs[k].1;
        assert(entries[k as int] == (key@, state@));
        let time = time_text(state.last_update);
        let last_ok = match state.last_success {
            Some(secs) => time_text(secs),
            None => "--:--:--".to_owned(),
        };
        let row = render_row(k + 1, key.as_str(), state, time.as_str(), last_ok.as_str());
        screen.append(row.as_str());
        screen.append("\n");
        assert(screen@ =~= clear_text() + header_text() + seq!['\n'] + rows_text(
            entries,
            (k + 1) as nat,
        ));
        k += 1;
    }
    screen
}

/// The whole screen for `store` as it stands: that of a copy of it.
pub fn render_states(store: &StateStore) -> (screen: String)
    ensures
        screen@ == screen_text(store@),
{
    let pairs = store.snapshot();
    render_snapshot(&pairs)
}

} // verus!
