//! Reading a round-trip time out of the text that a probe printed.

use crate::state::FAILURE;
use crate::text::{chars_of, find, first_occurrence, is_first_occurrence, occurs_at};
use crate::text::{lemma_first_occurrence_is, lemma_first_occurrence_none};
use vstd::prelude::*;

verus! {

/// The mark that precedes a reported latency.
pub open spec fn time_tag() -> Seq<char> {
    seq!['t', 'i', 'm', 'e', '=']
}

/// The unit that follows a reported latency.
pub open spec fn unit_tag() -> Seq<char> {
    seq![' ', 'm', 's']
}

/// `c` is one of the ten decimal digits.
pub open spec fn is_digit(c: char) -> bool {
    '0' <= c && c <= '9'
}

/// The value of the decimal digit `c`.
pub open spec fn digit_value(c: char) -> nat {
    (c as u32 - '0' as u32) as nat
}

/// Every character of `s` is a decimal digit.
pub open spec fn all_digits(s: Seq<char>) -> bool {
    forall|i: int| 0 <= i < s.len() ==> is_digit(#[trigger] s[i])
}

/// The number that the decimal digits `digits` write; 0 for none.
pub open spec fn number_of(digits: Seq<char>) -> nat
    decreases digits.len(),
{
    if digits.len() == 0 {
        0
    } else {
        number_of(digits.drop_last()) * 10 + digit_value(digits.last())
    }
}

/// The field without a leading plus sign.
pub open spec fn unsigned(field: Seq<char>) -> Seq<char> {
    if field.len() > 0 && field[0] == '+' {
        field.skip(1)
    } else {
        field
    }
}

/// `c` is the mark that precedes an exponent.
pub open spec fn is_exponent_mark(c: char) -> bool {
    c == 'e' || c == 'E'
}

/// An exponent mark stands in `number` at index `i` and at no smaller index.
pub open spec fn is_first_mark(number: Seq<char>, i: int) -> bool {
    &&& 0 <= i < number.len()
    &&& is_exponent_mark(number[i])
    &&& forall|j: int| 0 <= j < i ==> !is_exponent_mark(#[trigger] number[j])
}

/// The index of the first exponent mark in `number`, if it has one.
pub open spec fn mark_index(number: Seq<char>) -> Option<int> {
    if exists|i: int| is_first_mark(number, i) {
        Some(choose|i: int| is_first_mark(number, i))
    } else {
        None
    }
}

/// What stands before the exponent mark of `number`: all of it where it has
/// no mark.
pub open spec fn mantissa(number: Seq<char>) -> Seq<char> {
    match mark_index(number) {
        Some(m) => number.take(m),
        None => number,
    }
}

/// What stands after the exponent mark of `number`, where it has one.
pub open spec fn exponent_text(number: Seq<char>) -> Option<Seq<char>> {
    match mark_index(number) {
        Some(m) => Some(number.skip(m + 1)),
        None => None,
    }
}

/// The exponent `text` without its sign.
pub open spec fn exponent_digits(text: Seq<char>) -> Seq<char> {
    if text.len() > 0 && (text[0] == '+' || text[0] == '-') {
        text.skip(1)
    } else {
        text
    }
}

/// `text` writes an exponent: digits, at least one, after at most one sign.
pub open spec fn is_exponent(text: Seq<char>) -> bool {
    exponent_digits(text).len() > 0 && all_digits(exponent_digits(text))
}

/// The exponent that `text` writes.
pub open spec fn exponent_value(text: Seq<char>) -> int {
    if text.len() > 0 && text[0] == '-' {
        -(number_of(exponent_digits(text)) as int)
    } else {
        number_of(exponent_digits(text)) as int
    }
}

/// The exponent of `number`: 0 where it has none.
pub open spec fn exponent_of(number: Seq<char>) -> int {
    match exponent_text(number) {
        Some(text) => exponent_value(text),
        None => 0,
    }
}

/// What stands before the decimal point of `number`: all of it where it has
/// no point.
pub open spec fn whole_part(number: Seq<char>) -> Seq<char> {
    match first_occurrence(number, seq!['.']) {
        Some(p) => number.take(p),
        None => number,
    }
}

/// What stands after the decimal point of `number`: nothing where it has no
/// point.
pub open spec fn fraction_part(number: Seq<char>) -> Seq<char> {
    match first_occurrence(number, seq!['.']) {
        Some(p) => number.skip(p + 1),
        None => Seq::empty(),
    }
}

/// `number` is written in plain decimal notation: digits, with at most one
/// point among them, and at least one digit.
pub open spec fn is_decimal(number: Seq<char>) -> bool {
    &&& all_digits(whole_part(number))
    &&& all_digits(fraction_part(number))
    &&& whole_part(number).len() + fraction_part(number).len() > 0
}

/// `number` writes a number that is not negative: a decimal number, and
/// after it, where there is an exponent mark, an exponent.
#[verifier::opaque]
pub open spec fn is_number(number: Seq<char>) -> bool {
    &&& is_decimal(mantissa(number))
    &&& match exponent_text(number) {
        Some(text) => is_exponent(text),
        None => true,
    }
}

/// 10 to the power `n`.
pub open spec fn pow10(n: nat) -> nat
    decreases n,
{
    if n == 0 {
        1
    } else {
        10 * pow10((n - 1) as nat)
    }
}

/// The whole part of the number that `digits` write with the decimal point
/// after the first `point` of them: nothing before the first digit, zeros
/// beyond the last.
#[verifier::opaque]
pub open spec fn whole_value(digits: Seq<char>, point: int) -> nat {
    if point <= 0 {
        0
    } else if point <= digits.len() {
        number_of(digits.take(point))
    } else {
        number_of(digits) * pow10((point - digits.len()) as nat)
    }
}

/// The whole part of the number that `number` writes: its digits, with the
/// point moved by the exponent.
#[verifier::opaque]
pub open spec fn whole_of(number: Seq<char>) -> nat {
    let written = mantissa(number);
    whole_value(
        whole_part(written) + fraction_part(written),
        whole_part(written).len() + exponent_of(number),
    )
}

/// `n`, or the largest `i32` where `n` is beyond it.
pub open spec fn saturated(n: nat) -> i32 {
    if n >= i32::MAX {
        i32::MAX
    } else {
        n as i32
    }
}

/// The round-trip time that the numeric field `field` reports: the whole
/// part of the number it writes, the fraction cut off, not rounded, and the
/// largest `i32` where the number is beyond it. A field that writes no
/// number, or a negative one, reports `FAILURE`.
pub open spec fn rtt_of_field(field: Seq<char>) -> i32 {
    let number = unsigned(field);
    if is_number(number) {
        saturated(whole_of(number))
    } else {
        FAILURE
    }
}

/// The reading of one line: that of the field between the first `time=` and
/// the first ` ms` after it. A line without the two holds no reading.
pub open spec fn rtt_of_line(line: Seq<char>) -> Option<i32> {
    match first_occurrence(line, time_tag()) {
        None => None,
        Some(t) => {
            let rest = line.skip(t + time_tag().len());
            match first_occurrence(rest, unit_tag()) {
                None => None,
                Some(u) => Some(rtt_of_field(rest.take(u))),
            }
        },
    }
}

/// The length of the first line of `text`: up to its first line feed, or all
/// of it.
pub open spec fn first_line_len(text: Seq<char>) -> int {
    match first_occurrence(text, seq!['\n']) {
        Some(n) => n,
        None => text.len() as int,
    }
}

/// The reading of a whole output: that of its first line that holds one,
/// `FAILURE` where no line does. Lines end at a line feed; a carriage return
/// before it stays with its line, behind all that is read there.
pub open spec fn rtt_of_text(text: Seq<char>) -> i32
    decreases text.len(),
{
    let n = first_line_len(text);
    match rtt_of_line(text.take(n)) {
        Some(rtt) => rtt,
        None => if 0 <= n < text.len() {
            rtt_of_text(text.skip(n + 1))
        } else {
            FAILURE
        },
    }
}

/// A one-character pattern stands exactly where that character stands.
pub proof fn lemma_occurs_char(text: Seq<char>, c: char, i: int)
    ensures
        occurs_at(text, seq![c], i) <==> (0 <= i < text.len() && text[i] == c),
{
    if 0 <= i < text.len() {
        if text[i] == c {
            assert(text.subrange(i, i + 1) =~= seq![c]);
        } else {
            assert(text.subrange(i, i + 1)[0] == text[i]);
        }
    }
}

/// A line in which the latency mark stands nowhere holds no reading.
pub proof fn lemma_line_without_tag(line: Seq<char>)
    requires
        forall|i: int| !occurs_at(line, time_tag(), i),
    ensures
        rtt_of_line(line) is None,
{
    match first_occurrence(line, time_tag()) {
        Some(t) => {
            assert(is_first_occurrence(line, time_tag(), t));
        },
        None => {},
    }
}

/// An output in which the latency mark stands nowhere reports a failure.
pub proof fn lemma_text_without_tag(text: Seq<char>)
    requires
        forall|i: int| !occurs_at(text, time_tag(), i),
    ensures
        rtt_of_text(text) == FAILURE,
    decreases text.len(),
{
    let tag = time_tag();
    let n = first_line_len(text);
    match first_occurrence(text, seq!['\n']) {
        Some(m) => {
            assert(is_first_occurrence(text, seq!['\n'], m));
        },
        None => {},
    }
    let line = text.take(n);
    assert forall|i: int| !occurs_at(line, tag, i) by {
        if occurs_at(line, tag, i) {
            assert(text.subrange(i, i + tag.len()) =~= line.subrange(i, i + tag.len()));
            assert(occurs_at(text, tag, i));
        }
    }
    lemma_line_without_tag(line);
    if 0 <= n < text.len() {
        let rest = text.skip(n + 1);
        assert forall|i: int| !occurs_at(rest, tag, i) by {
            if occurs_at(rest, tag, i) {
                assert(text.subrange(n + 1 + i, n + 1 + i + tag.len()) =~= rest.subrange(
                    i,
                    i + tag.len(),
                ));
                assert(occurs_at(text, tag, n + 1 + i));
            }
        }
        lemma_text_without_tag(rest);
    }
}

/// The reading of an output is a failure or a time that is not negative.
pub proof fn lemma_rtt_of_text_range(text: Seq<char>)
    ensures
        rtt_of_text(text) == FAILURE || rtt_of_text(text) >= 0,
    decreases text.len(),
{
    let n = first_line_len(text);
    match first_occurrence(text, seq!['\n']) {
        Some(m) => {
            assert(is_first_occurrence(text, seq!['\n'], m));
        },
        None => {},
    }
    if rtt_of_line(text.take(n)) is None && 0 <= n < text.len() {
        lemma_rtt_of_text_range(text.skip(n + 1));
    }
}

/// A reading is a failure or a time that is not negative.
pub proof fn lemma_rtt_of_field_range(field: Seq<char>)
    ensures
        rtt_of_field(field) == FAILURE || rtt_of_field(field) >= 0,
{
}

pub fn is_digit_char(c: char) -> (b: bool)
    ensures
        b == is_digit(c),
{
    '0' <= c && c <= '9'
}

pub fn value_of_digit(c: char) -> (d: u8)
    requires
        is_digit(c),
    ensures
        d == digit_value(c),
        d <= 9,
{
    (c as u32 - '0' as u32) as u8
}

/// What a scan over the digits of `s` says of it as a decimal number. The
/// scan found digits up to `a`, and after a point that stands there, digits
/// up to `b`.
proof fn lemma_scanned_decimal(s: Seq<char>, a: int, b: int)
    requires
        0 <= a <= b <= s.len(),
        forall|k: int| 0 <= k < a ==> is_digit(#[trigger] s[k]),
        a < s.len() ==> !is_digit(s[a]),
        a < s.len() && s[a] == '.' ==> a + 1 <= b && (forall|k: int|
            a < k < b ==> is_digit(#[trigger] s[k])) && (b < s.len() ==> !is_digit(s[b])),
        !(a < s.len() && s[a] == '.') ==> b == a,
    ensures
        b < s.len() ==> !is_decimal(s),
        b == s.len() ==> whole_part(s) == s.take(a),
        b == s.len() && a < b ==> fraction_part(s) == s.skip(a + 1),
        b == s.len() && a == b ==> fraction_part(s) == Seq::<char>::empty(),
        b == s.len() ==> (is_decimal(s) <==> (a > 0 || b > a + 1)),
{
    let dot = seq!['.'];
    assert forall|j: int| 0 <= j < a implies !occurs_at(s, dot, j) by {
        lemma_occurs_char(s, '.', j);
        assert(is_digit(s[j]));
    }
    if a < s.len() && s[a] == '.' {
        lemma_occurs_char(s, '.', a);
        lemma_first_occurrence_is(s, dot, a);
        assert(whole_part(s) == s.take(a));
        assert(fraction_part(s) == s.skip(a + 1));
        if b < s.len() {
            assert(fraction_part(s)[b - a - 1] == s[b]);
        } else {
            assert forall|k: int| 0 <= k < fraction_part(s).len() implies is_digit(
                #[trigger] fraction_part(s)[k],
            ) by {
                assert(fraction_part(s)[k] == s[a + 1 + k]);
            }
            assert forall|k: int| 0 <= k < whole_part(s).len() implies is_digit(
                #[trigger] whole_part(s)[k],
            ) by {
                assert(whole_part(s)[k] == s[k]);
            }
        }
    } else if a == s.len() {
        assert forall|j: int| 0 <= j && j + dot.len() <= s.len() implies !occurs_at(s, dot, j) by {}
        lemma_first_occurrence_none(s, dot);
        assert(s.take(a) =~= s);
    } else {
        lemma_occurs_char(s, '.', a);
        match first_occurrence(s, dot) {
            Some(q) => {
                assert(is_first_occurrence(s, dot, q));
                lemma_occurs_char(s, '.', q);
                assert(q > a);
                assert(whole_part(s)[a] == s[a]);
            },
            None => {
                assert(whole_part(s)[a] == s[a]);
            },
        }
    }
}

/// What a scan over `s` that met no exponent mark before `b` says of the
/// first mark of `s`.
proof fn lemma_scanned_mark(s: Seq<char>, b: int)
    requires
        0 <= b <= s.len(),
        forall|k: int| 0 <= k < b ==> !is_exponent_mark(#[trigger] s[k]),
    ensures
        b == s.len() ==> mark_index(s) is None,
        b < s.len() && is_exponent_mark(s[b]) ==> mark_index(s) == Some(b),
        mark_index(s) matches Some(m) ==> b <= m < s.len() && is_exponent_mark(s[m]),
{
    if exists|i: int| is_first_mark(s, i) {
        let c = choose|i: int| is_first_mark(s, i);
        assert(is_first_mark(s, c));
        if c < b {
            assert(!is_exponent_mark(s[c]));
        }
        if b < s.len() && is_exponent_mark(s[b]) && b < c {
            assert(!is_exponent_mark(s[b]));
        }
    } else if b < s.len() && is_exponent_mark(s[b]) {
        assert(is_first_mark(s, b));
    }
}

/// A power of ten is at least 1, and grows with its exponent.
proof fn lemma_pow10_grows(m: nat, n: nat)
    requires
        m <= n,
    ensures
        1 <= pow10(m) <= pow10(n),
    decreases n,
{
    if n == 0 {
    } else if m == n {
        lemma_pow10_grows((m - 1) as nat, (n - 1) as nat);
    } else {
        lemma_pow10_grows(m, (n - 1) as nat);
    }
}

/// Ten zeros and more after a number that is not 0 carry it beyond every
/// `i32`.
proof fn lemma_pow10_is_large(n: nat)
    requires
        n >= 10,
    ensures
        pow10(n) >= 10_000_000_000,
{
    assert(pow10(10) == 10_000_000_000) by {
        reveal_with_fuel(pow10, 11);
    }
    lemma_pow10_grows(10, n);
}

/// With the point before the first digit, or ten places and more beyond the
/// last, it no longer matters where exactly it stands.
proof fn lemma_far_points(digits: Seq<char>, one: int, other: int)
    requires
        one == other || (one <= 0 && other <= 0) || (one >= digits.len() + 10 && other >= digits.len() + 10),
    ensures
        saturated(whole_value(digits, one)) == saturated(whole_value(digits, other)),
{
    reveal(whole_value);
    if one >= digits.len() + 10 && other >= digits.len() + 10 {
        let n = number_of(digits);
        let zeros_one = (one - digits.len()) as nat;
        let zeros_other = (other - digits.len()) as nat;
        lemma_pow10_is_large(zeros_one);
        lemma_pow10_is_large(zeros_other);
        if n == 0 {
            assert(n * pow10(zeros_one) == 0 && n * pow10(zeros_other) == 0) by (nonlinear_arith)
                requires
                    n == 0,
            ;
        } else {
            assert(n * pow10(zeros_one) >= 10_000_000_000 && n * pow10(zeros_other) >= 10_000_000_000)
                by (nonlinear_arith)
                requires
                    n >= 1,
                    pow10(zeros_one) >= 10_000_000_000,
                    pow10(zeros_other) >= 10_000_000_000,
            ;
        }
    }
}

/// The largest exponent that is told apart from larger ones: 2 to the
/// power 100, far beyond the length of any text.
spec fn exponent_cap() -> int {
    0x1_0000_0000_0000_0000_0000_0000
}

/// The index after the digits that stand in `text` from `from` on, before
/// `to`.
fn scan_digits(text: &Vec<char>, from: usize, to: usize) -> (end: usize)
    requires
        from <= to <= text.len(),
    ensures
        from <= end <= to,
        forall|k: int| from <= k < end ==> is_digit(#[trigger] text@[k]),
        end < to ==> !is_digit(text@[end as int]),
{
    let mut i = from;
    while i < to && is_digit_char(text[i])
        invariant
            from <= i <= to <= text.len(),
            forall|k: int| from <= k < i ==> is_digit(#[trigger] text@[k]),
        decreases to - i,
    {
        i += 1;
    }
    i
}

/// The number that the digits `text[from..to]` write, or 2 to the power 100
/// where it is beyond that.
fn capped_number(text: &Vec<char>, from: usize, to: usize) -> (value: i128)
    requires
        from <= to <= text.len(),
        forall|k: int| from <= k < to ==> is_digit(#[trigger] text@[k]),
    ensures
        0 <= value <= exponent_cap(),
        number_of(text@.subrange(from as int, to as int)) <= exponent_cap() ==> value == number_of(
            text@.subrange(from as int, to as int),
        ),
        number_of(text@.subrange(from as int, to as int)) > exponent_cap() ==> value
            == exponent_cap(),
{
    let cap: i128 = 0x1_0000_0000_0000_0000_0000_0000;
    let mut value: i128 = 0;
    let mut i = from;
    assert(text@.subrange(from as int, from as int) =~= Seq::<char>::empty());
    while i < to
        invariant
            from <= i <= to <= text.len(),
            cap == exponent_cap(),
            forall|k: int| from <= k < to ==> is_digit(#[trigger] text@[k]),
            0 <= value <= cap,
            number_of(text@.subrange(from as int, i as int)) <= cap ==> value == number_of(
                text@.subrange(from as int, i as int),
            ),
            number_of(text@.subrange(from as int, i as int)) > cap ==> value == cap,
        decreases to - i,
    {
        let d = value_of_digit(text[i]);
        proof {
            let before = text@.subrange(from as int, i as int);
            let after = text@.subrange(from as int, i + 1);
            assert(after.drop_last() =~= before);
            assert(after.last() == text@[i as int]);
        }
        let next = value * 10 + d as i128;
        value = if next > cap {
            cap
        } else {
            next
        };
        i += 1;
    }
    value
}

/// Digit `k` of the digits `text[ws..we]` followed by `text[fs..fe]`.
fn digit_at(text: &Vec<char>, ws: usize, we: usize, fs: usize, fe: usize, k: usize) -> (d: u8)
    requires
        ws <= we <= fs <= fe <= text.len(),
        k < (we - ws) + (fe - fs),
        forall|j: int| ws <= j < we ==> is_digit(#[trigger] text@[j]),
        forall|j: int| fs <= j < fe ==> is_digit(#[trigger] text@[j]),
    ensures
        d <= 9,
        d == digit_value(
            (text@.subrange(ws as int, we as int) + text@.subrange(fs as int, fe as int))[k as int],
        ),
{
    if k < we - ws {
        value_of_digit(text[ws + k])
    } else {
        value_of_digit(text[fs + (k - (we - ws))])
    }
}

/// The whole part, no larger than the largest `i32`, of the number that the
/// digits `text[ws..we]` followed by `text[fs..fe]` write with the decimal
/// point after the first `point` of them.
fn shifted_reading(text: &Vec<char>, ws: usize, we: usize, fs: usize, fe: usize, point: i128) -> (rtt:
    i32)
    requires
        ws <= we <= fs <= fe <= text.len(),
        forall|j: int| ws <= j < we ==> is_digit(#[trigger] text@[j]),
        forall|j: int| fs <= j < fe ==> is_digit(#[trigger] text@[j]),
    ensures
        rtt == saturated(
            whole_value(
                text@.subrange(ws as int, we as int) + text@.subrange(fs as int, fe as int),
                point as int,
            ),
        ),
{
    let ghost digits = text@.subrange(ws as int, we as int) + text@.subrange(fs as int, fe as int);
    proof {
        reveal(whole_value);
    }
    if point <= 0 {
        return 0;
    }
    let count = (we - ws) + (fe - fs);
    let mut acc: i64 = 0;
    let mut k: usize = 0;
    assert(digits.take(0) =~= Seq::<char>::empty());
    while k < count && (k as i128) < point
        invariant
            ws <= we <= fs <= fe <= text.len(),
            forall|j: int| ws <= j < we ==> is_digit(#[trigger] text@[j]),
            forall|j: int| fs <= j < fe ==> is_digit(#[trigger] text@[j]),
            digits == text@.subrange(ws as int, we as int) + text@.subrange(fs as int, fe as int),
            count == digits.len(),
            k <= count,
            k <= point,
            0 <= acc <= i32::MAX,
            acc == saturated(number_of(digits.take(k as int))),
        decreases count - k,
    {
        let d = digit_at(text, ws, we, fs, fe, k);
        proof {
            let after = digits.take(k + 1);
            assert(after.drop_last() =~= digits.take(k as int));
            assert(after.last() == digits[k as int]);
        }
        let next = acc * 10 + d as i64;
        acc = if next >= i32::MAX as i64 {
            i32::MAX as i64
        } else {
            next
        };
        k += 1;
    }
    if (k as i128) == point {
        return acc as i32;
    }
    assert(digits.take(count as int) =~= digits);
    let ghost n = number_of(digits);
    let zeros: i128 = point - count as i128;
    if acc == 0 {
        assert(n * pow10(zeros as nat) == 0) by (nonlinear_arith)
            requires
                n == 0,
        ;
        return 0;
    }
    let mut done: i128 = 0;
    assert(n * pow10(0) == n) by (nonlinear_arith)
        requires
            pow10(0) == 1,
    ;
    while done < zeros && acc < i32::MAX as i64
        invariant
            0 <= done <= zeros,
            0 < acc <= i32::MAX,
            acc == saturated(n * pow10(done as nat)),
        decreases zeros - done,
    {
        proof {
            let p = pow10(done as nat);
            assert(n * pow10((done + 1) as nat) == (n * p) * 10) by (nonlinear_arith)
                requires
                    pow10((done + 1) as nat) == 10 * p,
            ;
        }
        let next = acc * 10;
        acc = if next >= i32::MAX as i64 {
            i32::MAX as i64
        } else {
            next
        };
        done += 1;
    }
    proof {
        if done < zeros {
            lemma_pow10_grows(done as nat, zeros as nat);
            let small = pow10(done as nat);
            let large = pow10(zeros as nat);
            assert(n * large >= n * small) by (nonlinear_arith)
                requires
                    small <= large,
                    n >= 0,
            ;
        }
    }
    acc as i32
}

/// What a scan over the decimal part of the number `text[start..to]` says
/// of it. The scan found digits up to `we`, and after a point that stands
/// there, digits from `fs` up to `stop`.
proof fn lemma_mantissa_scan(text: Seq<char>, start: int, we: int, fs: int, stop: int, to: int)
    requires
        0 <= start <= we <= stop <= to <= text.len(),
        forall|k: int| start <= k < we ==> is_digit(#[trigger] text[k]),
        we < to ==> !is_digit(text[we]),
        we < to && text[we] == '.' ==> fs == we + 1 && fs <= stop && (forall|k: int|
            fs <= k < stop ==> is_digit(#[trigger] text[k])) && (stop < to ==> !is_digit(
            text[stop],
        )),
        !(we < to && text[we] == '.') ==> fs == we && stop == we,
    ensures
        stop < to && !is_exponent_mark(text[stop]) ==> !is_number(text.subrange(start, to)),
        !(we > start || stop > fs) ==> !is_number(text.subrange(start, to)),
        stop == to && (we > start || stop > fs) ==> is_number(text.subrange(start, to))
            && whole_of(text.subrange(start, to)) == whole_value(
            text.subrange(start, we) + text.subrange(fs, stop),
            we - start,
        ),
        stop < to && is_exponent_mark(text[stop]) && (we > start || stop > fs) ==> (is_number(
            text.subrange(start, to),
        ) <==> is_exponent(text.subrange(stop + 1, to))) && whole_of(text.subrange(start, to))
            == whole_value(
            text.subrange(start, we) + text.subrange(fs, stop),
            (we - start) + exponent_value(text.subrange(stop + 1, to)),
        ),
{
    reveal(is_number);
    reveal(whole_of);
    let number = text.subrange(start, to);
    let a = we - start;
    let b = stop - start;
    assert forall|k: int| 0 <= k < b implies !is_exponent_mark(#[trigger] number[k]) by {
        assert(number[k] == text[start + k]);
        if k != a {
            assert(is_digit(text[start + k]));
        }
    }
    lemma_scanned_mark(number, b);
    let written = mantissa(number);
    assert(b <= written.len());
    assert forall|k: int| 0 <= k < written.len() implies #[trigger] written[k] == text[start + k] by {}
    assert forall|k: int| 0 <= k < a implies is_digit(#[trigger] written[k]) by {
        assert(written[k] == text[start + k]);
    }
    if a < written.len() {
        assert(written[a] == text[we]);
    }
    if a < written.len() && written[a] == '.' {
        assert forall|k: int| a < k < b implies is_digit(#[trigger] written[k]) by {
            assert(written[k] == text[start + k]);
        }
        if b < written.len() {
            assert(written[b] == text[stop]);
        }
    }
    lemma_scanned_decimal(written, a, b);
    if stop == to || is_exponent_mark(text[stop]) {
        if stop < to {
            assert(number[b] == text[stop]);
            assert(number.skip(b + 1) =~= text.subrange(stop + 1, to));
        }
        assert(written =~= text.subrange(start, stop));
        assert(written.take(a) =~= text.subrange(start, we));
        if a < b {
            assert(written.skip(a + 1) =~= text.subrange(fs, stop));
        } else {
            assert(text.subrange(fs, stop) =~= Seq::<char>::empty());
        }
    } else {
        assert(number[b] == text[stop]);
        assert(b < written.len());
    }
}

/// What a scan over the exponent `text[from..to]` says of it. The scan
/// found digits from `ds`, after the sign where there is one, up to `de`.
proof fn lemma_exponent_scan(text: Seq<char>, from: int, ds: int, de: int, to: int)
    requires
        0 <= from <= ds <= de <= to <= text.len(),
        from < to && (text[from] == '+' || text[from] == '-') ==> ds == from + 1,
        !(from < to && (text[from] == '+' || text[from] == '-')) ==> ds == from,
        forall|k: int| ds <= k < de ==> is_digit(#[trigger] text[k]),
        de < to ==> !is_digit(text[de]),
    ensures
        exponent_digits(text.subrange(from, to)) == text.subrange(ds, to),
        is_exponent(text.subrange(from, to)) <==> (de == to && de > ds),
        exponent_value(text.subrange(from, to)) == if from < to && text[from] == '-' {
            -(number_of(text.subrange(ds, to)) as int)
        } else {
            number_of(text.subrange(ds, to)) as int
        },
{
    let exponent = text.subrange(from, to);
    if from < to {
        assert(exponent[0] == text[from]);
    }
    assert(exponent_digits(exponent) =~= text.subrange(ds, to));
    let digits = text.subrange(ds, to);
    if de < to {
        assert(digits[de - ds] == text[de]);
    } else {
        assert forall|k: int| 0 <= k < digits.len() implies is_digit(#[trigger] digits[k]) by {
            assert(digits[k] == text[ds + k]);
        }
    }
}

/// The reading of the numeric field `text[from..to]`.
pub fn field_reading(text: &Vec<char>, from: usize, to: usize) -> (rtt: i32)
    requires
        from <= to <= text.len(),
    ensures
        rtt == rtt_of_field(text@.subrange(from as int, to as int)),
{
    let mut first = from;
    if first < to && text[first] == '+' {
        first += 1;
    }
    let start = first;
    assert(text@.subrange(start as int, to as int) =~= unsigned(
        text@.subrange(from as int, to as int),
    ));
    let whole_end = scan_digits(text, start, to);
    let mut frac_start = whole_end;
    let mut stop = whole_end;
    if whole_end < to && text[whole_end] == '.' {
        frac_start = whole_end + 1;
        stop = scan_digits(text, frac_start, to);
    }
    proof {
        lemma_mantissa_scan(
            text@,
            start as int,
            whole_end as int,
            frac_start as int,
            stop as int,
            to as int,
        );
    }
    if stop < to && !(text[stop] == 'e' || text[stop] == 'E') {
        return FAILURE;
    }
    if !(whole_end > start || stop > frac_start) {
        return FAILURE;
    }
    let whole_len = (whole_end - start) as i128;
    if stop == to {
        return shifted_reading(text, start, whole_end, frac_start, stop, whole_len);
    }
    let mut digits_start = stop + 1;
    let mut negative = false;
    if digits_start < to && (text[digits_start] == '+' || text[digits_start] == '-') {
        negative = text[digits_start] == '-';
        digits_start += 1;
    }
    let digits_end = scan_digits(text, digits_start, to);
    proof {
        lemma_exponent_scan(
            text@,
            stop + 1,
            digits_start as int,
            digits_end as int,
            to as int,
        );
    }
    if digits_end < to || digits_end == digits_start {
        return FAILURE;
    }
    let magnitude = capped_number(text, digits_start, to);
    let point = if negative {
        whole_len - magnitude
    } else {
        whole_len + magnitude
    };
    proof {
        let digits = text@.subrange(start as int, whole_end as int) + text@.subrange(
            frac_start as int,
            stop as int,
        );
        let exponent = text@.subrange(stop + 1, to as int);
        let true_point = (whole_end - start) + exponent_value(exponent);
        assert(digits.len() <= text@.len());
        assert(text@.len() <= usize::MAX);
        lemma_far_points(digits, true_point, point as int);
    }
    shifted_reading(text, start, whole_end, frac_start, stop, point)
}

/// The reading of the line `text[from..to]`, if it holds one.
pub fn line_reading(text: &Vec<char>, from: usize, to: usize) -> (reading: Option<i32>)
    requires
        from <= to <= text.len(),
    ensures
        reading == rtt_of_line(text@.subrange(from as int, to as int)),
{
    let time = vec!['t', 'i', 'm', 'e', '='];
    let unit = vec![' ', 'm', 's'];
    assert(time@ =~= time_tag());
    assert(unit@ =~= unit_tag());
    let ghost line = text@.subrange(from as int, to as int);
    match find(text, from, to, &time) {
        None => None,
        Some(t) => {
            let field_start = t + 5;
            let ghost rest = line.skip(t - from + 5);
            assert(rest =~= text@.subrange(field_start as int, to as int));
            match find(text, field_start, to, &unit) {
                None => None,
                Some(u) => {
                    assert(rest.take(u - field_start) =~= text@.subrange(
                        field_start as int,
                        u as int,
                    ));
                    Some(field_reading(text, field_start, u))
                },
            }
        },
    }
}

/// The round-trip time that the probe's output reports, in milliseconds, or
/// `FAILURE` where it reports none.
pub fn parse_rtt(output: &str) -> (rtt: i32)
    ensures
        rtt == rtt_of_text(output@),
        rtt == FAILURE || rtt >= 0,
{
    let text = chars_of(output);
    let newline = vec!['\n'];
    assert(newline@ =~= seq!['\n']);
    let mut pos: usize = 0;
    assert(text@.skip(0) =~= text@);
    loop
        invariant
            pos <= text.len(),
            newline@ == seq!['\n'],
            text@ == output@,
            rtt_of_text(text@) == rtt_of_text(text@.skip(pos as int)),
        decreases text.len() - pos,
    {
        let ghost tail = text@.skip(pos as int);
        assert(tail =~= text@.subrange(pos as int, text.len() as int));
        let end = match find(&text, pos, text.len(), &newline) {
            Some(n) => n,
            None => text.len(),
        };
        assert(first_line_len(tail) == end - pos);
        assert(tail.take(end - pos) =~= text@.subrange(pos as int, end as int));
        match line_reading(&text, pos, end) {
            Some(rtt) => {
                return rtt;
            },
            None => {},
        }
        if end == text.len() {
            return FAILURE;
        }
        assert(tail.skip(end - pos + 1) =~= text@.skip(end + 1));
        pos = end + 1;
    }
}

} // verus!
