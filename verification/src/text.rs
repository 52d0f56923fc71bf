//! The lines in which a run is written out.

use crate::census::Report;
use crate::tally::Repeat;
use vstd::prelude::*;
use vstd::string::StringExecFns;

verus! {

/// The line that says that the run begins.
pub const STARTED: &'static str =
    "Calculating all RNG seed values. This can take a few minutes...";

/// The line that says that the run is over.
pub const FINISHED: &'static str = "Finished calculating all seeds.";

/// The line that says that the unreached seeds are looked for.
pub const SEARCHING: &'static str = "Searching for unreached seeds...";

/// The line that says that all unreached seeds have been named.
pub const SEARCHED: &'static str = "Finished searching for unreached seeds.";

/// The line above the summary of the numbers handed out.
pub const SUMMARY: &'static str = "Analyzing `rand()` return values:";

/// The character for the digit `digit`, in bases up to 16, with capitals.
pub open spec fn digit_char(digit: int) -> char {
    seq!['0', '1', '2', '3', '4', '5', '6', '7', '8', '9', 'A', 'B', 'C', 'D', 'E', 'F'][digit]
}

/// `value` written in base `base`, without leading zeros.
pub open spec fn digits(value: nat, base: nat) -> Seq<char>
    decreases value,
    via digits_shorten
{
    if value < base || base < 2 {
        seq![digit_char(value as int)]
    } else {
        digits(value / base, base).push(digit_char((value % base) as int))
    }
}

/// What is left of a number after its last digit is smaller than the number.
#[via_fn]
proof fn digits_shorten(value: nat, base: nat) {
    if value >= base && base >= 2 {
        assert(value / base < value) by (nonlinear_arith)
            requires
                value >= base,
                base >= 2,
        ;
    }
}

/// The line for a step that arrived at a state seen before.
pub open spec fn cycle_text(repeat: Repeat) -> Seq<char> {
    "Found a cycle on seed 0x"@ + digits(repeat.state as nat, 16) + ", index 0x"@ + digits(
        repeat.index as nat,
        16,
    )
}

/// The line for a state that was never reached.
pub open spec fn unreached_text(state: u32) -> Seq<char> {
    "Seed 0x"@ + digits(state as nat, 16) + " not reached"@
}

/// The line that sums up how often the numbers were handed out.
pub open spec fn summary_text(least: u64, most: u64) -> Seq<char> {
    "Least hit: "@ + digits(least as nat, 10) + ", most hit: "@ + digits(most as nat, 10)
}

/// The lines that follow a run, in the order in which they are written: one
/// for each repeated state, the end of the run, one for each unreached state,
/// and the summary.
pub open spec fn report_text(report: Report) -> Seq<Seq<char>> {
    report.repeats@.map_values(|repeat: Repeat| cycle_text(repeat)) + seq![FINISHED@, SEARCHING@]
        + report.unreached@.map_values(|state: u32| unreached_text(state)) + seq![
        SEARCHED@,
        SUMMARY@,
        summary_text(report.least_hit, report.most_hit),
    ]
}

/// What each of `lines` holds.
pub open spec fn texts(lines: Seq<String>) -> Seq<Seq<char>> {
    lines.map_values(|line: String| line@)
}

/// The one-character text of a digit.
fn digit_str(digit: u64) -> (text: &'static str)
    requires
        digit < 16,
    ensures
        text@ == seq![digit_char(digit as int)],
{
    proof {
        reveal_strlit("0");
        reveal_strlit("1");
        reveal_strlit("2");
        reveal_strlit("3");
        reveal_strlit("4");
        reveal_strlit("5");
        reveal_strlit("6");
        reveal_strlit("7");
        reveal_strlit("8");
        reveal_strlit("9");
        reveal_strlit("A");
        reveal_strlit("B");
        reveal_strlit("C");
        reveal_strlit("D");
        reveal_strlit("E");
        reveal_strlit("F");
    }
    let text = if digit == 0 {
        "0"
    } else if digit == 1 {
        "1"
    } else if digit == 2 {
        "2"
    } else if digit == 3 {
        "3"
    } else if digit == 4 {
        "4"
    } else if digit == 5 {
        "5"
    } else if digit == 6 {
        "6"
    } else if digit == 7 {
        "7"
    } else if digit == 8 {
        "8"
    } else if digit == 9 {
        "9"
    } else if digit == 10 {
        "A"
    } else if digit == 11 {
        "B"
    } else if digit == 12 {
        "C"
    } else if digit == 13 {
        "D"
    } else if digit == 14 {
        "E"
    } else {
        "F"
    };
    assert(text@ =~= seq![digit_char(digit as int)]);
    text
}

/// Writes `value` in base `base`, without leading zeros and with capitals for
/// the digits above 9.
pub fn numeral(value: u64, base: u64) -> (text: String)
    requires
        2 <= base <= 16,
    ensures
        text@ == digits(value as nat, base as nat),
{
    let mut lower: Vec<u64> = Vec::new();
    let mut rest: u64 = value;
    let ghost mut tail: Seq<char> = Seq::empty();
    while rest >= base
        invariant
            2 <= base <= 16,
            digits(value as nat, base as nat) == digits(rest as nat, base as nat) + tail,
            tail.len() == lower@.len(),
            forall|i: int|
                0 <= i < lower@.len() ==> lower@[i] < 16 && tail[tail.len() - 1 - i] == digit_char(
                    #[trigger] lower@[i] as int,
                ),
        decreases rest,
    {
        let digit: u64 = rest % base;
        proof {
            let before = digits((rest / base) as nat, base as nat);
            assert(digits(rest as nat, base as nat) == before.push(digit_char(digit as int)));
            assert(before.push(digit_char(digit as int)) + tail =~= before + (seq![
                digit_char(digit as int),
            ] + tail));
            tail = seq![digit_char(digit as int)] + tail;
        }
        lower.push(digit);
        rest = rest / base;
    }
    let mut text: String = String::from_str(digit_str(rest));
    let mut left: usize = lower.len();
    while left > 0
        invariant
            left <= lower@.len(),
            tail.len() == lower@.len(),
            forall|i: int|
                0 <= i < lower@.len() ==> lower@[i] < 16 && tail[tail.len() - 1 - i] == digit_char(
                    #[trigger] lower@[i] as int,
                ),
            text@ == digits(rest as nat, base as nat) + tail.subrange(0, tail.len() - left),
        decreases left,
    {
        left = left - 1;
        let digit: u64 = lower[left];
        text.append(digit_str(digit));
        proof {
            let done = tail.len() - left - 1;
            assert(tail.subrange(0, done + 1) =~= tail.subrange(0, done).push(tail[done]));
            assert(text@ =~= digits(rest as nat, base as nat) + tail.subrange(0, done + 1));
        }
    }
    assert(tail.subrange(0, tail.len() as int) =~= tail);
    text
}

/// The line for a step that arrived at a state seen before: the state and the
/// number of the step, both in hexadecimal.
pub fn cycle_line(repeat: &Repeat) -> (line: String)
    ensures
        line@ == cycle_text(*repeat),
{
    let mut line: String = String::from_str("Found a cycle on seed 0x");
    let state: String = numeral(repeat.state as u64, 16);
    let index: String = numeral(repeat.index, 16);
    line.append(state.as_str());
    line.append(", index 0x");
    line.append(index.as_str());
    line
}

/// The line for a state that was never reached, the state in hexadecimal.
pub fn unreached_line(state: u32) -> (line: String)
    ensures
        line@ == unreached_text(state),
{
    let mut line: String = String::from_str("Seed 0x");
    let number: String = numeral(state as u64, 16);
    line.append(number.as_str());
    line.append(" not reached");
    line
}

/// The line that sums up how often the numbers were handed out: the count of
/// the rarest and that of the most frequent, both in decimal.
pub fn summary_line(least: u64, most: u64) -> (line: String)
    ensures
        line@ == summary_text(least, most),
{
    let mut line: String = String::from_str("Least hit: ");
    let low: String = numeral(least, 10);
    let high: String = numeral(most, 10);
    line.append(low.as_str());
    line.append(", most hit: ");
    line.append(high.as_str());
    line
}

/// The lines that follow a run, in the order in which they are written.
pub fn report_lines(report: &Report) -> (lines: Vec<String>)
    ensures
        texts(lines@) == report_text(*report),
{
    let mut lines: Vec<String> = Vec::new();
    let ghost cycles = report.repeats@.map_values(|repeat: Repeat| cycle_text(repeat));
    let ghost missing = report.unreached@.map_values(|state: u32| unreached_text(state));
    let mut at: usize = 0;
    while at < report.repeats.len()
        invariant
            at <= report.repeats@.len(),
            cycles == report.repeats@.map_values(|repeat: Repeat| cycle_text(repeat)),
            texts(lines@) == cycles.subrange(0, at as int),
        decreases report.repeats@.len() - at,
    {
        let line: String = cycle_line(&report.repeats[at]);
        proof {
            assert(texts(lines@.push(line)) =~= texts(lines@).push(line@));
            assert(cycles.subrange(0, at + 1) =~= cycles.subrange(0, at as int).push(cycles[at as int]));
        }
        lines.push(line);
        at = at + 1;
    }
    let finished: String = String::from_str(FINISHED);
    let searching: String = String::from_str(SEARCHING);
    proof {
        assert(cycles.subrange(0, at as int) =~= cycles);
        assert(texts(lines@.push(finished).push(searching)) =~= cycles + seq![
            FINISHED@,
            SEARCHING@,
        ]);
    }
    lines.push(finished);
    lines.push(searching);
    let ghost head = cycles + seq![FINISHED@, SEARCHING@];
    let mut at: usize = 0;
    while at < report.unreached.len()
        invariant
            at <= report.unreached@.len(),
            missing == report.unreached@.map_values(|state: u32| unreached_text(state)),
            texts(lines@) == head + missing.subrange(0, at as int),
        decreases report.unreached@.len() - at,
    {
        let line: String = unreached_line(report.unreached[at]);
        proof {
            assert(texts(lines@.push(line)) =~= texts(lines@).push(line@));
            assert(head + missing.subrange(0, at + 1) =~= (head + missing.subrange(
                0,
                at as int,
            )).push(missing[at as int]));
        }
        lines.push(line);
        at = at + 1;
    }
    let searched: String = String::from_str(SEARCHED);
    let summary: String = String::from_str(SUMMARY);
    let extremes: String = summary_line(report.least_hit, report.most_hit);
    proof {
        assert(missing.subrange(0, at as int) =~= missing);
        assert(texts(lines@.push(searched).push(summary).push(extremes)) =~= head + missing + seq![
            SEARCHED@,
            SUMMARY@,
            summary_text(report.least_hit, report.most_hit),
        ]);
    }
    lines.push(searched);
    lines.push(summary);
    lines.push(extremes);
    lines
}

} // verus!
