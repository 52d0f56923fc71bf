use lcg_census::census::{analyze, Report};
use lcg_census::generator::Lcg;
use lcg_census::tally::Repeat;
use lcg_census::text::{
    cycle_line, numeral, report_lines, summary_line, unreached_line, FINISHED, SEARCHED, SEARCHING,
    STARTED, SUMMARY,
};

#[test]
fn numeral_in_hexadecimal_uses_capitals() {
    assert_eq!(numeral(0, 16), "0");
    assert_eq!(numeral(9, 16), "9");
    assert_eq!(numeral(10, 16), "A");
    assert_eq!(numeral(15, 16), "F");
    assert_eq!(numeral(16, 16), "10");
    assert_eq!(numeral(0x3039, 16), "3039");
    assert_eq!(numeral(0xD3DC_167E, 16), "D3DC167E");
    assert_eq!(numeral(0xABCD_EF01_2345_6789, 16), "ABCDEF0123456789");
    assert_eq!(numeral(u64::MAX, 16), "FFFFFFFFFFFFFFFF");
}

#[test]
fn numeral_in_decimal() {
    assert_eq!(numeral(0, 10), "0");
    assert_eq!(numeral(7, 10), "7");
    assert_eq!(numeral(10, 10), "10");
    assert_eq!(numeral(131072, 10), "131072");
    assert_eq!(numeral(1_000_000, 10), "1000000");
    assert_eq!(numeral(u64::MAX, 10), "18446744073709551615");
}

#[test]
fn numeral_agrees_with_the_standard_formats() {
    let mut value: u64 = 1;
    for _ in 0..200 {
        assert_eq!(numeral(value, 16), format!("{:X}", value));
        assert_eq!(numeral(value, 10), format!("{}", value));
        assert_eq!(numeral(value, 2), format!("{:b}", value));
        assert_eq!(numeral(value, 8), format!("{:o}", value));
        value = value.wrapping_mul(0x41C6_4E6D).wrapping_add(0x3039);
    }
}

#[test]
fn cycle_line_names_state_and_index() {
    let line = cycle_line(&Repeat { state: 0xD3DC_167E, index: 0x1F });
    assert_eq!(line, "Found a cycle on seed 0xD3DC167E, index 0x1F");
    let line = cycle_line(&Repeat { state: 0, index: 8192 });
    assert_eq!(line, "Found a cycle on seed 0x0, index 0x2000");
    let line = cycle_line(&Repeat { state: u32::MAX, index: 0xFFFF_FFFF });
    assert_eq!(line, "Found a cycle on seed 0xFFFFFFFF, index 0xFFFFFFFF");
}

#[test]
fn unreached_line_names_the_state() {
    assert_eq!(unreached_line(0), "Seed 0x0 not reached");
    assert_eq!(unreached_line(0xAB), "Seed 0xAB not reached");
    assert_eq!(unreached_line(u32::MAX), "Seed 0xFFFFFFFF not reached");
}

#[test]
fn summary_line_names_both_counts() {
    assert_eq!(summary_line(131072, 131072), "Least hit: 131072, most hit: 131072");
    assert_eq!(summary_line(0, 4294967296), "Least hit: 0, most hit: 4294967296");
}

#[test]
fn notices_read_as_written() {
    assert_eq!(STARTED, "Calculating all RNG seed values. This can take a few minutes...");
    assert_eq!(FINISHED, "Finished calculating all seeds.");
    assert_eq!(SEARCHING, "Searching for unreached seeds...");
    assert_eq!(SEARCHED, "Finished searching for unreached seeds.");
    assert_eq!(SUMMARY, "Analyzing `rand()` return values:");
}

#[test]
fn report_lines_of_a_full_period() {
    let report = analyze(Lcg::new(0x4E6D, 0x3039, 16, 8, 7).unwrap());
    assert_eq!(
        report_lines(&report),
        vec![
            "Finished calculating all seeds.",
            "Searching for unreached seeds...",
            "Finished searching for unreached seeds.",
            "Analyzing `rand()` return values:",
            "Least hit: 512, most hit: 512",
        ]
    );
}

#[test]
fn report_lines_of_a_short_cycle() {
    let report = analyze(Lcg::new(3, 1, 4, 2, 2).unwrap());
    assert_eq!(
        report_lines(&report),
        vec![
            "Found a cycle on seed 0x0, index 0x8",
            "Found a cycle on seed 0x1, index 0x9",
            "Found a cycle on seed 0x4, index 0xA",
            "Found a cycle on seed 0xD, index 0xB",
            "Found a cycle on seed 0x8, index 0xC",
            "Found a cycle on seed 0x9, index 0xD",
            "Found a cycle on seed 0xC, index 0xE",
            "Found a cycle on seed 0x5, index 0xF",
            "Finished calculating all seeds.",
            "Searching for unreached seeds...",
            "Seed 0x2 not reached",
            "Seed 0x3 not reached",
            "Seed 0x6 not reached",
            "Seed 0x7 not reached",
            "Seed 0xA not reached",
            "Seed 0xB not reached",
            "Seed 0xE not reached",
            "Seed 0xF not reached",
            "Finished searching for unreached seeds.",
            "Analyzing `rand()` return values:",
            "Least hit: 4, most hit: 4",
        ]
    );
}

#[test]
fn report_lines_of_a_report_written_by_hand() {
    let report = Report {
        repeats: vec![Repeat { state: 0xBEEF, index: 0x10 }],
        unreached: vec![0xFACE],
        least_hit: 1,
        most_hit: 99,
    };
    assert_eq!(
        report_lines(&report),
        vec![
            "Found a cycle on seed 0xBEEF, index 0x10",
            "Finished calculating all seeds.",
            "Searching for unreached seeds...",
            "Seed 0xFACE not reached",
            "Finished searching for unreached seeds.",
            "Analyzing `rand()` return values:",
            "Least hit: 1, most hit: 99",
        ]
    );
}
