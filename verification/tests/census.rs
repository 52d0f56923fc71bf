use lcg_census::census::{analyze, Census};
use lcg_census::generator::Lcg;
use lcg_census::tally::Repeat;

fn sixteen_bit() -> Lcg {
    Lcg::new(0x4E6D, 0x3039, 16, 8, 7).unwrap()
}

#[test]
fn full_run_of_the_sixteen_bit_generator() {
    let report = analyze(sixteen_bit());
    assert!(report.repeats.is_empty());
    assert!(report.unreached.is_empty());
    assert_eq!(report.least_hit, 512);
    assert_eq!(report.most_hit, 512);
}

#[test]
fn full_run_of_the_eight_bit_generator() {
    let report = analyze(Lcg::new(0x6D, 0x39, 8, 4, 3).unwrap());
    assert!(report.repeats.is_empty());
    assert!(report.unreached.is_empty());
    assert_eq!((report.least_hit, report.most_hit), (32, 32));
}

#[test]
fn full_run_is_the_same_each_time() {
    let first = analyze(sixteen_bit());
    let second = analyze(sixteen_bit());
    assert_eq!(first.repeats, second.repeats);
    assert_eq!(first.unreached, second.unreached);
    assert_eq!(first.least_hit, second.least_hit);
    assert_eq!(first.most_hit, second.most_hit);
}

#[test]
fn short_cycle_is_reported_at_every_repeated_step() {
    let report = analyze(Lcg::new(3, 1, 4, 2, 2).unwrap());
    let expected: Vec<Repeat> = [(0, 8), (1, 9), (4, 10), (13, 11), (8, 12), (9, 13), (12, 14), (5, 15)]
        .iter()
        .map(|&(state, index)| Repeat { state, index })
        .collect();
    assert_eq!(report.repeats, expected);
    assert_eq!(report.unreached, vec![2, 3, 6, 7, 10, 11, 14, 15]);
    assert_eq!((report.least_hit, report.most_hit), (4, 4));
}

#[test]
fn even_increment_gives_a_short_cycle() {
    let report = analyze(Lcg::new(0x4E6D, 0x3038, 16, 8, 7).unwrap());
    assert_eq!(report.repeats.len(), 57344);
    assert_eq!(report.repeats[0], Repeat { state: 0, index: 8192 });
    assert_eq!(report.repeats[1], Repeat { state: 12344, index: 8193 });
    assert_eq!(report.unreached.len(), 57344);
    assert_eq!(&report.unreached[..10], &[1, 2, 3, 4, 5, 6, 7, 9, 10, 11]);
}

#[test]
fn uneven_outputs_give_different_extremes() {
    let report = analyze(Lcg::new(2, 1, 5, 0, 1).unwrap());
    assert_eq!((report.least_hit, report.most_hit), (1, 31));
    let report = analyze(Lcg::new(3, 5, 6, 0, 3).unwrap());
    assert_eq!((report.least_hit, report.most_hit), (0, 16));
    let report = analyze(Lcg::new(2, 1, 5, 2, 3).unwrap());
    assert_eq!((report.least_hit, report.most_hit), (0, 27));
    assert_eq!(report.repeats.len(), 26);
    assert_eq!(report.repeats[0], Repeat { state: 31, index: 6 });
    assert_eq!(&report.unreached[..6], &[2, 4, 5, 6, 8, 9]);
}

#[test]
fn fixed_point_saturates_its_counter() {
    let lcg = Lcg::new(0, 0, 10, 0, 2).unwrap();
    let mut census = Census::new(lcg);
    let repeats = census.sweep();
    assert_eq!(repeats.len(), 1023);
    for (at, repeat) in repeats.iter().enumerate() {
        assert_eq!(*repeat, Repeat { state: 0, index: at as u64 + 1 });
    }
    assert_eq!(census.steps(), 1024);
    assert_eq!(census.state_counter(0), 255);
    assert_eq!(census.state_counter(1), 0);
    assert_eq!(census.output_counter(0), 1024);
    assert_eq!(census.output_counter(3), 0);
    assert_eq!(census.unreached_states(), (1..1024).collect::<Vec<u32>>());
    assert_eq!(census.extremes(), (0, 1024));
}

#[test]
fn new_census_has_recorded_the_initial_state() {
    let census = Census::new(sixteen_bit());
    assert_eq!(census.steps(), 1);
    assert_eq!(census.state(), 0);
    assert_eq!(census.state_counter(0), 1);
    assert_eq!(census.state_counter(0x3039), 0);
    assert_eq!(census.output_counter(0), 1);
    assert_eq!(census.output_counter(0x30), 0);
    assert_eq!(census.extremes(), (0, 1));
    assert_eq!(census.unreached_states().len(), 0xFFFF);
}

#[test]
fn advance_records_one_state() {
    let mut census = Census::new(sixteen_bit());
    assert!(!census.advance());
    assert_eq!(census.steps(), 2);
    assert_eq!(census.state(), 0x3039);
    assert_eq!(census.state_counter(0x3039), 1);
    assert_eq!(census.output_counter(0x30), 1);
    assert_eq!(census.output_counter(0), 1);
}

#[test]
fn advance_says_when_a_state_comes_back() {
    let mut census = Census::new(Lcg::new(3, 1, 4, 2, 2).unwrap());
    for _ in 1..8 {
        assert!(!census.advance());
    }
    assert!(census.advance());
    assert_eq!(census.state(), 0);
    assert_eq!(census.state_counter(0), 2);
    assert!(census.advance());
    assert_eq!(census.state(), 1);
}

#[test]
fn advance_may_go_on_after_a_full_run() {
    let mut census = Census::new(Lcg::new(0x6D, 0x39, 8, 4, 3).unwrap());
    assert!(census.sweep().is_empty());
    assert_eq!(census.steps(), 256);
    assert!(census.advance());
    assert_eq!(census.state(), 0);
    assert_eq!(census.state_counter(0), 2);
    assert_eq!(census.steps(), 257);
    assert!(census.sweep().is_empty());
    assert_eq!(census.steps(), 257);
    assert_eq!(census.extremes(), (32, 33));
}

#[test]
fn sweep_goes_on_from_where_the_run_is() {
    let mut census = Census::new(Lcg::new(3, 1, 4, 2, 2).unwrap());
    for _ in 1..10 {
        census.advance();
    }
    let repeats = census.sweep();
    let expected: Vec<Repeat> = [(4, 10), (13, 11), (8, 12), (9, 13), (12, 14), (5, 15)]
        .iter()
        .map(|&(state, index)| Repeat { state, index })
        .collect();
    assert_eq!(repeats, expected);
    assert_eq!(census.steps(), 16);
    assert_eq!(census.state(), 5);
}

#[test]
fn counts_add_up_to_the_number_of_states() {
    let lcg = sixteen_bit();
    let mut census = Census::new(lcg);
    census.sweep();
    let states: u64 = (0..0x1_0000u32).map(|s| census.state_counter(s) as u64).sum();
    let values: u64 = (0..0x80u16).map(|v| census.output_counter(v)).sum();
    assert_eq!(states, 0x1_0000);
    assert_eq!(values, 0x1_0000);
    assert!((0..0x1_0000u32).all(|s| census.state_counter(s) == 1));
    assert!((0..0x80u16).all(|v| census.output_counter(v) == 512));
}

#[test]
fn counts_add_up_on_a_short_cycle_too() {
    let lcg = Lcg::new(3, 1, 4, 2, 2).unwrap();
    let mut census = Census::new(lcg);
    census.sweep();
    let states: u64 = (0..16u32).map(|s| census.state_counter(s) as u64).sum();
    let values: u64 = (0..4u16).map(|v| census.output_counter(v)).sum();
    assert_eq!(states, 16);
    assert_eq!(values, 16);
}

#[test]
fn extremes_look_at_every_value_that_can_be_handed_out_and_no_other() {
    // Of the four values only 0 and 3 are handed out: the least count is
    // that of a value never handed out, the greatest that of value 3.
    let lcg = Lcg::new(2, 1, 5, 3, 2).unwrap();
    let mut census = Census::new(lcg);
    census.sweep();
    let counts: Vec<u64> = (0..4u16).map(|v| census.output_counter(v)).collect();
    let (least, most) = census.extremes();
    assert_eq!(least, *counts.iter().min().unwrap());
    assert_eq!(most, *counts.iter().max().unwrap());
    assert_eq!(counts.iter().sum::<u64>(), 32);
}

#[test]
fn full_run_on_twenty_four_bits_with_the_32_bit_constants() {
    let report = analyze(Lcg::new(0x41C6_4E6D, 0x3039, 24, 8, 15).unwrap());
    assert!(report.repeats.is_empty());
    assert!(report.unreached.is_empty());
    assert_eq!((report.least_hit, report.most_hit), (512, 512));
}

#[test]
fn as_many_states_are_unreached_as_steps_came_back() {
    for (multiplier, increment) in [(3, 1), (2, 1), (0, 0), (6, 2), (9, 2), (7, 5), (5, 3), (1, 1)] {
        let report = analyze(Lcg::new(multiplier, increment, 8, 3, 4).unwrap());
        assert_eq!(report.unreached.len(), report.repeats.len());
    }
}

#[test]
fn once_a_state_has_come_back_every_step_comes_back() {
    let mut census = Census::new(Lcg::new(6, 2, 6, 1, 3).unwrap());
    let mut closed = false;
    for _ in 1..64 {
        let repeated = census.advance();
        assert!(repeated || !closed);
        closed = repeated;
    }
    assert!(closed);
}

#[test]
fn smallest_generator_has_two_states() {
    let report = analyze(Lcg::new(1, 1, 1, 0, 1).unwrap());
    assert!(report.repeats.is_empty());
    assert!(report.unreached.is_empty());
    assert_eq!((report.least_hit, report.most_hit), (1, 1));
    let report = analyze(Lcg::new(1, 0, 1, 0, 0).unwrap());
    assert_eq!(report.repeats, vec![Repeat { state: 0, index: 1 }]);
    assert_eq!(report.unreached, vec![1]);
    assert_eq!((report.least_hit, report.most_hit), (2, 2));
}
