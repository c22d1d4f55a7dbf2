use softraster::interpolate::interpolate;
use softraster::ratio::Ratio;

fn nums(values: &[Ratio]) -> Vec<i128> {
    values.iter().map(|r| r.num).collect()
}

fn dens(values: &[Ratio]) -> Vec<i128> {
    values.iter().map(|r| r.den).collect()
}

#[test]
fn coinciding_positions_give_the_start_value_alone() {
    let values = interpolate(3, Ratio::from_int(7), 3, Ratio::from_int(9));
    assert_eq!(values.len(), 1);
    assert_eq!(values[0].num, 7);
    assert_eq!(values[0].den, 1);
}

#[test]
fn coinciding_positions_at_both_ends_of_the_axis() {
    let low = interpolate(0, Ratio::from_int(0), 0, Ratio::from_int(0));
    assert_eq!((low.len(), low[0].num, low[0].den), (1, 0, 1));
    let high = interpolate(u32::MAX, Ratio::from_int(u32::MAX), u32::MAX, Ratio::from_int(1));
    assert_eq!((high.len(), high[0].num, high[0].den), (1, u32::MAX as i128, 1));
}

#[test]
fn one_sample_per_step_starting_at_the_start_value() {
    let values = interpolate(0, Ratio::from_int(0), 5, Ratio::from_int(10));
    assert_eq!(values.len(), 5);
    assert_eq!(nums(&values), vec![0, 10, 20, 30, 40]);
    assert_eq!(dens(&values), vec![5, 5, 5, 5, 5]);
    let rows: Vec<u32> = values.iter().map(|r| r.to_u32()).collect();
    assert_eq!(rows, vec![0, 2, 4, 6, 8]);
}

#[test]
fn consecutive_samples_differ_by_the_exact_step() {
    // From 2 at position 10 to 9 at position 13: the step is 7/3.
    let values = interpolate(10, Ratio::from_int(2), 13, Ratio::from_int(9));
    assert_eq!(values.len(), 3);
    assert_eq!(nums(&values), vec![6, 13, 20]);
    assert_eq!(dens(&values), vec![3, 3, 3]);
    for k in 0..2 {
        assert_eq!(values[k + 1].den, values[k].den);
        assert_eq!(values[k + 1].num - values[k].num, 9 - 2);
    }
}

#[test]
fn descending_values_are_interpolated_exactly() {
    let values = interpolate(0, Ratio::from_int(2), 3, Ratio::from_int(0));
    assert_eq!(nums(&values), vec![6, 4, 2]);
    assert_eq!(dens(&values), vec![3, 3, 3]);
    let columns: Vec<u32> = values.iter().map(|r| r.to_u32()).collect();
    assert_eq!(columns, vec![2, 1, 0]);
}

#[test]
fn a_reversed_axis_gives_no_sample() {
    let values = interpolate(5, Ratio::from_int(1), 2, Ratio::from_int(4));
    assert!(values.is_empty());
}

#[test]
fn fractional_endpoints_keep_a_common_denominator() {
    // From 1/2 at position 0 to 5/3 at position 2: 1/2, then 1/2 + 7/12.
    let values = interpolate(0, Ratio { num: 1, den: 2 }, 2, Ratio { num: 5, den: 3 });
    assert_eq!(values.len(), 2);
    assert_eq!((values[0].num, values[0].den), (6, 12));
    assert_eq!((values[1].num, values[1].den), (13, 12));
}

#[test]
fn the_largest_endpoints_do_not_overflow() {
    let top = Ratio { num: 0x100_0000_0000, den: 0x1_0000_0000 };
    let bottom = Ratio { num: -0x100_0000_0000, den: 0x1_0000_0000 };
    let values = interpolate(0, top, 3, bottom);
    assert_eq!(values.len(), 3);
    let den: i128 = 0x1_0000_0000i128 * 0x1_0000_0000i128 * 3;
    let first: i128 = 0x100_0000_0000i128 * 0x1_0000_0000i128 * 3;
    let step: i128 = -2 * 0x100_0000_0000i128 * 0x1_0000_0000i128;
    assert_eq!(dens(&values), vec![den, den, den]);
    assert_eq!(nums(&values), vec![first, first + step, first + 2 * step]);
}

#[test]
fn truncation_rounds_toward_zero_and_saturates() {
    assert_eq!(Ratio { num: 7, den: 2 }.to_u32(), 3);
    assert_eq!(Ratio { num: 8, den: 2 }.to_u32(), 4);
    assert_eq!(Ratio { num: 0, den: 5 }.to_u32(), 0);
    assert_eq!(Ratio { num: -7, den: 2 }.to_u32(), 0);
    assert_eq!(Ratio { num: 1 << 40, den: 1 }.to_u32(), u32::MAX);
    assert_eq!(Ratio { num: u32::MAX as i128, den: 1 }.to_u32(), u32::MAX);
}

#[test]
fn comparison_is_by_value() {
    let half = Ratio { num: 1, den: 2 };
    let two_quarters = Ratio { num: 2, den: 4 };
    let two_thirds = Ratio { num: 2, den: 3 };
    let minus_one = Ratio { num: -1, den: 1 };
    assert!(half.lt(&two_thirds));
    assert!(!two_thirds.lt(&half));
    assert!(!half.lt(&two_quarters));
    assert!(!two_quarters.lt(&half));
    assert!(minus_one.lt(&half));
}

#[test]
fn shading_scales_a_channel_and_saturates() {
    let full = Ratio { num: 255, den: 1 };
    let quarter = Ratio { num: 255, den: 4 };
    let nothing = Ratio { num: 0, den: 1 };
    let double = Ratio { num: 510, den: 1 };
    let negative = Ratio { num: -10, den: 1 };
    assert_eq!(full.shade(200, 255), 200);
    assert_eq!(quarter.shade(200, 255), 50);
    assert_eq!(quarter.shade(50, 255), 12);
    assert_eq!(nothing.shade(200, 255), 0);
    assert_eq!(double.shade(200, 255), 255);
    assert_eq!(negative.shade(200, 255), 0);
}
