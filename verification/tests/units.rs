use mvtr::costing::units::{ElapsedTime, PartsPerMillion, TravelSpeed, TravelledDistance};

#[test]
fn distance_keeps_its_millimetres() {
    assert_eq!(TravelledDistance::from(5_000).mm(), 5_000);
    assert_eq!(TravelledDistance::from(999_999_000).mm(), 999_999_000);
}

#[test]
fn division_rounds_down_to_milliseconds() {
    let time = TravelledDistance::from(1_000) / TravelSpeed::from_um_per_ms(1_400);
    assert_eq!(time, Some(ElapsedTime::from_millis(714)));
}

#[test]
fn division_by_zero_speed_is_none() {
    assert_eq!(TravelledDistance::from(1_000) / TravelSpeed::from_um_per_ms(0), None);
}

#[test]
fn division_overflow_is_none() {
    assert_eq!(TravelledDistance::from(u64::MAX / 999) / TravelSpeed::from_um_per_ms(1), None);
}

#[test]
fn penalty_share_is_in_millionths() {
    assert_eq!(ElapsedTime::from_millis(10_000) * PartsPerMillion::of(200_000), ElapsedTime::from_millis(2_000));
    assert_eq!(ElapsedTime::from_millis(u64::MAX) * PartsPerMillion::of(2), ElapsedTime::zero());
}
