use rust_hic::synth::BloodTest;
use rust_hic::synth::Gender;
use rust_hic::synth::gender_from_coin;
use rust_hic::synth::observation_times;
use rust_hic::synth::result_flag_from_coin;
use rust_hic::synth::subject_name;
use rust_hic::synth::u32_to_decimal;

#[test]
fn decimal_rendering_matches_expected_values() {
    assert_eq!(u32_to_decimal(0).as_str(), "0");
    assert_eq!(u32_to_decimal(7).as_str(), "7");
    assert_eq!(u32_to_decimal(145).as_str(), "145");
    assert_eq!(u32_to_decimal(1234567890).as_str(), "1234567890");
    assert_eq!(u32_to_decimal(u32::MAX).as_str(), "4294967295");
}

#[test]
fn haemoglobin_row_for_a_woman() {
    let t = BloodTest::new_haemoglobin(145, Gender::Female);
    assert_eq!(t.order_name.as_str(), "FULL BLOOD COUNT");
    assert_eq!(t.test_name.as_str(), "haemoglobin");
    assert_eq!(t.test_result.as_str(), "145");
    assert_eq!(t.test_result_unit.as_deref(), Some("g/L"));
    assert_eq!(t.result_lower_range.as_deref(), Some("120"));
    assert_eq!(t.result_upper_range.as_deref(), Some("150"));
}

#[test]
fn haemoglobin_row_for_a_man() {
    let t = BloodTest::new_haemoglobin(98, Gender::Male);
    assert_eq!(t.test_result.as_str(), "98");
    assert_eq!(t.result_lower_range.as_deref(), Some("130"));
    assert_eq!(t.result_upper_range.as_deref(), Some("170"));
}

#[test]
fn subject_names_carry_the_patient_number() {
    assert_eq!(subject_name(1).as_str(), "bristol_1");
    assert_eq!(subject_name(50000).as_str(), "bristol_50000");
}

#[test]
fn coin_decides_gender_and_result_flag() {
    assert_eq!(gender_from_coin(true), Gender::Female);
    assert_eq!(gender_from_coin(false), Gender::Male);
    assert_eq!(result_flag_from_coin(true).as_deref(), Some("<"));
    assert_eq!(result_flag_from_coin(false), None);
}

#[test]
fn observation_times_are_whole_minutes_in_order() {
    let (collected, available) = observation_times(2, 3);
    assert_eq!(collected, 120);
    assert_eq!(available, 300);
    let (c2, a2) = observation_times(0, 0);
    assert_eq!(c2, 0);
    assert_eq!(a2, 0);
}
