use gpio_sensors::display::{digit_at, rgb_pulse_widths, shift_out_bits};
use gpio_sensors::level::Level;

#[test]
fn shift_bits_most_significant_first() {
    assert_eq!(shift_out_bits(0x80), vec![true, false, false, false, false, false, false, false]);
    assert_eq!(shift_out_bits(0x01), vec![false, false, false, false, false, false, false, true]);
    assert_eq!(shift_out_bits(0x3f), vec![false, false, true, true, true, true, true, true]);
    assert_eq!(shift_out_bits(0xa4), vec![true, false, true, false, false, true, false, false]);
}

#[test]
fn digits_of_counter() {
    assert_eq!(digit_at(1234, 0), 4);
    assert_eq!(digit_at(1234, 1), 3);
    assert_eq!(digit_at(1234, 2), 2);
    assert_eq!(digit_at(1234, 3), 1);
    assert_eq!(digit_at(7, 3), 0);
    assert_eq!(digit_at(98765, 3), 8);
    assert_eq!(digit_at(u64::MAX, 0), 5);
    assert_eq!(digit_at(u64::MAX, 19), 1);
    assert_eq!(digit_at(u64::MAX, 20), 0);
    assert_eq!(digit_at(5, 100), 0);
}

#[test]
fn rgb_widths() {
    assert_eq!(rgb_pulse_widths(0b000), (0, 0, 0));
    assert_eq!(rgb_pulse_widths(0b100), (400, 0, 0));
    assert_eq!(rgb_pulse_widths(0b010), (0, 200, 0));
    assert_eq!(rgb_pulse_widths(0b101), (400, 0, 100));
    assert_eq!(rgb_pulse_widths(0xff), (400, 200, 100));
}

#[test]
fn levels_from_bits() {
    assert_eq!(Level::from_bit(true), Level::High);
    assert_eq!(Level::from_bit(false), Level::Low);
    assert!(Level::High.is_high());
    assert!(!Level::Low.is_high());
}
