use gpio_sensors::adc::{Adc0834, AdcError};

/// What a converter holding `v` clocks out: bits 7..0, then bits 1..7.
fn echo(v: u8) -> [bool; 15] {
    let mut r = [false; 15];
    for i in 0..8 {
        r[i] = (v >> (7 - i)) & 1 == 1;
    }
    for i in 8..15 {
        r[i] = (v >> (i - 7)) & 1 == 1;
    }
    r
}

#[test]
fn command_header_per_channel() {
    assert_eq!(Adc0834::command(0), [true, true, false, false, true]);
    assert_eq!(Adc0834::command(1), [true, true, true, false, true]);
    assert_eq!(Adc0834::command(2), [true, true, false, true, true]);
    assert_eq!(Adc0834::command(3), [true, true, true, true, true]);
}

#[test]
fn echoed_sample_round_trips_for_every_value() {
    for v in 0..=255u8 {
        assert_eq!(Adc0834::decode(&echo(v)), Ok(v));
    }
}

#[test]
fn echoed_edge_values() {
    assert_eq!(Adc0834::decode(&echo(0)), Ok(0));
    assert_eq!(Adc0834::decode(&echo(255)), Ok(255));
    assert_eq!(Adc0834::decode(&echo(0xA5)), Ok(0xA5));
    assert_eq!(Adc0834::decode(&echo(1)), Ok(1));
    assert_eq!(Adc0834::decode(&echo(128)), Ok(128));
}

#[test]
fn explicit_readout_decodes() {
    // 0b1000_0001: MSB-first 1,0,0,0,0,0,0,1 then LSB-first bits 1..7: 0,0,0,0,0,0,1
    let r = [
        true, false, false, false, false, false, false, true, false, false, false, false, false,
        false, true,
    ];
    assert_eq!(Adc0834::decode(&r), Ok(0x81));
}

#[test]
fn mismatched_paths_are_rejected() {
    let mut r = echo(100);
    r[14] = !r[14];
    assert_eq!(Adc0834::decode(&r), Err(AdcError::SampleDisagreement));
    let mut r = echo(100);
    r[0] = !r[0];
    assert_eq!(Adc0834::decode(&r), Err(AdcError::SampleDisagreement));
    let mut r = echo(0);
    r[10] = true;
    assert_eq!(Adc0834::decode(&r), Err(AdcError::SampleDisagreement));
}

#[test]
fn flipping_the_shared_bit_changes_both_paths() {
    let mut r = echo(0x42);
    r[7] = !r[7];
    assert_eq!(Adc0834::decode(&r), Ok(0x43));
}

#[test]
fn converter_pins_are_kept() {
    let adc = Adc0834::new(17, 23, 27, 18);
    assert_eq!(adc.chip_select(), 17);
    assert_eq!(adc.data_out(), 23);
    assert_eq!(adc.data_in(), 27);
    assert_eq!(adc.clock(), 18);
}
