use gpio_sensors::dht11::{
    check_frame, pack_frame, Dht11, Dht11Error, Dht11Reading, Dht11Receiver, Dht11Step,
};
use gpio_sensors::level::Level;

/// Feeds samples until the receiver finishes; returns the outcome and how
/// many samples it took.
fn run(trace: &[Level]) -> Option<(Result<Dht11Reading, Dht11Error>, usize)> {
    let mut rx = Dht11Receiver::new();
    for (i, level) in trace.iter().enumerate() {
        match rx.step(*level) {
            Dht11Step::Finished(r) => return Some((r, i + 1)),
            Dht11Step::SampleAfterDelay | Dht11Step::SampleNow => {}
        }
    }
    None
}

fn repeat(level: Level, n: usize) -> Vec<Level> {
    vec![level; n]
}

/// A well-timed sensor answering with `frame`: a pulse longer than the
/// threshold for each one bit.
fn sensor(frame: [u8; 5], low_for_zero: usize, low_for_one: usize) -> Vec<Level> {
    let mut t = Vec::new();
    t.extend(repeat(Level::Low, 2));
    t.push(Level::High);
    t.extend(repeat(Level::High, 3));
    t.push(Level::Low);
    t.extend(repeat(Level::Low, 4));
    t.push(Level::High);
    for byte in frame {
        for k in (0..8).rev() {
            t.extend(repeat(Level::High, 2));
            t.push(Level::Low);
            let one = (byte >> k) & 1 == 1;
            t.extend(repeat(Level::Low, if one { low_for_one } else { low_for_zero }));
            t.push(Level::High);
        }
    }
    t
}

#[test]
fn valid_frame_is_accepted() {
    let r = check_frame(&[35, 0, 24, 0, 59]);
    assert_eq!(
        r,
        Ok(Dht11Reading { humidity_int: 35, humidity_dec: 0, temperature_int: 24, temperature_dec: 0 })
    );
}

#[test]
fn checksum_wraps_modulo_256() {
    let r = check_frame(&[200, 100, 30, 1, 75]);
    assert_eq!(
        r,
        Ok(Dht11Reading {
            humidity_int: 200,
            humidity_dec: 100,
            temperature_int: 30,
            temperature_dec: 1
        })
    );
    assert_eq!(check_frame(&[255, 255, 255, 255, 252]).map(|r| r.humidity_int), Ok(255));
}

#[test]
fn single_byte_mutation_is_rejected() {
    let frame = [35u8, 2, 24, 7, 68];
    assert!(check_frame(&frame).is_ok());
    for i in 0..5 {
        for delta in 1..=255u8 {
            let mut f = frame;
            f[i] = f[i].wrapping_add(delta);
            assert_eq!(check_frame(&f), Err(Dht11Error::ChecksumMismatch));
        }
    }
}

#[test]
fn packs_bits_most_significant_first() {
    let mut bits = vec![false; 40];
    bits[0] = true; // byte 0 = 0x80
    bits[15] = true; // byte 1 = 0x01
    bits[16] = true;
    bits[23] = true; // byte 2 = 0x81
    for b in bits.iter_mut().skip(32) {
        *b = true; // byte 4 = 0xff
    }
    assert_eq!(pack_frame(&bits), [0x80, 0x01, 0x81, 0x00, 0xff]);
}

#[test]
fn well_timed_sensor_is_read() {
    let trace = sensor([35, 0, 24, 0, 59], 5, 20);
    let (r, used) = run(&trace).expect("the read finishes");
    assert_eq!(used, trace.len());
    assert_eq!(
        r,
        Ok(Dht11Reading { humidity_int: 35, humidity_dec: 0, temperature_int: 24, temperature_dec: 0 })
    );
}

#[test]
fn pulse_threshold_is_sixteen_polls() {
    // 16 failed polls is still a zero, 17 is a one
    let trace = sensor([0x55, 0xAA, 0x0F, 0xF0, 0xFE], 16, 17);
    let (r, _) = run(&trace).expect("the read finishes");
    assert_eq!(
        r,
        Ok(Dht11Reading {
            humidity_int: 0x55,
            humidity_dec: 0xAA,
            temperature_int: 0x0F,
            temperature_dec: 0xF0
        })
    );
}

#[test]
fn corrupted_frame_reports_checksum_mismatch() {
    let trace = sensor([35, 0, 24, 0, 60], 5, 20);
    let (r, _) = run(&trace).expect("the read finishes");
    assert_eq!(r, Err(Dht11Error::ChecksumMismatch));
}

#[test]
fn silent_line_times_out_at_the_limit() {
    let trace = repeat(Level::Low, 300);
    let (r, used) = run(&trace).expect("the read finishes");
    assert_eq!(r, Err(Dht11Error::Timeout));
    assert_eq!(used, 255);
    assert!(run(&repeat(Level::Low, 254)).is_none());
}

#[test]
fn the_last_allowed_poll_still_counts() {
    let mut trace = repeat(Level::Low, 254);
    trace.push(Level::High);
    assert!(run(&trace).is_none());
}

#[test]
fn stuck_bit_pulse_times_out_without_a_reading() {
    let full = sensor([35, 0, 24, 0, 59], 5, 20);
    // keep the handshake and the start of the first bit, then hold the line low
    let mut trace: Vec<Level> = full[..full.len() - 400].to_vec();
    let cut = trace.len();
    trace.extend(repeat(Level::Low, 600));
    let (r, used) = run(&trace).expect("the read finishes");
    assert_eq!(r, Err(Dht11Error::Timeout));
    assert!(used > cut);
}

#[test]
fn step_tells_when_to_delay() {
    let mut rx = Dht11Receiver::new();
    assert_eq!(rx.awaited(), Level::High);
    assert!(matches!(rx.step(Level::Low), Dht11Step::SampleAfterDelay));
    assert!(matches!(rx.step(Level::High), Dht11Step::SampleNow));
    assert_eq!(rx.awaited(), Level::Low);
}

#[test]
fn sensor_pin_is_kept() {
    assert_eq!(Dht11::new(17).pin(), 17);
}
