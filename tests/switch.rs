use gpio_sensors::level::Level;
use gpio_sensors::switch::{SlideIndicators, TiltIndication, TiltSwitch, TILT_WINDOW_MS};

const UPRIGHT: TiltIndication = TiltIndication { led_1: true, led_2: false, tilted: false };
const TILTED: TiltIndication = TiltIndication { led_1: false, led_2: true, tilted: true };

#[test]
fn first_edge_is_reported() {
    let mut s = TiltSwitch::new();
    assert_eq!(s.on_edge(1000, Level::Low), Some(TILTED));
}

#[test]
fn bounce_within_settle_window_reports_one_change() {
    let mut s = TiltSwitch::new();
    let mut reported = 0;
    // contact bounce: edges 0..9 ms apart around one transition
    for (t, level) in [(1000, Level::Low), (1002, Level::High), (1005, Level::Low), (1009, Level::Low)] {
        if s.on_edge(t, level).is_some() {
            reported += 1;
        }
    }
    assert_eq!(reported, 1);
}

#[test]
fn window_boundary() {
    let mut s = TiltSwitch::new();
    assert_eq!(s.on_edge(0, Level::High), Some(UPRIGHT));
    assert_eq!(s.on_edge(TILT_WINDOW_MS - 1, Level::Low), None);
    assert_eq!(s.on_edge(TILT_WINDOW_MS, Level::Low), Some(TILTED));
    assert_eq!(s.on_edge(TILT_WINDOW_MS + 10, Level::High), None);
    assert_eq!(s.on_edge(2 * TILT_WINDOW_MS, Level::High), Some(UPRIGHT));
}

#[test]
fn clock_going_backwards_is_not_reported() {
    let mut s = TiltSwitch::new();
    assert!(s.on_edge(5000, Level::High).is_some());
    assert_eq!(s.on_edge(10, Level::Low), None);
}

#[test]
fn slide_indicators_start_from_level() {
    assert_eq!(SlideIndicators::initial(Level::Low), SlideIndicators { led_1: false, led_2: true });
    assert_eq!(SlideIndicators::initial(Level::High), SlideIndicators { led_1: true, led_2: true });
}

#[test]
fn slide_indicators_toggle_together() {
    let mut s = SlideIndicators::initial(Level::Low);
    s.toggle();
    assert_eq!(s, SlideIndicators { led_1: true, led_2: false });
    s.toggle();
    assert_eq!(s, SlideIndicators { led_1: false, led_2: true });
}

#[test]
fn window_near_the_end_of_the_clock() {
    let mut s = TiltSwitch::new();
    assert_eq!(s.on_edge(u64::MAX - 5, Level::Low), Some(TILTED));
    assert_eq!(s.on_edge(u64::MAX, Level::High), None);
}
