use gpio_sensors::keypad::{key_at, pressed_keys, KeypadTracker};

const LABELS: [char; 16] = [
    '1', '2', '3', 'A', '4', '5', '6', 'B', '7', '8', '9', 'C', '*', '0', '#', 'D',
];

fn levels_of(mask: u16) -> [[bool; 4]; 4] {
    let mut l = [[false; 4]; 4];
    for row in 0..4 {
        for col in 0..4 {
            l[row][col] = mask & (1 << (row * 4 + col)) != 0;
        }
    }
    l
}

fn only(row: usize, col: usize) -> [[bool; 4]; 4] {
    let mut l = [[false; 4]; 4];
    l[row][col] = true;
    l
}

#[test]
fn label_table() {
    for row in 0..4 {
        for col in 0..4 {
            assert_eq!(key_at(row, col), LABELS[row * 4 + col]);
        }
    }
    assert_eq!(key_at(0, 3), 'A');
    assert_eq!(key_at(3, 0), '*');
    assert_eq!(key_at(3, 3), 'D');
}

#[test]
fn scan_reports_exactly_the_closed_keys() {
    for mask in 0..=u16::MAX {
        let got = pressed_keys(&levels_of(mask));
        let want: Vec<char> = (0..16).filter(|k| mask & (1 << k) != 0).map(|k| LABELS[k]).collect();
        assert_eq!(got, want);
    }
}

#[test]
fn empty_and_full_scans() {
    assert!(pressed_keys(&[[false; 4]; 4]).is_empty());
    assert_eq!(pressed_keys(&[[true; 4]; 4]), LABELS.to_vec());
}

#[test]
fn held_key_is_reported_once() {
    let mut t = KeypadTracker::new();
    let a = only(0, 3);
    assert_eq!(t.update(&a), vec!['A']);
    assert_eq!(t.update(&a), Vec::<char>::new());
    assert_eq!(t.last_pressed(), &vec!['A']);
    // released: nothing reported, then pressed again
    assert_eq!(t.update(&[[false; 4]; 4]), Vec::<char>::new());
    assert!(t.last_pressed().is_empty());
    assert_eq!(t.update(&a), vec!['A']);
}

#[test]
fn only_new_keys_are_reported() {
    let mut t = KeypadTracker::new();
    let mut l = only(1, 1); // '5'
    assert_eq!(t.update(&l), vec!['5']);
    l[3][1] = true; // '0'
    l[0][0] = true; // '1'
    assert_eq!(t.update(&l), vec!['1', '0']);
    l[1][1] = false;
    assert_eq!(t.update(&l), Vec::<char>::new());
    assert_eq!(t.last_pressed(), &vec!['1', '0']);
}
