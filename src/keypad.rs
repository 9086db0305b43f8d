use vstd::prelude::*;

verus! {

/// Rows of the key matrix, driven one at a time.
pub const KEY_ROWS: usize = 4;

/// Columns of the key matrix, read while a row is driven.
pub const KEY_COLS: usize = 4;

/// The label of key `k`, numbered row by row (`k == row * 4 + col`):
/// `1 2 3 A / 4 5 6 B / 7 8 9 C / * 0 # D`.
pub open spec fn key_label(k: int) -> char {
    if k == 0 {
        '1'
    } else if k == 1 {
        '2'
    } else if k == 2 {
        '3'
    } else if k == 3 {
        'A'
    } else if k == 4 {
        '4'
    } else if k == 5 {
        '5'
    } else if k == 6 {
        '6'
    } else if k == 7 {
        'B'
    } else if k == 8 {
        '7'
    } else if k == 9 {
        '8'
    } else if k == 10 {
        '9'
    } else if k == 11 {
        'C'
    } else if k == 12 {
        '*'
    } else if k == 13 {
        '0'
    } else if k == 14 {
        '#'
    } else {
        'D'
    }
}

/// Whether key `k` read as closed: its column was high while its row was
/// driven.
pub open spec fn key_closed(levels: [[bool; 4]; 4], k: int) -> bool {
    levels@[k / 4]@[k % 4]
}

/// The labels of the closed keys among the first `n`, in scan order.
pub open spec fn pressed_upto(levels: [[bool; 4]; 4], n: int) -> Seq<char>
    decreases n,
{
    if n <= 0 {
        Seq::empty()
    } else if key_closed(levels, n - 1) {
        pressed_upto(levels, n - 1).push(key_label(n - 1))
    } else {
        pressed_upto(levels, n - 1)
    }
}

/// The labels of all closed keys of one scan, in scan order.
pub open spec fn pressed(levels: [[bool; 4]; 4]) -> Seq<char> {
    pressed_upto(levels, 16)
}

/// The labels of `current` that are not in `previous`, in the order of
/// `current`.
pub open spec fn newly_pressed(current: Seq<char>, previous: Seq<char>) -> Seq<char>
    decreases current.len(),
{
    if current.len() == 0 {
        Seq::empty()
    } else if previous.contains(current.last()) {
        newly_pressed(current.drop_last(), previous)
    } else {
        newly_pressed(current.drop_last(), previous).push(current.last())
    }
}

/// The label of the key at `row` and `col`.
pub fn key_at(row: usize, col: usize) -> (r: char)
    requires
        row < 4,
        col < 4,
    ensures
        r == key_label(row * 4 + col),
{
    let k = row * 4 + col;
    if k == 0 {
        '1'
    } else if k == 1 {
        '2'
    } else if k == 2 {
        '3'
    } else if k == 3 {
        'A'
    } else if k == 4 {
        '4'
    } else if k == 5 {
        '5'
    } else if k == 6 {
        '6'
    } else if k == 7 {
        'B'
    } else if k == 8 {
        '7'
    } else if k == 9 {
        '8'
    } else if k == 10 {
        '9'
    } else if k == 11 {
        'C'
    } else if k == 12 {
        '*'
    } else if k == 13 {
        '0'
    } else if k == 14 {
        '#'
    } else {
        'D'
    }
}

/// The labels of the keys that one scan found closed, in scan order:
/// `levels[row][col]` is the level of column `col` while `row` was driven.
pub fn pressed_keys(levels: &[[bool; 4]; 4]) -> (r: Vec<char>)
    ensures
        r@ == pressed(*levels),
{
    let mut r: Vec<char> = Vec::new();
    let mut row: usize = 0;
    while row < 4
        invariant
            row <= 4,
            r@ == pressed_upto(*levels, row as int * 4),
        decreases 4 - row,
    {
        let line = levels[row];
        let mut col: usize = 0;
        while col < 4
            invariant
                row < 4,
                col <= 4,
                line == levels@[row as int],
                r@ == pressed_upto(*levels, row as int * 4 + col as int),
            decreases 4 - col,
        {
            let k = row * 4 + col;
            assert(k as int / 4 == row as int && k as int % 4 == col as int);
            if line[col] {
                r.push(key_at(row, col));
            }
            col += 1;
        }
        row += 1;
    }
    r
}

/// Whether `c` is one of `keys`.
fn contains_key(keys: &Vec<char>, c: char) -> (r: bool)
    ensures
        r == keys@.contains(c),
{
    let mut i: usize = 0;
    while i < keys.len()
        invariant
            i <= keys@.len(),
            forall|j: int| 0 <= j < i ==> keys@[j] != c,
        decreases keys@.len() - i,
    {
        if keys[i] == c {
            return true;
        }
        i += 1;
    }
    false
}

/// Tracks the keys held at the last scan, to report only new presses.
pub struct KeypadTracker {
    last_pressed: Vec<char>,
}

impl View for KeypadTracker {
    type V = Seq<char>;

    closed spec fn view(&self) -> Seq<char> {
        self.last_pressed@
    }
}

impl KeypadTracker {
    /// A tracker that has seen no key held.
    pub fn new() -> (r: Self)
        ensures
            r@ == Seq::<char>::empty(),
    {
        KeypadTracker { last_pressed: Vec::new() }
    }

    /// The keys held at the last scan.
    pub fn last_pressed(&self) -> (r: &Vec<char>)
        ensures
            r@ == self@,
    {
        &self.last_pressed
    }

    /// Takes the readings of one scan, returns the keys pressed since the
    /// last one (empty when there are none) and remembers the keys now held.
    /// Released keys are forgotten without being reported.
    pub fn update(&mut self, levels: &[[bool; 4]; 4]) -> (r: Vec<char>)
        ensures
            r@ == newly_pressed(pressed(*levels), old(self)@),
            final(self)@ == pressed(*levels),
    {
        let current = pressed_keys(levels);
        let mut fresh: Vec<char> = Vec::new();
        let mut i: usize = 0;
        while i < current.len()
            invariant
                i <= current@.len(),
                fresh@ == newly_pressed(current@.take(i as int), self.last_pressed@),
            decreases current@.len() - i,
        {
            let c = current[i];
            assert(current@.take(i + 1).drop_last() =~= current@.take(i as int));
            if !contains_key(&self.last_pressed, c) {
                fresh.push(c);
            }
            i += 1;
        }
        assert(current@.take(current@.len() as int) =~= current@);
        self.last_pressed = current;
        fresh
    }
}

/// The sixteen labels are pairwise different, so a label names exactly one
/// row and column.
pub proof fn lemma_labels_distinct()
    ensures
        forall|k1: int, k2: int|
            0 <= k1 < 16 && 0 <= k2 < 16 && k1 != k2 ==> #[trigger] key_label(k1) != #[trigger] key_label(
                k2,
            ),
{
}

/// Whether `c` is the label of a closed key among the first `n`.
pub open spec fn closed_label(levels: [[bool; 4]; 4], n: int, c: char) -> bool {
    exists|k: int| 0 <= k < n && key_closed(levels, k) && c == #[trigger] key_label(k)
}

/// What the first `n` keys of a scan contribute: a label appears exactly
/// when its key is among them and closed, each at most once.
proof fn lemma_pressed_upto(levels: [[bool; 4]; 4], n: int)
    requires
        0 <= n <= 16,
    ensures
        forall|k: int|
            0 <= k < 16 ==> (#[trigger] pressed_upto(levels, n).contains(key_label(k)) <==> (k < n
                && key_closed(levels, k))),
        forall|i: int|
            0 <= i < pressed_upto(levels, n).len() ==> closed_label(
                levels,
                n,
                #[trigger] pressed_upto(levels, n)[i],
            ),
        pressed_upto(levels, n).no_duplicates(),
    decreases n,
{
    lemma_labels_distinct();
    if n > 0 {
        lemma_pressed_upto(levels, n - 1);
        let p = pressed_upto(levels, n - 1);
        let q = pressed_upto(levels, n);
        if key_closed(levels, n - 1) {
            assert forall|k: int| 0 <= k < 16 implies (#[trigger] q.contains(key_label(k)) <==> (k
                < n && key_closed(levels, k))) by {
                if q.contains(key_label(k)) && key_label(k) != key_label(n - 1) {
                    let i = choose|i: int| 0 <= i < q.len() && q[i] == key_label(k);
                    assert(p[i] == key_label(k));
                }
                if k < n - 1 && key_closed(levels, k) {
                    assert(p.contains(key_label(k)));
                    let i = choose|i: int| 0 <= i < p.len() && p[i] == key_label(k);
                    assert(q[i] == key_label(k));
                }
                if k == n - 1 {
                    assert(q[q.len() - 1] == key_label(k));
                }
            }
            assert forall|i: int| 0 <= i < q.len() implies closed_label(levels, n, #[trigger] q[i]) by {
                if i < p.len() {
                    assert(q[i] == p[i]);
                    assert(closed_label(levels, n - 1, p[i]));
                    let k = choose|k: int|
                        0 <= k < n - 1 && key_closed(levels, k) && p[i] == #[trigger] key_label(k);
                    assert(0 <= k < n && key_closed(levels, k) && q[i] == key_label(k));
                } else {
                    assert(q[i] == key_label(n - 1));
                }
            }
            assert forall|i: int, j: int| 0 <= i < q.len() && 0 <= j < q.len() && i != j implies q[i]
                != q[j] by {
                if i < p.len() && j < p.len() {
                    assert(q[i] == p[i] && q[j] == p[j]);
                } else if i < p.len() {
                    assert(q[i] == p[i]);
                    assert(closed_label(levels, n - 1, p[i]));
                } else if j < p.len() {
                    assert(q[j] == p[j]);
                    assert(closed_label(levels, n - 1, p[j]));
                }
            }
        } else {
            assert forall|i: int| 0 <= i < q.len() implies closed_label(levels, n, #[trigger] q[i]) by {
                assert(closed_label(levels, n - 1, p[i]));
                let k = choose|k: int|
                    0 <= k < n - 1 && key_closed(levels, k) && p[i] == #[trigger] key_label(k);
                assert(0 <= k < n && key_closed(levels, k) && q[i] == key_label(k));
            }
        }
    }
}

/// A scan reports exactly the keys whose row and column met: every closed
/// key's label is in the result, no other label is, and none is repeated.
pub proof fn lemma_scan_complete(levels: [[bool; 4]; 4])
    ensures
        forall|row: int, col: int|
            0 <= row < 4 && 0 <= col < 4 ==> (#[trigger] pressed(levels).contains(
                key_label(row * 4 + col),
            ) <==> levels@[row]@[col]),
        forall|c: char|
            #[trigger] pressed(levels).contains(c) ==> exists|row: int, col: int|
                0 <= row < 4 && 0 <= col < 4 && levels@[row]@[col] && c == key_label(row * 4 + col),
        pressed(levels).no_duplicates(),
{
    lemma_pressed_upto(levels, 16);
    assert forall|row: int, col: int| 0 <= row < 4 && 0 <= col < 4 implies (
    #[trigger] pressed(levels).contains(key_label(row * 4 + col)) <==> levels@[row]@[col]) by {
        let k = row * 4 + col;
        assert(k / 4 == row && k % 4 == col);
        assert(pressed(levels).contains(key_label(k)) <==> key_closed(levels, k));
    }
    assert forall|c: char| #[trigger] pressed(levels).contains(c) implies exists|row: int, col: int|
        0 <= row < 4 && 0 <= col < 4 && levels@[row]@[col] && c == key_label(row * 4 + col) by {
        let i = choose|i: int| 0 <= i < pressed(levels).len() && pressed(levels)[i] == c;
        assert(closed_label(levels, 16, pressed_upto(levels, 16)[i]));
        let k = choose|k: int|
            0 <= k < 16 && key_closed(levels, k) && c == #[trigger] key_label(k);
        assert(k == (k / 4) * 4 + k % 4);
        assert(levels@[k / 4]@[k % 4] && c == key_label((k / 4) * 4 + k % 4));
    }
}

/// The keys reported as newly pressed are exactly those held now and not
/// held at the previous scan.
pub proof fn lemma_newly_pressed_is_difference(current: Seq<char>, previous: Seq<char>)
    ensures
        forall|c: char|
            #[trigger] newly_pressed(current, previous).contains(c) <==> current.contains(c)
                && !previous.contains(c),
    decreases current.len(),
{
    if current.len() > 0 {
        let d = current.drop_last();
        lemma_newly_pressed_is_difference(d, previous);
        let x = current.last();
        let r = newly_pressed(current, previous);
        let rd = newly_pressed(d, previous);
        assert forall|c: char| #[trigger] r.contains(c) <==> current.contains(c) && !previous.contains(
            c,
        ) by {
            if current.contains(c) && c != x {
                let i = choose|i: int| 0 <= i < current.len() && current[i] == c;
                assert(d[i] == c);
            }
            if d.contains(c) {
                let i = choose|i: int| 0 <= i < d.len() && d[i] == c;
                assert(current[i] == c);
            }
            if c == x {
                assert(current[current.len() - 1] == c);
            }
            if !previous.contains(x) {
                assert(r[r.len() - 1] == x);
                if rd.contains(c) {
                    let i = choose|i: int| 0 <= i < rd.len() && rd[i] == c;
                    assert(r[i] == c);
                }
                if r.contains(c) && c != x {
                    let i = choose|i: int| 0 <= i < r.len() && r[i] == c;
                    assert(rd[i] == c);
                }
            }
        }
    }
}

/// A key held for two scans in a row is reported at the first of them only:
/// with the same readings twice, the second scan reports nothing. After a
/// scan where a key was not held, pressing it again reports it again.
pub proof fn lemma_held_key_reported_once(levels: [[bool; 4]; 4], previous: Seq<char>)
    ensures
        newly_pressed(pressed(levels), pressed(levels)) == Seq::<char>::empty(),
        forall|c: char|
            pressed(levels).contains(c) && !previous.contains(c) ==> #[trigger] newly_pressed(
                pressed(levels),
                previous,
            ).contains(c),
{
    let p = pressed(levels);
    lemma_newly_pressed_is_difference(p, p);
    lemma_newly_pressed_is_difference(p, previous);
    let r = newly_pressed(p, p);
    if r.len() > 0 {
        assert(r.contains(r[0]));
    }
    assert(r =~= Seq::<char>::empty());
}

} // verus!
