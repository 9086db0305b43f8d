use crate::bitstream::{bit_at, lemma_msb_first_bound, lemma_msb_first_spells, msb_first};
use crate::level::Level;
use vstd::arithmetic::power2::{lemma2_to64, lemma_pow2_strictly_increases, pow2};
use vstd::prelude::*;

verus! {

/// Polls of the line, one microsecond apart, that a wait for a level may
/// spend before the read fails with a timeout.
pub const WAIT_LIMIT: u8 = 255;

/// A data bit whose high pulse lasts more than this many polls is a one.
pub const ONE_THRESHOLD: u8 = 16;

/// Waits of the handshake: high, low, high.
pub const HANDSHAKE_WAITS: usize = 3;

/// Bits of one frame: five bytes, most significant bit first.
pub const FRAME_BITS: usize = 40;

/// Waits of one whole read: the handshake, then a low and a high wait for
/// each bit.
pub const READ_WAITS: usize = 83;

/// Why a read of the sensor produced no reading.
#[derive(Clone, Copy, Debug, PartialEq, Eq, Structural)]
pub enum Dht11Error {
    /// The data line could not be configured.
    LineAcquisition,
    /// The line did not reach the awaited level within the wait limit.
    Timeout,
    /// A whole frame arrived but its checksum byte does not match.
    ChecksumMismatch,
}

/// A validated reading: humidity and temperature, each as an integral and
/// a decimal byte.
#[derive(Clone, Copy, Debug, PartialEq, Eq, Structural)]
pub struct Dht11Reading {
    pub humidity_int: u8,
    pub humidity_dec: u8,
    pub temperature_int: u8,
    pub temperature_dec: u8,
}

/// What the caller does after handing one sample of the line to the receiver.
#[derive(Clone, Copy, Debug)]
pub enum Dht11Step {
    /// The awaited level was not seen: wait one polling interval, then
    /// sample again.
    SampleAfterDelay,
    /// The awaited level was seen: sample again at once, for the next wait.
    SampleNow,
    /// The read is over, with this outcome.
    Finished(Result<Dht11Reading, Dht11Error>),
}

/// A single-wire DHT11 sensor on one pin.
pub struct Dht11 {
    pin: u8,
}

impl Dht11 {
    pub closed spec fn spec_pin(&self) -> u8 {
        self.pin
    }

    /// A sensor whose data line is `pin`.
    pub fn new(pin: u8) -> (r: Self)
        ensures
            r.spec_pin() == pin,
    {
        Dht11 { pin }
    }

    /// The pin of the data line.
    pub fn pin(&self) -> (r: u8)
        ensures
            r == self.spec_pin(),
    {
        self.pin
    }
}

/// The checksum that the first four bytes of a frame call for.
pub open spec fn frame_checksum(frame: Seq<u8>) -> int {
    (frame[0] + frame[1] + frame[2] + frame[3]) % 256
}

/// Whether the fifth byte of the frame is the checksum of the first four.
pub open spec fn frame_is_valid(frame: Seq<u8>) -> bool {
    frame[4] == frame_checksum(frame)
}

/// The outcome of a whole received frame: its reading when the checksum
/// matches, a checksum error otherwise.
pub open spec fn frame_outcome(frame: Seq<u8>) -> Result<Dht11Reading, Dht11Error> {
    if frame_is_valid(frame) {
        Ok(
            Dht11Reading {
                humidity_int: frame[0],
                humidity_dec: frame[1],
                temperature_int: frame[2],
                temperature_dec: frame[3],
            },
        )
    } else {
        Err(Dht11Error::ChecksumMismatch)
    }
}

/// The five bytes spelled by 40 bits, each byte most significant bit first.
pub open spec fn frame_bytes(bits: Seq<bool>) -> Seq<u8> {
    Seq::new(5, |j: int| msb_first(bits, 8 * j, 8 * j + 8) as u8)
}

/// Checks a received frame and returns its reading.
pub fn check_frame(frame: &[u8; 5]) -> (r: Result<Dht11Reading, Dht11Error>)
    ensures
        r == frame_outcome(frame@),
{
    let sum: u16 = frame[0] as u16 + frame[1] as u16 + frame[2] as u16 + frame[3] as u16;
    if frame[4] as u16 == sum % 256 {
        Ok(
            Dht11Reading {
                humidity_int: frame[0],
                humidity_dec: frame[1],
                temperature_int: frame[2],
                temperature_dec: frame[3],
            },
        )
    } else {
        Err(Dht11Error::ChecksumMismatch)
    }
}

/// The byte spelled by `bits[start..start+8]`, most significant bit first.
fn byte_at(bits: &Vec<bool>, start: usize) -> (r: u8)
    requires
        start <= 32,
        start + 8 <= bits@.len(),
    ensures
        r == msb_first(bits@, start as int, start + 8),
{
    let mut byte: u8 = 0;
    let mut i: usize = start;
    while i < start + 8
        invariant
            start <= i <= start + 8,
            start <= 32,
            start + 8 <= bits@.len(),
            byte as int == msb_first(bits@, start as int, i as int),
        decreases start + 8 - i,
    {
        proof {
            lemma_msb_first_bound(bits@, start as int, i as int);
            lemma2_to64();
            lemma_pow2_strictly_increases((i - start) as nat, 8);
            assert(pow2((i - start) as nat) <= 128);
        }
        let bit: u8 = if bits[i] {
            1
        } else {
            0
        };
        byte = 2 * byte + bit;
        i += 1;
    }
    byte
}

/// Packs the 40 bits of a frame into its five bytes.
pub fn pack_frame(bits: &Vec<bool>) -> (r: [u8; 5])
    requires
        bits@.len() == FRAME_BITS,
    ensures
        r@ == frame_bytes(bits@),
{
    let r = [byte_at(bits, 0), byte_at(bits, 8), byte_at(bits, 16), byte_at(bits, 24), byte_at(bits, 32)];
    proof {
        assert forall|j: int| 0 <= j < 5 implies #[trigger] r@[j] == frame_bytes(bits@)[j] by {
            lemma_msb_first_bound(bits@, 8 * j, 8 * j + 8);
            lemma2_to64();
        }
    }
    assert(r@ =~= frame_bytes(bits@));
    r
}

/// The abstract state of a read in progress.
pub struct ReceiverView {
    /// Waits completed so far.
    pub waits_done: nat,
    /// Polls of the current wait that did not see the awaited level.
    pub polls: nat,
    /// Data bits decoded so far, in order of arrival.
    pub bits: Seq<bool>,
}

/// The level that wait `k` of a read waits for: high, low, high for the
/// handshake, then low (start of a bit) and high (the bit's pulse) for each
/// data bit.
pub open spec fn awaited_level(k: nat) -> Level {
    if k == 1 {
        Level::Low
    } else if k < HANDSHAKE_WAITS {
        Level::High
    } else if (k - HANDSHAKE_WAITS) % 2 == 0 {
        Level::Low
    } else {
        Level::High
    }
}

/// Whether wait `k` measures the high pulse of a data bit.
pub open spec fn measures_bit(k: nat) -> bool {
    k >= HANDSHAKE_WAITS && (k - HANDSHAKE_WAITS) % 2 == 1
}

/// Data bits decoded by the time `k` waits are completed.
pub open spec fn bits_after(k: nat) -> nat {
    if k <= HANDSHAKE_WAITS {
        0
    } else {
        ((k - HANDSHAKE_WAITS) / 2) as nat
    }
}

impl ReceiverView {
    /// The state is one that a read can reach.
    pub open spec fn wf(&self) -> bool {
        &&& self.waits_done <= READ_WAITS
        &&& self.polls <= WAIT_LIMIT
        &&& self.bits.len() == bits_after(self.waits_done)
    }

    /// The read has neither completed nor timed out.
    pub open spec fn in_progress(&self) -> bool {
        self.waits_done < READ_WAITS && self.polls < WAIT_LIMIT
    }

    /// The level the current wait is for.
    pub open spec fn awaited(&self) -> Level {
        awaited_level(self.waits_done)
    }

    /// The state after one sample of the line at `level`. A sample at the
    /// awaited level completes the wait; when that wait timed a bit's pulse,
    /// the bit is a one exactly when more than the threshold of polls failed
    /// before it. Any other sample counts one more failed poll.
    pub open spec fn next(self, level: Level) -> ReceiverView {
        if level == self.awaited() {
            ReceiverView {
                waits_done: self.waits_done + 1,
                polls: 0,
                bits: if measures_bit(self.waits_done) {
                    self.bits.push(self.polls > ONE_THRESHOLD)
                } else {
                    self.bits
                },
            }
        } else {
            ReceiverView { waits_done: self.waits_done, polls: self.polls + 1, bits: self.bits }
        }
    }

    /// What the caller is told after one sample of the line at `level`.
    pub open spec fn step_result(self, level: Level) -> Dht11Step {
        if level == self.awaited() {
            if self.waits_done + 1 == READ_WAITS {
                Dht11Step::Finished(frame_outcome(frame_bytes(self.next(level).bits)))
            } else {
                Dht11Step::SampleNow
            }
        } else if self.polls + 1 == WAIT_LIMIT {
            Dht11Step::Finished(Err(Dht11Error::Timeout))
        } else {
            Dht11Step::SampleAfterDelay
        }
    }

    /// The outcome of feeding the samples of `trace` one by one: the outcome
    /// of the first step that finishes the read, or none when the trace ends
    /// before that.
    pub open spec fn run(self, trace: Seq<Level>) -> Option<Result<Dht11Reading, Dht11Error>>
        decreases trace.len(),
    {
        if trace.len() == 0 {
            None
        } else {
            match self.step_result(trace[0]) {
                Dht11Step::Finished(outcome) => Some(outcome),
                _ => self.next(trace[0]).run(trace.drop_first()),
            }
        }
    }
}

/// The receiving side of one read of a DHT11, after the host has sent its
/// start signal and released the line. It is handed one sample of the line
/// at a time and says when to sample next, and how the read ended.
pub struct Dht11Receiver {
    waits_done: usize,
    polls: u8,
    bits: Vec<bool>,
}

impl View for Dht11Receiver {
    type V = ReceiverView;

    closed spec fn view(&self) -> ReceiverView {
        ReceiverView { waits_done: self.waits_done as nat, polls: self.polls as nat, bits: self.bits@ }
    }
}

impl Dht11Receiver {
    /// A receiver at the start of the handshake.
    pub fn new() -> (r: Self)
        ensures
            r@.wf(),
            r@.in_progress(),
            r@ == (ReceiverView { waits_done: 0, polls: 0, bits: Seq::empty() }),
    {
        let r = Dht11Receiver { waits_done: 0, polls: 0, bits: Vec::new() };
        assert(r@.bits =~= Seq::empty());
        r
    }

    /// The level that the current wait is for.
    pub fn awaited(&self) -> (r: Level)
        ensures
            r == self@.awaited(),
    {
        if self.waits_done == 1 {
            Level::Low
        } else if self.waits_done < HANDSHAKE_WAITS {
            Level::High
        } else if (self.waits_done - HANDSHAKE_WAITS) % 2 == 0 {
            Level::Low
        } else {
            Level::High
        }
    }

    /// Takes one sample of the line and says what to do next.
    pub fn step(&mut self, level: Level) -> (r: Dht11Step)
        requires
            old(self)@.wf(),
            old(self)@.in_progress(),
        ensures
            final(self)@ == old(self)@.next(level),
            final(self)@.wf(),
            r == old(self)@.step_result(level),
            !(r is Finished) ==> final(self)@.in_progress(),
    {
        let awaited = self.awaited();
        if level == awaited {
            if self.waits_done >= HANDSHAKE_WAITS && (self.waits_done - HANDSHAKE_WAITS) % 2 == 1 {
                self.bits.push(self.polls > ONE_THRESHOLD);
            }
            self.waits_done += 1;
            self.polls = 0;
            if self.waits_done == READ_WAITS {
                let frame = pack_frame(&self.bits);
                Dht11Step::Finished(check_frame(&frame))
            } else {
                Dht11Step::SampleNow
            }
        } else {
            self.polls += 1;
            if self.polls == WAIT_LIMIT {
                Dht11Step::Finished(Err(Dht11Error::Timeout))
            } else {
                Dht11Step::SampleAfterDelay
            }
        }
    }
}

/// A frame whose checksum holds is accepted, and changing any one of its
/// five bytes makes it rejected with a checksum error.
pub proof fn lemma_single_byte_change_rejected(frame: Seq<u8>, i: int, b: u8)
    requires
        frame.len() == 5,
        frame_is_valid(frame),
        0 <= i < 5,
        b != frame[i],
    ensures
        frame_outcome(frame) is Ok,
        frame_outcome(frame.update(i, b)) == Err::<Dht11Reading, Dht11Error>(
            Dht11Error::ChecksumMismatch,
        ),
{
    let g = frame.update(i, b);
    let d = b - frame[i];
    if i < 4 {
        assert(g[0] + g[1] + g[2] + g[3] == frame[0] + frame[1] + frame[2] + frame[3] + d);
        assert(g[4] == frame[4]);
    }
}

/// A wait that never sees its level ends the read with a timeout at the
/// last poll that the limit allows, and not before: from a state where `p`
/// polls of the current wait have failed, `WAIT_LIMIT - p` more samples away
/// from the awaited level give a timeout, and one sample fewer gives no
/// outcome at all.
pub proof fn lemma_wait_times_out(s: ReceiverView, trace: Seq<Level>)
    requires
        s.wf(),
        s.in_progress(),
        trace.len() == WAIT_LIMIT - s.polls,
        forall|i: int| 0 <= i < trace.len() ==> #[trigger] trace[i] != s.awaited(),
    ensures
        s.run(trace) == Some(Err::<Dht11Reading, Dht11Error>(Dht11Error::Timeout)),
        s.run(trace.take(trace.len() - 1)) == None::<Result<Dht11Reading, Dht11Error>>,
    decreases trace.len(),
{
    let n = s.next(trace[0]);
    if trace.len() > 1 {
        let rest = trace.drop_first();
        assert forall|i: int| 0 <= i < rest.len() implies #[trigger] rest[i] != n.awaited() by {
            assert(rest[i] == trace[i + 1]);
        }
        lemma_wait_times_out(n, rest);
        assert(trace.take(trace.len() - 1).drop_first() =~= rest.take(rest.len() - 1));
        assert(trace.take(trace.len() - 1)[0] == trace[0]);
    } else {
        assert(trace.take(0).len() == 0);
    }
}

/// A fresh receiver whose line stays away from the first awaited level for
/// the whole wait limit reports a timeout and no reading.
pub proof fn lemma_silent_line_times_out(trace: Seq<Level>)
    requires
        trace.len() == WAIT_LIMIT,
        forall|i: int| 0 <= i < trace.len() ==> #[trigger] trace[i] == Level::Low,
    ensures
        (ReceiverView { waits_done: 0, polls: 0, bits: Seq::empty() }).run(trace) == Some(
            Err::<Dht11Reading, Dht11Error>(Dht11Error::Timeout),
        ),
{
    let s = ReceiverView { waits_done: 0, polls: 0, bits: Seq::empty() };
    lemma_wait_times_out(s, trace);
}

/// The level other than `level`.
pub open spec fn opposite(level: Level) -> Level {
    match level {
        Level::High => Level::Low,
        Level::Low => Level::High,
    }
}

/// What the line shows during one wait for `level` that fails `d` polls:
/// `d` samples at the other level, then one at `level`.
pub open spec fn wait_samples(level: Level, d: nat) -> Seq<Level> {
    Seq::new(d, |i: int| opposite(level)).push(level)
}

/// The samples of the waits from `k` on, when wait `k` fails `durations[k]`
/// polls.
pub open spec fn read_trace(durations: Seq<nat>, k: nat) -> Seq<Level>
    decreases READ_WAITS - k,
{
    if k >= READ_WAITS {
        Seq::empty()
    } else {
        wait_samples(awaited_level(k), durations[k as int]) + read_trace(durations, k + 1)
    }
}

/// The data bits that the waits' durations encode: bit `j` is a one when the
/// pulse of wait `4 + 2j` lasted more than the threshold.
pub open spec fn pulse_bits(durations: Seq<nat>) -> Seq<bool> {
    Seq::new(40, |j: int| durations[4 + 2 * j] > ONE_THRESHOLD)
}

/// One wait that fails `d` polls, `d` within the limit, moves the receiver
/// to the next wait, recording the bit when the wait timed a pulse, or ends
/// the read when it was the last wait.
proof fn lemma_wait_completes(s: ReceiverView, d: nat, rest: Seq<Level>)
    requires
        s.wf(),
        s.in_progress(),
        s.polls <= d < WAIT_LIMIT,
    ensures
        ({
            let done = ReceiverView {
                waits_done: s.waits_done + 1,
                polls: 0,
                bits: if measures_bit(s.waits_done) {
                    s.bits.push(d > ONE_THRESHOLD)
                } else {
                    s.bits
                },
            };
            s.run(wait_samples(s.awaited(), (d - s.polls) as nat) + rest) == if s.waits_done + 1
                == READ_WAITS {
                Some(frame_outcome(frame_bytes(done.bits)))
            } else {
                done.run(rest)
            }
        }),
    decreases d - s.polls,
{
    let l = s.awaited();
    let t = wait_samples(l, (d - s.polls) as nat) + rest;
    if s.polls < d {
        assert(t[0] == opposite(l));
        let n = s.next(t[0]);
        lemma_wait_completes(n, d, rest);
        assert(t.drop_first() =~= wait_samples(l, (d - n.polls) as nat) + rest);
    } else {
        assert(t[0] == l);
        assert(t.drop_first() =~= rest);
    }
}

/// Reading from wait `k` on, with the bits of the earlier pulses already
/// decoded, ends with the outcome of the frame that all the pulses encode.
proof fn lemma_read_from(durations: Seq<nat>, s: ReceiverView)
    requires
        durations.len() == READ_WAITS,
        forall|k: int| 0 <= k < READ_WAITS ==> #[trigger] durations[k] < WAIT_LIMIT,
        s.wf(),
        s.in_progress(),
        s.polls == 0,
        s.bits == pulse_bits(durations).take(bits_after(s.waits_done) as int),
    ensures
        s.run(read_trace(durations, s.waits_done)) == Some(
            frame_outcome(frame_bytes(pulse_bits(durations))),
        ),
    decreases READ_WAITS - s.waits_done,
{
    let k = s.waits_done;
    let d = durations[k as int];
    let rest = read_trace(durations, k + 1);
    lemma_wait_completes(s, d, rest);
    let bits = if measures_bit(k) {
        s.bits.push(d > ONE_THRESHOLD)
    } else {
        s.bits
    };
    let all = pulse_bits(durations);
    if measures_bit(k) {
        let j = (k - 4) / 2;
        assert(k == 4 + 2 * j);
        assert(bits_after(k) == j);
        assert(bits_after(k + 1) == j + 1);
        assert(bits =~= all.take(j + 1));
    } else {
        assert(bits_after(k + 1) == bits_after(k));
    }
    if k + 1 == READ_WAITS {
        assert(bits =~= all);
    } else {
        let done = ReceiverView { waits_done: k + 1, polls: 0, bits };
        lemma_read_from(durations, done);
    }
}

/// A sensor that keeps every wait of the read within the limit is read in
/// full: the read ends on the last sample with the outcome of the frame that
/// its pulses encode, a one for each pulse longer than the threshold.
pub proof fn lemma_timely_sensor_is_read(durations: Seq<nat>)
    requires
        durations.len() == READ_WAITS,
        forall|k: int| 0 <= k < READ_WAITS ==> #[trigger] durations[k] < WAIT_LIMIT,
    ensures
        (ReceiverView { waits_done: 0, polls: 0, bits: Seq::empty() }).run(read_trace(durations, 0))
            == Some(frame_outcome(frame_bytes(pulse_bits(durations)))),
{
    let s = ReceiverView { waits_done: 0, polls: 0, bits: Seq::empty() };
    assert(pulse_bits(durations).take(0) =~= Seq::<bool>::empty());
    lemma_read_from(durations, s);
}

/// A sensor answering with `frame`, a long pulse for each one bit and a
/// short one for each zero bit (most significant first), is read as that
/// frame: its reading when the checksum holds, a checksum error otherwise.
pub proof fn lemma_sensor_frame_is_read(frame: Seq<u8>, durations: Seq<nat>)
    requires
        frame.len() == 5,
        durations.len() == READ_WAITS,
        forall|k: int| 0 <= k < READ_WAITS ==> #[trigger] durations[k] < WAIT_LIMIT,
        forall|j: int|
            0 <= j < 40 ==> (#[trigger] durations[4 + 2 * j] > ONE_THRESHOLD) == bit_at(
                frame[j / 8] as int,
                (7 - j % 8) as nat,
            ),
    ensures
        (ReceiverView { waits_done: 0, polls: 0, bits: Seq::empty() }).run(read_trace(durations, 0))
            == Some(frame_outcome(frame)),
{
    lemma_timely_sensor_is_read(durations);
    let bits = pulse_bits(durations);
    lemma2_to64();
    assert forall|i: int| 0 <= i < 5 implies #[trigger] frame_bytes(bits)[i] == frame[i] by {
        assert forall|m: int| 0 <= m < 8 implies #[trigger] bits[8 * i + m] == bit_at(
            frame[i] as int,
            (8 - 1 - m) as nat,
        ) by {
            let j = 8 * i + m;
            assert(j / 8 == i && j % 8 == m);
            assert(bits[j] == (durations[4 + 2 * j] > ONE_THRESHOLD));
        }
        lemma_msb_first_spells(bits, 8 * i, frame[i] as nat, 8, 8);
    }
    assert(frame_bytes(bits) =~= frame);
}

} // verus!
