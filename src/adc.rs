use crate::bitstream::{
    bit_at, lemma_lsb_first_bound, lemma_lsb_first_spells, lemma_msb_first_bound,
    lemma_msb_first_spells, lsb_first, msb_first,
};
use vstd::arithmetic::power2::{lemma2_to64, pow2};
use vstd::prelude::*;

verus! {

/// Number of bits clocked out of the converter in one conversion: seven
/// MSB-first bits, the shared least significant bit, then seven LSB-first bits.
pub const READOUT_BITS: usize = 15;

/// Number of bits of the command header sent before the readout.
pub const COMMAND_BITS: usize = 5;

/// Why an analog reading was not produced.
#[derive(Clone, Copy, Debug, PartialEq, Eq, Structural)]
pub enum AdcError {
    /// One of the four lines could not be configured.
    LineAcquisition,
    /// The MSB-first and LSB-first readouts disagree: the sample must be
    /// taken again.
    SampleDisagreement,
}

/// The pins of a 4-wire ADC0834 successive-approximation converter.
pub struct Adc0834 {
    adc_cs: u8,
    adc_do: u8,
    adc_di: u8,
    adc_clk: u8,
}

/// The command header for `channel`: start bit, single-ended mode, the odd
/// bit (channel bit 0), the select bit (set for channels above 1) and one
/// bit that the converter ignores.
pub open spec fn command_header(channel: u8) -> Seq<bool> {
    seq![true, true, channel % 2 == 1, channel > 1, true]
}

/// The sample read along the MSB-first path: the first eight bits.
pub open spec fn readout_msb(readout: Seq<bool>) -> int {
    msb_first(readout, 0, 8)
}

/// The sample read along the LSB-first path: bit 7 (shared with the
/// MSB-first path) and the seven bits after it.
pub open spec fn readout_lsb(readout: Seq<bool>) -> int {
    lsb_first(readout, 7, 15)
}

/// The outcome of a conversion whose data line carried `readout`: the sample
/// when both paths agree, a disagreement otherwise.
pub open spec fn readout_outcome(readout: Seq<bool>) -> Result<u8, AdcError> {
    if readout_msb(readout) == readout_lsb(readout) {
        Ok(readout_msb(readout) as u8)
    } else {
        Err(AdcError::SampleDisagreement)
    }
}

/// What a converter holding the sample `v` puts on its data line: bits 7..0
/// of `v`, then bits 1..7 again.
pub open spec fn echo_readout(v: u8) -> Seq<bool> {
    Seq::new(
        15,
        |i: int|
            if i < 8 {
                bit_at(v as int, (7 - i) as nat)
            } else {
                bit_at(v as int, (i - 7) as nat)
            },
    )
}

impl Adc0834 {
    pub closed spec fn spec_chip_select(&self) -> u8 {
        self.adc_cs
    }

    pub closed spec fn spec_data_out(&self) -> u8 {
        self.adc_do
    }

    pub closed spec fn spec_data_in(&self) -> u8 {
        self.adc_di
    }

    pub closed spec fn spec_clock(&self) -> u8 {
        self.adc_clk
    }

    /// A converter wired to the given pins: chip select, data out of the
    /// converter, data into the converter, and clock.
    pub fn new(adc_cs: u8, adc_do: u8, adc_di: u8, adc_clk: u8) -> (r: Self)
        ensures
            r.spec_chip_select() == adc_cs,
            r.spec_data_out() == adc_do,
            r.spec_data_in() == adc_di,
            r.spec_clock() == adc_clk,
    {
        Adc0834 { adc_cs, adc_do, adc_di, adc_clk }
    }

    /// The chip-select pin.
    pub fn chip_select(&self) -> (r: u8)
        ensures
            r == self.spec_chip_select(),
    {
        self.adc_cs
    }

    /// The pin on which the converter sends its data.
    pub fn data_out(&self) -> (r: u8)
        ensures
            r == self.spec_data_out(),
    {
        self.adc_do
    }

    /// The pin on which the converter receives its command.
    pub fn data_in(&self) -> (r: u8)
        ensures
            r == self.spec_data_in(),
    {
        self.adc_di
    }

    /// The clock pin.
    pub fn clock(&self) -> (r: u8)
        ensures
            r == self.spec_clock(),
    {
        self.adc_clk
    }

    /// The bits to send, in order, to start a conversion of `channel`.
    pub fn command(channel: u8) -> (r: [bool; 5])
        ensures
            r@ == command_header(channel),
    {
        let odd = channel % 2 == 1;
        let select = channel > 1;
        let r = [true, true, odd, select, true];
        assert(r@ =~= command_header(channel));
        r
    }

    /// Decodes the bits that the data line carried during one conversion, in
    /// the order they were clocked out.
    pub fn decode(readout: &[bool; 15]) -> (r: Result<u8, AdcError>)
        ensures
            r == readout_outcome(readout@),
            r matches Ok(v) ==> v == readout_msb(readout@) && v == readout_lsb(readout@),
    {
        let mut msb: u8 = 0;
        let mut i: usize = 0;
        while i < 8
            invariant
                i <= 8,
                readout@.len() == 15,
                msb as int == msb_first(readout@, 0, i as int),
            decreases 8 - i,
        {
            proof {
                lemma_msb_first_bound(readout@, 0, i as int);
                lemma2_to64();
                assert(pow2(i as nat) <= 128) by {
                    vstd::arithmetic::power2::lemma_pow2_strictly_increases(i as nat, 8);
                }
            }
            let bit: u8 = if readout[i] {
                1
            } else {
                0
            };
            msb = 2 * msb + bit;
            i += 1;
        }
        let mut lsb: u8 = 0;
        let mut j: usize = 15;
        while j > 7
            invariant
                7 <= j <= 15,
                readout@.len() == 15,
                lsb as int == lsb_first(readout@, j as int, 15),
            decreases j,
        {
            proof {
                lemma_lsb_first_bound(readout@, j as int, 15);
                lemma2_to64();
                assert(pow2((15 - j) as nat) <= 128) by {
                    vstd::arithmetic::power2::lemma_pow2_strictly_increases((15 - j) as nat, 8);
                }
            }
            j -= 1;
            let bit: u8 = if readout[j] {
                1
            } else {
                0
            };
            lsb = 2 * lsb + bit;
        }
        if msb == lsb {
            Ok(msb)
        } else {
            Err(AdcError::SampleDisagreement)
        }
    }
}

/// A converter that puts the same sample `v` on both readout paths is read
/// back as exactly `v`, for every 8-bit `v`.
pub proof fn lemma_echo_round_trip(v: u8)
    ensures
        readout_msb(echo_readout(v)) == v,
        readout_lsb(echo_readout(v)) == v,
        readout_outcome(echo_readout(v)) == Ok::<u8, AdcError>(v),
{
    let s = echo_readout(v);
    lemma2_to64();
    assert forall|i: int| 0 <= i < 8 implies #[trigger] s[0 + i] == bit_at(
        v as int,
        (8 - 1 - i) as nat,
    ) by {}
    lemma_msb_first_spells(s, 0, v as nat, 8, 8);
    assert forall|i: int| 0 <= i < 8 implies #[trigger] s[7 + i] == bit_at(v as int, i as nat) by {
        if i == 0 {
            assert(s[7] == bit_at(v as int, 0));
        }
    }
    lemma_lsb_first_spells(s, 7, v as nat, 8, 0);
}

} // verus!
