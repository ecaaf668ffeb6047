//! The fixed-width encoder: every integer is written as its plain binary
//! representation, least significant bit first.

use vstd::prelude::*;

use crate::bits::bits_of_uint;
use crate::bits::int_mod_pow2;
use crate::bits::lemma_bits_of_uint_mod;
use crate::bits::lemma_int_mod_pow2_negative;
use crate::bits::lemma_int_mod_pow2_twice;
use crate::bits::push_bits_of_u128;
use crate::encoding::EncodingProtocol;
use crate::sink::BitSink;
use crate::sink::WriteError;
use vstd::arithmetic::div_mod::lemma_small_mod;
use vstd::arithmetic::power2::lemma2_to64;
use vstd::arithmetic::power2::lemma2_to64_rest;
use vstd::arithmetic::power2::lemma_pow2_adds;
use vstd::arithmetic::power2::lemma_pow2_pos;
use vstd::arithmetic::power2::pow2;

verus! {

/// The simple implementation of `EncodingProtocol`: it does not try to
/// encode any value compactly, but uses a fixed-width encoding based on the
/// binary representation of the value. The corresponding decoding protocol
/// is `SimpleIntDecodingProtocol`.
///
/// This encoding is the right choice when every value is equally likely to
/// be stored, and the fallback baseline otherwise.
pub struct SimpleEncodingProtocol {}

impl SimpleEncodingProtocol {
    /// Constructs the simple encoding protocol. This is a no-op since the
    /// protocol has no configuration.
    pub fn new() -> (r: Self) {
        SimpleEncodingProtocol {  }
    }

    /// Writes the `num_bits` low bits of `value` to `sink`, least
    /// significant bit first.
    pub fn write_unsigned<S: BitSink>(
        &self,
        sink: &mut S,
        num_bits: usize,
        value: u128,
    ) -> (r: Result<(), WriteError>)
        requires
            num_bits <= 128,
        ensures
            old(sink).never_fails() ==> r is Ok,
            r is Ok && old(sink).retains() ==> final(sink).bits() == old(sink).bits()
                + bits_of_uint(value as nat, num_bits as nat),
            r is Ok && !old(sink).retains() ==> final(sink).bits() == old(sink).bits(),
            final(sink).retains() == old(sink).retains(),
            final(sink).never_fails() == old(sink).never_fails(),
    {
        let mut bools: Vec<bool> = Vec::new();
        push_bits_of_u128(&mut bools, value, num_bits);
        sink.write(bools.as_slice())
    }

    /// Writes the `num_bits` low bits of the two's-complement form of
    /// `value` to `sink`, least significant bit first: a negative value is
    /// shifted up by `2^num_bits` before its bits are written.
    pub fn write_signed<S: BitSink>(
        &self,
        sink: &mut S,
        num_bits: usize,
        value: i128,
    ) -> (r: Result<(), WriteError>)
        requires
            num_bits <= 128,
        ensures
            old(sink).never_fails() ==> r is Ok,
            r is Ok && old(sink).retains() ==> final(sink).bits() == old(sink).bits()
                + bits_of_uint(int_mod_pow2(value as int, num_bits as nat), num_bits as nat),
            r is Ok && !old(sink).retains() ==> final(sink).bits() == old(sink).bits(),
            final(sink).retains() == old(sink).retains(),
            final(sink).never_fails() == old(sink).never_fails(),
    {
        let unsigned: u128 = if value >= 0 {
            value as u128
        } else {
            u128::MAX - ((-(value + 1)) as u128)
        };
        proof {
            lemma_pow2_adds(64, 64);
            lemma2_to64();
            lemma2_to64_rest();
            assert(pow2(128) == 0x100000000000000000000000000000000);
            if value >= 0 {
                lemma_small_mod(value as nat, pow2(128));
            } else {
                lemma_int_mod_pow2_negative(value as int, 128);
            }
            assert(unsigned as nat == int_mod_pow2(value as int, 128));
            lemma_int_mod_pow2_twice(value as int, num_bits as nat, 128);
            assert(int_mod_pow2(unsigned as int, num_bits as nat) == int_mod_pow2(
                value as int,
                num_bits as nat,
            ));
            lemma_pow2_pos(num_bits as nat);
            assert(unsigned as int % (pow2(num_bits as nat) as int) == (unsigned as nat % pow2(
                num_bits as nat,
            )) as int);
            assert(unsigned as nat % pow2(num_bits as nat) == int_mod_pow2(
                value as int,
                num_bits as nat,
            ));
            lemma_bits_of_uint_mod(unsigned as nat, num_bits as nat);
            assert(bits_of_uint(unsigned as nat, num_bits as nat) == bits_of_uint(
                int_mod_pow2(value as int, num_bits as nat),
                num_bits as nat,
            ));
        }
        self.write_unsigned(sink, num_bits, unsigned)
    }
}

impl EncodingProtocol for SimpleEncodingProtocol {
    open spec fn enc_unsigned(&self, width: nat, value: nat) -> Seq<bool> {
        bits_of_uint(value, width)
    }

    open spec fn enc_signed(&self, width: nat, value: int) -> Seq<bool> {
        bits_of_uint(int_mod_pow2(value, width), width)
    }

    fn write_u8<S: BitSink>(&self, sink: &mut S, value: u8) -> (r: Result<(), WriteError>) {
        self.write_unsigned(sink, 8, value as u128)
    }

    fn write_i8<S: BitSink>(&self, sink: &mut S, value: i8) -> (r: Result<(), WriteError>) {
        self.write_signed(sink, 8, value as i128)
    }

    fn write_u16<S: BitSink>(&self, sink: &mut S, value: u16) -> (r: Result<(), WriteError>) {
        self.write_unsigned(sink, 16, value as u128)
    }

    fn write_i16<S: BitSink>(&self, sink: &mut S, value: i16) -> (r: Result<(), WriteError>) {
        self.write_signed(sink, 16, value as i128)
    }

    fn write_u32<S: BitSink>(&self, sink: &mut S, value: u32) -> (r: Result<(), WriteError>) {
        self.write_unsigned(sink, 32, value as u128)
    }

    fn write_i32<S: BitSink>(&self, sink: &mut S, value: i32) -> (r: Result<(), WriteError>) {
        self.write_signed(sink, 32, value as i128)
    }

    fn write_u64<S: BitSink>(&self, sink: &mut S, value: u64) -> (r: Result<(), WriteError>) {
        self.write_unsigned(sink, 64, value as u128)
    }

    fn write_i64<S: BitSink>(&self, sink: &mut S, value: i64) -> (r: Result<(), WriteError>) {
        self.write_signed(sink, 64, value as i128)
    }

    fn write_u128<S: BitSink>(&self, sink: &mut S, value: u128) -> (r: Result<(), WriteError>) {
        self.write_unsigned(sink, 128, value)
    }

    fn write_i128<S: BitSink>(&self, sink: &mut S, value: i128) -> (r: Result<(), WriteError>) {
        self.write_signed(sink, 128, value)
    }
}

} // verus!
