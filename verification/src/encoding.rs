//! The encoding side of the codec engine: protocols that turn primitive
//! integers into bit sequences and write them to a `BitSink`.

use vstd::prelude::*;

pub mod digit;
pub mod simple;

use crate::sink::BitSink;
use crate::sink::WriteError;

verus! {

/// A protocol for encoding primitive integers into a `BitSink`. Every
/// implementation of this trait should have a corresponding
/// `IntDecodingProtocol` that can decode the integers this encoder wrote.
///
/// A simple implementation would encode integers using their plain binary
/// representation (writing 32 booleans to encode a `u32` value); this is what
/// `SimpleEncodingProtocol` does. Such an implementation is perfect when
/// every value is equally likely to be stored. However, smaller values are
/// often more common, and a more clever protocol exploits this by spending
/// fewer booleans on smaller numbers.
///
/// The write methods return a `Result` because implementations of `BitSink`
/// can be backed by I/O operations, which may fail; the bit sequence each
/// method appends on success is `enc_unsigned` or `enc_signed` of the
/// written value at the method's width.
pub trait EncodingProtocol {
    /// The bit sequence this protocol writes for the unsigned value `value`
    /// at the integer width `width`.
    spec fn enc_unsigned(&self, width: nat, value: nat) -> Seq<bool>;

    /// The bit sequence this protocol writes for the signed value `value`
    /// at the integer width `width`.
    spec fn enc_signed(&self, width: nat, value: int) -> Seq<bool>;

    /// Encodes the given u8 value and writes it to `sink`.
    fn write_u8<S: BitSink>(&self, sink: &mut S, value: u8) -> (r: Result<(), WriteError>)
        ensures
            old(sink).never_fails() ==> r is Ok,
            r is Ok && old(sink).retains() ==> final(sink).bits() == old(sink).bits()
                + self.enc_unsigned(8, value as nat),
            r is Ok && !old(sink).retains() ==> final(sink).bits() == old(sink).bits(),
            final(sink).retains() == old(sink).retains(),
            final(sink).never_fails() == old(sink).never_fails(),
    ;

    /// Encodes the given i8 value and writes it to `sink`.
    fn write_i8<S: BitSink>(&self, sink: &mut S, value: i8) -> (r: Result<(), WriteError>)
        ensures
            old(sink).never_fails() ==> r is Ok,
            r is Ok && old(sink).retains() ==> final(sink).bits() == old(sink).bits()
                + self.enc_signed(8, value as int),
            r is Ok && !old(sink).retains() ==> final(sink).bits() == old(sink).bits(),
            final(sink).retains() == old(sink).retains(),
            final(sink).never_fails() == old(sink).never_fails(),
    ;

    /// Encodes the given u16 value and writes it to `sink`.
    fn write_u16<S: BitSink>(&self, sink: &mut S, value: u16) -> (r: Result<(), WriteError>)
        ensures
            old(sink).never_fails() ==> r is Ok,
            r is Ok && old(sink).retains() ==> final(sink).bits() == old(sink).bits()
                + self.enc_unsigned(16, value as nat),
            r is Ok && !old(sink).retains() ==> final(sink).bits() == old(sink).bits(),
            final(sink).retains() == old(sink).retains(),
            final(sink).never_fails() == old(sink).never_fails(),
    ;

    /// Encodes the given i16 value and writes it to `sink`.
    fn write_i16<S: BitSink>(&self, sink: &mut S, value: i16) -> (r: Result<(), WriteError>)
        ensures
            old(sink).never_fails() ==> r is Ok,
            r is Ok && old(sink).retains() ==> final(sink).bits() == old(sink).bits()
                + self.enc_signed(16, value as int),
            r is Ok && !old(sink).retains() ==> final(sink).bits() == old(sink).bits(),
            final(sink).retains() == old(sink).retains(),
            final(sink).never_fails() == old(sink).never_fails(),
    ;

    /// Encodes the given u32 value and writes it to `sink`.
    fn write_u32<S: BitSink>(&self, sink: &mut S, value: u32) -> (r: Result<(), WriteError>)
        ensures
            old(sink).never_fails() ==> r is Ok,
            r is Ok && old(sink).retains() ==> final(sink).bits() == old(sink).bits()
                + self.enc_unsigned(32, value as nat),
            r is Ok && !old(sink).retains() ==> final(sink).bits() == old(sink).bits(),
            final(sink).retains() == old(sink).retains(),
            final(sink).never_fails() == old(sink).never_fails(),
    ;

    /// Encodes the given i32 value and writes it to `sink`.
    fn write_i32<S: BitSink>(&self, sink: &mut S, value: i32) -> (r: Result<(), WriteError>)
        ensures
            old(sink).never_fails() ==> r is Ok,
            r is Ok && old(sink).retains() ==> final(sink).bits() == old(sink).bits()
                + self.enc_signed(32, value as int),
            r is Ok && !old(sink).retains() ==> final(sink).bits() == old(sink).bits(),
            final(sink).retains() == old(sink).retains(),
            final(sink).never_fails() == old(sink).never_fails(),
    ;

    /// Encodes the given u64 value and writes it to `sink`.
    fn write_u64<S: BitSink>(&self, sink: &mut S, value: u64) -> (r: Result<(), WriteError>)
        ensures
            old(sink).never_fails() ==> r is Ok,
            r is Ok && old(sink).retains() ==> final(sink).bits() == old(sink).bits()
                + self.enc_unsigned(64, value as nat),
            r is Ok && !old(sink).retains() ==> final(sink).bits() == old(sink).bits(),
            final(sink).retains() == old(sink).retains(),
            final(sink).never_fails() == old(sink).never_fails(),
    ;

    /// Encodes the given i64 value and writes it to `sink`.
    fn write_i64<S: BitSink>(&self, sink: &mut S, value: i64) -> (r: Result<(), WriteError>)
        ensures
            old(sink).never_fails() ==> r is Ok,
            r is Ok && old(sink).retains() ==> final(sink).bits() == old(sink).bits()
                + self.enc_signed(64, value as int),
            r is Ok && !old(sink).retains() ==> final(sink).bits() == old(sink).bits(),
            final(sink).retains() == old(sink).retains(),
            final(sink).never_fails() == old(sink).never_fails(),
    ;

    /// Encodes the given u128 value and writes it to `sink`.
    fn write_u128<S: BitSink>(&self, sink: &mut S, value: u128) -> (r: Result<(), WriteError>)
        ensures
            old(sink).never_fails() ==> r is Ok,
            r is Ok && old(sink).retains() ==> final(sink).bits() == old(sink).bits()
                + self.enc_unsigned(128, value as nat),
            r is Ok && !old(sink).retains() ==> final(sink).bits() == old(sink).bits(),
            final(sink).retains() == old(sink).retains(),
            final(sink).never_fails() == old(sink).never_fails(),
    ;

    /// Encodes the given i128 value and writes it to `sink`.
    fn write_i128<S: BitSink>(&self, sink: &mut S, value: i128) -> (r: Result<(), WriteError>)
        ensures
            old(sink).never_fails() ==> r is Ok,
            r is Ok && old(sink).retains() ==> final(sink).bits() == old(sink).bits()
                + self.enc_signed(128, value as int),
            r is Ok && !old(sink).retains() ==> final(sink).bits() == old(sink).bits(),
            final(sink).retains() == old(sink).retains(),
            final(sink).never_fails() == old(sink).never_fails(),
    ;
}

} // verus!
