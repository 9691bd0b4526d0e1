//! Fixed-width scalars: the coordinates and payloads that the index stores.
//!
//! A scalar is an integer of 32 or 64 bits, with or without a sign, encoded
//! in big endian by the `desert` crate. Each call into that crate stands
//! behind a small function whose contract is taken on trust.

use vstd::prelude::*;
use vstd::slice::slice_subrange;

verus! {

/// Why an encoding or a decoding failed.
#[derive(Debug, Clone, Copy, PartialEq, Eq, Structural)]
pub enum CodecError {
    /// The destination has no room for the bytes to write.
    DestinationTooSmall,
    /// The source ends before the value does.
    SourceTooShort,
    /// The branch factor of a tree block is not a power of two.
    InvalidBranchFactor,
    /// A traversal asked for a bucket slot that the block does not have.
    SlotOutOfRange,
}

/// The error type of the `failure` crate, carried through and never inspected.
#[verifier::external_type_specification]
#[verifier::external_body]
pub struct ExFailureError(failure::Error);

/// `256` to the power `w`.
pub open spec fn radix_pow(w: nat) -> nat
    decreases w,
{
    if w == 0 {
        1
    } else {
        256 * radix_pow((w - 1) as nat)
    }
}

/// The `w` big-endian digits of `x` in base 256.
pub open spec fn be_bytes(x: nat, w: nat) -> Seq<u8>
    decreases w,
{
    if w == 0 {
        Seq::empty()
    } else {
        be_bytes(x / 256, (w - 1) as nat).push((x % 256) as u8)
    }
}

/// The number that the big-endian digits `s` stand for.
pub open spec fn be_value(s: Seq<u8>) -> nat
    decreases s.len(),
{
    if s.len() == 0 {
        0
    } else {
        be_value(s.drop_last()) * 256 + s.last() as nat
    }
}

/// `base` with the bytes from `at` on replaced by `bytes`, as far as they go.
pub open spec fn splice(base: Seq<u8>, at: int, bytes: Seq<u8>) -> Seq<u8> {
    Seq::new(
        base.len(),
        |i: int|
            if at <= i < at + bytes.len() {
                bytes[i - at]
            } else {
                base[i]
            },
    )
}

/// A number has as many digits as were asked for.
pub proof fn be_bytes_len(x: nat, w: nat)
    ensures
        be_bytes(x, w).len() == w,
    decreases w,
{
    if w > 0 {
        be_bytes_len(x / 256, (w - 1) as nat);
    }
}

/// Digits read back give the number they were made from.
pub proof fn be_round_trip(x: nat, w: nat)
    requires
        x < radix_pow(w),
    ensures
        be_value(be_bytes(x, w)) == x,
    decreases w,
{
    if w > 0 {
        let rest = be_bytes(x / 256, (w - 1) as nat);
        be_round_trip(x / 256, (w - 1) as nat);
        assert(be_bytes(x, w).drop_last() =~= rest);
    }
}

/// The value of digits stays below the radix power of their count.
pub proof fn be_value_bound(s: Seq<u8>)
    ensures
        be_value(s) < radix_pow(s.len()),
    decreases s.len(),
{
    if s.len() > 0 {
        be_value_bound(s.drop_last());
    }
}

/// Calls `desert::ToBytes::write_bytes` of `u32` on the part of `dst` that
/// starts at `at`. The crate writes the four big-endian bytes of the number
/// at the start of that part and answers 4, or fails and writes nothing when
/// fewer than four bytes are left.
#[verifier::external_body]
fn desert_write_u32(x: u32, dst: &mut [u8], at: usize) -> (r: Result<usize, failure::Error>)
    requires
        at <= old(dst)@.len(),
    ensures
        r is Ok <==> old(dst)@.len() - at >= 4,
        r matches Ok(k) ==> k == 4 && final(dst)@ == splice(
            old(dst)@,
            at as int,
            be_bytes(x as nat, 4),
        ),
        r is Err ==> final(dst)@ == old(dst)@,
{
    desert::ToBytes::write_bytes(&x, &mut dst[at..])
}

/// Calls `desert::FromBytes::from_bytes` of `u32`. The crate reads the first
/// four bytes of `src` as a big-endian number and answers 4 with it, or
/// fails when `src` holds fewer than four bytes.
#[verifier::external_body]
fn desert_read_u32(src: &[u8]) -> (r: Result<(usize, u32), failure::Error>)
    ensures
        r is Ok <==> src@.len() >= 4,
        r matches Ok(p) ==> p.0 == 4 && p.1 as nat == be_value(src@.subrange(0, 4)),
{
    <u32 as desert::FromBytes>::from_bytes(src)
}

/// Calls `desert::CountBytes::count_bytes` of `u32`, which is always 4.
#[verifier::external_body]
fn desert_count_u32(x: u32) -> (n: usize)
    ensures
        n == 4,
{
    desert::CountBytes::count_bytes(&x)
}

/// Calls `desert::CountBytes::count_from_bytes` of `u32`, which answers 4
/// whatever the buffer holds.
#[verifier::external_body]
fn desert_count_from_u32(buf: &[u8]) -> (r: Result<usize, failure::Error>)
    ensures
        r is Ok,
        r matches Ok(n) ==> n == 4,
{
    <u32 as desert::CountBytes>::count_from_bytes(buf)
}

/// Calls `desert::ToBytes::write_bytes` of `u64` on the part of `dst` that
/// starts at `at`. The crate writes the eight big-endian bytes of the number
/// at the start of that part and answers 8, or fails and writes nothing when
/// fewer than eight bytes are left.
#[verifier::external_body]
fn desert_write_u64(x: u64, dst: &mut [u8], at: usize) -> (r: Result<usize, failure::Error>)
    requires
        at <= old(dst)@.len(),
    ensures
        r is Ok <==> old(dst)@.len() - at >= 8,
        r matches Ok(k) ==> k == 8 && final(dst)@ == splice(
            old(dst)@,
            at as int,
            be_bytes(x as nat, 8),
        ),
        r is Err ==> final(dst)@ == old(dst)@,
{
    desert::ToBytes::write_bytes(&x, &mut dst[at..])
}

/// Calls `desert::FromBytes::from_bytes` of `u64`. The crate reads the first
/// eight bytes of `src` as a big-endian number and answers 8 with it, or
/// fails when `src` holds fewer than eight bytes.
#[verifier::external_body]
fn desert_read_u64(src: &[u8]) -> (r: Result<(usize, u64), failure::Error>)
    ensures
        r is Ok <==> src@.len() >= 8,
        r matches Ok(p) ==> p.0 == 8 && p.1 as nat == be_value(src@.subrange(0, 8)),
{
    <u64 as desert::FromBytes>::from_bytes(src)
}

/// Calls `desert::CountBytes::count_bytes` of `u64`, which is always 8.
#[verifier::external_body]
fn desert_count_u64(x: u64) -> (n: usize)
    ensures
        n == 8,
{
    desert::CountBytes::count_bytes(&x)
}

/// Calls `desert::CountBytes::count_from_bytes` of `u64`, which answers 8
/// whatever the buffer holds.
#[verifier::external_body]
fn desert_count_from_u64(buf: &[u8]) -> (r: Result<usize, failure::Error>)
    ensures
        r is Ok,
        r matches Ok(n) ==> n == 8,
{
    <u64 as desert::CountBytes>::count_from_bytes(buf)
}

/// Calls `desert::ToBytes::write_bytes` of `i32` on the part of `dst` that
/// starts at `at`. The crate writes the four big-endian bytes of the number
/// in two's complement at the start of that part and answers 4, or fails
/// and writes nothing when fewer than four bytes are left.
#[verifier::external_body]
fn desert_write_i32(x: i32, dst: &mut [u8], at: usize) -> (r: Result<usize, failure::Error>)
    requires
        at <= old(dst)@.len(),
    ensures
        r is Ok <==> old(dst)@.len() - at >= 4,
        r matches Ok(k) ==> k == 4 && final(dst)@ == splice(
            old(dst)@,
            at as int,
            be_bytes((x as u32) as nat, 4),
        ),
        r is Err ==> final(dst)@ == old(dst)@,
{
    desert::ToBytes::write_bytes(&x, &mut dst[at..])
}

/// Calls `desert::FromBytes::from_bytes` of `i32`. The crate reads the first
/// four bytes of `src` as a big-endian number in two's complement and
/// answers 4 with it, or fails when `src` holds fewer than four bytes.
#[verifier::external_body]
fn desert_read_i32(src: &[u8]) -> (r: Result<(usize, i32), failure::Error>)
    ensures
        r is Ok <==> src@.len() >= 4,
        r matches Ok(p) ==> p.0 == 4 && (p.1 as u32) as nat == be_value(src@.subrange(0, 4)),
{
    <i32 as desert::FromBytes>::from_bytes(src)
}

/// Calls `desert::CountBytes::count_bytes` of `i32`, which is always 4.
#[verifier::external_body]
fn desert_count_i32(x: i32) -> (n: usize)
    ensures
        n == 4,
{
    desert::CountBytes::count_bytes(&x)
}

/// Calls `desert::CountBytes::count_from_bytes` of `i32`, which answers 4
/// whatever the buffer holds.
#[verifier::external_body]
fn desert_count_from_i32(buf: &[u8]) -> (r: Result<usize, failure::Error>)
    ensures
        r is Ok,
        r matches Ok(n) ==> n == 4,
{
    <i32 as desert::CountBytes>::count_from_bytes(buf)
}

/// Calls `desert::ToBytes::write_bytes` of `i64` on the part of `dst` that
/// starts at `at`. The crate writes the eight big-endian bytes of the number
/// in two's complement at the start of that part and answers 8, or fails
/// and writes nothing when fewer than eight bytes are left.
#[verifier::external_body]
fn desert_write_i64(x: i64, dst: &mut [u8], at: usize) -> (r: Result<usize, failure::Error>)
    requires
        at <= old(dst)@.len(),
    ensures
        r is Ok <==> old(dst)@.len() - at >= 8,
        r matches Ok(k) ==> k == 8 && final(dst)@ == splice(
            old(dst)@,
            at as int,
            be_bytes((x as u64) as nat, 8),
        ),
        r is Err ==> final(dst)@ == old(dst)@,
{
    desert::ToBytes::write_bytes(&x, &mut dst[at..])
}

/// Calls `desert::FromBytes::from_bytes` of `i64`. The crate reads the first
/// eight bytes of `src` as a big-endian number in two's complement and
/// answers 8 with it, or fails when `src` holds fewer than eight bytes.
#[verifier::external_body]
fn desert_read_i64(src: &[u8]) -> (r: Result<(usize, i64), failure::Error>)
    ensures
        r is Ok <==> src@.len() >= 8,
        r matches Ok(p) ==> p.0 == 8 && (p.1 as u64) as nat == be_value(src@.subrange(0, 8)),
{
    <i64 as desert::FromBytes>::from_bytes(src)
}

/// Calls `desert::CountBytes::count_bytes` of `i64`, which is always 8.
#[verifier::external_body]
fn desert_count_i64(x: i64) -> (n: usize)
    ensures
        n == 8,
{
    desert::CountBytes::count_bytes(&x)
}

/// Calls `desert::CountBytes::count_from_bytes` of `i64`, which answers 8
/// whatever the buffer holds.
#[verifier::external_body]
fn desert_count_from_i64(buf: &[u8]) -> (r: Result<usize, failure::Error>)
    ensures
        r is Ok,
        r matches Ok(n) ==> n == 8,
{
    <i64 as desert::CountBytes>::count_from_bytes(buf)
}

/// The radix powers that the widths in use need.
pub proof fn radix_pow_values()
    ensures
        radix_pow(4) == 0x1_0000_0000,
        radix_pow(8) == 0x1_0000_0000_0000_0000,
{
    assert(radix_pow(1) == 256) by {
        assert(radix_pow(0) == 1);
    }
    assert(radix_pow(2) == 0x1_0000);
    assert(radix_pow(3) == 0x100_0000);
    assert(radix_pow(4) == 0x1_0000_0000);
    assert(radix_pow(5) == 0x100_0000_0000);
    assert(radix_pow(6) == 0x1_0000_0000_0000);
    assert(radix_pow(7) == 0x100_0000_0000_0000);
    assert(radix_pow(8) == 0x1_0000_0000_0000_0000);
}

/// Half of `sum`, rounded towards zero.
pub open spec fn half(sum: int) -> int {
    if sum >= 0 {
        sum / 2
    } else {
        -((-sum) / 2)
    }
}

/// A coordinate value: totally ordered, and encoded in a fixed number of bytes.
pub trait Scalar: Copy {
    /// The number of bytes of every encoding.
    spec fn width() -> nat;

    /// The place of the value in the order of its type.
    spec fn rank(self) -> int;

    /// The bytes that stand for the value.
    spec fn encoding(self) -> Seq<u8>;

    /// The value that `width()` bytes stand for.
    spec fn decoding(bytes: Seq<u8>) -> Self;

    /// The width is small and not zero.
    proof fn width_bounds()
        ensures
            1 <= Self::width() <= 16,
    ;

    /// Encodings have the type's width and decode to the value they were
    /// made from.
    proof fn scalar_laws(self)
        ensures
            self.encoding().len() == Self::width(),
            Self::decoding(self.encoding()) == self,
    ;

    /// Two values of one rank are the same value.
    proof fn rank_decides(self, other: Self)
        ensures
            self.rank() == other.rank() ==> self == other,
    ;

    /// The number of bytes that the value takes when written.
    fn count_bytes(&self) -> (n: usize)
        ensures
            n == Self::width(),
    ;

    /// The number of bytes that a value at the start of `buf` takes.
    fn count_from_bytes(buf: &[u8]) -> (r: Result<usize, CodecError>)
        ensures
            r == Ok::<usize, CodecError>(Self::width() as usize),
    ;

    /// Writes the encoding into `dst` from position `at` on.
    fn write_at(&self, dst: &mut [u8], at: usize) -> (r: Result<usize, CodecError>)
        requires
            at <= old(dst)@.len(),
        ensures
            final(dst)@.len() == old(dst)@.len(),
            old(dst)@.len() - at >= Self::width() ==> r == Ok::<usize, CodecError>(
                Self::width() as usize,
            ) && final(dst)@ == splice(old(dst)@, at as int, self.encoding()),
            old(dst)@.len() - at < Self::width() ==> r == Err::<usize, CodecError>(
                CodecError::DestinationTooSmall,
            ) && final(dst)@ == old(dst)@,
    ;

    /// Reads a value from the start of `src`.
    fn from_bytes(src: &[u8]) -> (r: Result<(usize, Self), CodecError>)
        ensures
            src@.len() >= Self::width() ==> r == Ok::<(usize, Self), CodecError>(
                (Self::width() as usize, Self::decoding(src@.subrange(0, Self::width() as int))),
            ),
            src@.len() < Self::width() ==> r == Err::<(usize, Self), CodecError>(
                CodecError::SourceTooShort,
            ),
    ;

    /// Whether the value is at most `other`.
    fn le(&self, other: &Self) -> (b: bool)
        ensures
            b == (self.rank() <= other.rank()),
    ;

    /// The arithmetic mean of the two values, rounded towards zero.
    fn mean(&self, other: &Self) -> (m: Self)
        ensures
            m.rank() == half(self.rank() + other.rank()),
    ;
}

/// A value with a self-describing byte encoding of at least one byte: a
/// decoder finds its end without being told its length.
pub trait Codec: Sized {
    /// The bytes that stand for the value.
    spec fn encoding(&self) -> Seq<u8>;

    /// The value at the start of `buf` and the number of bytes it takes, where
    /// `buf` starts with a whole encoding.
    spec fn decoding(buf: Seq<u8>) -> Option<(Self, nat)>;

    /// An encoding decodes to the value it was made from, whatever follows it,
    /// and the decoder consumes exactly the encoding.
    proof fn round_trip(&self, tail: Seq<u8>)
        ensures
            Self::decoding(self.encoding() + tail) == Some((*self, self.encoding().len())),
    ;

    /// A decoder consumes at least one byte and no more than the buffer
    /// holds.
    proof fn decoding_fits(buf: Seq<u8>)
        ensures
            Self::decoding(buf) matches Some(p) ==> 1 <= p.1 <= buf.len(),
    ;

    /// The encoding in a vector of its own.
    fn to_bytes(&self) -> (r: Vec<u8>)
        ensures
            r@ == self.encoding(),
    ;

    /// Reads a value from the start of `src`: the value and the number of
    /// bytes read, or `SourceTooShort` where `src` starts with no whole
    /// encoding.
    fn from_bytes(src: &[u8]) -> (r: Result<(usize, Self), CodecError>)
        ensures
            Self::decoding(src@) matches Some(p) ==> r == Ok::<(usize, Self), CodecError>(
                (p.1 as usize, p.0),
            ),
            Self::decoding(src@) is None ==> r == Err::<(usize, Self), CodecError>(
                CodecError::SourceTooShort,
            ),
    ;

    /// A copy of the value.
    fn duplicate(&self) -> (r: Self)
        ensures
            r == *self,
    ;
}

impl Scalar for u32 {
    open spec fn width() -> nat {
        4
    }

    open spec fn rank(self) -> int {
        self as int
    }

    open spec fn encoding(self) -> Seq<u8> {
        be_bytes(self as nat, 4)
    }

    open spec fn decoding(bytes: Seq<u8>) -> Self {
        be_value(bytes) as u32
    }

    proof fn width_bounds() {
    }

    proof fn scalar_laws(self) {
        be_bytes_len(self as nat, 4);
        radix_pow_values();
        be_round_trip(self as nat, 4);
    }

    proof fn rank_decides(self, other: Self) {
    }

    fn count_bytes(&self) -> (n: usize) {
        desert_count_u32(*self)
    }

    fn count_from_bytes(buf: &[u8]) -> (r: Result<usize, CodecError>) {
        match desert_count_from_u32(buf) {
            Ok(n) => Ok(n),
            Err(_) => Err(CodecError::SourceTooShort),
        }
    }

    fn write_at(&self, dst: &mut [u8], at: usize) -> (r: Result<usize, CodecError>) {
        match desert_write_u32(*self, dst, at) {
            Ok(n) => Ok(n),
            Err(_) => Err(CodecError::DestinationTooSmall),
        }
    }

    fn from_bytes(src: &[u8]) -> (r: Result<(usize, Self), CodecError>) {
        match desert_read_u32(src) {
            Ok(p) => {
                proof {
                    radix_pow_values();
                    be_value_bound(src@.subrange(0, 4));
                }
                Ok(p)
            },
            Err(_) => Err(CodecError::SourceTooShort),
        }
    }

    fn le(&self, other: &Self) -> (b: bool) {
        *self <= *other
    }

    fn mean(&self, other: &Self) -> (m: Self) {
        let sum: u64 = *self as u64 + *other as u64;
        (sum / 2) as u32
    }
}

impl Codec for u32 {
    open spec fn encoding(&self) -> Seq<u8> {
        be_bytes(*self as nat, 4)
    }

    open spec fn decoding(buf: Seq<u8>) -> Option<(Self, nat)> {
        if buf.len() >= 4 {
            Some((be_value(buf.subrange(0, 4)) as u32, 4))
        } else {
            None
        }
    }

    proof fn round_trip(&self, tail: Seq<u8>) {
        be_bytes_len(*self as nat, 4);
        radix_pow_values();
        be_round_trip(*self as nat, 4);
        assert((be_bytes(*self as nat, 4) + tail).subrange(0, 4) =~= be_bytes(*self as nat, 4));
    }

    proof fn decoding_fits(buf: Seq<u8>) {
    }

    fn to_bytes(&self) -> (r: Vec<u8>) {
        let mut out: Vec<u8> = vec![0u8; 4];
        let ghost before = out@;
        let written = desert_write_u32(*self, out.as_mut_slice(), 0);
        proof {
            be_bytes_len(*self as nat, 4);
            assert(splice(before, 0, be_bytes(*self as nat, 4)) =~= be_bytes(*self as nat, 4));
        }
        out
    }

    fn from_bytes(src: &[u8]) -> (r: Result<(usize, Self), CodecError>) {
        <u32 as Scalar>::from_bytes(src)
    }

    fn duplicate(&self) -> (r: Self) {
        *self
    }
}

impl Scalar for u64 {
    open spec fn width() -> nat {
        8
    }

    open spec fn rank(self) -> int {
        self as int
    }

    open spec fn encoding(self) -> Seq<u8> {
        be_bytes(self as nat, 8)
    }

    open spec fn decoding(bytes: Seq<u8>) -> Self {
        be_value(bytes) as u64
    }

    proof fn width_bounds() {
    }

    proof fn scalar_laws(self) {
        be_bytes_len(self as nat, 8);
        radix_pow_values();
        be_round_trip(self as nat, 8);
    }

    proof fn rank_decides(self, other: Self) {
    }

    fn count_bytes(&self) -> (n: usize) {
        desert_count_u64(*self)
    }

    fn count_from_bytes(buf: &[u8]) -> (r: Result<usize, CodecError>) {
        match desert_count_from_u64(buf) {
            Ok(n) => Ok(n),
            Err(_) => Err(CodecError::SourceTooShort),
        }
    }

    fn write_at(&self, dst: &mut [u8], at: usize) -> (r: Result<usize, CodecError>) {
        match desert_write_u64(*self, dst, at) {
            Ok(n) => Ok(n),
            Err(_) => Err(CodecError::DestinationTooSmall),
        }
    }

    fn from_bytes(src: &[u8]) -> (r: Result<(usize, Self), CodecError>) {
        match desert_read_u64(src) {
            Ok(p) => {
                proof {
                    radix_pow_values();
                    be_value_bound(src@.subrange(0, 8));
                }
                Ok(p)
            },
            Err(_) => Err(CodecError::SourceTooShort),
        }
    }

    fn le(&self, other: &Self) -> (b: bool) {
        *self <= *other
    }

    fn mean(&self, other: &Self) -> (m: Self) {
        let sum: u128 = *self as u128 + *other as u128;
        (sum / 2) as u64
    }
}

impl Codec for u64 {
    open spec fn encoding(&self) -> Seq<u8> {
        be_bytes(*self as nat, 8)
    }

    open spec fn decoding(buf: Seq<u8>) -> Option<(Self, nat)> {
        if buf.len() >= 8 {
            Some((be_value(buf.subrange(0, 8)) as u64, 8))
        } else {
            None
        }
    }

    proof fn round_trip(&self, tail: Seq<u8>) {
        be_bytes_len(*self as nat, 8);
        radix_pow_values();
        be_round_trip(*self as nat, 8);
        assert((be_bytes(*self as nat, 8) + tail).subrange(0, 8) =~= be_bytes(*self as nat, 8));
    }

    proof fn decoding_fits(buf: Seq<u8>) {
    }

    fn to_bytes(&self) -> (r: Vec<u8>) {
        let mut out: Vec<u8> = vec![0u8; 8];
        let ghost before = out@;
        let written = desert_write_u64(*self, out.as_mut_slice(), 0);
        proof {
            be_bytes_len(*self as nat, 8);
            assert(splice(before, 0, be_bytes(*self as nat, 8)) =~= be_bytes(*self as nat, 8));
        }
        out
    }

    fn from_bytes(src: &[u8]) -> (r: Result<(usize, Self), CodecError>) {
        <u64 as Scalar>::from_bytes(src)
    }

    fn duplicate(&self) -> (r: Self) {
        *self
    }
}

impl Scalar for i32 {
    open spec fn width() -> nat {
        4
    }

    open spec fn rank(self) -> int {
        self as int
    }

    /// The bytes of the number in two's complement.
    open spec fn encoding(self) -> Seq<u8> {
        be_bytes((self as u32) as nat, 4)
    }

    open spec fn decoding(bytes: Seq<u8>) -> Self {
        (be_value(bytes) as u32) as i32
    }

    proof fn width_bounds() {
    }

    proof fn scalar_laws(self) {
        be_bytes_len((self as u32) as nat, 4);
        radix_pow_values();
        be_round_trip((self as u32) as nat, 4);
        assert(((self as u32) as i32) == self) by (bit_vector);
    }

    proof fn rank_decides(self, other: Self) {
    }

    fn count_bytes(&self) -> (n: usize) {
        desert_count_i32(*self)
    }

    fn count_from_bytes(buf: &[u8]) -> (r: Result<usize, CodecError>) {
        match desert_count_from_i32(buf) {
            Ok(n) => Ok(n),
            Err(_) => Err(CodecError::SourceTooShort),
        }
    }

    fn write_at(&self, dst: &mut [u8], at: usize) -> (r: Result<usize, CodecError>) {
        match desert_write_i32(*self, dst, at) {
            Ok(n) => Ok(n),
            Err(_) => Err(CodecError::DestinationTooSmall),
        }
    }

    fn from_bytes(src: &[u8]) -> (r: Result<(usize, Self), CodecError>) {
        match desert_read_i32(src) {
            Ok(p) => {
                proof {
                    radix_pow_values();
                    be_value_bound(src@.subrange(0, 4));
                    let v = p.1;
                    assert(((v as u32) as i32) == v) by (bit_vector);
                }
                Ok(p)
            },
            Err(_) => Err(CodecError::SourceTooShort),
        }
    }

    fn le(&self, other: &Self) -> (b: bool) {
        *self <= *other
    }

    fn mean(&self, other: &Self) -> (m: Self) {
        let sum: i64 = *self as i64 + *other as i64;
        if sum >= 0 {
            (sum / 2) as i32
        } else {
            (-((-sum) / 2)) as i32
        }
    }
}

impl Codec for i32 {
    open spec fn encoding(&self) -> Seq<u8> {
        be_bytes((*self as u32) as nat, 4)
    }

    open spec fn decoding(buf: Seq<u8>) -> Option<(Self, nat)> {
        if buf.len() >= 4 {
            Some(((be_value(buf.subrange(0, 4)) as u32) as i32, 4))
        } else {
            None
        }
    }

    proof fn round_trip(&self, tail: Seq<u8>) {
        let bytes = be_bytes((*self as u32) as nat, 4);
        self.scalar_laws();
        assert((bytes + tail).subrange(0, 4) =~= bytes);
    }

    proof fn decoding_fits(buf: Seq<u8>) {
    }

    fn to_bytes(&self) -> (r: Vec<u8>) {
        let mut out: Vec<u8> = vec![0u8; 4];
        let ghost before = out@;
        let written = desert_write_i32(*self, out.as_mut_slice(), 0);
        proof {
            let bytes = be_bytes((*self as u32) as nat, 4);
            be_bytes_len((*self as u32) as nat, 4);
            assert(splice(before, 0, bytes) =~= bytes);
        }
        out
    }

    fn from_bytes(src: &[u8]) -> (r: Result<(usize, Self), CodecError>) {
        <i32 as Scalar>::from_bytes(src)
    }

    fn duplicate(&self) -> (r: Self) {
        *self
    }
}

impl Scalar for i64 {
    open spec fn width() -> nat {
        8
    }

    open spec fn rank(self) -> int {
        self as int
    }

    /// The bytes of the number in two's complement.
    open spec fn encoding(self) -> Seq<u8> {
        be_bytes((self as u64) as nat, 8)
    }

    open spec fn decoding(bytes: Seq<u8>) -> Self {
        (be_value(bytes) as u64) as i64
    }

    proof fn width_bounds() {
    }

    proof fn scalar_laws(self) {
        be_bytes_len((self as u64) as nat, 8);
        radix_pow_values();
        be_round_trip((self as u64) as nat, 8);
        assert(((self as u64) as i64) == self) by (bit_vector);
    }

    proof fn rank_decides(self, other: Self) {
    }

    fn count_bytes(&self) -> (n: usize) {
        desert_count_i64(*self)
    }

    fn count_from_bytes(buf: &[u8]) -> (r: Result<usize, CodecError>) {
        match desert_count_from_i64(buf) {
            Ok(n) => Ok(n),
            Err(_) => Err(CodecError::SourceTooShort),
        }
    }

    fn write_at(&self, dst: &mut [u8], at: usize) -> (r: Result<usize, CodecError>) {
        match desert_write_i64(*self, dst, at) {
            Ok(n) => Ok(n),
            Err(_) => Err(CodecError::DestinationTooSmall),
        }
    }

    fn from_bytes(src: &[u8]) -> (r: Result<(usize, Self), CodecError>) {
        match desert_read_i64(src) {
            Ok(p) => {
                proof {
                    radix_pow_values();
                    be_value_bound(src@.subrange(0, 8));
                    let v = p.1;
                    assert(((v as u64) as i64) == v) by (bit_vector);
                }
                Ok(p)
            },
            Err(_) => Err(CodecError::SourceTooShort),
        }
    }

    fn le(&self, other: &Self) -> (b: bool) {
        *self <= *other
    }

    fn mean(&self, other: &Self) -> (m: Self) {
        let sum: i128 = *self as i128 + *other as i128;
        if sum >= 0 {
            (sum / 2) as i64
        } else {
            (-((-sum) / 2)) as i64
        }
    }
}

impl Codec for i64 {
    open spec fn encoding(&self) -> Seq<u8> {
        be_bytes((*self as u64) as nat, 8)
    }

    open spec fn decoding(buf: Seq<u8>) -> Option<(Self, nat)> {
        if buf.len() >= 8 {
            Some(((be_value(buf.subrange(0, 8)) as u64) as i64, 8))
        } else {
            None
        }
    }

    proof fn round_trip(&self, tail: Seq<u8>) {
        let bytes = be_bytes((*self as u64) as nat, 8);
        self.scalar_laws();
        assert((bytes + tail).subrange(0, 8) =~= bytes);
    }

    proof fn decoding_fits(buf: Seq<u8>) {
    }

    fn to_bytes(&self) -> (r: Vec<u8>) {
        let mut out: Vec<u8> = vec![0u8; 8];
        let ghost before = out@;
        let written = desert_write_i64(*self, out.as_mut_slice(), 0);
        proof {
            let bytes = be_bytes((*self as u64) as nat, 8);
            be_bytes_len((*self as u64) as nat, 8);
            assert(splice(before, 0, bytes) =~= bytes);
        }
        out
    }

    fn from_bytes(src: &[u8]) -> (r: Result<(usize, Self), CodecError>) {
        <i64 as Scalar>::from_bytes(src)
    }

    fn duplicate(&self) -> (r: Self) {
        *self
    }
}

/// A pair is encoded as its first part followed by its second.
impl<P: Codec, V: Codec> Codec for (P, V) {
    open spec fn encoding(&self) -> Seq<u8> {
        self.0.encoding() + self.1.encoding()
    }

    open spec fn decoding(buf: Seq<u8>) -> Option<(Self, nat)> {
        match P::decoding(buf) {
            None => None,
            Some(first) => if first.1 > buf.len() {
                None
            } else {
                match V::decoding(buf.skip(first.1 as int)) {
                    None => None,
                    Some(second) => Some(((first.0, second.0), first.1 + second.1)),
                }
            },
        }
    }

    proof fn round_trip(&self, tail: Seq<u8>) {
        let buf = self.encoding() + tail;
        self.0.round_trip(self.1.encoding() + tail);
        self.1.round_trip(tail);
        assert(buf =~= self.0.encoding() + (self.1.encoding() + tail));
        assert(buf.skip(self.0.encoding().len() as int) =~= self.1.encoding() + tail);
    }

    proof fn decoding_fits(buf: Seq<u8>) {
        P::decoding_fits(buf);
        if let Some(first) = P::decoding(buf) {
            V::decoding_fits(buf.skip(first.1 as int));
        }
    }

    fn to_bytes(&self) -> (r: Vec<u8>) {
        let mut out = self.0.to_bytes();
        let mut second = self.1.to_bytes();
        out.append(&mut second);
        out
    }

    fn from_bytes(src: &[u8]) -> (r: Result<(usize, Self), CodecError>) {
        let end = src.len();
        proof {
            P::decoding_fits(src@);
        }
        let (n, first) = match P::from_bytes(src) {
            Ok(p) => p,
            Err(e) => {
                return Err(e);
            },
        };
        let rest = slice_subrange(src, n, end);
        proof {
            assert(rest@ =~= src@.skip(n as int));
            V::decoding_fits(rest@);
        }
        let (m, second) = match V::from_bytes(rest) {
            Ok(p) => p,
            Err(e) => {
                return Err(e);
            },
        };
        Ok((n + m, (first, second)))
    }

    fn duplicate(&self) -> (r: Self) {
        (self.0.duplicate(), self.1.duplicate())
    }
}

} // verus!
