//! Two-dimensional points whose coordinates are scalars or intervals.

use crate::point::Point;
use crate::scalar::{half, splice, Codec, CodecError, Scalar};
use std::cmp::Ordering;
use vstd::prelude::*;
use vstd::slice::slice_subrange;

verus! {

/// One coordinate: a single value, or an interval from a lower to an upper
/// value.
#[derive(Copy, Clone, Debug, Eq, PartialEq)]
pub enum Mix<T> {
    Scalar(T),
    Interval(T, T),
}

/// A point of two coordinates, each of a type of its own.
#[derive(Copy, Clone, Debug, Eq, PartialEq)]
pub struct Mix2<A, B> {
    pub v0: Mix<A>,
    pub v1: Mix<B>,
}

/// A closed box: its low corner, then its high corner.
pub type Bounds2<A, B> = ((A, B), (A, B));

/// A box written dimension by dimension: low and high of the first, then of
/// the second.
pub type Range2<A, B> = ((A, A), (B, B));

/// Bit `k` of a header byte.
pub open spec fn flag(header: u8, k: u8) -> bool {
    (header >> k) & 1 == 1
}

/// The header byte of a point: bit 0 says that the first coordinate is an
/// interval, bit 1 that the second is.
pub open spec fn header_of(first: bool, second: bool) -> u8 {
    if first {
        if second {
            3
        } else {
            1
        }
    } else {
        if second {
            2
        } else {
            0
        }
    }
}

/// The header byte of a point tells the shape of each coordinate.
pub proof fn header_flags(first: bool, second: bool)
    ensures
        flag(header_of(first, second), 0) == first,
        flag(header_of(first, second), 1) == second,
{
    assert((0u8 >> 0u8) & 1 == 0 && (0u8 >> 1u8) & 1 == 0) by (bit_vector);
    assert((1u8 >> 0u8) & 1 == 1 && (1u8 >> 1u8) & 1 == 0) by (bit_vector);
    assert((2u8 >> 0u8) & 1 == 0 && (2u8 >> 1u8) & 1 == 1) by (bit_vector);
    assert((3u8 >> 0u8) & 1 == 1 && (3u8 >> 1u8) & 1 == 1) by (bit_vector);
}

impl<T: Scalar> Mix<T> {
    /// The value itself, or the interval's lower end.
    pub open spec fn lower(self) -> T {
        match self {
            Mix::Scalar(x) => x,
            Mix::Interval(x, _) => x,
        }
    }

    /// The value itself, or the interval's upper end.
    pub open spec fn upper(self) -> T {
        match self {
            Mix::Scalar(x) => x,
            Mix::Interval(_, x) => x,
        }
    }

    pub open spec fn is_interval(self) -> bool {
        self is Interval
    }

    /// The bytes of the coordinate: one scalar, or the two ends in order.
    pub open spec fn encoding(self) -> Seq<u8> {
        match self {
            Mix::Scalar(x) => x.encoding(),
            Mix::Interval(x0, x1) => x0.encoding() + x1.encoding(),
        }
    }

    /// The number of bytes of a coordinate of the given shape.
    pub open spec fn span(interval: bool) -> nat {
        if interval {
            2 * T::width()
        } else {
            T::width()
        }
    }

    /// The coordinate of the given shape that `span(interval)` bytes hold.
    pub open spec fn decoding(bytes: Seq<u8>, interval: bool) -> Self {
        let w = T::width() as int;
        if interval {
            Mix::Interval(T::decoding(bytes.subrange(0, w)), T::decoding(bytes.subrange(w, 2 * w)))
        } else {
            Mix::Scalar(T::decoding(bytes.subrange(0, w)))
        }
    }

    /// A coordinate's bytes have the length of its shape and decode to it.
    pub proof fn coordinate_round_trip(self)
        ensures
            self.encoding().len() == Self::span(self.is_interval()),
            Self::decoding(self.encoding(), self.is_interval()) == self,
            1 <= Self::span(self.is_interval()) <= 32,
    {
        match self {
            Mix::Scalar(x) => {
                T::width_bounds();
                x.scalar_laws();
                assert(x.encoding().subrange(0, T::width() as int) =~= x.encoding());
            },
            Mix::Interval(x0, x1) => {
                T::width_bounds();
                x0.scalar_laws();
                x1.scalar_laws();
                let w = T::width() as int;
                assert((x0.encoding() + x1.encoding()).subrange(0, w) =~= x0.encoding());
                assert((x0.encoding() + x1.encoding()).subrange(w, 2 * w) =~= x1.encoding());
            },
        }
    }

    /// Writes the coordinate into `dst` from `at` on. On error `dst` may hold
    /// the interval's lower end already: each byte is as before or as the
    /// encoding has it.
    fn write_at(&self, dst: &mut [u8], at: usize) -> (r: Result<usize, CodecError>)
        requires
            at <= old(dst)@.len() <= usize::MAX,
        ensures
            final(dst)@.len() == old(dst)@.len(),
            old(dst)@.len() - at >= Self::span(self.is_interval()) ==> r == Ok::<usize, CodecError>(
                Self::span(self.is_interval()) as usize,
            ) && final(dst)@ == splice(old(dst)@, at as int, self.encoding()),
            old(dst)@.len() - at < Self::span(self.is_interval()) ==> r == Err::<usize, CodecError>(
                CodecError::DestinationTooSmall,
            ),
            forall|i: int|
                0 <= i < old(dst)@.len() ==> (#[trigger] final(dst)@[i]) == old(dst)@[i] || (at <= i
                    < at + self.encoding().len() && final(dst)@[i] == self.encoding()[i - at]),
    {
        proof {
            self.coordinate_round_trip();
        }
        match self {
            Mix::Scalar(x) => {
                proof {
                    x.scalar_laws();
                }
                x.write_at(dst, at)
            },
            Mix::Interval(x0, x1) => {
                proof {
                    x0.scalar_laws();
                    x1.scalar_laws();
                }
                let n0 = match x0.write_at(dst, at) {
                    Ok(n) => n,
                    Err(e) => {
                        return Err(e);
                    },
                };
                let n1 = match x1.write_at(dst, at + n0) {
                    Ok(n) => n,
                    Err(e) => {
                        return Err(e);
                    },
                };
                proof {
                    assert(dst@ =~= splice(old(dst)@, at as int, x0.encoding() + x1.encoding()));
                }
                Ok(n0 + n1)
            },
        }
    }

    /// Reads a coordinate of the given shape from `src` at `at`.
    fn read_at(src: &[u8], at: usize, interval: bool) -> (r: Result<(usize, Self), CodecError>)
        requires
            at <= src@.len(),
        ensures
            src@.len() - at >= Self::span(interval) ==> r == Ok::<(usize, Self), CodecError>(
                (
                    Self::span(interval) as usize,
                    Self::decoding(src@.subrange(at as int, at + Self::span(interval)), interval),
                ),
            ),
            src@.len() - at < Self::span(interval) ==> r == Err::<(usize, Self), CodecError>(
                CodecError::SourceTooShort,
            ),
            1 <= Self::span(interval) <= 32,
    {
        let ghost w = T::width() as int;
        proof {
            T::width_bounds();
        }
        let tail = slice_subrange(src, at, src.len());
        let (n0, x0) = match T::from_bytes(tail) {
            Ok(p) => p,
            Err(e) => {
                return Err(e);
            },
        };
        proof {
            x0.scalar_laws();
            assert(tail@.subrange(0, w) =~= src@.subrange(at as int, at + w));
        }
        if !interval {
            proof {
                assert(src@.subrange(at as int, at + w).subrange(0, w) =~= src@.subrange(
                    at as int,
                    at + w,
                ));
            }
            return Ok((n0, Mix::Scalar(x0)));
        }
        let rest = slice_subrange(src, at + n0, src.len());
        let (n1, x1) = match T::from_bytes(rest) {
            Ok(p) => p,
            Err(e) => {
                return Err(e);
            },
        };
        proof {
            let whole = src@.subrange(at as int, at + 2 * w);
            assert(whole.subrange(0, w) =~= tail@.subrange(0, w));
            assert(whole.subrange(w, 2 * w) =~= rest@.subrange(0, w));
        }
        Ok((n0 + n1, Mix::Interval(x0, x1)))
    }
}

impl<A, B> Mix2<A, B> {
    /// The point of the two coordinates.
    pub fn new(v0: Mix<A>, v1: Mix<B>) -> (p: Self)
        ensures
            p.v0 == v0,
            p.v1 == v1,
    {
        Self { v0, v1 }
    }
}

impl<A: Scalar, B: Scalar> Codec for Mix2<A, B> {
    /// The header byte, then the first coordinate, then the second.
    open spec fn encoding(&self) -> Seq<u8> {
        seq![header_of(self.v0.is_interval(), self.v1.is_interval())] + self.v0.encoding()
            + self.v1.encoding()
    }

    open spec fn decoding(buf: Seq<u8>) -> Option<(Self, nat)> {
        if buf.len() < 1 {
            None
        } else {
            let n0 = Mix::<A>::span(flag(buf[0], 0)) as int;
            let n1 = Mix::<B>::span(flag(buf[0], 1)) as int;
            if buf.len() < 1 + n0 + n1 {
                None
            } else {
                Some(
                    (
                        Mix2 {
                            v0: Mix::<A>::decoding(buf.subrange(1, 1 + n0), flag(buf[0], 0)),
                            v1: Mix::<B>::decoding(
                                buf.subrange(1 + n0, 1 + n0 + n1),
                                flag(buf[0], 1),
                            ),
                        },
                        (1 + n0 + n1) as nat,
                    ),
                )
            }
        }
    }

    proof fn round_trip(&self, tail: Seq<u8>) {
        let buf = self.encoding() + tail;
        header_flags(self.v0.is_interval(), self.v1.is_interval());
        self.v0.coordinate_round_trip();
        self.v1.coordinate_round_trip();
        let n0 = Mix::<A>::span(self.v0.is_interval()) as int;
        let n1 = Mix::<B>::span(self.v1.is_interval()) as int;
        assert(buf[0] == header_of(self.v0.is_interval(), self.v1.is_interval()));
        assert(buf.subrange(1, 1 + n0) =~= self.v0.encoding());
        assert(buf.subrange(1 + n0, 1 + n0 + n1) =~= self.v1.encoding());
    }

    proof fn decoding_fits(buf: Seq<u8>) {
        span_bounds::<A>(true);
        span_bounds::<B>(true);
    }

    fn to_bytes(&self) -> (r: Vec<u8>) {
        let count = self.count_bytes();
        let mut bytes: Vec<u8> = vec![0u8; count];
        let ghost blank = bytes@;
        let written = self.write_bytes(bytes.as_mut_slice());
        proof {
            self.size_is_encoding_len();
            assert(splice(blank, 0, self.encoding()) =~= self.encoding());
        }
        bytes
    }

    fn from_bytes(src: &[u8]) -> (r: Result<(usize, Self), CodecError>) {
        if src.len() < 1 {
            return Err(CodecError::SourceTooShort);
        }
        let header = src[0];
        let first = (header >> 0) & 1 == 1;
        let second = (header >> 1) & 1 == 1;
        let (n0, v0) = match Mix::<A>::read_at(src, 1, first) {
            Ok(p) => p,
            Err(e) => {
                proof {
                    span_bounds::<B>(second);
                }
                return Err(e);
            },
        };
        let (n1, v1) = match Mix::<B>::read_at(src, 1 + n0, second) {
            Ok(p) => p,
            Err(e) => {
                return Err(e);
            },
        };
        Ok((1 + n0 + n1, Mix2 { v0, v1 }))
    }

    fn duplicate(&self) -> (r: Self) {
        *self
    }
}

impl<A: Scalar, B: Scalar> Mix2<A, B> {
    /// The length of the point's encoding.
    pub open spec fn size(&self) -> nat {
        1 + Mix::<A>::span(self.v0.is_interval()) + Mix::<B>::span(self.v1.is_interval())
    }

    /// The encoding has the point's size, which is small.
    pub proof fn size_is_encoding_len(&self)
        ensures
            self.encoding().len() == self.size(),
            2 <= self.size() <= 65,
    {
        self.v0.coordinate_round_trip();
        self.v1.coordinate_round_trip();
    }

    /// Writes the encoding at the start of `dst` and returns its length.
    /// Where `dst` is too small, the parts that fit may have been written:
    /// each byte of `dst` is then as before or as the encoding has it.
    pub fn write_bytes(&self, dst: &mut [u8]) -> (r: Result<usize, CodecError>)
        ensures
            final(dst)@.len() == old(dst)@.len(),
            old(dst)@.len() >= self.size() ==> r == Ok::<usize, CodecError>(self.size() as usize)
                && final(dst)@ == splice(old(dst)@, 0, self.encoding()),
            old(dst)@.len() < self.size() ==> r == Err::<usize, CodecError>(
                CodecError::DestinationTooSmall,
            ),
            forall|i: int|
                0 <= i < old(dst)@.len() ==> (#[trigger] final(dst)@[i]) == old(dst)@[i] || (i
                    < self.encoding().len() && final(dst)@[i] == self.encoding()[i]),
    {
        proof {
            self.size_is_encoding_len();
            self.v0.coordinate_round_trip();
            self.v1.coordinate_round_trip();
        }
        if dst.len() < 1 {
            return Err(CodecError::DestinationTooSmall);
        }
        let mut offset: usize = 1;
        dst[0] = 0;
        let mut header: u8 = 0;
        match &self.v0 {
            Mix::Scalar(_) => {},
            Mix::Interval(_, _) => {
                header = header | (1 << 0);
                assert(0u8 | (1u8 << 0u8) == 1u8) by (bit_vector);
            },
        }
        match &self.v1 {
            Mix::Scalar(_) => {},
            Mix::Interval(_, _) => {
                let ghost before = header;
                header = header | (1 << 1);
                assert(before == 0 || before == 1);
                assert(0u8 | (1u8 << 1u8) == 2u8 && 1u8 | (1u8 << 1u8) == 3u8) by (bit_vector);
            },
        }
        dst[0] = header;
        match self.v0.write_at(dst, offset) {
            Ok(n) => {
                offset += n;
            },
            Err(e) => {
                return Err(e);
            },
        }
        match self.v1.write_at(dst, offset) {
            Ok(n) => {
                offset += n;
            },
            Err(e) => {
                return Err(e);
            },
        }
        proof {
            assert(dst@ =~= splice(old(dst)@, 0, self.encoding()));
        }
        Ok(offset)
    }

    /// The number of bytes of the point's encoding.
    pub fn count_bytes(&self) -> (n: usize)
        ensures
            n == self.size(),
    {
        proof {
            self.size_is_encoding_len();
            self.v0.coordinate_round_trip();
            self.v1.coordinate_round_trip();
        }
        let n0: usize = match &self.v0 {
            Mix::Scalar(x) => x.count_bytes(),
            Mix::Interval(x0, x1) => x0.count_bytes() + x1.count_bytes(),
        };
        let n1: usize = match &self.v1 {
            Mix::Scalar(x) => x.count_bytes(),
            Mix::Interval(x0, x1) => x0.count_bytes() + x1.count_bytes(),
        };
        1 + n0 + n1
    }

    /// The number of bytes of the point that `buf` starts with, read off its
    /// header byte; `buf` need not hold the whole point.
    pub fn count_from_bytes(buf: &[u8]) -> (r: Result<usize, CodecError>)
        ensures
            buf@.len() >= 1 ==> r == Ok::<usize, CodecError>(
                (1 + Mix::<A>::span(flag(buf@[0], 0)) + Mix::<B>::span(flag(buf@[0], 1))) as usize,
            ),
            buf@.len() < 1 ==> r == Err::<usize, CodecError>(CodecError::SourceTooShort),
    {
        if buf.len() < 1 {
            return Err(CodecError::SourceTooShort);
        }
        proof {
            span_bounds::<A>(true);
            span_bounds::<B>(true);
        }
        let header = buf[0];
        let mut offset: usize = 1;
        let n = A::count_from_bytes(Self::tail(buf, offset))?;
        offset += n;
        if (header >> 0) & 1 == 1 {
            let n = A::count_from_bytes(Self::tail(buf, offset))?;
            offset += n;
        }
        let n = B::count_from_bytes(Self::tail(buf, offset))?;
        offset += n;
        if (header >> 1) & 1 == 1 {
            let n = B::count_from_bytes(Self::tail(buf, offset))?;
            offset += n;
        }
        Ok(offset)
    }

    /// The part of `buf` from `at` on, empty where `at` lies behind its end.
    fn tail(buf: &[u8], at: usize) -> (t: &[u8])
        ensures
            t@ == if at <= buf@.len() {
                buf@.subrange(at as int, buf@.len() as int)
            } else {
                Seq::<u8>::empty()
            },
    {
        if at <= buf.len() {
            slice_subrange(buf, at, buf.len())
        } else {
            slice_subrange(buf, 0, 0)
        }
    }
}

/// How two ranks stand to each other.
pub open spec fn rank_order(a: int, b: int) -> Ordering {
    if a < b {
        Ordering::Less
    } else if a == b {
        Ordering::Equal
    } else {
        Ordering::Greater
    }
}

/// How two scalars stand to each other.
fn compare<T: Scalar>(a: &T, b: &T) -> (o: Ordering)
    ensures
        o == rank_order(a.rank(), b.rank()),
{
    if a.le(b) {
        if b.le(a) {
            Ordering::Equal
        } else {
            Ordering::Less
        }
    } else {
        Ordering::Greater
    }
}

impl<T: Scalar> Mix<T> {
    /// The order of two coordinates. A scalar inside an interval, and two
    /// intervals that overlap, count as equal. Otherwise an interval stands
    /// where its lower end stands; with a scalar on the left and an interval
    /// on the right, the interval's lower end is the one held against the
    /// scalar.
    pub open spec fn order_of(self, other: Self) -> Ordering {
        match (self, other) {
            (Mix::Scalar(a), Mix::Scalar(b)) => rank_order(a.rank(), b.rank()),
            (Mix::Interval(a0, a1), Mix::Scalar(b)) => if a0.rank() <= b.rank() && b.rank()
                <= a1.rank() {
                Ordering::Equal
            } else {
                rank_order(a0.rank(), b.rank())
            },
            (Mix::Scalar(a), Mix::Interval(b0, b1)) => if b0.rank() <= a.rank() && a.rank()
                <= b1.rank() {
                Ordering::Equal
            } else {
                rank_order(b0.rank(), a.rank())
            },
            (Mix::Interval(a0, a1), Mix::Interval(b0, b1)) => if a0.rank() <= b1.rank()
                && b0.rank() <= a1.rank() {
                Ordering::Equal
            } else {
                rank_order(a0.rank(), b0.rank())
            },
        }
    }

    /// Whether the coordinate touches the closed range from `low` to `high`.
    pub open spec fn touches(self, low: T, high: T) -> bool {
        match self {
            Mix::Scalar(x) => low.rank() <= x.rank() && x.rank() <= high.rank(),
            Mix::Interval(x0, x1) => low.rank() <= x1.rank() && x0.rank() <= high.rank(),
        }
    }

    fn order_with(&self, other: &Self) -> (o: Ordering)
        ensures
            o == self.order_of(*other),
    {
        match (self, other) {
            (Mix::Scalar(a), Mix::Scalar(b)) => compare(a, b),
            (Mix::Interval(a0, a1), Mix::Scalar(b)) => {
                if a0.le(b) && b.le(a1) {
                    Ordering::Equal
                } else {
                    compare(a0, b)
                }
            },
            (Mix::Scalar(a), Mix::Interval(b0, b1)) => {
                if b0.le(a) && a.le(b1) {
                    Ordering::Equal
                } else {
                    compare(b0, a)
                }
            },
            (Mix::Interval(a0, a1), Mix::Interval(b0, b1)) => {
                if a0.le(b1) && b0.le(a1) {
                    Ordering::Equal
                } else {
                    compare(a0, b0)
                }
            },
        }
    }

    fn touches_range(&self, low: &T, high: &T) -> (b: bool)
        ensures
            b == self.touches(*low, *high),
    {
        match self {
            Mix::Scalar(x) => low.le(x) && x.le(high),
            Mix::Interval(x0, x1) => low.le(x1) && x0.le(high),
        }
    }

    fn lower_end(&self) -> (x: T)
        ensures
            x == self.lower(),
    {
        match self {
            Mix::Scalar(x) => *x,
            Mix::Interval(x, _) => *x,
        }
    }

    fn upper_end(&self) -> (x: T)
        ensures
            x == self.upper(),
    {
        match self {
            Mix::Scalar(x) => *x,
            Mix::Interval(_, x) => *x,
        }
    }
}

impl<A: Scalar, B: Scalar> Point for Mix2<A, B> {
    type Bounds = Bounds2<A, B>;

    /// Both coordinates touch the box's range in their dimension.
    open spec fn overlaps_spec(&self, bbox: &Self::Bounds) -> bool {
        self.v0.touches(bbox.0.0, bbox.1.0) && self.v1.touches(bbox.0.1, bbox.1.1)
    }

    open spec fn ordered_spec(bbox: &Self::Bounds) -> bool {
        bbox.0.0.rank() <= bbox.1.0.rank() && bbox.0.1.rank() <= bbox.1.1.rank()
    }

    fn is_ordered(bbox: &Self::Bounds) -> (b: bool) {
        (bbox.0).0.le(&(bbox.1).0) && (bbox.0).1.le(&(bbox.1).1)
    }

    fn overlaps(&self, bbox: &Self::Bounds) -> (b: bool) {
        self.v0.touches_range(&(bbox.0).0, &(bbox.1).0) && self.v1.touches_range(
            &(bbox.0).1,
            &(bbox.1).1,
        )
    }
}

impl<A: Scalar, B: Scalar> Mix2<A, B> {
    /// The order of two points along the dimension of a tree level: the
    /// first coordinate at even levels, the second at odd ones.
    pub open spec fn order_at(self, other: Self, level: usize) -> Ordering {
        if level % 2 == 0 {
            self.v0.order_of(other.v0)
        } else {
            self.v1.order_of(other.v1)
        }
    }

    /// The bytes of the pivot that the point gives at a tree level: the
    /// scalar of that level's dimension, or the upper end of the interval.
    pub open spec fn pivot_at(self, level: nat) -> Seq<u8> {
        if level % 2 == 0 {
            self.v0.upper().encoding()
        } else {
            self.v1.upper().encoding()
        }
    }

    /// The number of bytes of a pivot at a tree level.
    pub open spec fn pivot_width(level: nat) -> nat {
        if level % 2 == 0 {
            A::width()
        } else {
            B::width()
        }
    }

    /// Whether `b` is the smallest box round all of `points`: in each
    /// dimension its low is the least lower end and its high the greatest
    /// upper end.
    pub open spec fn is_bounds_of(points: Seq<Self>, b: Bounds2<A, B>) -> bool {
        &&& forall|i: int|
            0 <= i < points.len() ==> {
                &&& b.0.0.rank() <= (#[trigger] points[i]).v0.lower().rank()
                &&& points[i].v0.upper().rank() <= b.1.0.rank()
                &&& b.0.1.rank() <= points[i].v1.lower().rank()
                &&& points[i].v1.upper().rank() <= b.1.1.rank()
            }
        &&& exists|i: int| 0 <= i < points.len() && (#[trigger] points[i]).v0.lower() == b.0.0
        &&& exists|i: int| 0 <= i < points.len() && (#[trigger] points[i]).v0.upper() == b.1.0
        &&& exists|i: int| 0 <= i < points.len() && (#[trigger] points[i]).v1.lower() == b.0.1
        &&& exists|i: int| 0 <= i < points.len() && (#[trigger] points[i]).v1.upper() == b.1.1
    }

    /// The number of dimensions.
    pub fn dim() -> (d: usize)
        ensures
            d == 2,
    {
        2
    }

    pub fn cmp_at(&self, other: &Self, level: usize) -> (o: Ordering)
        ensures
            o == self.order_at(*other, level),
    {
        if level % Self::dim() == 0 {
            self.v0.order_with(&other.v0)
        } else {
            self.v1.order_with(&other.v1)
        }
    }

    /// The point of scalars that lies, in each dimension, halfway between the
    /// upper ends of the two points, rounded towards zero.
    pub fn midpoint_upper(&self, other: &Self) -> (m: Self)
        ensures
            m.v0 matches Mix::Scalar(x) && x.rank() == half(
                self.v0.upper().rank() + other.v0.upper().rank(),
            ),
            m.v1 matches Mix::Scalar(y) && y.rank() == half(
                self.v1.upper().rank() + other.v1.upper().rank(),
            ),
    {
        let v0 = Mix::Scalar(self.v0.upper_end().mean(&other.v0.upper_end()));
        let v1 = Mix::Scalar(self.v1.upper_end().mean(&other.v1.upper_end()));
        Self { v0, v1 }
    }

    /// Writes the pivot of a tree level at the start of `dst`.
    pub fn serialize_at(&self, level: usize, dst: &mut [u8]) -> (r: Result<usize, CodecError>)
        ensures
            final(dst)@.len() == old(dst)@.len(),
            old(dst)@.len() >= Self::pivot_width(level as nat) ==> r == Ok::<usize, CodecError>(
                Self::pivot_width(level as nat) as usize,
            ) && final(dst)@ == splice(old(dst)@, 0, self.pivot_at(level as nat)),
            old(dst)@.len() < Self::pivot_width(level as nat) ==> r == Err::<usize, CodecError>(
                CodecError::DestinationTooSmall,
            ) && final(dst)@ == old(dst)@,
    {
        if level % Self::dim() == 0 {
            self.v0.upper_end().write_at(dst, 0)
        } else {
            self.v1.upper_end().write_at(dst, 0)
        }
    }

    /// The number of bytes of the pivot that the point gives at a tree level.
    pub fn pivot_bytes_at(&self, level: usize) -> (n: usize)
        ensures
            n == Self::pivot_width(level as nat),
    {
        if level % Self::dim() == 0 {
            self.v0.upper_end().count_bytes()
        } else {
            self.v1.upper_end().count_bytes()
        }
    }

    /// The number of bytes of the pivot that `buf` starts with at a tree
    /// level.
    pub fn count_bytes_at(buf: &[u8], level: usize) -> (r: Result<usize, CodecError>)
        ensures
            r == Ok::<usize, CodecError>(Self::pivot_width(level as nat) as usize),
    {
        if level % Self::dim() == 0 {
            A::count_from_bytes(buf)
        } else {
            B::count_from_bytes(buf)
        }
    }

    /// The smallest box round all the points; `None` where there is none.
    pub fn bounds(points: &Vec<Self>) -> (r: Option<Bounds2<A, B>>)
        ensures
            points@.len() == 0 ==> r is None,
            points@.len() > 0 ==> (r matches Some(b) && Self::is_bounds_of(points@, b)),
    {
        if points.len() == 0 {
            return None;
        }
        let first = &points[0];
        let mut acc: Bounds2<A, B> = (
            (first.v0.lower_end(), first.v1.lower_end()),
            (first.v0.upper_end(), first.v1.upper_end()),
        );
        let mut k: usize = 1;
        proof {
            assert(points@.take(1)[0] == points@[0]);
        }
        while k < points.len()
            invariant
                1 <= k <= points@.len(),
                Self::is_bounds_of(points@.take(k as int), acc),
            decreases points@.len() - k,
        {
            let m = &points[k];
            let ghost seen = points@.take(k as int);
            let ghost next = points@.take(k + 1);
            let ghost before = acc;
            let ghost w_l0 = choose|i: int| 0 <= i < seen.len() && (#[trigger] seen[i]).v0.lower() == before.0.0;
            let ghost w_u0 = choose|i: int| 0 <= i < seen.len() && (#[trigger] seen[i]).v0.upper() == before.1.0;
            let ghost w_l1 = choose|i: int| 0 <= i < seen.len() && (#[trigger] seen[i]).v1.lower() == before.0.1;
            let ghost w_u1 = choose|i: int| 0 <= i < seen.len() && (#[trigger] seen[i]).v1.upper() == before.1.1;
            let l0 = m.v0.lower_end();
            if !(acc.0).0.le(&l0) {
                (acc.0).0 = l0;
            }
            let u0 = m.v0.upper_end();
            if !u0.le(&(acc.1).0) {
                (acc.1).0 = u0;
            }
            let l1 = m.v1.lower_end();
            if !(acc.0).1.le(&l1) {
                (acc.0).1 = l1;
            }
            let u1 = m.v1.upper_end();
            if !u1.le(&(acc.1).1) {
                (acc.1).1 = u1;
            }
            proof {
                assert(next[k as int] == points@[k as int]);
                assert forall|i: int| 0 <= i < seen.len() implies seen[i] == next[i] by {}
                assert forall|i: int| 0 <= i < next.len() implies {
                    &&& acc.0.0.rank() <= (#[trigger] next[i]).v0.lower().rank()
                    &&& next[i].v0.upper().rank() <= acc.1.0.rank()
                    &&& acc.0.1.rank() <= next[i].v1.lower().rank()
                    &&& next[i].v1.upper().rank() <= acc.1.1.rank()
                } by {
                    if i < k {
                        assert(seen[i] == next[i]);
                    }
                }
                let n_l0 = if acc.0.0 == before.0.0 { w_l0 } else { k as int };
                let n_u0 = if acc.1.0 == before.1.0 { w_u0 } else { k as int };
                let n_l1 = if acc.0.1 == before.0.1 { w_l1 } else { k as int };
                let n_u1 = if acc.1.1 == before.1.1 { w_u1 } else { k as int };
                assert(next[n_l0].v0.lower() == acc.0.0);
                assert(next[n_u0].v0.upper() == acc.1.0);
                assert(next[n_l1].v1.lower() == acc.0.1);
                assert(next[n_u1].v1.upper() == acc.1.1);
            }
            k += 1;
        }
        proof {
            assert(points@.take(k as int) =~= points@);
        }
        Some(acc)
    }

    /// The box written dimension by dimension.
    pub fn bounds_to_range(bbox: Bounds2<A, B>) -> (r: Range2<A, B>)
        ensures
            r == (((bbox.0).0, (bbox.1).0), ((bbox.0).1, (bbox.1).1)),
    {
        (((bbox.0).0, (bbox.1).0), ((bbox.0).1, (bbox.1).1))
    }
}

/// The smallest box round points whose intervals run from a lower to a
/// greater or equal upper end is ordered and touches every one of them.
pub proof fn bounds_touch_all<A: Scalar, B: Scalar>(points: Seq<Mix2<A, B>>, b: Bounds2<A, B>)
    requires
        Mix2::<A, B>::is_bounds_of(points, b),
        forall|i: int|
            0 <= i < points.len() ==> (#[trigger] points[i]).v0.lower().rank()
                <= points[i].v0.upper().rank() && points[i].v1.lower().rank()
                <= points[i].v1.upper().rank(),
    ensures
        Mix2::<A, B>::ordered_spec(&b),
        forall|i: int| 0 <= i < points.len() ==> (#[trigger] points[i]).overlaps_spec(&b),
{
    let i0 = choose|i: int| 0 <= i < points.len() && (#[trigger] points[i]).v0.lower() == b.0.0;
    let i1 = choose|i: int| 0 <= i < points.len() && (#[trigger] points[i]).v1.lower() == b.0.1;
    assert(points[i0].v0.upper().rank() <= b.1.0.rank());
    assert(points[i1].v1.upper().rank() <= b.1.1.rank());
}

/// A record of a point and a value is read back from its bytes, whatever
/// follows them, and the reader consumes the point's size and the value's
/// bytes, no more.
pub proof fn record_round_trip<A: Scalar, B: Scalar, V: Codec>(
    record: (Mix2<A, B>, V),
    tail: Seq<u8>,
)
    ensures
        <(Mix2<A, B>, V) as Codec>::decoding(record.encoding() + tail) == Some(
            (record, record.encoding().len()),
        ),
        record.encoding().len() == record.0.size() + record.1.encoding().len(),
        Mix2::<A, B>::decoding(record.0.encoding() + tail) == Some((record.0, record.0.size())),
{
    record.round_trip(tail);
    record.0.round_trip(tail);
    record.0.size_is_encoding_len();
}

/// The span of a coordinate is between 1 and 32 bytes.
pub proof fn span_bounds<T: Scalar>(interval: bool)
    ensures
        1 <= T::width() <= 16,
        1 <= Mix::<T>::span(interval) <= 32,
{
    T::width_bounds();
}

} // verus!
