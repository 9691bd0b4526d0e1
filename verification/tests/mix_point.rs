use eyros::mix::{Mix, Mix2};
use eyros::point::Point;
use eyros::scalar::CodecError;
use std::cmp::Ordering;

type P = Mix2<u32, u32>;

fn at(x: u32, y: u32) -> P {
    Mix2::new(Mix::Scalar(x), Mix::Scalar(y))
}

fn span(x0: u32, x1: u32, y0: u32, y1: u32) -> P {
    Mix2::new(Mix::Interval(x0, x1), Mix::Interval(y0, y1))
}

#[test]
fn dimension_is_two() {
    assert_eq!(P::dim(), 2);
}

#[test]
fn order_of_scalars_is_natural() {
    assert_eq!(at(1, 9).cmp_at(&at(2, 0), 0), Ordering::Less);
    assert_eq!(at(1, 9).cmp_at(&at(2, 0), 1), Ordering::Greater);
    assert_eq!(at(1, 9).cmp_at(&at(1, 9), 0), Ordering::Equal);
    assert_eq!(at(1, 9).cmp_at(&at(2, 0), 2), Ordering::Less);
    assert_eq!(at(1, 9).cmp_at(&at(2, 0), 3), Ordering::Greater);
}

#[test]
fn order_of_interval_and_scalar() {
    let iv = Mix2::new(Mix::Interval(10u32, 20u32), Mix::Scalar(0u32));
    assert_eq!(iv.cmp_at(&at(10, 0), 0), Ordering::Equal);
    assert_eq!(iv.cmp_at(&at(15, 0), 0), Ordering::Equal);
    assert_eq!(iv.cmp_at(&at(20, 0), 0), Ordering::Equal);
    assert_eq!(iv.cmp_at(&at(21, 0), 0), Ordering::Less);
    assert_eq!(iv.cmp_at(&at(9, 0), 0), Ordering::Greater);
}

#[test]
fn order_of_scalar_and_interval_is_the_intervals_view() {
    let iv = Mix2::new(Mix::Interval(10u32, 20u32), Mix::Scalar(0u32));
    assert_eq!(at(15, 0).cmp_at(&iv, 0), Ordering::Equal);
    assert_eq!(at(21, 0).cmp_at(&iv, 0), Ordering::Less);
    assert_eq!(at(9, 0).cmp_at(&iv, 0), Ordering::Greater);
}

#[test]
fn order_of_intervals() {
    let a = span(10, 20, 0, 0);
    assert_eq!(a.cmp_at(&span(20, 30, 0, 0), 0), Ordering::Equal);
    assert_eq!(a.cmp_at(&span(0, 10, 0, 0), 0), Ordering::Equal);
    assert_eq!(a.cmp_at(&span(21, 30, 0, 0), 0), Ordering::Less);
    assert_eq!(a.cmp_at(&span(0, 9, 0, 0), 0), Ordering::Greater);
    assert_eq!(a.cmp_at(&span(21, 30, 0, 0), 1), Ordering::Equal);
}

#[test]
fn midpoint_of_upper_ends() {
    let a = Mix2::new(Mix::Interval(0u32, 10u32), Mix::Scalar(7u32));
    let b = Mix2::new(Mix::Scalar(20u32), Mix::Interval(1u32, 10u32));
    assert_eq!(a.midpoint_upper(&b), at(15, 8));
    assert_eq!(at(1, 1).midpoint_upper(&at(2, 1)), at(1, 1));
    assert_eq!(
        span(0, 4, 0, 6).midpoint_upper(&span(100, 8, 100, 8)),
        at(6, 7)
    );
}

#[test]
fn pivot_is_the_upper_end_of_the_levels_dimension() {
    let p = Mix2::new(Mix::Interval(1u32, 0x0102u32), Mix::Scalar(0x0a0bu32));
    let mut dst = vec![0xffu8; 5];
    assert_eq!(p.serialize_at(0, &mut dst), Ok(4));
    assert_eq!(dst, vec![0, 0, 1, 2, 0xff]);
    assert_eq!(p.serialize_at(1, &mut dst), Ok(4));
    assert_eq!(dst, vec![0, 0, 0x0a, 0x0b, 0xff]);
    assert_eq!(p.serialize_at(2, &mut dst), Ok(4));
    assert_eq!(dst, vec![0, 0, 1, 2, 0xff]);
    let mut short = vec![7u8; 3];
    assert_eq!(
        p.serialize_at(0, &mut short),
        Err(CodecError::DestinationTooSmall)
    );
    assert_eq!(short, vec![7, 7, 7]);
}

#[test]
fn pivot_sizes_follow_the_dimension() {
    let p: Mix2<u32, u64> = Mix2::new(Mix::Scalar(1), Mix::Interval(2, 3));
    assert_eq!(p.pivot_bytes_at(0), 4);
    assert_eq!(p.pivot_bytes_at(1), 8);
    assert_eq!(p.pivot_bytes_at(4), 4);
    assert_eq!(Mix2::<u32, u64>::count_bytes_at(&[], 0), Ok(4));
    assert_eq!(Mix2::<u32, u64>::count_bytes_at(&[1, 2, 3], 5), Ok(8));
}

#[test]
fn points_in_a_box() {
    let points = vec![at(0, 0), at(10, 10), at(5, 5)];
    let all = ((0u32, 0u32), (10u32, 10u32));
    let corner = ((6u32, 6u32), (10u32, 10u32));
    let inside: Vec<bool> = points.iter().map(|p| p.overlaps(&all)).collect();
    assert_eq!(inside, vec![true, true, true]);
    let inside: Vec<bool> = points.iter().map(|p| p.overlaps(&corner)).collect();
    assert_eq!(inside, vec![false, true, false]);
}

#[test]
fn intervals_in_a_box() {
    let points = vec![span(0, 100, 0, 100), span(50, 90, 0, 20), span(95, 100, 95, 100)];
    let bbox = ((40u32, 40u32), (60u32, 60u32));
    let inside: Vec<bool> = points.iter().map(|p| p.overlaps(&bbox)).collect();
    assert_eq!(inside, vec![true, false, false]);
    let low = ((40u32, 10u32), (60u32, 60u32));
    let inside: Vec<bool> = points.iter().map(|p| p.overlaps(&low)).collect();
    assert_eq!(inside, vec![true, true, false]);
}

#[test]
fn degenerate_box_and_point() {
    let p = span(1, 1, 1, 1);
    assert!(p.overlaps(&((1, 1), (1, 1))));
    assert!(at(1, 1).overlaps(&((1, 1), (1, 1))));
    assert!(!at(1, 2).overlaps(&((1, 1), (1, 1))));
}

#[test]
fn box_with_low_above_high_holds_nothing() {
    assert!(!at(5, 5).overlaps(&((6, 0), (4, 10))));
}

#[test]
fn interval_touching_the_box_edge_overlaps() {
    assert!(span(0, 4, 0, 4).overlaps(&((4, 4), (9, 9))));
    assert!(!span(0, 3, 0, 4).overlaps(&((4, 4), (9, 9))));
}

#[test]
fn bounds_of_no_points() {
    let none: Vec<P> = vec![];
    assert_eq!(P::bounds(&none), None);
}

#[test]
fn bounds_of_points_and_intervals() {
    let points = vec![at(5, 50), span(2, 7, 60, 61), at(9, 40), span(3, 4, 45, 90)];
    assert_eq!(P::bounds(&points), Some(((2, 40), (9, 90))));
    assert_eq!(P::bounds(&vec![at(3, 4)]), Some(((3, 4), (3, 4))));
}

#[test]
fn bounds_as_ranges() {
    assert_eq!(
        Mix2::<u32, u64>::bounds_to_range(((1, 2), (3, 4))),
        ((1, 3), (2, 4))
    );
}

#[test]
fn ordered_and_inverted_boxes() {
    assert!(P::is_ordered(&((1, 1), (1, 1))));
    assert!(P::is_ordered(&((0, 4), (9, 4))));
    assert!(!P::is_ordered(&((6, 6), (4, 4))));
    assert!(!P::is_ordered(&((0, 6), (9, 4))));
    assert!(!P::is_ordered(&((6, 0), (4, 9))));
    // the componentwise test itself is made for every box
    assert!(span(0, 10, 0, 10).overlaps(&((6, 6), (4, 4))));
}

#[test]
fn signed_points_in_a_box() {
    let p: Mix2<i32, i64> = Mix2::new(Mix::Interval(-10, -5), Mix::Scalar(-1));
    assert!(p.overlaps(&((-7, -1), (0, 0))));
    assert!(!p.overlaps(&((-4, -1), (0, 0))));
    assert!(!p.overlaps(&((-7, 0), (0, 5))));
    let q: Mix2<i32, i64> = Mix2::new(Mix::Scalar(3), Mix::Interval(-9, 9));
    assert_eq!(
        Mix2::<i32, i64>::bounds(&vec![p, q]),
        Some(((-10, -9), (3, 9)))
    );
    assert_eq!(
        p.midpoint_upper(&q),
        Mix2::new(Mix::Scalar(-1), Mix::Scalar(4))
    );
    assert_eq!(p.cmp_at(&q, 0), Ordering::Less);
    assert_eq!(p.cmp_at(&q, 1), Ordering::Equal);
}
