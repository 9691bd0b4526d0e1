use eyros::mix::Mix2;
use eyros::order::{is_power_of_two, order, order_len};
use eyros::scalar::CodecError;

type P = Mix2<u32, u64>;

/// A block of branch factor 2 whose pivots take four bytes: pivots, the bit
/// field, three pointers of the pivots, two pointers of the slots.
fn block(pivots: [u32; 3], bits: u8, pivot_ptrs: [u64; 3], slot_ptrs: [u64; 2]) -> Vec<u8> {
    let mut buf = vec![];
    for p in pivots.iter() {
        buf.extend_from_slice(&p.to_be_bytes());
    }
    buf.push(bits);
    for p in pivot_ptrs.iter() {
        buf.extend_from_slice(&p.to_be_bytes());
    }
    for p in slot_ptrs.iter() {
        buf.extend_from_slice(&p.to_be_bytes());
    }
    buf
}

#[test]
fn pivot_counts() {
    assert_eq!(order_len(1), 1);
    assert_eq!(order_len(2), 3);
    assert_eq!(order_len(4), 7);
    assert_eq!(order_len(8), 15);
}

#[test]
fn powers_of_two() {
    let yes: Vec<usize> = (0..70).filter(|x| is_power_of_two(*x)).collect();
    assert_eq!(yes, vec![1, 2, 4, 8, 16, 32, 64]);
}

#[test]
fn heap_positions_to_sorted_places() {
    let places: Vec<usize> = (0..7).map(|c| order(4, c)).collect();
    assert_eq!(places, vec![3, 1, 5, 0, 2, 4, 6]);
    let places: Vec<usize> = (0..3).map(|c| order(2, c)).collect();
    assert_eq!(places, vec![1, 0, 2]);
    assert_eq!(order(1, 0), 0);
    let mut places: Vec<usize> = (0..15).map(|c| order(8, c)).collect();
    assert_eq!(places[0], 7);
    assert_eq!(places[14], 14);
    places.sort();
    assert_eq!(places, (0..15).collect::<Vec<usize>>());
}

#[test]
fn walk_to_the_left_of_the_root() {
    // bits: pivot 1 is a bucket, slot 0 (bit 3) is a bucket
    let buf = block([10, 20, 30], 0b0000_1010, [101, 201, 301], [401, 501]);
    let bbox = ((0u32, 0u64), (5u32, 0u64));
    let (cursors, blocks) = P::query_branch(&buf, &bbox, 2, 0).unwrap();
    // root (place 1, a bucket), then its left child (place 0, a block of the
    // next level), then slot 0
    assert_eq!(blocks, vec![200, 400]);
    assert_eq!(cursors, vec![(100, 1)]);
}

#[test]
fn walk_between_two_pivots() {
    let buf = block([10, 20, 30], 0b0001_0000, [0, 201, 301], [401, 501]);
    let bbox = ((12u32, 0u64), (25u32, 0u64));
    let (cursors, blocks) = P::query_branch(&buf, &bbox, 2, 4).unwrap();
    // root, right child (place 2), left child (place 0, no pointer); the
    // right child turns left to slot 1, the left child turns right to slot 1
    assert_eq!(cursors, vec![(200, 5), (300, 5)]);
    assert_eq!(blocks, vec![500]);
}

#[test]
fn walk_skips_empty_pointers() {
    let buf = block([10, 20, 30], 0, [0, 0, 0], [0, 0]);
    let bbox = ((0u32, 0u64), (25u32, 0u64));
    let (cursors, blocks) = P::query_branch(&buf, &bbox, 2, 0).unwrap();
    assert_eq!(cursors, vec![]);
    assert_eq!(blocks, vec![]);
}

#[test]
fn walk_outside_all_pivots_on_the_left() {
    let buf = block([10, 20, 30], 0, [11, 21, 31], [41, 51]);
    // nothing is at most the high end: only the left spine is walked
    let bbox = ((1u32, 0u64), (2u32, 0u64));
    let (cursors, blocks) = P::query_branch(&buf, &bbox, 2, 0).unwrap();
    assert_eq!(cursors, vec![(20, 1), (10, 1), (40, 1)]);
    assert_eq!(blocks, vec![]);
}

#[test]
fn walk_uses_the_second_dimension_at_odd_levels() {
    let mut buf = vec![];
    for p in [10u64, 20, 30].iter() {
        buf.extend_from_slice(&p.to_be_bytes());
    }
    buf.push(0b0001_1111);
    for p in [11u64, 21, 31, 41, 51].iter() {
        buf.extend_from_slice(&p.to_be_bytes());
    }
    let bbox = ((1000u32, 12u64), (1000u32, 25u64));
    let (cursors, blocks) = P::query_branch(&buf, &bbox, 2, 1).unwrap();
    assert_eq!(cursors, vec![]);
    assert_eq!(blocks, vec![20, 30, 10, 50]);
}

#[test]
fn walk_past_the_last_pivot_has_no_slot() {
    let buf = block([10, 20, 30], 0, [11, 21, 31], [41, 51]);
    let bbox = ((25u32, 0u64), (35u32, 0u64));
    assert_eq!(
        P::query_branch(&buf, &bbox, 2, 0),
        Err(CodecError::SlotOutOfRange)
    );
}

#[test]
fn walk_of_a_short_buffer_fails() {
    let buf = block([10, 20, 30], 0, [11, 21, 31], [41, 51]);
    assert_eq!(buf.len(), 53);
    let bbox = ((1u32, 0u64), (2u32, 0u64));
    assert_eq!(
        P::query_branch(&buf[..52], &bbox, 2, 0),
        Err(CodecError::SourceTooShort)
    );
    assert_eq!(
        P::query_branch(&[], &bbox, 2, 0),
        Err(CodecError::SourceTooShort)
    );
    // the pivots of the second dimension are wider: the block is too short
    assert_eq!(
        P::query_branch(&buf, &bbox, 2, 1),
        Err(CodecError::SourceTooShort)
    );
}

#[test]
fn walk_with_a_bad_branch_factor_fails() {
    let buf = block([10, 20, 30], 0, [11, 21, 31], [41, 51]);
    let bbox = ((1u32, 0u64), (2u32, 0u64));
    assert_eq!(
        P::query_branch(&buf, &bbox, 3, 0),
        Err(CodecError::InvalidBranchFactor)
    );
    assert_eq!(
        P::query_branch(&buf, &bbox, 0, 0),
        Err(CodecError::InvalidBranchFactor)
    );
}

#[test]
fn walk_of_a_block_with_one_pivot() {
    // bf 1: one pivot, one bit-field byte, one pivot pointer, one slot
    let mut buf = vec![];
    buf.extend_from_slice(&10u32.to_be_bytes());
    buf.push(0b10);
    buf.extend_from_slice(&7u64.to_be_bytes());
    buf.extend_from_slice(&9u64.to_be_bytes());
    let bbox = ((1u32, 0u64), (2u32, 0u64));
    let (cursors, blocks) = P::query_branch(&buf, &bbox, 1, 0).unwrap();
    assert_eq!(cursors, vec![(6, 1)]);
    assert_eq!(blocks, vec![8]);
}

/// A block of branch factor 4 with seven sorted pivots of four bytes; every
/// child has a pointer of its own and every second one is a bucket.
fn wide_block() -> Vec<u8> {
    let mut buf = vec![];
    for p in [10u32, 20, 30, 40, 50, 60, 70].iter() {
        buf.extend_from_slice(&p.to_be_bytes());
    }
    buf.push(0b0101_0101);
    buf.push(0b0000_0101);
    for p in 0..11u64 {
        buf.extend_from_slice(&(100 + p).to_be_bytes());
    }
    buf
}

#[test]
fn walk_follows_the_slots_between_the_pivots_it_meets() {
    let buf = wide_block();
    // between the pivots 20 and 30: the slot between them is slot 1, which is
    // child 7 + 1, a bucket, with pointer 108
    let bbox = ((22u32, 0u64), (28u32, 0u64));
    let (cursors, blocks) = P::query_branch(&buf, &bbox, 4, 0).unwrap();
    // the pivots on the way: 40 (place 3), 20 (place 1), 30 (place 2)
    assert_eq!(cursors, vec![(102, 1), (100, 1)]);
    assert_eq!(blocks, vec![101, 107]);
}

#[test]
fn wider_box_loses_no_child() {
    let buf = wide_block();
    let boxes = [
        ((22u32, 0u64), (28u32, 0u64)),
        ((15u32, 0u64), (45u32, 0u64)),
        ((5u32, 0u64), (65u32, 0u64)),
    ];
    let mut last: (Vec<(u64, usize)>, Vec<u64>) = (vec![], vec![]);
    for bbox in boxes.iter() {
        let (cursors, blocks) = P::query_branch(&buf, bbox, 4, 2).unwrap();
        assert!(last.0.iter().all(|c| cursors.contains(c)));
        assert!(last.1.iter().all(|b| blocks.contains(b)));
        assert!(cursors.len() + blocks.len() > last.0.len() + last.1.len());
        last = (cursors, blocks);
    }
    // all seven pivots and all four slots
    assert_eq!(last.0.len() + last.1.len(), 11);
}
