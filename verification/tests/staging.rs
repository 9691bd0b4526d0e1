use eyros::mix::{Mix, Mix2};
use eyros::point::Location;
use eyros::scalar::CodecError;
use eyros::location_set::LocationSet;
use eyros::staging::{read_log, write_log, Staging, StagingIterator, StaleLocation};

type P = Mix2<u32, u32>;
type V = u64;

fn at(x: u32, y: u32) -> P {
    Mix2::new(Mix::Scalar(x), Mix::Scalar(y))
}

fn sample() -> Vec<(P, V)> {
    vec![(at(0, 0), 1), (at(10, 10), 2), (at(5, 5), 3)]
}

fn drain(it: &mut StagingIterator<P, V>) -> Vec<(P, V, Location)> {
    let mut out = vec![];
    while let Some(item) = it.next() {
        out.push(item);
    }
    out
}

fn empty() -> Staging<P, V> {
    Staging::open(&[], &[]).unwrap()
}

#[test]
fn empty_staging_gives_nothing() {
    let staging = empty();
    assert_eq!(staging.len(), 0);
    let bbox = ((0, 0), (u32::MAX, u32::MAX));
    assert_eq!(drain(&mut staging.query(&bbox)), vec![]);
}

#[test]
fn query_gives_the_points_in_the_box() {
    let mut staging = empty();
    staging.batch(&sample(), &vec![]);
    let all = ((0, 0), (10, 10));
    assert_eq!(
        drain(&mut staging.query(&all)),
        vec![
            (at(0, 0), 1, (0, 0)),
            (at(10, 10), 2, (0, 1)),
            (at(5, 5), 3, (0, 2))
        ]
    );
    let corner = ((6, 6), (10, 10));
    assert_eq!(
        drain(&mut staging.query(&corner)),
        vec![(at(10, 10), 2, (0, 1))]
    );
}

#[test]
fn iterator_stays_empty_once_it_ended() {
    let mut staging = empty();
    staging.batch(&sample(), &vec![]);
    let corner = ((6, 6), (10, 10));
    let mut it = staging.query(&corner);
    assert_eq!(it.next(), Some((at(10, 10), 2, (0, 1))));
    assert_eq!(it.next(), None);
    assert_eq!(it.next(), None);
}

#[test]
fn new_iterator_starts_at_the_first_insert() {
    let inserts = sample();
    let deletes = LocationSet::from_vec(&vec![(0, 0)]);
    let bbox = ((0, 0), (10, 10));
    let mut it: StagingIterator<P, V> = StagingIterator::new(&inserts, &deletes, &bbox);
    assert_eq!(it.index, 0);
    assert_eq!(it.next(), Some((at(10, 10), 2, (0, 1))));
    assert_eq!(it.index, 2);
}

#[test]
fn tombstones_mask_staged_inserts() {
    let mut staging = empty();
    staging.batch(&sample(), &vec![]);
    staging.batch(&vec![], &vec![(0, 1), (3, 0)]);
    let all = ((0, 0), (10, 10));
    assert_eq!(
        drain(&mut staging.query(&all)),
        vec![(at(0, 0), 1, (0, 0)), (at(5, 5), 3, (0, 2))]
    );
    assert_eq!(staging.len(), 5);
    assert!(staging.delete_set.contains((3, 0)));
    assert!(staging.delete_set.contains((0, 1)));
    assert!(!staging.delete_set.contains((0, 0)));
    assert!(!staging.delete_set.contains((1, 0)));
}

#[test]
fn batch_gives_the_bytes_of_both_logs() {
    let mut staging = empty();
    let (ilog, dlog) = staging.batch(&vec![(at(1, 2), 3)], &vec![(4, 5)]);
    assert_eq!(
        ilog,
        vec![0, 0, 0, 0, 1, 0, 0, 0, 2, 0, 0, 0, 0, 0, 0, 0, 3]
    );
    assert_eq!(dlog, vec![0, 0, 0, 4, 0, 0, 0, 0, 0, 0, 0, 5]);
    assert_eq!(staging.inserts, vec![(at(1, 2), 3)]);
    assert_eq!(staging.deletes, vec![(4, 5)]);
}

#[test]
fn logs_replay_to_the_same_staging() {
    let mut staging = empty();
    let (mut ilog, mut dlog) = staging.batch(&sample(), &vec![(0, 2)]);
    let more = vec![(
        Mix2::new(Mix::Interval(1u32, 2u32), Mix::Interval(3u32, 4u32)),
        9u64,
    )];
    let (i2, d2) = staging.batch(&more, &vec![(1, 77)]);
    ilog.extend_from_slice(&i2);
    dlog.extend_from_slice(&d2);
    let again: Staging<P, V> = Staging::open(&ilog, &dlog).unwrap();
    assert_eq!(again.inserts, staging.inserts);
    assert_eq!(again.deletes, staging.deletes);
    let all = ((0, 0), (10, 10));
    assert_eq!(
        drain(&mut again.query(&all)),
        drain(&mut staging.query(&all))
    );
    assert_eq!(drain(&mut again.query(&all)).len(), 3);
}

#[test]
fn truncated_log_is_refused() {
    let mut staging = empty();
    let (ilog, dlog) = staging.batch(&sample(), &vec![(0, 2)]);
    assert!(matches!(
        Staging::<P, V>::open(&ilog[..ilog.len() - 1], &dlog),
        Err(CodecError::SourceTooShort)
    ));
    assert!(matches!(
        Staging::<P, V>::open(&ilog, &dlog[..5]),
        Err(CodecError::SourceTooShort)
    ));
}

#[test]
fn load_keeps_a_part_whose_log_is_empty() {
    let mut staging = empty();
    let (ilog, _) = staging.batch(&sample(), &vec![(0, 2)]);
    let mut other = empty();
    other.batch(&vec![(at(7, 7), 7)], &vec![(9, 9)]);
    assert_eq!(other.load(&ilog, &[]), Ok(()));
    assert_eq!(other.inserts, sample());
    assert_eq!(other.deletes, vec![(9, 9)]);
    assert_eq!(
        other.load(&ilog[..3], &[]),
        Err(CodecError::SourceTooShort)
    );
    assert_eq!(other.inserts, sample());
}

#[test]
fn clearing_drops_the_staged_rows() {
    let mut staging = empty();
    staging.batch(&sample(), &vec![(0, 2)]);
    staging.clear_inserts();
    assert_eq!(staging.inserts, vec![]);
    assert_eq!(staging.deletes, vec![(0, 2)]);
    staging.batch(&sample(), &vec![]);
    staging.clear_deletes();
    assert_eq!(staging.inserts, sample());
    assert_eq!(staging.deletes, vec![]);
    staging.batch(&vec![], &vec![(0, 2)]);
    staging.clear();
    assert_eq!(staging.len(), 0);
}

#[test]
fn delete_takes_out_staged_inserts_by_position() {
    let mut staging = empty();
    staging.batch(&sample(), &vec![]);
    assert_eq!(staging.delete(&vec![(0, 0), (1, 1), (7, 7)]), Ok(()));
    assert_eq!(staging.inserts, vec![(at(10, 10), 2), (at(5, 5), 3)]);
    assert_eq!(staging.delete(&vec![(0, 1), (0, 0), (0, 1)]), Ok(()));
    assert_eq!(staging.inserts, vec![]);
}

#[test]
fn delete_of_a_missing_staged_insert_is_refused() {
    let mut staging = empty();
    staging.batch(&sample(), &vec![]);
    assert_eq!(
        staging.delete(&vec![(0, 1), (0, 3), (0, 9)]),
        Err(StaleLocation { location: (0, 3) })
    );
    assert_eq!(staging.inserts, sample());
    assert_eq!(staging.delete(&vec![(0, 2)]), Ok(()));
    assert_eq!(
        staging.delete(&vec![(0, 2)]),
        Err(StaleLocation { location: (0, 2) })
    );
    assert_eq!(staging.inserts.len(), 2);
}

#[test]
fn log_of_locations() {
    let locs: Vec<Location> = vec![(0, 1), (2, 3)];
    let bytes = write_log(&locs);
    assert_eq!(bytes.len(), 24);
    assert_eq!(read_log::<Location>(&bytes), Ok(locs));
    assert_eq!(read_log::<Location>(&[]), Ok(vec![]));
    assert_eq!(
        read_log::<Location>(&bytes[..23]),
        Err(CodecError::SourceTooShort)
    );
}

#[test]
fn box_with_low_above_high_gives_nothing() {
    let mut staging = empty();
    staging.batch(&sample(), &vec![]);
    let bbox = ((6, 0), (4, 10));
    assert_eq!(drain(&mut staging.query(&bbox)), vec![]);
}

#[test]
fn interval_records_are_found_by_overlap() {
    let mut staging: Staging<P, V> = empty();
    let rows = vec![
        (Mix2::new(Mix::Interval(0, 100), Mix::Interval(0, 100)), 1),
        (Mix2::new(Mix::Interval(50, 90), Mix::Interval(0, 20)), 2),
        (Mix2::new(Mix::Interval(95, 100), Mix::Interval(95, 100)), 3),
    ];
    staging.batch(&rows, &vec![]);
    let bbox = ((40, 10), (60, 60));
    let found: Vec<V> = drain(&mut staging.query(&bbox)).iter().map(|r| r.1).collect();
    assert_eq!(found, vec![1, 2]);
}

#[test]
fn inverted_box_gives_no_interval_either() {
    let mut staging: Staging<P, V> = empty();
    let rows = vec![(Mix2::new(Mix::Interval(0, 10), Mix::Interval(0, 10)), 1)];
    staging.batch(&rows, &vec![]);
    let inverted = ((6, 6), (4, 4));
    let mut it = staging.query(&inverted);
    assert_eq!(it.next(), None);
    assert_eq!(it.next(), None);
    let half = ((6, 0), (4, 10));
    assert_eq!(drain(&mut staging.query(&half)), vec![]);
    let ordered = ((4, 4), (6, 6));
    assert_eq!(drain(&mut staging.query(&ordered)).len(), 1);
}

#[test]
fn location_set_tells_trees_and_offsets_apart() {
    let mut set = LocationSet::new();
    assert!(!set.contains((0, 0)));
    set.insert((1, 0));
    set.insert((0, 1));
    set.insert((0, 1));
    set.insert((u32::MAX, u64::MAX));
    assert!(set.contains((1, 0)));
    assert!(set.contains((0, 1)));
    assert!(set.contains((u32::MAX, u64::MAX)));
    assert!(!set.contains((0, 0)));
    assert!(!set.contains((1, 1)));
    assert!(!set.contains((0, u64::MAX)));
    set.clear();
    assert!(!set.contains((1, 0)));
}

#[test]
fn delete_set_follows_the_staged_deletes() {
    let mut staging = empty();
    let (_, dlog) = staging.batch(&sample(), &vec![(0, 2), (5, 6)]);
    assert!(staging.delete_set.contains((5, 6)));
    let again: Staging<P, V> = Staging::open(&[], &dlog).unwrap();
    assert!(again.delete_set.contains((0, 2)));
    assert!(again.delete_set.contains((5, 6)));
    assert!(!again.delete_set.contains((0, 0)));
    staging.clear_deletes();
    assert!(!staging.delete_set.contains((5, 6)));
    assert_eq!(staging.deletes, vec![]);
}
