//! The staging area: the inserts and deletes that no tree holds yet.
//!
//! Staged inserts are numbered by their position; location `(0, i)` names the
//! insert at position `i`. The deletes are kept twice: in their order, as the
//! log has them, and as a set, in which a query looks a location up. The area is mirrored in two append-only logs, one
//! of inserts and one of deletes. This module computes the bytes to append
//! and replays the bytes read back; moving them to and from storage is the
//! caller's part.

use crate::location_set::{members, members_concat, members_push, LocationSet};
use crate::point::{Location, Point};
use crate::scalar::{Codec, CodecError};
use vstd::prelude::*;
use vstd::slice::slice_subrange;

verus! {

/// The bytes of a log: the encodings of its records, one after the other.
pub open spec fn log_bytes<K: Codec>(records: Seq<K>) -> Seq<u8>
    decreases records.len(),
{
    if records.len() == 0 {
        Seq::empty()
    } else {
        records[0].encoding() + log_bytes(records.skip(1))
    }
}

/// `records` followed by what `rest` holds, or the error of `rest`.
pub open spec fn followed_by<K>(records: Seq<K>, rest: Result<Seq<K>, CodecError>) -> Result<
    Seq<K>,
    CodecError,
> {
    match rest {
        Ok(more) => Ok(records + more),
        Err(e) => Err(e),
    }
}

/// The records that a log holds: it is read record by record until it ends.
/// A log that ends within a record holds none.
pub open spec fn parse_log<K: Codec>(buf: Seq<u8>) -> Result<Seq<K>, CodecError>
    decreases buf.len(),
{
    if buf.len() == 0 {
        Ok(Seq::empty())
    } else {
        match K::decoding(buf) {
            None => Err(CodecError::SourceTooShort),
            Some(first) => {
                proof {
                    K::decoding_fits(buf);
                }
                followed_by(seq![first.0], parse_log::<K>(buf.skip(first.1 as int)))
            },
        }
    }
}

/// A log made of records and followed by more bytes is read back as those
/// records followed by what the other bytes hold.
pub proof fn replay_prefix<K: Codec>(records: Seq<K>, rest: Seq<u8>)
    ensures
        parse_log::<K>(log_bytes(records) + rest) == followed_by(records, parse_log::<K>(rest)),
    decreases records.len(),
{
    let buf = log_bytes(records) + rest;
    if records.len() == 0 {
        assert(buf =~= rest);
        match parse_log::<K>(rest) {
            Ok(more) => {
                assert(records + more =~= more);
            },
            Err(_) => {},
        }
    } else {
        let first = records[0];
        let others = records.skip(1);
        let tail = log_bytes(others) + rest;
        first.round_trip(tail);
        assert(buf =~= first.encoding() + tail);
        K::decoding_fits(buf);
        assert(buf.skip(first.encoding().len() as int) =~= tail);
        replay_prefix(others, rest);
        match parse_log::<K>(rest) {
            Ok(more) => {
                assert(seq![first] + (others + more) =~= records + more);
            },
            Err(_) => {},
        }
    }
}

/// The log of a staging area is read back as the area: after the records
/// `old` were logged and the records `new` appended, the log holds `old`
/// followed by `new`.
pub proof fn replay_appended<K: Codec>(old: Seq<K>, new: Seq<K>)
    ensures
        parse_log::<K>(log_bytes(old) + log_bytes(new)) == Ok::<Seq<K>, CodecError>(old + new),
{
    replay_prefix(new, Seq::<u8>::empty());
    assert(log_bytes(new) + Seq::<u8>::empty() =~= log_bytes(new));
    assert(new + Seq::<K>::empty() =~= new);
    replay_prefix(old, log_bytes(new));
}

/// The log of the first `k + 1` records is the log of the first `k`
/// followed by the next record.
proof fn log_bytes_step<K: Codec>(records: Seq<K>, k: int)
    requires
        0 <= k < records.len(),
    ensures
        log_bytes(records.take(k + 1)) == log_bytes(records.take(k)) + records[k].encoding(),
    decreases k,
{
    let more = records.take(k + 1);
    let less = records.take(k);
    if k == 0 {
        assert(more.skip(1) =~= Seq::<K>::empty());
        assert(log_bytes(more.skip(1)) =~= Seq::<u8>::empty());
        assert(log_bytes(less) =~= Seq::<u8>::empty());
        assert(log_bytes(more) =~= records[0].encoding());
    } else {
        let shifted = records.skip(1);
        log_bytes_step(shifted, k - 1);
        assert(more.skip(1) =~= shifted.take(k));
        assert(less.skip(1) =~= shifted.take(k - 1));
        assert(shifted[k - 1] == records[k]);
        assert(log_bytes(more) =~= log_bytes(less) + records[k].encoding());
    }
}

/// The bytes to append to a log for `records`.
pub fn write_log<K: Codec>(records: &Vec<K>) -> (out: Vec<u8>)
    ensures
        out@ == log_bytes(records@),
{
    let mut out: Vec<u8> = Vec::new();
    let mut k: usize = 0;
    while k < records.len()
        invariant
            k <= records@.len(),
            out@ == log_bytes(records@.take(k as int)),
        decreases records@.len() - k,
    {
        let mut bytes = records[k].to_bytes();
        proof {
            log_bytes_step(records@, k as int);
        }
        out.append(&mut bytes);
        k += 1;
    }
    proof {
        assert(records@.take(k as int) =~= records@);
    }
    out
}

/// Whether `r` is the result `o`, a vector taken by what it holds.
pub open spec fn is_parsed<K>(r: Result<Vec<K>, CodecError>, o: Result<Seq<K>, CodecError>) -> bool {
    match r {
        Ok(v) => o == Ok::<Seq<K>, CodecError>(v@),
        Err(e) => o == Err::<Seq<K>, CodecError>(e),
    }
}

/// The records that the log in `buf` holds.
pub fn read_log<K: Codec>(buf: &[u8]) -> (r: Result<Vec<K>, CodecError>)
    ensures
        is_parsed(r, parse_log::<K>(buf@)),
{
    let mut records: Vec<K> = Vec::new();
    let end = buf.len();
    let mut offset: usize = 0;
    proof {
        assert(buf@.skip(0) =~= buf@);
        match parse_log::<K>(buf@) {
            Ok(more) => {
                assert(records@ + more =~= more);
            },
            Err(_) => {},
        }
    }
    while offset < end
        invariant
            end == buf@.len(),
            offset <= end,
            parse_log::<K>(buf@) == followed_by(
                records@,
                parse_log::<K>(buf@.skip(offset as int)),
            ),
        decreases end - offset,
    {
        let rest = slice_subrange(buf, offset, end);
        let ghost tail = buf@.skip(offset as int);
        let ghost before = records@;
        proof {
            assert(rest@ =~= tail);
            K::decoding_fits(tail);
        }
        let (size, record) = match K::from_bytes(rest) {
            Ok(p) => p,
            Err(e) => {
                return Err(e);
            },
        };
        records.push(record);
        offset += size;
        proof {
            assert(tail.skip(size as int) =~= buf@.skip(offset as int));
            match parse_log::<K>(buf@.skip(offset as int)) {
                Ok(more) => {
                    assert(before + (seq![record] + more) =~= records@ + more);
                },
                Err(_) => {},
            }
        }
    }
    proof {
        assert(records@ + Seq::<K>::empty() =~= records@);
    }
    Ok(records)
}

/// Whether a query under the box gives the staged insert at position `i`:
/// the box is ordered, and the insert is still there and touches it.
pub open spec fn live<P: Point, V>(
    inserts: Seq<(P, V)>,
    deletes: Set<Location>,
    bbox: P::Bounds,
    i: int,
) -> bool {
    P::ordered_spec(&bbox) && 0 <= i < inserts.len() && !deletes.contains((0u32, i as u64))
        && inserts[i].0.overlaps_spec(&bbox)
}

/// The positions from `from` on of the staged inserts that a query gives,
/// rising.
pub open spec fn hits<P: Point, V>(
    inserts: Seq<(P, V)>,
    deletes: Set<Location>,
    bbox: P::Bounds,
    from: nat,
) -> Seq<nat>
    decreases inserts.len() - from,
{
    if from >= inserts.len() {
        Seq::empty()
    } else if live(inserts, deletes, bbox, from as int) {
        seq![from] + hits(inserts, deletes, bbox, from + 1)
    } else {
        hits(inserts, deletes, bbox, from + 1)
    }
}

/// Every position that a query gives is that of an insert that touches the
/// box and was not deleted, and the positions rise strictly, so that none is
/// given twice.
pub proof fn hits_sound<P: Point, V>(
    inserts: Seq<(P, V)>,
    deletes: Set<Location>,
    bbox: P::Bounds,
    from: nat,
)
    ensures
        forall|k: int|
            0 <= k < hits(inserts, deletes, bbox, from).len() ==> from <= (#[trigger] hits(
                inserts,
                deletes,
                bbox,
                from,
            )[k]) && live(inserts, deletes, bbox, hits(inserts, deletes, bbox, from)[k] as int),
        forall|j: int, k: int|
            0 <= j < k < hits(inserts, deletes, bbox, from).len() ==> hits(
                inserts,
                deletes,
                bbox,
                from,
            )[j] < hits(inserts, deletes, bbox, from)[k],
    decreases inserts.len() - from,
{
    if from < inserts.len() {
        hits_sound(inserts, deletes, bbox, from + 1);
        let here = hits(inserts, deletes, bbox, from);
        let next = hits(inserts, deletes, bbox, from + 1);
        if live(inserts, deletes, bbox, from as int) {
            assert forall|k: int| 0 <= k < here.len() implies from <= (#[trigger] here[k]) && live(
                inserts,
                deletes,
                bbox,
                here[k] as int,
            ) by {
                if k > 0 {
                    assert(here[k] == next[k - 1]);
                }
            }
            assert forall|j: int, k: int| 0 <= j < k < here.len() implies here[j] < here[k] by {
                assert(here[k] == next[k - 1]);
                if j > 0 {
                    assert(here[j] == next[j - 1]);
                }
            }
        }
    }
}

/// Every insert that touches the box and was not deleted is among the
/// positions that a query gives.
pub proof fn hits_complete<P: Point, V>(
    inserts: Seq<(P, V)>,
    deletes: Set<Location>,
    bbox: P::Bounds,
    from: nat,
    i: nat,
)
    requires
        from <= i,
        live(inserts, deletes, bbox, i as int),
    ensures
        hits(inserts, deletes, bbox, from).contains(i),
    decreases inserts.len() - from,
{
    let here = hits(inserts, deletes, bbox, from);
    if from == i {
        assert(here[0] == i);
    } else {
        hits_complete(inserts, deletes, bbox, from + 1, i);
        let next = hits(inserts, deletes, bbox, from + 1);
        let k = choose|k: int| 0 <= k < next.len() && next[k] == i;
        if live(inserts, deletes, bbox, from as int) {
            assert(here[k + 1] == i);
        } else {
            assert(here[k] == i);
        }
    }
}

/// Where every staged insert from `from` on touches the box and none was
/// deleted, a query gives each of them, in their order.
pub proof fn hits_all<P: Point, V>(
    inserts: Seq<(P, V)>,
    deletes: Set<Location>,
    bbox: P::Bounds,
    from: nat,
)
    requires
        from <= inserts.len(),
        forall|i: int| from <= i < inserts.len() ==> live(inserts, deletes, bbox, i),
    ensures
        hits(inserts, deletes, bbox, from) == Seq::new(
            (inserts.len() - from) as nat,
            |k: int| (from + k) as nat,
        ),
    decreases inserts.len() - from,
{
    let here = hits(inserts, deletes, bbox, from);
    let all = Seq::new((inserts.len() - from) as nat, |k: int| (from + k) as nat);
    if from < inserts.len() {
        hits_all(inserts, deletes, bbox, from + 1);
        assert(here =~= all);
    } else {
        assert(here =~= all);
    }
}

/// A query under a box whose low lies above its high in some dimension
/// gives nothing.
pub proof fn hits_none_when_inverted<P: Point, V>(
    inserts: Seq<(P, V)>,
    deletes: Set<Location>,
    bbox: P::Bounds,
    from: nat,
)
    requires
        !P::ordered_spec(&bbox),
    ensures
        hits(inserts, deletes, bbox, from).len() == 0,
    decreases inserts.len() - from,
{
    if from < inserts.len() {
        hits_none_when_inverted(inserts, deletes, bbox, from + 1);
    }
}

/// A deleted location is never among the positions that a query gives.
pub proof fn hits_skip_deleted<P: Point, V>(
    inserts: Seq<(P, V)>,
    deletes: Set<Location>,
    bbox: P::Bounds,
    i: nat,
)
    requires
        deletes.contains((0u32, i as u64)),
    ensures
        !hits(inserts, deletes, bbox, 0).contains(i),
{
    hits_sound(inserts, deletes, bbox, 0);
}

/// A query over the staged inserts, given one result at a time.
pub struct StagingIterator<'a, P: Point, V: Codec> {
    pub inserts: &'a Vec<(P, V)>,
    pub deletes: &'a LocationSet,
    pub bbox: &'a P::Bounds,
    pub index: usize,
}

impl<'a, P: Point, V: Codec> StagingIterator<'a, P, V> {
    /// The positions of the results still to come.
    pub open spec fn remaining(&self) -> Seq<nat> {
        hits(self.inserts@, self.deletes@, *self.bbox, self.index as nat)
    }

    /// A query that has given no result yet.
    pub fn new(inserts: &'a Vec<(P, V)>, deletes: &'a LocationSet, bbox: &'a P::Bounds) -> (it:
        Self)
        ensures
            it.inserts == inserts,
            it.deletes == deletes,
            it.bbox == bbox,
            it.index == 0,
    {
        Self { index: 0, bbox, inserts, deletes }
    }

    /// The next result: the point, the value and the location of the first
    /// staged insert not yet passed that touches the box and was not
    /// deleted. `None` when there is none left, and always under a box whose
    /// low lies above its high.
    pub fn next(&mut self) -> (r: Option<(P, V, Location)>)
        ensures
            final(self).inserts == old(self).inserts,
            final(self).deletes == old(self).deletes,
            final(self).bbox == old(self).bbox,
            !P::ordered_spec(old(self).bbox) ==> r is None,
            match r {
                Some(item) => {
                    &&& old(self).remaining().len() > 0
                    &&& item.2 == (0u32, old(self).remaining()[0] as u64)
                    &&& (item.0, item.1) == old(self).inserts@[old(self).remaining()[0] as int]
                    &&& final(self).remaining() == old(self).remaining().skip(1)
                },
                None => old(self).remaining().len() == 0 && final(self).remaining().len() == 0,
            },
    {
        let len = self.inserts.len();
        if !P::is_ordered(self.bbox) {
            proof {
                hits_none_when_inverted(
                    self.inserts@,
                    self.deletes@,
                    *self.bbox,
                    self.index as nat,
                );
            }
            return None;
        }
        while self.index < len
            invariant
                len == self.inserts@.len(),
                P::ordered_spec(self.bbox),
                self.inserts == old(self).inserts,
                self.deletes == old(self).deletes,
                self.bbox == old(self).bbox,
                self.remaining() == old(self).remaining(),
            decreases len - self.index,
        {
            let i = self.index;
            self.index += 1;
            if !self.deletes.contains((0, i as u64)) {
                let record = &self.inserts[i];
                if record.0.overlaps(self.bbox) {
                    proof {
                        assert(old(self).remaining().skip(1) =~= self.remaining());
                    }
                    return Some((record.0.duplicate(), record.1.duplicate(), (0, i as u64)));
                }
            }
        }
        None
    }
}

/// What is left of `records` up to position `upto` once the staged inserts
/// that `deletes` names are taken out: the others, in their order.
pub open spec fn kept<R>(records: Seq<R>, deletes: Seq<Location>, upto: nat) -> Seq<R>
    decreases upto,
{
    if upto == 0 {
        Seq::empty()
    } else {
        let rest = kept(records, deletes, (upto - 1) as nat);
        if deletes.contains((0u32, (upto - 1) as u64)) {
            rest
        } else {
            rest.push(records[upto - 1])
        }
    }
}

/// A delete that names a staged insert that is not there.
#[derive(Debug, Clone, Copy, PartialEq, Eq)]
pub struct StaleLocation {
    pub location: Location,
}

/// Whether `loc` names a staged insert at or behind position `len`.
pub open spec fn is_stale(loc: Location, len: nat) -> bool {
    loc.0 == 0 && loc.1 >= len
}

/// The pending inserts and deletes.
pub struct Staging<P: Point, V: Codec> {
    pub inserts: Vec<(P, V)>,
    pub deletes: Vec<Location>,
    pub delete_set: LocationSet,
}

impl<P: Point, V: Codec> Staging<P, V> {
    /// The set of deletes holds the staged deletes and nothing else. `open`
    /// gives such a staging area and every method keeps it so.
    pub open spec fn wf(&self) -> bool {
        self.delete_set@ == members(self.deletes@)
    }

    /// The staging area that the two logs hold.
    pub fn open(insert_log: &[u8], delete_log: &[u8]) -> (r: Result<Self, CodecError>)
        ensures
            match r {
                Ok(s) => parse_log::<(P, V)>(insert_log@) == Ok::<Seq<(P, V)>, CodecError>(
                    s.inserts@,
                ) && parse_log::<Location>(delete_log@) == Ok::<Seq<Location>, CodecError>(
                    s.deletes@,
                ) && s.wf(),
                Err(e) => parse_log::<(P, V)>(insert_log@) == Err::<Seq<(P, V)>, CodecError>(e)
                    || (parse_log::<(P, V)>(insert_log@) is Ok && parse_log::<Location>(
                    delete_log@,
                ) == Err::<Seq<Location>, CodecError>(e)),
            },
    {
        let mut staging = Self {
            inserts: Vec::new(),
            deletes: Vec::new(),
            delete_set: LocationSet::new(),
        };
        proof {
            assert(members(staging.deletes@) =~= Set::<Location>::empty());
        }
        match staging.load(insert_log, delete_log) {
            Ok(()) => Ok(staging),
            Err(e) => Err(e),
        }
    }

    /// Replaces the staged inserts by what `insert_log` holds and the staged
    /// deletes by what `delete_log` holds. An empty log leaves its part as it
    /// is. On an error nothing changes.
    pub fn load(&mut self, insert_log: &[u8], delete_log: &[u8]) -> (r: Result<(), CodecError>)
        ensures
            match r {
                Ok(_) => {
                    &&& parse_log::<(P, V)>(insert_log@) is Ok
                    &&& parse_log::<Location>(delete_log@) is Ok
                    &&& final(self).inserts@ == if insert_log@.len() == 0 {
                        old(self).inserts@
                    } else {
                        parse_log::<(P, V)>(insert_log@)->Ok_0
                    }
                    &&& final(self).deletes@ == if delete_log@.len() == 0 {
                        old(self).deletes@
                    } else {
                        parse_log::<Location>(delete_log@)->Ok_0
                    }
                    &&& final(self).delete_set@ == if delete_log@.len() == 0 {
                        old(self).delete_set@
                    } else {
                        members(parse_log::<Location>(delete_log@)->Ok_0)
                    }
                    &&& old(self).wf() ==> final(self).wf()
                },
                Err(e) => {
                    &&& *final(self) == *old(self)
                    &&& parse_log::<(P, V)>(insert_log@) == Err::<Seq<(P, V)>, CodecError>(e) || (
                    parse_log::<(P, V)>(insert_log@) is Ok && parse_log::<Location>(delete_log@)
                        == Err::<Seq<Location>, CodecError>(e))
                },
            },
    {
        let inserts = match read_log::<(P, V)>(insert_log) {
            Ok(v) => v,
            Err(e) => {
                return Err(e);
            },
        };
        let deletes = match read_log::<Location>(delete_log) {
            Ok(v) => v,
            Err(e) => {
                return Err(e);
            },
        };
        if insert_log.len() > 0 {
            self.inserts = inserts;
        }
        if delete_log.len() > 0 {
            self.delete_set = LocationSet::from_vec(&deletes);
            self.deletes = deletes;
        }
        Ok(())
    }

    /// Drops the staged inserts and deletes.
    pub fn clear(&mut self)
        ensures
            final(self).inserts@.len() == 0,
            final(self).deletes@.len() == 0,
            final(self).delete_set@ == Set::<Location>::empty(),
            final(self).wf(),
    {
        self.clear_inserts();
        self.clear_deletes();
    }

    /// Drops the staged inserts.
    pub fn clear_inserts(&mut self)
        ensures
            final(self).inserts@.len() == 0,
            final(self).deletes == old(self).deletes,
            final(self).delete_set == old(self).delete_set,
    {
        self.inserts.clear();
    }

    /// Drops the staged deletes.
    pub fn clear_deletes(&mut self)
        ensures
            final(self).deletes@.len() == 0,
            final(self).delete_set@ == Set::<Location>::empty(),
            final(self).inserts == old(self).inserts,
            final(self).wf(),
    {
        self.deletes.clear();
        self.delete_set.clear();
        proof {
            assert(members(self.deletes@) =~= Set::<Location>::empty());
        }
    }

    /// Takes out the staged inserts that `deletes` names by their position.
    /// The inserts that stay keep their order and move up: they are not at
    /// the positions they were. A delete that names a staged insert that is
    /// not there is refused, the first such one is returned, and nothing
    /// changes.
    pub fn delete(&mut self, deletes: &Vec<Location>) -> (r: Result<(), StaleLocation>)
        ensures
            final(self).deletes == old(self).deletes,
            final(self).delete_set == old(self).delete_set,
            r is Err <==> exists|k: int|
                0 <= k < deletes@.len() && is_stale(#[trigger] deletes@[k], old(self).inserts@.len()),
            r is Ok ==> final(self).inserts@ == kept(
                old(self).inserts@,
                deletes@,
                old(self).inserts@.len(),
            ),
            r matches Err(e) ==> final(self).inserts == old(self).inserts && exists|k: int|
                0 <= k < deletes@.len() && #[trigger] deletes@[k] == e.location && is_stale(
                    e.location,
                    old(self).inserts@.len(),
                ) && forall|j: int| 0 <= j < k ==> !is_stale(deletes@[j], old(self).inserts@.len()),
    {
        let ghost all = self.inserts@;
        let total = self.inserts.len();
        let mut k: usize = 0;
        while k < deletes.len()
            invariant
                k <= deletes@.len(),
                total == all.len(),
                all == old(self).inserts@,
                self.inserts == old(self).inserts,
                self.deletes == old(self).deletes,
                self.delete_set == old(self).delete_set,
                forall|j: int| 0 <= j < k ==> !is_stale(#[trigger] deletes@[j], all.len()),
            decreases deletes@.len() - k,
        {
            let d = deletes[k];
            if d.0 == 0 && d.1 >= total as u64 {
                proof {
                    assert(is_stale(deletes@[k as int], all.len()));
                }
                return Err(StaleLocation { location: d });
            }
            k += 1;
        }
        let named = LocationSet::from_vec(deletes);
        let mut at: usize = 0;
        let mut position: usize = 0;
        while position < total
            invariant
                named@ == members(deletes@),
                self.deletes == old(self).deletes,
                self.delete_set == old(self).delete_set,
                all == old(self).inserts@,
                all.len() == total,
                at <= position <= all.len(),
                at == kept(all, deletes@, position as nat).len(),
                self.inserts@ == kept(all, deletes@, position as nat) + all.skip(position as int),
            decreases all.len() - position,
        {
            let ghost head = kept(all, deletes@, position as nat);
            if named.contains((0, position as u64)) {
                self.inserts.remove(at);
                proof {
                    assert(self.inserts@ =~= head + all.skip(position + 1));
                }
            } else {
                at += 1;
                proof {
                    assert(self.inserts@ =~= head.push(all[position as int]) + all.skip(
                        position + 1,
                    ));
                }
            }
            position += 1;
        }
        proof {
            assert(self.inserts@ =~= kept(all, deletes@, all.len()));
        }
        Ok(())
    }

    /// The number of staged inserts and deletes.
    pub fn len(&self) -> (n: usize)
        requires
            self.inserts@.len() + self.deletes@.len() <= usize::MAX,
        ensures
            n == self.inserts@.len() + self.deletes@.len(),
    {
        self.inserts.len() + self.deletes.len()
    }

    /// Stages `inserts` and `deletes` behind what is staged already, and
    /// gives the bytes to append to the log of inserts and to the log of
    /// deletes.
    pub fn batch(&mut self, inserts: &Vec<(P, V)>, deletes: &Vec<Location>) -> (logs: (
        Vec<u8>,
        Vec<u8>,
    ))
        ensures
            logs.0@ == log_bytes(inserts@),
            logs.1@ == log_bytes(deletes@),
            final(self).inserts@ == old(self).inserts@ + inserts@,
            final(self).deletes@ == old(self).deletes@ + deletes@,
            final(self).delete_set@ == old(self).delete_set@.union(members(deletes@)),
            old(self).wf() ==> final(self).wf(),
    {
        let insert_bytes = write_log(inserts);
        let delete_bytes = write_log(deletes);
        let mut k: usize = 0;
        while k < inserts.len()
            invariant
                k <= inserts@.len(),
                self.deletes == old(self).deletes,
                self.delete_set == old(self).delete_set,
                self.inserts@ == old(self).inserts@ + inserts@.take(k as int),
            decreases inserts@.len() - k,
        {
            self.inserts.push(inserts[k].duplicate());
            proof {
                assert(self.inserts@ =~= old(self).inserts@ + inserts@.take(k + 1));
            }
            k += 1;
        }
        let mut j: usize = 0;
        proof {
            assert(members(deletes@.take(0)) =~= Set::<Location>::empty());
            assert(self.delete_set@ =~= old(self).delete_set@.union(members(deletes@.take(0))));
        }
        while j < deletes.len()
            invariant
                j <= deletes@.len(),
                self.inserts@ == old(self).inserts@ + inserts@.take(inserts@.len() as int),
                self.deletes@ == old(self).deletes@ + deletes@.take(j as int),
                self.delete_set@ == old(self).delete_set@.union(members(deletes@.take(j as int))),
            decreases deletes@.len() - j,
        {
            self.deletes.push(deletes[j]);
            self.delete_set.insert(deletes[j]);
            proof {
                assert(self.deletes@ =~= old(self).deletes@ + deletes@.take(j + 1));
                members_push(deletes@.take(j as int), deletes@[j as int]);
                assert(deletes@.take(j as int).push(deletes@[j as int]) =~= deletes@.take(j + 1));
                assert(self.delete_set@ =~= old(self).delete_set@.union(
                    members(deletes@.take(j + 1)),
                ));
            }
            j += 1;
        }
        proof {
            assert(inserts@.take(inserts@.len() as int) =~= inserts@);
            assert(deletes@.take(deletes@.len() as int) =~= deletes@);
            members_concat(old(self).deletes@, deletes@);
        }
        (insert_bytes, delete_bytes)
    }

    /// A query over the staged inserts under `bbox`.
    pub fn query<'b>(&'b self, bbox: &'b P::Bounds) -> (it: StagingIterator<'b, P, V>)
        ensures
            it.inserts@ == self.inserts@,
            it.deletes@ == self.delete_set@,
            it.bbox == bbox,
            it.index == 0,
    {
        StagingIterator::new(&self.inserts, &self.delete_set, bbox)
    }
}

} // verus!
