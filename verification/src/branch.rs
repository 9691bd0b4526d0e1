//! One block of a tree, and its traversal under a bounding box.
//!
//! A block with branch factor `bf` and `n = 2 * bf - 1` pivots is laid out as
//! the `n` pivots in sorted order, a bit field of `n + bf` bits (bit `i` set:
//! child `i` is a bucket of records), `n` pointers to the records that
//! straddle a pivot, and `bf` pointers to what hangs below the lowest
//! pivots. A pointer is a big-endian `u64` that holds the offset plus one,
//! and zero for nothing.

use crate::mix::{flag, Bounds2, Mix2};
use crate::order::{inorder, is_pow2, is_power_of_two, order, pivot_count, placement};
use crate::scalar::{be_value, CodecError, Scalar};
use vstd::prelude::*;
use vstd::slice::slice_subrange;

verus! {

/// A block still to be walked: its offset and its tree level.
pub type Cursor = (u64, usize);

/// The offset of a bucket of records.
pub type Block = u64;

/// The offset of the bit field in a block whose pivots take `w` bytes each.
pub open spec fn bits_start(bf: nat, w: nat) -> nat {
    pivot_count(bf) * w
}

/// The offset of the pointers that belong to the pivots.
pub open spec fn intersections_start(bf: nat, w: nat) -> nat {
    bits_start(bf, w) + (pivot_count(bf) + bf + 7) / 8
}

/// The offset of the pointers of the bucket slots.
pub open spec fn buckets_start(bf: nat, w: nat) -> nat {
    intersections_start(bf, w) + 8 * pivot_count(bf)
}

/// The number of bytes of a block.
pub open spec fn block_len(bf: nat, w: nat) -> nat {
    buckets_start(bf, w) + 8 * bf
}

/// The pointer stored at `at`.
pub open spec fn pointer(buf: Seq<u8>, at: int) -> u64 {
    be_value(buf.subrange(at, at + 8)) as u64
}

/// The blocks among the children `entries`, each a stored pointer and its
/// bit of the bit field: an entry with a pointer and a set bit gives the
/// offset of a bucket.
pub open spec fn block_hits(entries: Seq<(u64, bool)>) -> Seq<Block>
    decreases entries.len(),
{
    if entries.len() == 0 {
        Seq::empty()
    } else {
        let rest = block_hits(entries.drop_last());
        let e = entries.last();
        if e.0 > 0 && e.1 {
            rest.push((e.0 - 1) as u64)
        } else {
            rest
        }
    }
}

/// The cursors among the children `entries`: an entry with a pointer and a
/// clear bit gives a block of the next level.
pub open spec fn cursor_hits(entries: Seq<(u64, bool)>, level: usize) -> Seq<Cursor>
    decreases entries.len(),
{
    if entries.len() == 0 {
        Seq::empty()
    } else {
        let rest = cursor_hits(entries.drop_last(), level);
        let e = entries.last();
        if e.0 > 0 && !e.1 {
            rest.push(((e.0 - 1) as u64, (level + 1) as usize))
        } else {
            rest
        }
    }
}

proof fn hits_push(entries: Seq<(u64, bool)>, e: (u64, bool), level: usize)
    ensures
        block_hits(entries.push(e)) == if e.0 > 0 && e.1 {
            block_hits(entries).push((e.0 - 1) as u64)
        } else {
            block_hits(entries)
        },
        cursor_hits(entries.push(e), level) == if e.0 > 0 && !e.1 {
            cursor_hits(entries, level).push(((e.0 - 1) as u64, (level + 1) as usize))
        } else {
            cursor_hits(entries, level)
        },
{
    assert(entries.push(e).drop_last() =~= entries);
}

/// A block held against a range of its own dimension.
pub struct Probe<T> {
    pub buf: Seq<u8>,
    pub bf: nat,
    pub low: T,
    pub high: T,
}

impl<T: Scalar> Probe<T> {
    /// The pivot at place `i` of the sorted pivots.
    pub open spec fn pivot(self, i: int) -> T {
        T::decoding(self.buf.subrange(i * T::width(), i * T::width() + T::width()))
    }

    /// Bit `j` of the bit field.
    pub open spec fn data_bit(self, j: int) -> bool {
        flag(self.buf[bits_start(self.bf, T::width()) + j / 8], (j % 8) as u8)
    }

    /// Whether the range reaches to the left of the pivot at heap position
    /// `c`.
    pub open spec fn turns_left(self, c: nat) -> bool {
        self.low.rank() <= self.pivot(inorder(self.bf, c)).rank()
    }

    /// Whether the range reaches to the right of the pivot at heap position
    /// `c`.
    pub open spec fn turns_right(self, c: nat) -> bool {
        self.pivot(inorder(self.bf, c)).rank() <= self.high.rank()
    }

    /// The heap positions that the walk meets from `c` on, in the order in
    /// which it meets them: `c`, then what lies to the right, then what lies
    /// to the left.
    pub open spec fn visit(self, c: nat) -> Seq<nat>
        decreases pivot_count(self.bf) - c,
    {
        let n = pivot_count(self.bf);
        if c >= n {
            Seq::empty()
        } else {
            seq![c] + (if self.turns_right(c) && 2 * c + 2 < n {
                self.visit(2 * c + 2)
            } else {
                Seq::empty()
            }) + (if self.turns_left(c) && 2 * c + 1 < n {
                self.visit(2 * c + 1)
            } else {
                Seq::empty()
            })
        }
    }

    /// What a stack of heap positions still has the walk meet, the top of
    /// the stack first.
    pub open spec fn pending(self, stack: Seq<usize>) -> Seq<nat>
        decreases stack.len(),
    {
        if stack.len() == 0 {
            Seq::empty()
        } else {
            self.visit(stack.last() as nat) + self.pending(stack.drop_last())
        }
    }

    /// Whether the pivot at heap position `c`, one of the lowest, sends the
    /// walk to bucket slot `s`: to the slot of half its place on the left,
    /// to the next one on the right.
    pub open spec fn wants(self, c: nat, s: int) -> bool {
        let n = pivot_count(self.bf);
        let i = inorder(self.bf, c);
        (self.turns_left(c) && 2 * c + 1 >= n && i / 2 == s) || (self.turns_right(c) && 2 * c + 2
            >= n && i / 2 + 1 == s)
    }

    /// Whether one of the positions `seen` sends the walk to slot `s`.
    pub open spec fn marked(self, seen: Seq<nat>, s: int) -> bool {
        exists|k: int| 0 <= k < seen.len() && self.wants(#[trigger] seen[k], s)
    }

    /// The pointer and the bit that belong to the pivot at heap position `c`.
    pub open spec fn pivot_entry(self, c: nat) -> (u64, bool) {
        let i = inorder(self.bf, c);
        (
            pointer(self.buf, intersections_start(self.bf, T::width()) + 8 * i),
            self.data_bit(i),
        )
    }

    /// The pointer and the bit of bucket slot `s`.
    pub open spec fn slot_entry(self, s: int) -> (u64, bool) {
        (
            pointer(self.buf, buckets_start(self.bf, T::width()) + 8 * s),
            self.data_bit(pivot_count(self.bf) + s),
        )
    }

    /// The entries of the pivots at the positions `seen`, in that order.
    pub open spec fn pivot_entries(self, seen: Seq<nat>) -> Seq<(u64, bool)> {
        Seq::new(seen.len(), |k: int| self.pivot_entry(seen[k]))
    }

    /// The entries of the slots below `upto` that `seen` sends the walk to,
    /// by rising slot.
    pub open spec fn slot_entries(self, seen: Seq<nat>, upto: nat) -> Seq<(u64, bool)>
        decreases upto,
    {
        if upto == 0 {
            Seq::empty()
        } else {
            let rest = self.slot_entries(seen, (upto - 1) as nat);
            if self.marked(seen, upto - 1) {
                rest.push(self.slot_entry(upto - 1))
            } else {
                rest
            }
        }
    }

    /// All the children that the walk of the block follows: those of the
    /// pivots it meets, then those of the slots it is sent to.
    pub open spec fn entries(self) -> Seq<(u64, bool)> {
        self.pivot_entries(self.visit(0)) + self.slot_entries(self.visit(0), self.bf)
    }

    /// What the walk of the block gives: the cursors and the buckets to
    /// follow, or why there are none. The branch factor must be a power of
    /// two, the buffer must hold the whole block, and the walk must stay
    /// within the `bf` slots: the last pivot has no slot to its right.
    pub open spec fn outcome(self, level: usize) -> Result<(Seq<Cursor>, Seq<Block>), CodecError> {
        if !is_pow2(self.bf) {
            Err(CodecError::InvalidBranchFactor)
        } else if self.buf.len() < block_len(self.bf, T::width()) {
            Err(CodecError::SourceTooShort)
        } else if self.marked(self.visit(0), self.bf as int) {
            Err(CodecError::SlotOutOfRange)
        } else {
            Ok((cursor_hits(self.entries(), level), block_hits(self.entries())))
        }
    }

    proof fn pending_push(self, stack: Seq<usize>, c: usize)
        ensures
            self.pending(stack.push(c)) == self.visit(c as nat) + self.pending(stack),
    {
        assert(stack.push(c).drop_last() =~= stack);
    }

    proof fn marked_push(self, seen: Seq<nat>, c: nat, s: int)
        ensures
            self.marked(seen.push(c), s) == (self.marked(seen, s) || self.wants(c, s)),
    {
        let more = seen.push(c);
        if self.marked(seen, s) {
            let k = choose|k: int| 0 <= k < seen.len() && self.wants(#[trigger] seen[k], s);
            assert(more[k] == seen[k]);
        }
        if self.wants(c, s) {
            assert(more[seen.len() as int] == c);
        }
        if self.marked(more, s) {
            let k = choose|k: int| 0 <= k < more.len() && self.wants(#[trigger] more[k], s);
            if k < seen.len() {
                assert(more[k] == seen[k]);
            }
        }
    }
}

impl<T: Scalar> Probe<T> {
    /// The stack after one step of the walk: the top is taken off, and the
    /// children that the walk turns to are put on, the left one first.
    pub open spec fn next_stack(self, stack: Seq<usize>) -> Seq<usize> {
        let n = pivot_count(self.bf);
        let c = stack.last() as nat;
        let rest = stack.drop_last();
        let with_left = if self.turns_left(c) && 2 * c + 1 < n {
            rest.push((2 * c + 1) as usize)
        } else {
            rest
        };
        if self.turns_right(c) && 2 * c + 2 < n {
            with_left.push((2 * c + 2) as usize)
        } else {
            with_left
        }
    }

    /// The marks after the walk met the pivot at heap position `c`.
    pub open spec fn mark_node(self, marks: Seq<bool>, c: nat) -> Seq<bool> {
        Seq::new(marks.len(), |s: int| marks[s] || self.wants(c, s))
    }

    /// One step of the walk moves the top of the stack to what was met and
    /// leaves the whole walk as it is.
    proof fn pending_step(self, done: Seq<nat>, stack: Seq<usize>)
        requires
            stack.len() > 0,
            stack.last() < pivot_count(self.bf),
            2 * pivot_count(self.bf) <= usize::MAX,
        ensures
            done.push(stack.last() as nat) + self.pending(self.next_stack(stack)) == done
                + self.pending(stack),
            (done + self.pending(stack))[done.len() as int] == stack.last() as nat,
    {
        let n = pivot_count(self.bf);
        let c = stack.last();
        let rest = stack.drop_last();
        let with_left = if self.turns_left(c as nat) && 2 * c + 1 < n {
            rest.push((2 * c + 1) as usize)
        } else {
            rest
        };
        if self.turns_left(c as nat) && 2 * c + 1 < n {
            self.pending_push(rest, (2 * c + 1) as usize);
        }
        if self.turns_right(c as nat) && 2 * c + 2 < n {
            self.pending_push(with_left, (2 * c + 2) as usize);
        }
        assert(done.push(c as nat) + self.pending(self.next_stack(stack)) =~= done + self.pending(
            stack,
        ));
    }

    /// Marks that say which slots the positions met so far send the walk to
    /// say so again once the next position is marked.
    proof fn marks_step(self, done: Seq<nat>, marks: Seq<bool>, c: nat)
        requires
            marks.len() == self.bf,
            forall|s: int| 0 <= s < self.bf ==> (#[trigger] marks[s]) == self.marked(done, s),
            !self.marked(done, self.bf as int),
            !self.wants(c, self.bf as int),
        ensures
            forall|s: int|
                0 <= s < self.bf ==> (#[trigger] self.mark_node(marks, c)[s]) == self.marked(
                    done.push(c),
                    s,
                ),
            !self.marked(done.push(c), self.bf as int),
    {
        assert forall|s: int| 0 <= s < self.bf implies (#[trigger] self.mark_node(marks, c)[s])
            == self.marked(done.push(c), s) by {
            self.marked_push(done, c, s);
            assert(marks[s] == self.marked(done, s));
        }
        self.marked_push(done, c, self.bf as int);
    }
}

/// The range of dimension `T` held against the block in `buf`.
pub open spec fn probe<T: Scalar>(buf: Seq<u8>, bf: nat, low: T, high: T) -> Probe<T> {
    Probe { buf, bf, low, high }
}

/// Whether `r` is the result `o`, vectors taken by what they hold.
pub open spec fn is_outcome(
    r: Result<(Vec<Cursor>, Vec<Block>), CodecError>,
    o: Result<(Seq<Cursor>, Seq<Block>), CodecError>,
) -> bool {
    match r {
        Ok(p) => o == Ok::<(Seq<Cursor>, Seq<Block>), CodecError>((p.0@, p.1@)),
        Err(e) => o == Err::<(Seq<Cursor>, Seq<Block>), CodecError>(e),
    }
}

/// Bit `k` of a byte.
fn bit_of(byte: u8, k: u8) -> (b: bool)
    requires
        k < 8,
    ensures
        b == flag(byte, k),
{
    (byte >> k) & 1 == 1
}

/// The pointer stored at `at`.
fn read_pointer(buf: &[u8], at: usize) -> (p: u64)
    requires
        at + 8 <= buf@.len() <= usize::MAX,
    ensures
        p == pointer(buf@, at as int),
{
    let part = slice_subrange(buf, at, at + 8);
    proof {
        assert(part@.subrange(0, 8) =~= buf@.subrange(at as int, at + 8));
    }
    match <u64 as Scalar>::from_bytes(part) {
        Ok(p) => p.1,
        Err(_) => 0,
    }
}

/// The pivots of the block in `buf`, in sorted order.
fn read_pivots<T: Scalar>(buf: &[u8], n: usize, w: usize) -> (pivots: Vec<T>)
    requires
        w == T::width(),
        n * w <= buf@.len(),
    ensures
        pivots@.len() == n,
        forall|i: int|
            0 <= i < n ==> (#[trigger] pivots@[i]) == T::decoding(
                buf@.subrange(i * T::width(), i * T::width() + T::width()),
            ),
{
    let mut pivots: Vec<T> = Vec::new();
    let mut offset: usize = 0;
    let mut i: usize = 0;
    let end = buf.len();
    while i < n
        invariant
            w == T::width(),
            n * w <= buf@.len(),
            end == buf@.len(),
            i <= n,
            offset == i * w,
            pivots@.len() == i,
            forall|j: int|
                0 <= j < i ==> (#[trigger] pivots@[j]) == T::decoding(
                    buf@.subrange(j * T::width(), j * T::width() + T::width()),
                ),
        decreases n - i,
    {
        proof {
            assert(i * w + w <= n * w && (i + 1) * w == i * w + w) by (nonlinear_arith)
                requires
                    i < n,
            ;
        }
        let rest = slice_subrange(buf, offset, end);
        proof {
            assert(rest@.subrange(0, w as int) =~= buf@.subrange(i * w, i * w + w));
        }
        match T::from_bytes(rest) {
            Ok(p) => {
                pivots.push(p.1);
                offset += p.0;
            },
            Err(_) => {},
        }
        i += 1;
    }
    pivots
}

/// Walks the block in `buf` under the range from `low` to `high` of the
/// block's dimension.
#[verifier::spinoff_prover]
#[verifier::rlimit(30)]
fn walk<T: Scalar>(buf: &[u8], low: &T, high: &T, bf: usize, level: usize) -> (r: Result<
    (Vec<Cursor>, Vec<Block>),
    CodecError,
>)
    requires
        level < usize::MAX,
    ensures
        is_outcome(r, probe(buf@, bf as nat, *low, *high).outcome(level)),
{
    let ghost pr = probe(buf@, bf as nat, *low, *high);
    if !is_power_of_two(bf) {
        return Err(CodecError::InvalidBranchFactor);
    }
    proof {
        T::width_bounds();
    }
    if bf > buf.len() / 8 {
        return Err(CodecError::SourceTooShort);
    }
    let w = match T::count_from_bytes(buf) {
        Ok(w) => w,
        Err(e) => {
            return Err(e);
        },
    };
    let n: usize = 2 * bf - 1;
    let bits: usize = (n + bf + 7) / 8;
    proof {
        assert(n * w <= n * 16) by (nonlinear_arith)
            requires
                w <= 16,
        ;
    }
    let pointers: u128 = 8 * (n as u128) + 8 * (bf as u128);
    let total: u128 = (n as u128) * (w as u128) + (bits as u128) + pointers;
    if total > buf.len() as u128 {
        return Err(CodecError::SourceTooShort);
    }
    let d_start: usize = n * w;
    let i_start: usize = d_start + bits;
    let b_start: usize = i_start + n * 8;
    let pivots: Vec<T> = read_pivots::<T>(buf, n, w);
    let mut cursors: Vec<Cursor> = Vec::new();
    let mut blocks: Vec<Block> = Vec::new();
    let mut bcursors: Vec<usize> = Vec::new();
    bcursors.push(0);
    let mut bitfield: Vec<bool> = vec![false; bf];
    let ghost mut done: Seq<nat> = Seq::empty();
    let ghost mut entries: Seq<(u64, bool)> = Seq::empty();
    proof {
        assert(bcursors@ =~= Seq::<usize>::empty().push(0usize));
        pr.pending_push(Seq::<usize>::empty(), 0usize);
        assert(pr.pending(Seq::<usize>::empty()) =~= Seq::<nat>::empty());
        assert(pr.pending(bcursors@) =~= pr.visit(0));
        assert(done + pr.pending(bcursors@) =~= pr.visit(0));
        assert(entries =~= pr.pivot_entries(done));
    }
    while bcursors.len() > 0
        invariant
            pr == probe(buf@, bf as nat, *low, *high),
            is_pow2(bf as nat),
            w == T::width(),
            1 <= w <= 16,
            n == pivot_count(bf as nat),
            d_start == bits_start(bf as nat, w as nat),
            i_start == intersections_start(bf as nat, w as nat),
            b_start == buckets_start(bf as nat, w as nat),
            block_len(bf as nat, w as nat) <= buf@.len() <= usize::MAX,
            level < usize::MAX,
            pivots@.len() == n,
            forall|i: int| 0 <= i < n ==> (#[trigger] pivots@[i]) == pr.pivot(i),
            forall|k: int| 0 <= k < bcursors@.len() ==> (#[trigger] bcursors@[k]) < n,
            done + pr.pending(bcursors@) == pr.visit(0),
            entries == pr.pivot_entries(done),
            cursors@ == cursor_hits(entries, level),
            blocks@ == block_hits(entries),
            bitfield@.len() == bf,
            forall|s: int| 0 <= s < bf ==> (#[trigger] bitfield@[s]) == pr.marked(done, s),
            !pr.marked(done, bf as int),
        decreases pr.visit(0).len() - done.len(),
    {
        let ghost stack0 = bcursors@;
        let ghost done0 = done;
        let ghost marks0 = bitfield@;
        let c = bcursors.pop().unwrap();
        proof {
            placement(bf as nat, c as nat);
            pr.pending_step(done0, stack0);
        }
        let i = order(bf, c);
        let pivot = &pivots[i];
        let left = low.le(pivot);
        let right = pivot.le(high);
        let is_data = bit_of(buf[d_start + i / 8], (i % 8) as u8);
        let ptr = read_pointer(buf, i_start + i * 8);
        proof {
            let e = pr.pivot_entry(c as nat);
            assert(e == (ptr, is_data));
            hits_push(entries, e, level);
            entries = entries.push(e);
            done = done.push(c as nat);
            assert(entries =~= pr.pivot_entries(done));
        }
        if is_data && ptr > 0 {
            blocks.push(ptr - 1);
        } else if ptr > 0 {
            cursors.push((ptr - 1, level + 1));
        }
        if left && c * 2 + 1 < n {
            bcursors.push(c * 2 + 1);
        } else if left {
            bitfield[i / 2] = true;
        }
        if right && c * 2 + 2 < n {
            bcursors.push(c * 2 + 2);
        } else if right {
            if i / 2 + 1 >= bf {
                proof {
                    assert(pr.wants(c as nat, bf as int));
                }
                return Err(CodecError::SlotOutOfRange);
            }
            bitfield[i / 2 + 1] = true;
        }
        proof {
            assert(bcursors@ =~= pr.next_stack(stack0));
            assert(bitfield@ =~= pr.mark_node(marks0, c as nat));
            pr.marks_step(done0, marks0, c as nat);
        }
    }
    proof {
        assert(pr.pending(bcursors@) =~= Seq::<nat>::empty());
        assert(done =~= pr.visit(0));
        assert(entries =~= pr.pivot_entries(done) + pr.slot_entries(done, 0));
    }
    let mut s: usize = 0;
    while s < bf
        invariant
            pr == probe(buf@, bf as nat, *low, *high),
            w == T::width(),
            1 <= w <= 16,
            n == pivot_count(bf as nat),
            bf >= 1,
            d_start == bits_start(bf as nat, w as nat),
            i_start == intersections_start(bf as nat, w as nat),
            b_start == buckets_start(bf as nat, w as nat),
            block_len(bf as nat, w as nat) <= buf@.len() <= usize::MAX,
            level < usize::MAX,
            done == pr.visit(0),
            s <= bf,
            entries == pr.pivot_entries(done) + pr.slot_entries(done, s as nat),
            cursors@ == cursor_hits(entries, level),
            blocks@ == block_hits(entries),
            bitfield@.len() == bf,
            forall|t: int| 0 <= t < bf ==> (#[trigger] bitfield@[t]) == pr.marked(done, t),
        decreases bf - s,
    {
        if bitfield[s] {
            let j = s + n;
            let is_data = bit_of(buf[d_start + j / 8], (j % 8) as u8);
            let ptr = read_pointer(buf, b_start + s * 8);
            let ghost e = pr.slot_entry(s as int);
            proof {
                assert(e == (ptr, is_data));
                hits_push(entries, e, level);
                assert(entries.push(e) =~= pr.pivot_entries(done) + pr.slot_entries(
                    done,
                    (s + 1) as nat,
                ));
                entries = entries.push(e);
            }
            if ptr > 0 && is_data {
                blocks.push(ptr - 1);
            } else if ptr > 0 {
                cursors.push((ptr - 1, level + 1));
            }
        }
        s += 1;
    }
    Ok((cursors, blocks))
}

impl<A: Scalar, B: Scalar> Mix2<A, B> {
    /// What the walk of a block gives at a tree level: at even levels the
    /// block is held against the box's range in the first dimension, at odd
    /// levels against its range in the second.
    pub open spec fn branch(buf: Seq<u8>, bbox: Bounds2<A, B>, bf: nat, level: usize) -> Result<
        (Seq<Cursor>, Seq<Block>),
        CodecError,
    > {
        if level % 2 == 0 {
            probe(buf, bf, bbox.0.0, bbox.1.0).outcome(level)
        } else {
            probe(buf, bf, bbox.0.1, bbox.1.1).outcome(level)
        }
    }

    /// Decodes the tree block in `buf` and walks its pivots under `bbox`:
    /// gives the blocks of the next level to walk and the buckets of records
    /// to read.
    pub fn query_branch(buf: &[u8], bbox: &Bounds2<A, B>, bf: usize, level: usize) -> (r: Result<
        (Vec<Cursor>, Vec<Block>),
        CodecError,
    >)
        requires
            level < usize::MAX,
        ensures
            is_outcome(r, Self::branch(buf@, *bbox, bf as nat, level)),
    {
        if level % Self::dim() == 0 {
            walk::<A>(buf, &(bbox.0).0, &(bbox.1).0, bf, level)
        } else {
            walk::<B>(buf, &(bbox.0).1, &(bbox.1).1, bf, level)
        }
    }
}

} // verus!
