//! What the walk of a block with sorted pivots is sure to reach.
//!
//! The bucket slot to the left of one of the lowest pivots holds the keys
//! between that pivot and the pivot before it; the slot to its right those
//! up to the pivot behind it. A range that meets such a stretch sends the
//! walk to the slot, past every pivot on the way.

use crate::branch::{block_hits, cursor_hits, Block, Cursor, Probe};
use crate::order::{gap, inorder, is_pow2, pivot_count, placement};
use crate::scalar::Scalar;
use vstd::prelude::*;

verus! {

/// An entry with a pointer is among the buckets where its bit is set and
/// among the cursors where it is clear.
pub open spec fn followed(
    e: (u64, bool),
    cursors: Seq<Cursor>,
    blocks: Seq<Block>,
    level: usize,
) -> bool {
    e.0 > 0 ==> if e.1 {
        blocks.contains((e.0 - 1) as u64)
    } else {
        cursors.contains(((e.0 - 1) as u64, (level + 1) as usize))
    }
}

/// Every entry is followed by what is made of the entries.
pub proof fn entries_followed(entries: Seq<(u64, bool)>, level: usize, k: int)
    requires
        0 <= k < entries.len(),
    ensures
        followed(entries[k], cursor_hits(entries, level), block_hits(entries), level),
    decreases entries.len(),
{
    let rest = entries.drop_last();
    let e = entries.last();
    let b0 = block_hits(rest);
    let c0 = cursor_hits(rest, level);
    let b1 = block_hits(entries);
    let c1 = cursor_hits(entries, level);
    if k == entries.len() - 1 {
        if e.0 > 0 && e.1 {
            assert(b1[b0.len() as int] == (e.0 - 1) as u64);
        }
        if e.0 > 0 && !e.1 {
            assert(c1[c0.len() as int] == ((e.0 - 1) as u64, (level + 1) as usize));
        }
    } else {
        entries_followed(rest, level, k);
        let x = entries[k];
        assert(rest[k] == x);
        if x.0 > 0 && x.1 {
            let j = choose|j: int| 0 <= j < b0.len() && b0[j] == (x.0 - 1) as u64;
            assert(b1[j] == b0[j]);
        }
        if x.0 > 0 && !x.1 {
            let j = choose|j: int|
                0 <= j < c0.len() && c0[j] == ((x.0 - 1) as u64, (level + 1) as usize);
            assert(c1[j] == c0[j]);
        }
    }
}

impl<T: Scalar> Probe<T> {
    /// The pivots rise from place to place.
    pub open spec fn sorted(self) -> bool {
        forall|i: int, j: int|
            0 <= i <= j < pivot_count(self.bf) ==> self.pivot(i).rank() <= self.pivot(j).rank()
    }

    /// Whether the walk turns from the parent of `c` to `c`.
    pub open spec fn turns_to(self, c: nat) -> bool {
        let parent = ((c - 1) / 2) as nat;
        if c % 2 == 1 {
            self.turns_left(parent)
        } else {
            self.turns_right(parent)
        }
    }

    /// Whether the walk, once at `r`, turns at every pivot on the way down
    /// to `c` towards `c`.
    pub open spec fn reached_from(self, r: nat, c: nat) -> bool
        decreases c,
    {
        c == r || (c > r && self.turns_to(c) && self.reached_from(r, ((c - 1) / 2) as nat))
    }

    /// A way down from `r` to another position starts with a turn to one of
    /// the children of `r` and goes on from there.
    proof fn way_down(self, r: nat, c: nat)
        requires
            self.reached_from(r, c),
            c != r,
        ensures
            (self.turns_left(r) && self.reached_from(2 * r + 1, c)) || (self.turns_right(r)
                && self.reached_from(2 * r + 2, c)),
        decreases c,
    {
        let p = ((c - 1) / 2) as nat;
        if p != r {
            self.way_down(r, p);
        }
    }

    /// The walk from `r` meets every position that it turns towards all the
    /// way down.
    pub proof fn reached_is_visited(self, r: nat, c: nat)
        requires
            c < pivot_count(self.bf),
            self.reached_from(r, c),
        ensures
            self.visit(r).contains(c),
        decreases pivot_count(self.bf) - r,
    {
        let n = pivot_count(self.bf);
        let here = self.visit(r);
        if c == r {
            assert(here[0] == c);
        } else {
            self.way_down(r, c);
            let right = if self.turns_right(r) && 2 * r + 2 < n {
                self.visit(2 * r + 2)
            } else {
                Seq::empty()
            };
            if self.turns_right(r) && self.reached_from(2 * r + 2, c) {
                self.reached_is_visited(2 * r + 2, c);
                let k = choose|k: int| 0 <= k < right.len() && right[k] == c;
                assert(here[1 + k] == c);
            } else {
                self.reached_is_visited(2 * r + 1, c);
                let left = self.visit(2 * r + 1);
                let k = choose|k: int| 0 <= k < left.len() && left[k] == c;
                assert(here[1 + right.len() + k] == c);
            }
        }
    }

    /// Whether the range meets the stretch of keys below `c`: it reaches up
    /// to the pivot before that stretch and down to the pivot behind it,
    /// where there are such pivots.
    pub open spec fn meets(self, c: nat) -> bool {
        let i = inorder(self.bf, c);
        let g = gap(self.bf, c);
        (i + g >= pivot_count(self.bf) || self.low.rank() <= self.pivot(i + g).rank()) && (i - g
            < 0 || self.pivot(i - g).rank() <= self.high.rank())
    }

    /// Among sorted pivots the walk turns all the way down towards every
    /// position whose stretch of keys the range meets.
    pub proof fn meeting_is_reached(self, c: nat)
        requires
            is_pow2(self.bf),
            self.sorted(),
            c < pivot_count(self.bf),
            self.meets(c),
        ensures
            self.reached_from(0, c),
        decreases c,
    {
        if c > 0 {
            let p = ((c - 1) / 2) as nat;
            placement(self.bf, c);
            placement(self.bf, p);
            let ip = inorder(self.bf, p);
            let gp = gap(self.bf, p);
            if ip + gp < pivot_count(self.bf) {
                assert(self.pivot(ip).rank() <= self.pivot(ip + gp).rank());
            }
            if ip - gp >= 0 {
                assert(self.pivot(ip - gp).rank() <= self.pivot(ip).rank());
            }
            self.meeting_is_reached(p);
        }
    }

    /// A slot that the positions met send the walk to has its entry among
    /// the entries of the slots.
    proof fn marked_slot_is_entered(self, seen: Seq<nat>, upto: nat, s: int)
        requires
            0 <= s < upto,
            self.marked(seen, s),
        ensures
            self.slot_entries(seen, upto).contains(self.slot_entry(s)),
        decreases upto,
    {
        let here = self.slot_entries(seen, upto);
        let rest = self.slot_entries(seen, (upto - 1) as nat);
        if s == upto - 1 {
            assert(here[rest.len() as int] == self.slot_entry(s));
        } else {
            self.marked_slot_is_entered(seen, (upto - 1) as nat, s);
            let k = choose|k: int| 0 <= k < rest.len() && rest[k] == self.slot_entry(s);
            assert(here[k] == rest[k]);
        }
    }

    /// The walk of a block follows the child of every pivot that it turns
    /// towards all the way down.
    pub proof fn reached_pivot_is_followed(self, level: usize, c: nat)
        requires
            c < pivot_count(self.bf),
            self.reached_from(0, c),
        ensures
            followed(
                self.pivot_entry(c),
                cursor_hits(self.entries(), level),
                block_hits(self.entries()),
                level,
            ),
    {
        self.reached_is_visited(0, c);
        let seen = self.visit(0);
        let k = choose|k: int| 0 <= k < seen.len() && seen[k] == c;
        assert(self.entries()[k] == self.pivot_entry(c));
        entries_followed(self.entries(), level, k);
    }

    /// The walk of a block follows the child in every slot that a position
    /// met sends it to.
    pub proof fn marked_slot_is_followed(self, level: usize, s: int)
        requires
            0 <= s < self.bf,
            self.marked(self.visit(0), s),
        ensures
            followed(
                self.slot_entry(s),
                cursor_hits(self.entries(), level),
                block_hits(self.entries()),
                level,
            ),
    {
        let seen = self.visit(0);
        self.marked_slot_is_entered(seen, self.bf, s);
        let slots = self.slot_entries(seen, self.bf);
        let k = choose|k: int| 0 <= k < slots.len() && slots[k] == self.slot_entry(s);
        let at = self.pivot_entries(seen).len() + k;
        assert(self.entries()[at] == self.slot_entry(s));
        entries_followed(self.entries(), level, at);
    }

    /// Among sorted pivots no child that can hold a key of the range is
    /// passed by. Let `c` be one of the lowest pivots, at place `i`. Where
    /// the range reaches from the pivot before it to `c` itself, the walk
    /// follows the slot to the left of `c` and the child of every pivot on
    /// the way to it; where it reaches from `c` to the pivot behind it, the
    /// walk is sent to the slot to the right of `c`, and follows it if the
    /// block has that slot.
    pub proof fn walk_reaches_slots(self, level: usize, c: nat)
        requires
            is_pow2(self.bf),
            self.sorted(),
            c < pivot_count(self.bf),
            2 * c + 1 >= pivot_count(self.bf),
        ensures
            self.turns_left(c) && self.meets(c) ==> self.reached_from(0, c) && self.marked(
                self.visit(0),
                inorder(self.bf, c) / 2,
            ) && followed(
                self.slot_entry(inorder(self.bf, c) / 2),
                cursor_hits(self.entries(), level),
                block_hits(self.entries()),
                level,
            ),
            self.turns_right(c) && self.meets(c) ==> self.reached_from(0, c) && self.marked(
                self.visit(0),
                inorder(self.bf, c) / 2 + 1,
            ) && (inorder(self.bf, c) / 2 + 1 < self.bf ==> followed(
                self.slot_entry(inorder(self.bf, c) / 2 + 1),
                cursor_hits(self.entries(), level),
                block_hits(self.entries()),
                level,
            )),
    {
        placement(self.bf, c);
        let i = inorder(self.bf, c);
        if self.meets(c) {
            self.meeting_is_reached(c);
            self.reached_is_visited(0, c);
            let seen = self.visit(0);
            let k = choose|k: int| 0 <= k < seen.len() && seen[k] == c;
            if self.turns_left(c) {
                assert(self.wants(seen[k], i / 2));
                self.marked_slot_is_followed(level, i / 2);
            }
            if self.turns_right(c) {
                assert(self.wants(seen[k], i / 2 + 1));
                if i / 2 + 1 < self.bf {
                    self.marked_slot_is_followed(level, i / 2 + 1);
                }
            }
        }
    }
}

impl<T: Scalar> Probe<T> {
    /// A way down from a child of `r` is, after the turn to that child, a
    /// way down from `r`.
    proof fn way_from_above(self, r: nat, child: nat, c: nat)
        requires
            child == 2 * r + 1 || child == 2 * r + 2,
            self.turns_to(child),
            self.reached_from(child, c),
        ensures
            self.reached_from(r, c),
        decreases c,
    {
        if c != child {
            self.way_from_above(r, child, ((c - 1) / 2) as nat);
        } else {
            assert(((c - 1) / 2) as nat == r);
            assert(self.reached_from(r, r));
        }
    }

    /// The walk from `r` meets only positions of the block that it turns
    /// towards all the way down.
    pub proof fn visited_is_reached(self, r: nat, k: int)
        requires
            0 <= k < self.visit(r).len(),
        ensures
            self.visit(r)[k] < pivot_count(self.bf),
            self.reached_from(r, self.visit(r)[k]),
        decreases pivot_count(self.bf) - r,
    {
        let n = pivot_count(self.bf);
        let right = if self.turns_right(r) && 2 * r + 2 < n {
            self.visit(2 * r + 2)
        } else {
            Seq::empty()
        };
        if k == 0 {
        } else if k < 1 + right.len() {
            self.visited_is_reached(2 * r + 2, k - 1);
            self.way_from_above(r, 2 * r + 2, right[k - 1]);
        } else {
            let left = self.visit(2 * r + 1);
            let j = k - 1 - right.len();
            self.visited_is_reached(2 * r + 1, j);
            self.way_from_above(r, 2 * r + 1, left[j]);
        }
    }

    /// Whether `wide` holds the same block against a range that reaches at
    /// least as far down and as far up.
    pub open spec fn within(self, wide: Self) -> bool {
        wide.buf == self.buf && wide.bf == self.bf && wide.low.rank() <= self.low.rank()
            && self.high.rank() <= wide.high.rank()
    }

    /// A way down under a range is a way down under a wider one.
    proof fn way_under_wider(self, wide: Self, r: nat, c: nat)
        requires
            self.within(wide),
            self.reached_from(r, c),
        ensures
            wide.reached_from(r, c),
        decreases c,
    {
        if c != r {
            self.way_under_wider(wide, r, ((c - 1) / 2) as nat);
        }
    }

    /// Every entry of the slots is the entry of a slot that the positions
    /// met send the walk to.
    proof fn entered_slot_is_marked(self, seen: Seq<nat>, upto: nat, k: int) -> (s: int)
        requires
            0 <= k < self.slot_entries(seen, upto).len(),
        ensures
            0 <= s < upto,
            self.marked(seen, s),
            self.slot_entries(seen, upto)[k] == self.slot_entry(s),
        decreases upto,
    {
        let rest = self.slot_entries(seen, (upto - 1) as nat);
        if k < rest.len() {
            self.entered_slot_is_marked(seen, (upto - 1) as nat, k)
        } else {
            upto - 1
        }
    }

    /// Widening the range loses nothing: the walk under the wider range
    /// meets every position that the walk under the narrower one meets, is
    /// sent to every slot that it is sent to, and follows every child that
    /// it follows.
    pub proof fn wider_range_keeps_children(self, wide: Self, level: usize)
        requires
            self.within(wide),
        ensures
            forall|k: int|
                0 <= k < self.visit(0).len() ==> wide.visit(0).contains(
                    #[trigger] self.visit(0)[k],
                ),
            forall|s: int|
                self.marked(self.visit(0), s) ==> #[trigger] wide.marked(wide.visit(0), s),
            forall|k: int|
                0 <= k < self.entries().len() ==> followed(
                    #[trigger] self.entries()[k],
                    cursor_hits(wide.entries(), level),
                    block_hits(wide.entries()),
                    level,
                ),
    {
        let seen = self.visit(0);
        let more = wide.visit(0);
        assert forall|k: int| 0 <= k < seen.len() implies more.contains(#[trigger] seen[k]) by {
            self.visited_is_reached(0, k);
            self.way_under_wider(wide, 0, seen[k]);
            wide.reached_is_visited(0, seen[k]);
        }
        assert forall|s: int| self.marked(seen, s) implies #[trigger] wide.marked(more, s) by {
            let k = choose|k: int| 0 <= k < seen.len() && self.wants(#[trigger] seen[k], s);
            assert(more.contains(seen[k]));
            let j = choose|j: int| 0 <= j < more.len() && more[j] == seen[k];
            assert(wide.wants(more[j], s));
        }
        assert forall|k: int| 0 <= k < self.entries().len() implies followed(
            #[trigger] self.entries()[k],
            cursor_hits(wide.entries(), level),
            block_hits(wide.entries()),
            level,
        ) by {
            if k < seen.len() {
                self.visited_is_reached(0, k);
                self.way_under_wider(wide, 0, seen[k]);
                wide.reached_pivot_is_followed(level, seen[k]);
                assert(self.entries()[k] == wide.pivot_entry(seen[k]));
            } else {
                let s = self.entered_slot_is_marked(seen, self.bf, k - seen.len());
                assert(wide.marked(more, s));
                wide.marked_slot_is_followed(level, s);
                assert(self.entries()[k] == wide.slot_entry(s));
            }
        }
    }
}

} // verus!
