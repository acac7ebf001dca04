//! The order in which overlapping boxes have to be drawn.

use crate::geometry::{Bounds, Rect, ScaledPixels};
use crate::scene::ids::DrawOrder;
use vstd::prelude::*;

verus! {

/// The greatest order among the boxes that `bounds` intersects, or zero.
pub open spec fn highest_below(entries: Seq<(Rect, nat)>, bounds: Rect) -> nat
    decreases entries.len(),
{
    if entries.len() == 0 {
        0
    } else {
        let below = highest_below(entries.drop_last(), bounds);
        let (last, order) = entries.last();
        if last.intersects(bounds) && order > below {
            order
        } else {
            below
        }
    }
}

/// The order a box is given: one more than the greatest order among the boxes
/// it intersects.
pub open spec fn order_above(entries: Seq<(Rect, nat)>, bounds: Rect) -> nat {
    highest_below(entries, bounds) + 1
}

/// Whether no order is greater than the number of boxes.
pub open spec fn orders_are_bounded(entries: Seq<(Rect, nat)>) -> bool {
    forall|i: int| 0 <= i < entries.len() ==> 1 <= (#[trigger] entries[i]).1 <= entries.len()
}

/// The boxes painted so far, each with the order it was given.
#[derive(Debug)]
pub struct BoundsTree {
    entries: Vec<(Bounds<ScaledPixels>, DrawOrder)>,
}

pub open spec fn entry_view(entry: (Bounds<ScaledPixels>, DrawOrder)) -> (Rect, nat) {
    (entry.0@, entry.1 as nat)
}

impl View for BoundsTree {
    type V = Seq<(Rect, nat)>;

    closed spec fn view(&self) -> Seq<(Rect, nat)> {
        self.entries@.map_values(|e: (Bounds<ScaledPixels>, DrawOrder)| entry_view(e))
    }
}

impl Default for BoundsTree {
    fn default() -> (r: Self)
        ensures
            r@ == Seq::<(Rect, nat)>::empty(),
    {
        let r = BoundsTree { entries: Vec::new() };
        assert(r@ =~= Seq::<(Rect, nat)>::empty());
        r
    }
}

impl BoundsTree {
    /// Forget every box.
    pub fn clear(&mut self)
        ensures
            final(self)@ == Seq::<(Rect, nat)>::empty(),
    {
        self.entries.clear();
        assert(self@ =~= Seq::<(Rect, nat)>::empty());
    }

    /// Add a box, and return the order it is given: one more than the greatest
    /// order among the boxes it intersects.
    pub fn insert(&mut self, bounds: Bounds<ScaledPixels>) -> (order: DrawOrder)
        requires
            orders_are_bounded(old(self)@),
            old(self)@.len() < u32::MAX,
        ensures
            order == order_above(old(self)@, bounds@),
            final(self)@ == old(self)@.push((bounds@, order as nat)),
            orders_are_bounded(final(self)@),
    {
        let mut highest: DrawOrder = 0;
        let mut index: usize = 0;
        while index < self.entries.len()
            invariant
                index <= self.entries@.len(),
                highest == highest_below(self@.take(index as int), bounds@),
                self@.len() == self.entries@.len(),
            decreases self.entries@.len() - index,
        {
            let entry = self.entries[index];
            proof {
                assert(self@.take(index + 1).drop_last() =~= self@.take(index as int));
                assert(self@.take(index + 1).last() == entry_view(entry));
            }
            if entry.0.intersects(&bounds) && entry.1 > highest {
                highest = entry.1;
            }
            index += 1;
        }
        proof {
            assert(self@.take(index as int) =~= self@);
            lemma_highest_is_bounded(self@, bounds@, self@.len());
        }
        let order: DrawOrder = highest + 1;
        let ghost before = self@;
        self.entries.push((bounds, order));
        proof {
            assert(self@ =~= before.push((bounds@, order as nat)));
        }
        order
    }
}

proof fn lemma_highest_is_bounded(entries: Seq<(Rect, nat)>, bounds: Rect, n: nat)
    requires
        forall|i: int| 0 <= i < entries.len() ==> (#[trigger] entries[i]).1 <= n,
    ensures
        highest_below(entries, bounds) <= n,
    decreases entries.len(),
{
    if entries.len() > 0 {
        let rest = entries.drop_last();
        assert forall|i: int| 0 <= i < rest.len() implies (#[trigger] rest[i]).1 <= n by {
            assert(rest[i] == entries[i]);
        }
        lemma_highest_is_bounded(rest, bounds, n);
        assert(entries[entries.len() - 1].1 <= n);
    }
}

/// A box painted later over one that it intersects is given a greater order.
pub proof fn later_boxes_are_ordered_above(entries: Seq<(Rect, nat)>, bounds: Rect, i: int)
    requires
        0 <= i < entries.len(),
        entries[i].0.intersects(bounds),
    ensures
        order_above(entries, bounds) > entries[i].1,
    decreases entries.len(),
{
    if i < entries.len() - 1 {
        later_boxes_are_ordered_above(entries.drop_last(), bounds, i);
    }
}

} // verus!
