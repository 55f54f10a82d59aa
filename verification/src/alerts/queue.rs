//! Bounded, filtered alert queue.
//!
//! A full queue gives up its oldest alert for a new one. How many were lost is
//! reported in front of the next drained batch.
use crate::alerts::category::{Alert, AlertCategory};
use std::collections::VecDeque;
use vstd::prelude::*;

verus! {

/// Bounded alert ring.
#[derive(Debug)]
pub struct AlertQueue {
    buf: VecDeque<Alert>,
    capacity: usize,
    mask: AlertCategory,
    generation: u64,
    dropped_since_swap: u32,
}

/// What an alert queue holds.
#[verifier::ext_equal]
pub struct QueueModel {
    /// Waiting alerts, oldest first.
    pub waiting: Seq<Alert>,
    /// Most alerts that can wait.
    pub capacity: nat,
    /// Categories that are taken.
    pub mask: AlertCategory,
    /// Number of drains, wrapping.
    pub generation: u64,
    /// Alerts lost since the last drain, up to the largest count.
    pub lost: u32,
}

impl QueueModel {
    /// The queue takes `alert`.
    pub open spec fn takes(self, alert: Alert) -> bool {
        self.mask.includes(alert.category_of()) || alert is Dropped
    }

    /// The queue after `alert` was offered.
    pub open spec fn pushed(self, alert: Alert) -> QueueModel {
        if !self.takes(alert) {
            self
        } else if self.waiting.len() == self.capacity {
            QueueModel {
                waiting: self.waiting.drop_first().push(alert),
                lost: if self.lost < u32::MAX {
                    (self.lost + 1) as u32
                } else {
                    self.lost
                },
                ..self
            }
        } else {
            QueueModel { waiting: self.waiting.push(alert), ..self }
        }
    }

    /// What a drain hands out.
    pub open spec fn batch(self) -> Seq<Alert> {
        if self.lost > 0 {
            seq![Alert::Dropped { count: self.lost }] + self.waiting
        } else {
            self.waiting
        }
    }

    /// The queue after a drain.
    pub open spec fn drained(self) -> QueueModel {
        QueueModel {
            waiting: Seq::empty(),
            lost: 0,
            generation: if self.generation == u64::MAX {
                0
            } else {
                (self.generation + 1) as u64
            },
            ..self
        }
    }
}

impl View for AlertQueue {
    type V = QueueModel;

    closed spec fn view(&self) -> QueueModel {
        QueueModel {
            waiting: self.buf@,
            capacity: self.capacity as nat,
            mask: self.mask,
            generation: self.generation,
            lost: self.dropped_since_swap,
        }
    }
}

impl AlertQueue {
    /// Never more alerts than the capacity.
    pub open spec fn wf(&self) -> bool {
        0 < self@.capacity && self@.waiting.len() <= self@.capacity
    }

    /// A queue that takes every category.
    pub fn new(capacity: usize) -> (r: AlertQueue)
        requires
            capacity > 0,
        ensures
            r.wf(),
            r@ == (QueueModel {
                waiting: Seq::empty(),
                capacity: capacity as nat,
                mask: AlertCategory(0xffff_ffff),
                generation: 0,
                lost: 0,
            }),
    {
        AlertQueue::with_mask(capacity, AlertCategory::all())
    }

    /// A queue that takes the categories of `mask`.
    pub fn with_mask(capacity: usize, mask: AlertCategory) -> (r: AlertQueue)
        requires
            capacity > 0,
        ensures
            r.wf(),
            r@ == (QueueModel {
                waiting: Seq::empty(),
                capacity: capacity as nat,
                mask,
                generation: 0,
                lost: 0,
            }),
    {
        AlertQueue {
            buf: VecDeque::with_capacity(capacity),
            capacity,
            mask,
            generation: 0,
            dropped_since_swap: 0,
        }
    }

    /// Changes the categories taken from now on. What waits already stays.
    pub fn set_mask(&mut self, mask: AlertCategory)
        ensures
            final(self)@ == (QueueModel { mask, ..old(self)@ }),
    {
        self.mask = mask;
    }

    /// The number of drains so far.
    pub fn generation(&self) -> (r: u64)
        ensures
            r == self@.generation,
    {
        self.generation
    }

    /// Offers an alert. `false` where the mask keeps it out. A full queue loses
    /// its oldest alert and counts the loss.
    pub fn push(&mut self, alert: Alert) -> (r: bool)
        requires
            old(self).wf(),
        ensures
            final(self).wf(),
            r == old(self)@.takes(alert),
            final(self)@ == old(self)@.pushed(alert),
    {
        let dropped: bool = matches!(alert, Alert::Dropped { .. });
        if !self.mask.contains(alert.category()) && !dropped {
            return false;
        }
        if self.buf.len() == self.capacity {
            let _oldest = self.buf.pop_front();
            self.dropped_since_swap = self.dropped_since_swap.saturating_add(1);
        }
        self.buf.push_back(alert);
        assert(self@ =~= old(self)@.pushed(alert));
        true
    }

    /// Takes everything out, oldest first, behind a count of what was lost.
    pub fn drain(&mut self) -> (r: Vec<Alert>)
        requires
            old(self).wf(),
        ensures
            final(self).wf(),
            r@ == old(self)@.batch(),
            final(self)@ == old(self)@.drained(),
    {
        let ghost all = self.buf@;
        self.generation = self.generation.wrapping_add(1);
        let dropped: u32 = self.dropped_since_swap;
        self.dropped_since_swap = 0;
        let mut taken: Vec<Alert> = Vec::new();
        if dropped > 0 {
            taken.push(Alert::Dropped { count: dropped });
        }
        let ghost head = taken@;
        while self.buf.len() > 0
            invariant
                self.capacity == old(self).capacity,
                self.mask == old(self).mask,
                self.generation == old(self)@.drained().generation,
                self.dropped_since_swap == 0,
                taken@ + self.buf@ == head + all,
            decreases self.buf@.len(),
        {
            if let Some(a) = self.buf.pop_front() {
                taken.push(a);
            }
            assert(taken@ + self.buf@ =~= head + all);
        }
        assert(taken@ =~= head + all);
        assert(taken@ =~= old(self)@.batch());
        assert(self@ =~= old(self)@.drained());
        taken
    }

    /// Whether nothing waits.
    pub fn is_empty(&self) -> (r: bool)
        ensures
            r == (self@.waiting.len() == 0),
    {
        self.buf.len() == 0
    }

    /// The number of waiting alerts.
    pub fn pending(&self) -> (r: usize)
        ensures
            r == self@.waiting.len(),
    {
        self.buf.len()
    }
}

/// What an accepted alert leaves behind: it waits as the newest, the others keep
/// their order, and either all of them are still there or exactly the oldest
/// was lost and counted.
pub proof fn law_push_keeps_newest(q: QueueModel, alert: Alert)
    requires
        0 < q.capacity,
        q.waiting.len() <= q.capacity,
        q.takes(alert),
    ensures
        q.pushed(alert).waiting.last() == alert,
        q.pushed(alert).waiting.len() <= q.capacity,
        q.waiting.len() < q.capacity ==> q.pushed(alert).waiting.drop_last() == q.waiting
            && q.pushed(alert).lost == q.lost,
        q.waiting.len() == q.capacity ==> q.pushed(alert).waiting.drop_last()
            == q.waiting.drop_first() && (q.lost < u32::MAX ==> q.pushed(alert).lost == q.lost + 1),
{
    assert(q.waiting.push(alert).drop_last() =~= q.waiting);
    assert(q.waiting.drop_first().push(alert).drop_last() =~= q.waiting.drop_first());
}

/// After a drain nothing waits and nothing counts as lost, so a second drain
/// hands out nothing.
pub proof fn law_drain_empties(q: QueueModel)
    ensures
        q.drained().batch() == Seq::<Alert>::empty(),
        q.drained().generation != q.generation,
{
}

/// A loss report gets through whatever the mask.
pub proof fn law_dropped_always_taken(q: QueueModel, count: u32)
    ensures
        q.takes(Alert::Dropped { count }),
{
}

/// What is drained are the alerts that wait, in the order in which they came,
/// behind word of how many were lost, where any were; and nothing waits or counts
/// as lost afterwards.
pub proof fn law_drain_hands_out_everything(q: QueueModel)
    ensures
        q.lost == 0 ==> q.batch() == q.waiting,
        q.lost > 0 ==> {
            &&& q.batch().len() == q.waiting.len() + 1
            &&& q.batch()[0] == (Alert::Dropped { count: q.lost })
            &&& forall|i: int|
                0 <= i < q.waiting.len() ==> #[trigger] q.batch()[i + 1] == q.waiting[i]
        },
        q.drained().waiting.len() == 0,
        q.drained().lost == 0,
        q.drained().capacity == q.capacity,
        q.drained().mask == q.mask,
        q.generation < u64::MAX ==> q.drained().generation == q.generation + 1,
{
}

/// An alert is taken exactly if the mask has its category, and one that is not
/// changes nothing.
pub proof fn law_mask_decides(q: QueueModel, alert: Alert)
    requires
        q.mask.0 == 0 || q.mask.0 == 0xffff_ffff,
        !(alert is Dropped),
    ensures
        q.mask.0 == 0 ==> !q.takes(alert) && q.pushed(alert) == q,
        q.mask.0 == 0xffff_ffff ==> q.takes(alert),
        q.pushed(alert).mask == q.mask,
        q.pushed(alert).capacity == q.capacity,
        q.pushed(alert).generation == q.generation,
{
    assert(0u32 & 1 == 0 && 0u32 & 2 == 0 && 0u32 & 4 == 0 && 0u32 & 8 == 0 && 0u32 & 16 == 0)
        by (bit_vector);
    assert(0xffff_ffffu32 & 1 == 1 && 0xffff_ffffu32 & 2 == 2 && 0xffff_ffffu32 & 4 == 4
        && 0xffff_ffffu32 & 8 == 8 && 0xffff_ffffu32 & 16 == 16) by (bit_vector);
}

} // verus!
