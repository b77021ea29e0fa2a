//! The delivery side of a publish: one `Delivery` per matched subscriber,
//! and a bounded per-subscriber queue that keeps publish order and drops the
//! newest entry, counted, when full.

use vstd::prelude::*;

verus! {

/// One message owed to one subscriber on one topic.
#[derive(Debug)]
pub struct Delivery {
    pub subscriber_id: String,
    pub topic: String,
    pub message: String,
}

/// The mathematical value of a `Delivery`.
pub struct DeliveryView {
    pub subscriber_id: Seq<char>,
    pub topic: Seq<char>,
    pub message: Seq<char>,
}

impl View for Delivery {
    type V = DeliveryView;

    open spec fn view(&self) -> DeliveryView {
        DeliveryView {
            subscriber_id: self.subscriber_id@,
            topic: self.topic@,
            message: self.message@,
        }
    }
}

impl Delivery {
    pub fn new(subscriber_id: String, topic: String, message: String) -> (d: Delivery)
        ensures
            d@.subscriber_id == subscriber_id@,
            d@.topic == topic@,
            d@.message == message@,
    {
        Delivery { subscriber_id, topic, message }
    }

    /// An explicit copy whose view is known to be preserved.
    pub fn dup(&self) -> (d: Delivery)
        ensures
            d@ == self@,
    {
        Delivery {
            subscriber_id: self.subscriber_id.clone(),
            topic: self.topic.clone(),
            message: self.message.clone(),
        }
    }
}

pub open spec fn deliveries_view(ds: Seq<Delivery>) -> Seq<DeliveryView> {
    ds.map_values(|d: Delivery| d@)
}

/// What one enqueue leaves in a queue of the given capacity: the delivery is
/// appended where there is room and dropped where there is none.
pub open spec fn enqueue_items(items: Seq<DeliveryView>, capacity: int, d: DeliveryView) -> Seq<
    DeliveryView,
> {
    if items.len() < capacity {
        items.push(d)
    } else {
        items
    }
}

/// A bounded first-in-first-out queue of deliveries for one subscriber.
/// When full it drops the newest entry and counts the loss.
pub struct DeliveryQueue {
    pub capacity: usize,
    pub items: Vec<Delivery>,
    pub dropped: u64,
}

impl DeliveryQueue {
    pub open spec fn wf(&self) -> bool {
        self.items@.len() <= self.capacity
    }

    pub fn new(capacity: usize) -> (q: DeliveryQueue)
        ensures
            q.wf(),
            q.capacity == capacity,
            q.items@.len() == 0,
            q.dropped == 0,
    {
        DeliveryQueue { capacity, items: Vec::new(), dropped: 0 }
    }

    /// Appends the delivery where there is room; where the queue is full the
    /// delivery is dropped and the counter grows, saturating.
    pub fn enqueue(&mut self, d: Delivery)
        requires
            old(self).wf(),
        ensures
            final(self).wf(),
            final(self).capacity == old(self).capacity,
            deliveries_view(final(self).items@) == enqueue_items(
                deliveries_view(old(self).items@),
                old(self).capacity as int,
                d@,
            ),
            final(self).dropped == (if old(self).items@.len() < old(self).capacity {
                old(self).dropped
            } else if old(self).dropped < u64::MAX {
                (old(self).dropped + 1) as u64
            } else {
                old(self).dropped
            }),
    {
        if self.items.len() < self.capacity {
            let ghost before = self.items@;
            self.items.push(d);
            proof {
                assert(deliveries_view(self.items@) =~= deliveries_view(before).push(
                    self.items@[self.items@.len() - 1]@,
                ));
            }
        } else {
            if self.dropped < u64::MAX {
                self.dropped = self.dropped + 1;
            }
        }
    }

    /// Hands out the oldest delivery, if any: first in, first out.
    pub fn dequeue(&mut self) -> (r: Option<Delivery>)
        requires
            old(self).wf(),
        ensures
            final(self).wf(),
            final(self).capacity == old(self).capacity,
            final(self).dropped == old(self).dropped,
            match r {
                Some(d) => {
                    &&& old(self).items@.len() > 0
                    &&& d@ == deliveries_view(old(self).items@)[0]
                    &&& deliveries_view(final(self).items@) == deliveries_view(
                        old(self).items@,
                    ).skip(1)
                },
                None => {
                    &&& old(self).items@.len() == 0
                    &&& final(self).items@ == old(self).items@
                },
            },
    {
        if self.items.len() == 0 {
            None
        } else {
            let ghost before = self.items@;
            let d = self.items.remove(0);
            proof {
                assert(deliveries_view(self.items@) =~= deliveries_view(before).skip(1));
            }
            Some(d)
        }
    }
}

/// Two deliveries enqueued in order on a queue with room for both stand in
/// the queue in that order, behind what was already there: publish order is
/// kept per subscriber.
pub proof fn law_delivery_order(
    items: Seq<DeliveryView>,
    capacity: int,
    m1: DeliveryView,
    m2: DeliveryView,
)
    requires
        items.len() + 2 <= capacity,
    ensures
        enqueue_items(enqueue_items(items, capacity, m1), capacity, m2) == items.push(m1).push(
            m2,
        ),
{
}

} // verus!
