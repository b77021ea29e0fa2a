use iot_hub::dispatch::{Delivery, DeliveryQueue};

fn d(id: &str, topic: &str, msg: &str) -> Delivery {
    Delivery::new(String::from(id), String::from(topic), String::from(msg))
}

#[test]
fn queue_keeps_publish_order() {
    let mut q = DeliveryQueue::new(4);
    q.enqueue(d("s", "a.b", "m1"));
    q.enqueue(d("s", "a.b", "m2"));
    let first = q.dequeue().unwrap();
    let second = q.dequeue().unwrap();
    assert_eq!("m1", first.message);
    assert_eq!("m2", second.message);
    assert!(q.dequeue().is_none());
}

#[test]
fn full_queue_drops_the_newest_and_counts_it() {
    let mut q = DeliveryQueue::new(2);
    q.enqueue(d("s", "t", "m1"));
    q.enqueue(d("s", "t", "m2"));
    q.enqueue(d("s", "t", "m3"));
    assert_eq!(1, q.dropped);
    assert_eq!("m1", q.dequeue().unwrap().message);
    assert_eq!("m2", q.dequeue().unwrap().message);
    assert!(q.dequeue().is_none());
}

#[test]
fn empty_queue_hands_out_nothing() {
    let mut q = DeliveryQueue::new(1);
    assert!(q.dequeue().is_none());
    assert_eq!(0, q.dropped);
}
