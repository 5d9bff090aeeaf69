use classic_algorithms::Queue;

#[test]
fn should_add_and_take_from_queue() {
    let mut queue = Queue::from(&[1, 15, 20, 43]);

    println!("before 1");
    assert_eq!(Some(&1), queue.take());
    println!("after 1");

    println!("before 15");
    assert_eq!(Some(&15), queue.take());
    println!("before 15");

    println!("before 20");
    assert_eq!(Some(&20), queue.take());
    println!("before 20");

    println!("before 43");
    assert_eq!(Some(&43), queue.take());
    println!("before 43");

    assert_eq!(None, queue.take());
}

#[test]
fn new_queue_is_empty() {
    let mut queue: Queue<i32> = Queue::new();
    assert_eq!(queue.len(), 0);
    assert_eq!(queue.take(), None);
    let mut other: Queue<i32> = Queue::default();
    assert_eq!(other.take(), None);
}

#[test]
fn queue_takes_in_the_order_of_adding() {
    let values = [7, 8, 9];
    let more = [10, 11];
    let mut queue = Queue::new();
    queue.add(&values[0]);
    queue.add(&values[1]);
    assert_eq!(queue.take(), Some(&7));
    queue.append(&more);
    queue.add(&values[2]);
    assert_eq!(queue.len(), 4);
    assert_eq!(queue.take(), Some(&8));
    assert_eq!(queue.take(), Some(&10));
    assert_eq!(queue.take(), Some(&11));
    assert_eq!(queue.take(), Some(&9));
    assert_eq!(queue.take(), None);
    queue.add(&values[0]);
    assert_eq!(queue.take(), Some(&7));
}
