use orderbook::number_line::{LineItem, LineItemQueue, NumberLine, DEFAULT_INIT_CAPACITY};

fn item(id: u64, value: u64, count: u64) -> LineItem {
    LineItem { id, value, count }
}

fn queue_at(line: &NumberLine, value: u64) -> &LineItemQueue {
    let slot = (value % line.capacity as u64) as usize;
    let q = line.items[slot].as_ref().unwrap();
    assert_eq!(q.value, value);
    q
}

fn ids_at(line: &NumberLine, value: u64) -> Vec<u64> {
    queue_at(line, value).queue.iter().map(|i| i.id).collect()
}

#[test]
fn reduce_lowers_the_count() {
    let mut i = item(1, 50, 10);
    i.reduce(4);
    assert_eq!(i.count, 6);
    i.reduce(6);
    assert_eq!(i.count, 0);
    assert_eq!(i.value, 50);
}

#[test]
fn queue_is_first_in_first_out() {
    let mut q = LineItemQueue::new(item(1, 7, 1));
    assert_eq!(q.value, 7);
    assert!(q.next_queue.is_none() && q.prev_queue.is_none());
    q.add(item(2, 7, 1));
    q.add(item(3, 7, 1));
    assert_eq!(q.pop().unwrap().id, 1);
    assert_eq!(q.pop().unwrap().id, 2);
    q.add(item(4, 7, 1));
    assert_eq!(q.pop().unwrap().id, 3);
    assert_eq!(q.pop().unwrap().id, 4);
    assert!(q.pop().is_none());
}

#[test]
fn new_line_has_empty_slots() {
    let line = NumberLine::new();
    assert_eq!(line.capacity, DEFAULT_INIT_CAPACITY);
    assert_eq!(line.items.len(), 100);
    assert!(line.items.iter().all(|s| s.is_none()));
    assert!(line.head.is_none() && line.tail.is_none());
    assert_eq!(line.size, 0);
    let d = NumberLine::default();
    assert_eq!(d.items.len(), 100);
}

#[test]
fn add_links_queues_to_their_nearest_prices() {
    let mut line = NumberLine::new();
    line.add(item(1, 5, 1));
    line.add(item(2, 7, 1));
    let q5 = queue_at(&line, 5);
    let q7 = queue_at(&line, 7);
    assert_eq!(q5.next_queue, Some(7));
    assert_eq!(q5.prev_queue, None);
    assert_eq!(q7.prev_queue, Some(5));
    assert_eq!(q7.next_queue, None);
    assert_eq!(line.head, Some(5));
    assert_eq!(line.tail, Some(7));
    assert_eq!(line.size, 2);

    line.add(item(3, 6, 1));
    assert_eq!(queue_at(&line, 5).next_queue, Some(6));
    assert_eq!(queue_at(&line, 6).prev_queue, Some(5));
    assert_eq!(queue_at(&line, 6).next_queue, Some(7));
    assert_eq!(queue_at(&line, 7).prev_queue, Some(6));

    line.add(item(4, 2, 1));
    assert_eq!(line.head, Some(2));
    assert_eq!(queue_at(&line, 2).next_queue, Some(5));
    assert_eq!(queue_at(&line, 5).prev_queue, Some(2));
    assert_eq!(line.size, 4);
}

#[test]
fn add_queues_entries_of_the_same_price() {
    let mut line = NumberLine::new();
    line.add(item(1, 205, 3));
    line.add(item(2, 205, 4));
    assert_eq!(ids_at(&line, 205), vec![1, 2]);
    assert_eq!(line.size, 1);
}

#[test]
fn price_zero_has_a_slot() {
    let mut line = NumberLine::new();
    line.add(item(1, 0, 1));
    line.add(item(2, 3, 1));
    assert_eq!(ids_at(&line, 0), vec![1]);
    assert_eq!(queue_at(&line, 3).prev_queue, Some(0));
    assert_eq!(line.head, Some(0));
}

#[test]
fn overlapping_prices_grow_the_table() {
    let mut line = NumberLine::new();
    line.add(item(1, 5, 1));
    line.add(item(2, 105, 1));
    assert_eq!(line.capacity, 200);
    assert_eq!(line.items.len(), 200);
    assert_eq!(ids_at(&line, 5), vec![1]);
    assert_eq!(ids_at(&line, 105), vec![2]);
    assert_eq!(queue_at(&line, 5).next_queue, Some(105));
    assert_eq!(queue_at(&line, 105).prev_queue, Some(5));
    assert_eq!(line.head, Some(5));
    assert_eq!(line.tail, Some(105));
    assert_eq!(line.size, 2);

    line.add(item(3, 405, 1));
    assert_eq!(line.capacity, 800);
    assert_eq!(ids_at(&line, 5), vec![1]);
    assert_eq!(ids_at(&line, 105), vec![2]);
    assert_eq!(ids_at(&line, 405), vec![3]);
    assert_eq!(line.tail, Some(405));
    assert_eq!(line.size, 3);
}
