use sfdc::queue::MinQueue;

#[test]
fn queue_hands_out_by_count_then_index() {
    let mut q = MinQueue::new();
    assert_eq!(q.len(), 0);
    assert_eq!(q.pop(), None);
    q.push((5, 0));
    q.push((2, 7));
    q.push((2, 3));
    q.push((9, 1));
    q.push((1, 8));
    assert_eq!(q.len(), 5);
    assert_eq!(q.pop(), Some((1, 8)));
    assert_eq!(q.pop(), Some((2, 3)));
    assert_eq!(q.pop(), Some((2, 7)));
    assert_eq!(q.len(), 2);
    q.push((6, 2));
    assert_eq!(q.pop(), Some((5, 0)));
    assert_eq!(q.pop(), Some((6, 2)));
    assert_eq!(q.pop(), Some((9, 1)));
    assert_eq!(q.pop(), None);
    assert_eq!(q.len(), 0);
}
