use sfdc::layer::SfdcLayer;

#[test]
fn layer_starts_empty() {
    let mut layer = SfdcLayer::new();
    assert_eq!(layer.len(), 0);
    assert_eq!(layer.pop(), None);
    assert_eq!(layer.len(), 0);
}

#[test]
fn layer_push_then_pop_is_last_in_first_out() {
    let mut layer = SfdcLayer::new();
    layer.push(true);
    layer.push(false);
    layer.push(true);
    assert_eq!(layer.len(), 3);
    assert!(layer.get(0));
    assert!(!layer.get(1));
    assert!(layer.get(2));
    assert_eq!(layer.pop(), Some(true));
    assert_eq!(layer.pop(), Some(false));
    assert_eq!(layer.pop(), Some(true));
    assert_eq!(layer.pop(), None);
}

#[test]
fn layer_set_changes_one_position() {
    let mut layer = SfdcLayer::repeat(false, 70);
    assert_eq!(layer.len(), 70);
    layer.set(65, true);
    for i in 0..70 {
        assert_eq!(layer.get(i), i == 65);
    }
    layer.set(65, false);
    assert!(!layer.get(65));
}

#[test]
fn layer_repeat_fills_with_the_given_bit() {
    let ones = SfdcLayer::repeat(true, 9);
    for i in 0..9 {
        assert!(ones.get(i));
    }
    let none = SfdcLayer::repeat(true, 0);
    assert_eq!(none.len(), 0);
}

#[test]
fn layer_index_reads_the_bit() {
    let mut layer = SfdcLayer::repeat(false, 3);
    layer.set(1, true);
    assert!(!layer[0]);
    assert!(layer[1]);
    assert!(!layer[2]);
}

#[test]
fn layer_clone_holds_the_same_bits_and_is_independent() {
    let mut layer = SfdcLayer::repeat(false, 130);
    layer.set(129, true);
    let copy = layer.clone();
    layer.set(0, true);
    layer.push(true);
    assert_eq!(copy.len(), 130);
    for i in 0..130 {
        assert_eq!(copy.get(i), i == 129);
    }
}
