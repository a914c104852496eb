use ring_list::List;

#[test]
fn test_lpush_lpop_1() {
    let mut list = List::new();
    assert!(list.lpop().is_none());

    let node = list.new_node();

    list.lpush(node);

    assert!(list.next_of(node) == node);
    assert!(list.lpop().unwrap() == node);
    assert!(list.lpop().is_none());
}

#[test]
fn test_lpush_lpop_2() {
    let mut list = List::new();
    assert!(list.lpop().is_none());

    let node = list.new_node();
    list.lpush(node);
    assert!(list.next_of(node) == node);

    let node2 = list.new_node();
    list.lpush(node2);

    assert!(list.next_of(node2) == node);
    assert!(list.next_of(node) == node2);
    assert!(list.rpeek().unwrap() == node);

    assert!(list.lpop().unwrap() == node2);
    assert!(list.lpop().unwrap() == node);
    assert!(list.lpop().is_none());
}

#[test]
fn test_lpush_lpop_3() {
    let mut list = List::new();
    assert!(list.lpop().is_none());

    let node = list.new_node();
    list.lpush(node);
    assert!(list.next_of(node) == node);

    let node2 = list.new_node();
    list.lpush(node2);

    let node3 = list.new_node();
    list.lpush(node3);

    assert!(list.next_of(node) == node3);
    assert!(list.next_of(node2) == node);
    assert!(list.next_of(node3) == node2);
    assert!(list.rpeek().unwrap() == node);

    assert!(list.lpop().unwrap() == node3);
    assert!(list.next_of(node) == node2);
    assert!(list.next_of(node2) == node);
    assert!(list.rpeek().unwrap() == node);

    assert!(list.lpop().unwrap() == node2);
    assert!(list.next_of(node) == node);
    assert!(list.rpeek().unwrap() == node);

    assert!(list.lpop().unwrap() == node);
    assert!(list.is_empty());

    assert!(list.lpop().is_none());
}

#[test]
fn test_lpoprpush() {
    let mut list = List::new();

    let node = list.new_node();
    let node2 = list.new_node();

    list.lpush(node);
    list.lpush(node2);
    list.lpoprpush();

    assert!(list.lpop().unwrap() == node);
    assert!(list.lpop().unwrap() == node2);
    assert!(list.lpop().is_none());
}
