use ring_list::List;

/// Collects the members in head-to-tail order by following the ring links
/// from the head until they wrap around.
fn traverse(list: &List) -> Vec<usize> {
    let mut out = Vec::new();
    if let Some(head) = list.lpeek() {
        let mut cur = head;
        loop {
            out.push(cur);
            cur = list.next_of(cur);
            if cur == head {
                break;
            }
        }
    }
    out
}

#[test]
fn test_lpush_order_and_peeks() {
    let mut list = List::new();
    let a = list.new_node();
    let b = list.new_node();
    let c = list.new_node();

    list.lpush(a);
    list.lpush(b);
    list.lpush(c);

    assert_eq!(traverse(&list), vec![c, b, a]);
    assert_eq!(list.lpeek(), Some(c));
    assert_eq!(list.rpeek(), Some(a));
}

#[test]
fn test_rpush_then_rpop_restores_order() {
    let mut list = List::new();
    let a = list.new_node();
    let b = list.new_node();
    let c = list.new_node();
    let x = list.new_node();

    list.rpush(a);
    list.rpush(b);
    list.rpush(c);

    list.rpush(x);
    assert_eq!(list.rpop(), Some(x));
    assert_eq!(traverse(&list), vec![a, b, c]);
}

#[test]
fn test_rotation_full_cycle() {
    let mut list = List::new();
    let a = list.new_node();
    let b = list.new_node();
    let c = list.new_node();

    list.rpush(a);
    list.rpush(b);
    list.rpush(c);

    list.lpoprpush();
    assert_eq!(traverse(&list), vec![b, c, a]);

    list.lpoprpush();
    list.lpoprpush();
    assert_eq!(traverse(&list), vec![a, b, c]);
    assert_eq!(traverse(&list).len(), 3);
}

#[test]
fn test_rotation_on_empty_and_single() {
    let mut list = List::new();
    list.lpoprpush();
    assert!(list.is_empty());

    let a = list.new_node();
    list.lpush(a);
    list.lpoprpush();
    assert_eq!(traverse(&list), vec![a]);
}

#[test]
fn test_remove_head_matches_lpop() {
    let mut left = List::new();
    let mut right = List::new();
    for _ in 0..3 {
        let n = left.new_node();
        left.rpush(n);
        let m = right.new_node();
        right.rpush(m);
    }

    let head = left.lpeek().unwrap();
    assert_eq!(left.remove(head), right.lpop());
    assert_eq!(traverse(&left), traverse(&right));
}

#[test]
fn test_remove_tail_matches_rpop() {
    let mut left = List::new();
    let mut right = List::new();
    for _ in 0..3 {
        let n = left.new_node();
        left.rpush(n);
        let m = right.new_node();
        right.rpush(m);
    }

    let tail = left.rpeek().unwrap();
    assert_eq!(left.remove(tail), right.rpop());
    assert_eq!(traverse(&left), traverse(&right));
}

#[test]
fn test_remove_middle() {
    let mut list = List::new();
    let a = list.new_node();
    let b = list.new_node();
    let c = list.new_node();

    list.rpush(a);
    list.rpush(b);
    list.rpush(c);

    assert_eq!(list.remove(b), Some(b));
    assert_eq!(traverse(&list), vec![a, c]);
}

#[test]
fn test_remove_absent() {
    let mut list = List::new();
    assert_eq!(list.remove(0), None);

    let a = list.new_node();
    let stray = list.new_node();
    list.lpush(a);

    assert_eq!(list.remove(stray), None);
    assert_eq!(traverse(&list), vec![a]);
}

#[test]
fn test_is_empty_transitions() {
    let mut list = List::new();
    assert!(list.is_empty());

    let a = list.new_node();
    list.lpush(a);
    assert!(!list.is_empty());
    list.lpop();
    assert!(list.is_empty());

    list.rpush(a);
    assert!(!list.is_empty());
    list.rpop();
    assert!(list.is_empty());

    list.lpush(a);
    assert!(!list.is_empty());
    list.remove(a);
    assert!(list.is_empty());
}

#[test]
fn test_find() {
    let mut list = List::new();
    assert_eq!(list.find(0), None);

    let a = list.new_node();
    let b = list.new_node();
    let c = list.new_node();
    let never_inserted = list.new_node();

    list.rpush(a);
    list.rpush(b);
    list.rpush(c);

    assert_eq!(list.find(a), Some(b));
    assert_eq!(list.find(b), Some(c));
    assert_eq!(list.find(c), Some(a));
    assert_eq!(list.find(never_inserted), None);
}

#[test]
fn test_end_to_end() {
    let mut list = List::new();
    let a = list.new_node();
    let b = list.new_node();
    let c = list.new_node();

    list.rpush(a);
    list.rpush(b);
    list.rpush(c);
    assert_eq!(traverse(&list), vec![a, b, c]);

    assert_eq!(list.rpop(), Some(c));
    assert_eq!(traverse(&list), vec![a, b]);

    assert_eq!(list.lpop(), Some(a));
    assert_eq!(traverse(&list), vec![b]);

    assert_eq!(list.rpop(), Some(b));
    assert!(list.is_empty());

    assert_eq!(list.lpop(), None);
    assert_eq!(list.rpop(), None);
}

#[test]
fn test_lpush_lpop_reverse_order() {
    let mut list = List::new();
    let mut pushed = Vec::new();
    for _ in 0..5 {
        let n = list.new_node();
        list.lpush(n);
        pushed.push(n);
    }

    let mut popped = Vec::new();
    while let Some(n) = list.lpop() {
        popped.push(n);
    }

    pushed.reverse();
    assert_eq!(popped, pushed);
    assert!(list.is_empty());
}

#[test]
fn test_fresh_node_links_to_itself() {
    let mut list = List::new();
    let a = list.new_node();
    assert_eq!(list.next_of(a), a);
    assert!(list.is_empty());
}
