use dss::linked_list::LinkedList;

#[test]
fn ll_push_back() {
    let mut ll = LinkedList::<usize>::new();

    ll.push_back(1);
    ll.push_back(2);
    ll.push_back(3);

    assert_eq!(ll.len(), 3);

    for i in 0..3 {
        let item = ll.get(i);
        assert!(item.is_some());
        assert_eq!(item.unwrap(), &(i + 1))
    }

    ll.push_back(4);
    ll.push_back(5);
    ll.push_back(6);

    assert_eq!(ll.len(), 6);

    for i in 4..6 {
        let item = ll.get(i);
        assert!(item.is_some());
        assert_eq!(item.unwrap(), &(i + 1))
    }
}

#[test]
fn ll_push_front() {
    let mut ll = LinkedList::<usize>::new();

    ll.push_front(0);
    ll.push_front(1);
    ll.push_front(2);

    assert_eq!(ll.len(), 3);

    for i in 0..3 {
        let item = ll.get(i);
        assert!(item.is_some());
        assert_eq!(item.unwrap(), &(2 - i))
    }

    ll.push_front(3);
    ll.push_front(4);
    ll.push_front(5);

    assert_eq!(ll.len(), 6);

    for i in 0..6 {
        let item = ll.get(i);
        assert!(item.is_some());
        assert_eq!(item.unwrap(), &(5 - i))
    }
}

#[test]
fn ll_modify() {
    let mut ll = LinkedList::<usize>::new();

    for i in 0..10 {
        ll.push_front(10 - i);
    }

    assert_eq!(ll.len(), 10);

    for i in 0..10 {
        let v = *ll.get(i).unwrap();
        let x = ll.get_mut(i, v * 10);
        assert!(x.is_some());
    }

    assert_eq!(ll.len(), 10);

    for i in 0..10 {
        let x = ll.get(i);
        assert!(x.is_some());
        assert_eq!(x.unwrap(), &((i + 1) * 10));
    }
}

#[test]
fn ll_pop() {
    let mut ll = LinkedList::<usize>::new();

    for i in 0..10 {
        ll.push_front(i);
    }

    assert_eq!(ll.len(), 10);

    for _ in 0..5 {
        let old = ll.pop_head();
        assert!(old.is_some());
    }

    assert_eq!(ll.len(), 5);

    for i in 0..5 {
        let item = ll.get(i);
        assert!(item.is_some());

        assert_eq!(item.unwrap(), &(4 - i));
    }
}

#[derive(Debug, PartialEq, Eq)]
struct TestType(i32);

#[test]
fn ll_pop_no_default() {
    let mut ll = LinkedList::<TestType>::new();

    for i in 0..10 {
        ll.push_front(TestType(i));
    }

    assert_eq!(ll.len(), 10);

    for _ in 0..5 {
        let old = ll.pop_head();
        assert!(old.is_some());
    }

    assert_eq!(ll.len(), 5);

    for i in 0..5 {
        let item = ll.get(i);
        assert!(item.is_some());

        assert_eq!(item.unwrap().0, 4 - i as i32);
    }
}

#[test]
fn ll_pop_back() {
    let mut ll = LinkedList::<usize>::new();

    for i in 0..10 {
        ll.push_front(i);
    }

    assert_eq!(ll.len(), 10);

    for _ in 0..5 {
        let old = ll.pop_back();
        assert!(old.is_some());
    }

    assert_eq!(ll.len(), 5);

    for i in 0..5 {
        let item = ll.get(i);
        assert!(item.is_some());

        assert_eq!(item.unwrap(), &(9 - i));
    }
}

#[test]
fn ll_empty_and_bounds() {
    let mut ll = LinkedList::<usize>::new();
    assert!(ll.is_empty());
    assert_eq!(ll.len(), 0);
    assert!(ll.pop_head().is_none());
    assert!(ll.pop_back().is_none());
    assert!(ll.get(0).is_none());
    assert!(ll.get_mut(0, 7).is_none());

    ll.push_back(42);
    assert!(!ll.is_empty());
    assert!(ll.get(1).is_none());
    assert_eq!(ll.pop_back(), Some(42));
    assert!(ll.is_empty());
}

#[test]
fn ll_get_mut_returns_previous() {
    let mut ll = LinkedList::<usize>::new();
    ll.push_back(10);
    ll.push_back(20);
    assert_eq!(ll.get_mut(1, 99), Some(20));
    assert_eq!(ll.get(1), Some(&99));
    assert_eq!(ll.get(0), Some(&10));
}
