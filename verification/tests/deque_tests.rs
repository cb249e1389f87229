use plugovr::deque::Deque;

#[test]
fn test_deque_new_empty() {
    let mem: Box<[i32]> = Box::new([0; 16]);
    let dq: Deque<i32> = Deque::new(mem, 0, 0, -1);
    assert_eq!(dq.size(), 0);
    assert!(dq.empty());
    assert_eq!(dq.front(), -1); // no_value when empty
}

#[test]
fn test_deque_push_pop() {
    let mem: Box<[i32]> = Box::new([0; 16]);
    let mut dq: Deque<i32> = Deque::new(mem, 0, 0, -1);
    dq.push_back(10);
    dq.push_back(20);
    dq.push_back(30);
    assert_eq!(dq.size(), 3);
    assert!(!dq.empty());
    assert_eq!(dq.front(), 10);
    assert_eq!(dq.get(0), 10);
    assert_eq!(dq.get(1), 20);
    assert_eq!(dq.get(2), 30);

    dq.pop_front();
    assert_eq!(dq.size(), 2);
    assert_eq!(dq.front(), 20);
    assert_eq!(dq.get(0), 20);
    assert_eq!(dq.get(1), 30);
}

#[test]
fn test_deque_wrap_around() {
    let mem: Box<[i32]> = Box::new([0; 4]);
    let mut dq: Deque<i32> = Deque::new(mem, 0, 0, -1);
    dq.push_back(1);
    dq.push_back(2);
    dq.pop_front();
    dq.pop_front();
    dq.push_back(3);
    dq.push_back(4);
    dq.push_back(5);
    dq.push_back(6);
    assert_eq!(dq.get(0), 3);
    assert_eq!(dq.get(1), 4);
    assert_eq!(dq.get(2), 5);
    assert_eq!(dq.get(3), 6);
    assert_eq!(dq.size(), 4);
}

#[test]
fn test_deque_get_out_of_bounds() {
    let mem: Box<[i32]> = Box::new([0; 16]);
    let dq: Deque<i32> = Deque::new(mem, 0, 0, -1);
    assert_eq!(dq.get(0), -1);
    assert_eq!(dq.get(999), -1);
}

#[test]
fn test_deque_peek() {
    let mem: Box<[i32]> = Box::new([0; 16]);
    let mut dq: Deque<i32> = Deque::new(mem, 0, 0, -1);
    dq.push_back(42);
    dq.push_back(99);
    assert_eq!(dq.peek(0), 42);
    assert_eq!(dq.peek(1), 99);
    assert_eq!(dq.peek(5), -1);
}

#[test]
fn test_deque_capacity_limit() {
    let mem: Box<[i32]> = Box::new([0; 4]);
    let mut dq: Deque<i32> = Deque::new(mem, 0, 0, -1);
    dq.push_back(1);
    dq.push_back(2);
    dq.push_back(3);
    dq.push_back(4);
    assert_eq!(dq.size(), 4);
    dq.push_back(5);
    assert_eq!(dq.size(), 4);
    assert_eq!(dq.get(3), 4);
}

#[test]
fn deque_initial_contents_wrap_from_start() {
    let mem: Box<[i32]> = Box::new([1, 2, 3, 4]);
    let dq: Deque<i32> = Deque::new(mem, 6, 9, 0);
    // start 6 % 4 == 2, size capped at 4
    assert_eq!(dq.size(), 4);
    assert_eq!(dq.get(0), 3);
    assert_eq!(dq.get(1), 4);
    assert_eq!(dq.get(2), 1);
    assert_eq!(dq.get(3), 2);
    assert_eq!(dq.get(4), 0);
}

#[test]
fn deque_pop_on_empty_is_noop() {
    let mem: Box<[i32]> = Box::new([0; 2]);
    let mut dq: Deque<i32> = Deque::new(mem, 1, 0, -7);
    dq.pop_front();
    assert_eq!(dq.size(), 0);
    assert_eq!(dq.front(), -7);
    dq.push_back(5);
    assert_eq!(dq.front(), 5);
}
