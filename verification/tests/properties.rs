use ringbuf::PopError;
use ringbuf::PushAccessError;
use ringbuf::PushError;
use ringbuf::RingBuffer;

#[test]
fn fresh_buffer_properties() {
    for cap in [1, 2, 13] {
        let buf = RingBuffer::<i32>::new(cap);
        assert_eq!(buf.capacity(), cap);
        assert!(buf.is_empty());
        assert!(!buf.is_full());
        assert_eq!(buf.head_tail(), (0, 0));

        let (prod, cons) = buf.split();
        assert_eq!(prod.capacity(), cap);
        assert_eq!(cons.capacity(), cap);
        assert!(cons.is_empty());
        assert!(!prod.is_full());
    }
}

#[test]
fn zero_capacity() {
    let buf = RingBuffer::<i32>::new(0);
    assert_eq!(buf.capacity(), 0);
    assert!(buf.is_empty());
    assert!(buf.is_full());

    let (mut prod, mut cons) = buf.split();
    assert_eq!(prod.push(7), Err((PushError::Full, 7)));
    assert_eq!(cons.pop(), Err(PopError::Empty));
}

#[test]
fn capacity_cycle() {
    let cap = 4;
    let buf = RingBuffer::<i32>::new(cap);
    let (mut prod, mut cons) = buf.split();

    for v in 0..cap as i32 {
        assert_eq!(prod.push(10 + v), Ok(()));
    }
    assert!(prod.is_full());
    assert_eq!(prod.push(99), Err((PushError::Full, 99)));

    for v in 0..cap as i32 {
        assert_eq!(cons.pop(), Ok(10 + v));
    }
    assert_eq!(cons.pop(), Err(PopError::Empty));
}

#[test]
fn fifo_order_across_wraparound() {
    let buf = RingBuffer::<i32>::new(3);
    let (mut prod, mut cons) = buf.split();

    assert_eq!(prod.push(1), Ok(()));
    assert_eq!(prod.push(2), Ok(()));
    assert_eq!(cons.pop(), Ok(1));
    assert_eq!(prod.push(3), Ok(()));
    assert_eq!(prod.push(4), Ok(()));
    assert_eq!(cons.pop(), Ok(2));
    assert_eq!(cons.pop(), Ok(3));
    assert_eq!(cons.pop(), Ok(4));
    assert_eq!(cons.pop(), Err(PopError::Empty));
}

#[test]
fn full_cycle_scenario() {
    let buf = RingBuffer::<i32>::new(2);
    let (mut prod, mut cons) = buf.split();

    assert_eq!(prod.push(12), Ok(()));
    assert_eq!(prod.head_tail(), (0, 1));
    assert_eq!(prod.push(34), Ok(()));
    assert_eq!(prod.head_tail(), (0, 2));
    assert_eq!(prod.push(56), Err((PushError::Full, 56)));
    assert_eq!(prod.head_tail(), (0, 2));

    assert_eq!(cons.pop(), Ok(12));
    assert_eq!(cons.head_tail(), (1, 2));
    assert_eq!(cons.pop(), Ok(34));
    assert_eq!(cons.head_tail(), (2, 2));
    assert_eq!(cons.pop(), Err(PopError::Empty));
}

#[test]
fn owner_push_pop() {
    let mut buf = RingBuffer::<i32>::new(2);
    assert_eq!(buf.push(5), Ok(()));
    assert_eq!(buf.head_tail(), (0, 1));
    assert!(!buf.is_empty());
    assert_eq!(buf.push(6), Ok(()));
    assert!(buf.is_full());
    assert_eq!(buf.push(7), Err((PushError::Full, 7)));
    assert_eq!(buf.pop(), Ok(5));
    assert_eq!(buf.pop(), Ok(6));
    assert_eq!(buf.pop(), Err(PopError::Empty));
    assert_eq!(buf.head_tail(), (2, 2));
}

#[test]
fn push_many_pop_many_counts() {
    let mut buf = RingBuffer::<i32>::new(3);

    assert_eq!(buf.push_many(&[1, 2, 3, 4, 5]), Ok(3));
    assert_eq!(buf.head_tail(), (0, 3));

    let mut out = [0; 2];
    assert_eq!(buf.pop_many(&mut out), Ok(2));
    assert_eq!(out, [1, 2]);

    let mut rest = [9, 9, 9, 9];
    assert_eq!(buf.pop_many(&mut rest), Ok(1));
    assert_eq!(rest, [3, 9, 9, 9]);
}

#[test]
fn push_many_pop_many_empty_inputs() {
    let mut buf = RingBuffer::<i32>::new(2);

    assert_eq!(buf.push_many(&[]), Ok(0));
    assert_eq!(buf.push(1), Ok(()));
    let mut none: [i32; 0] = [];
    assert_eq!(buf.pop_many(&mut none), Ok(0));

    assert_eq!(buf.push(2), Ok(()));
    assert_eq!(buf.push_many(&[3]), Err(PushError::Full));

    let mut out = [0; 2];
    assert_eq!(buf.pop_many(&mut out), Ok(2));
    assert_eq!(out, [1, 2]);
    assert_eq!(buf.pop_many(&mut out), Err(PopError::Empty));
}

#[test]
fn push_many_through_handles() {
    let buf = RingBuffer::<i32>::new(3);
    let (mut prod, mut cons) = buf.split();

    assert_eq!(prod.push_many(&[7, 8]), Ok(2));
    let mut out = [0; 3];
    assert_eq!(cons.pop_many(&mut out), Ok(2));
    assert_eq!(out, [7, 8, 0]);
}

#[test]
fn badlen_claims_unprovided_values() {
    let mut buf = RingBuffer::<i32>::new(2);

    let claim_two_give_one = |left_len: usize, right_len: usize| -> Result<(usize, Vec<i32>, ()), ()> {
        assert_eq!(left_len + right_len, 2);
        Ok((2, vec![41], ()))
    };
    assert_eq!(buf.push_access(claim_two_give_one), Err(PushAccessError::BadLen));
    assert_eq!(buf.head_tail(), (0, 0));

    let give_one = |_left_len: usize, _right_len: usize| -> Result<(usize, Vec<i32>, ()), ()> {
        Ok((1, vec![41], ()))
    };
    assert_eq!(buf.push_access(give_one), Ok(Ok((1, ()))));
    assert_eq!(buf.pop(), Ok(41));
}

#[test]
fn scenario_badlen_then_commit() {
    let buf = RingBuffer::<i32>::new(3);
    let (mut prod, mut cons) = buf.split();

    assert_eq!(prod.push(1), Ok(()));
    assert_eq!(prod.push(2), Ok(()));
    assert_eq!(cons.pop(), Ok(1));
    assert_eq!(cons.pop(), Ok(2));
    assert_eq!(cons.head_tail(), (2, 2));

    let misreport = |left_len: usize, right_len: usize| -> Result<(usize, Vec<i32>, ()), ()> {
        assert_eq!(left_len + right_len, 3);
        Ok((2, vec![71], ()))
    };
    assert_eq!(prod.push_access(misreport), Err(PushAccessError::BadLen));
    assert_eq!(prod.head_tail(), (2, 2));

    let commit_one = |left_len: usize, right_len: usize| -> Result<(usize, Vec<i32>, ()), ()> {
        assert_eq!(left_len + right_len, 3);
        Ok((1, vec![71], ()))
    };
    assert_eq!(prod.push_access(commit_one), Ok(Ok((1, ()))));
    assert_eq!(cons.pop(), Ok(71));
    assert_eq!(cons.pop(), Err(PopError::Empty));
}

#[test]
fn owner_pop_access_wraparound() {
    let mut buf = RingBuffer::<i32>::new(2);
    assert_eq!(buf.push(1), Ok(()));
    assert_eq!(buf.push(2), Ok(()));
    assert_eq!(buf.pop(), Ok(1));
    assert_eq!(buf.pop(), Ok(2));
    assert_eq!(buf.push(3), Ok(()));
    assert_eq!(buf.push(4), Ok(()));

    let read_both = |left: Vec<i32>, right: Vec<i32>| -> Result<(usize, ()), ()> {
        assert_eq!(left, vec![3]);
        assert_eq!(right, vec![4]);
        Ok((2, ()))
    };
    assert_eq!(buf.pop_access(read_both), Ok(Ok((2, ()))));
    assert!(buf.is_empty());
}
