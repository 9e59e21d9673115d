use std::cell::Cell;
use std::rc::Rc;

use buffers::ringbuf::{Multi, RingBuf, Single};
use buffers::{MpmcRingBuf, MpscRingBuf, SpscRingBuf};

#[test]
fn push_pop() {
    let mut buf: SpscRingBuf<i32, 4> = SpscRingBuf::new();
    assert!(buf.is_empty());
    assert_eq!(buf.len(), 0);
    assert_eq!(buf.pop(), None);

    buf.push(1).unwrap();
    buf.push(2).unwrap();
    buf.push(3).unwrap();
    assert_eq!(buf.len(), 3);
    assert!(!buf.is_full());

    assert_eq!(buf.pop(), Some(1));
    assert_eq!(buf.pop(), Some(2));
    assert_eq!(buf.pop(), Some(3));
    assert_eq!(buf.pop(), None);
    assert!(buf.is_empty());
}

#[test]
fn full() {
    let mut buf: SpscRingBuf<i32, 2> = SpscRingBuf::new();
    buf.push(1).unwrap();
    buf.push(2).unwrap();
    assert!(buf.is_full());
    assert_eq!(buf.push(3), Err(3));
    buf.pop().unwrap();
    buf.push(3).unwrap();
    assert_eq!(buf.pop(), Some(2));
    assert_eq!(buf.pop(), Some(3));
}

#[test]
fn wrapping() {
    let mut buf: SpscRingBuf<i32, 4> = SpscRingBuf::new();
    for cycle in 0..100 {
        for i in 0..4 {
            buf.push(cycle * 4 + i).unwrap();
        }
        for i in 0..4 {
            assert_eq!(buf.pop(), Some(cycle * 4 + i));
        }
    }
}

struct Item {
    drops: Rc<Cell<usize>>,
}

impl std::fmt::Debug for Item {
    fn fmt(&self, f: &mut std::fmt::Formatter<'_>) -> std::fmt::Result {
        f.write_str("Item")
    }
}

impl Drop for Item {
    fn drop(&mut self) {
        self.drops.set(self.drops.get() + 1);
    }
}

#[test]
fn drop_counter() {
    let drops = Rc::new(Cell::new(0usize));
    {
        let mut buf: SpscRingBuf<Item, 4> = SpscRingBuf::new();
        buf.push(Item { drops: drops.clone() }).unwrap();
        buf.push(Item { drops: drops.clone() }).unwrap();
        let item = buf.pop().unwrap();
        drop(item);
        assert_eq!(drops.get(), 1);
    }
    assert_eq!(drops.get(), 2);
}

#[test]
fn zst() {
    let mut buf: SpscRingBuf<(), 4> = SpscRingBuf::new();
    buf.push(()).unwrap();
    buf.push(()).unwrap();
    assert_eq!(buf.len(), 2);
    assert_eq!(buf.pop(), Some(()));
    assert_eq!(buf.pop(), Some(()));
    assert_eq!(buf.pop(), None);
}

#[test]
fn capacity() {
    assert_eq!(SpscRingBuf::<i32, 16>::new().capacity(), 16);
    assert_eq!(MpscRingBuf::<u64, 256>::new().capacity(), 256);
    assert_eq!(MpmcRingBuf::<u8, 8>::new().capacity(), 8);
}

#[test]
fn multi_producer_push_pop_in_order() {
    let mut buf: MpscRingBuf<u32, 3> = MpscRingBuf::new();
    assert!(buf.is_empty());
    assert_eq!(buf.capacity(), 3);
    assert_eq!(buf.push(10), Ok(()));
    assert_eq!(buf.push(20), Ok(()));
    assert_eq!(buf.push(30), Ok(()));
    assert_eq!(buf.push(40), Err(40));
    assert!(buf.is_full());
    assert_eq!(buf.len(), 3);
    assert_eq!(buf.pop(), Some(10));
    assert_eq!(buf.push(40), Ok(()));
    assert_eq!(buf.pop(), Some(20));
    assert_eq!(buf.pop(), Some(30));
    assert_eq!(buf.pop(), Some(40));
    assert_eq!(buf.pop(), None);
}

#[test]
fn multi_consumer_push_pop_in_order() {
    let mut buf: MpmcRingBuf<char, 2> = MpmcRingBuf::new();
    assert_eq!(buf.pop(), None);
    assert_eq!(buf.push('a'), Ok(()));
    assert_eq!(buf.pop(), Some('a'));
    assert_eq!(buf.push('b'), Ok(()));
    assert_eq!(buf.push('c'), Ok(()));
    assert_eq!(buf.push('d'), Err('d'));
    assert_eq!(buf.pop(), Some('b'));
    assert_eq!(buf.pop(), Some('c'));
    assert!(buf.is_empty());
}

#[test]
fn single_producer_multi_consumer_policy() {
    let mut buf: RingBuf<i64, 1, Single, Multi> = RingBuf::new();
    assert_eq!(buf.push(-5), Ok(()));
    assert_eq!(buf.push(6), Err(6));
    assert_eq!(buf.pop(), Some(-5));
    assert_eq!(buf.pop(), None);
}

#[test]
fn zero_capacity_refuses_everything() {
    let mut buf: SpscRingBuf<i32, 0> = SpscRingBuf::new();
    assert_eq!(buf.capacity(), 0);
    assert!(buf.is_empty());
    assert!(buf.is_full());
    assert_eq!(buf.push(1), Err(1));
    assert_eq!(buf.pop(), None);
    assert_eq!(buf.len(), 0);
}

#[test]
fn odd_capacity_wraps_in_order() {
    let mut buf: SpscRingBuf<usize, 3> = SpscRingBuf::new();
    let mut next_in = 0usize;
    let mut next_out = 0usize;
    for round in 0..50usize {
        let pushes = round % 4;
        for _ in 0..pushes {
            if buf.push(next_in).is_ok() {
                next_in += 1;
            }
        }
        assert!(buf.len() <= 3);
        let pops = (round + 1) % 3;
        for _ in 0..pops {
            if let Some(x) = buf.pop() {
                assert_eq!(x, next_out);
                next_out += 1;
            }
        }
        assert_eq!(buf.len(), next_in - next_out);
    }
}

#[test]
fn raw_full_and_empty_tests_wrap() {
    type B = SpscRingBuf<u8, 4>;
    assert!(!B::is_full_raw(3, 0));
    assert!(B::is_full_raw(4, 0));
    assert!(!B::is_full_raw(1, usize::MAX));
    assert!(B::is_full_raw(3, usize::MAX));
    assert!(B::is_empty_raw(7, 7));
    assert!(!B::is_empty_raw(7, 8));
}

#[test]
fn can_push_in_ordinary_use() {
    let mut buf: SpscRingBuf<u8, 3> = SpscRingBuf::new();
    assert!(buf.can_push());
    for v in 0..5u8 {
        assert!(buf.can_push());
        let _ = buf.push(v);
    }
    assert!(buf.is_full());
    assert!(buf.can_push());
    assert_eq!(buf.pop(), Some(0));
    assert!(buf.can_push());
}

#[test]
fn history_returns_accepted_prefix() {
    let mut buf: SpscRingBuf<u32, 3> = SpscRingBuf::new();
    let mut accepted: Vec<u32> = Vec::new();
    let mut returned: Vec<u32> = Vec::new();
    let pattern = [1u8, 1, 0, 1, 1, 1, 1, 0, 0, 1, 0, 0, 0, 0, 1, 1];
    for (step, &op) in pattern.iter().cycle().take(200).enumerate() {
        if op == 1 {
            let x = step as u32;
            let room = accepted.len() - returned.len() < 3;
            match buf.push(x) {
                Ok(()) => {
                    assert!(room);
                    accepted.push(x);
                }
                Err(y) => {
                    assert!(!room);
                    assert_eq!(y, x);
                }
            }
        } else if let Some(y) = buf.pop() {
            returned.push(y);
        } else {
            assert_eq!(accepted.len(), returned.len());
        }
        assert_eq!(&returned[..], &accepted[..returned.len()]);
        assert_eq!(buf.len(), accepted.len() - returned.len());
        assert!(buf.len() <= 3);
    }
}
