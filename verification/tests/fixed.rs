use buffers::fixed::RingBuf;

#[test]
fn fixed_new_is_empty() {
    let buf: RingBuf<4> = RingBuf::new();
    assert!(buf.is_empty());
    assert_eq!(buf.len(), 0);
    assert_eq!(buf.data, vec![0usize; 4]);
    assert_eq!(buf.head, 0);
    assert_eq!(buf.tail, 0);
    assert!(!buf.full);
}

#[test]
fn fixed_write_then_read_in_order() {
    let mut buf: RingBuf<3> = RingBuf::new();
    assert!(buf.write(7));
    assert!(buf.write(8));
    assert_eq!(buf.len(), 2);
    assert_eq!(buf.read(), Some(7));
    assert_eq!(buf.read(), Some(8));
    assert_eq!(buf.read(), None);
    assert!(buf.is_empty());
}

#[test]
fn fixed_full_refuses_write() {
    let mut buf: RingBuf<2> = RingBuf::new();
    assert!(buf.write(1));
    assert!(buf.write(2));
    assert!(buf.full);
    assert_eq!(buf.len(), 2);
    assert!(!buf.write(3));
    assert_eq!(buf.len(), 2);
    assert_eq!(buf.read(), Some(1));
    assert!(!buf.full);
    assert!(buf.write(3));
    assert_eq!(buf.read(), Some(2));
    assert_eq!(buf.read(), Some(3));
    assert_eq!(buf.read(), None);
}

#[test]
fn fixed_len_counts_across_the_wrap() {
    let mut buf: RingBuf<4> = RingBuf::new();
    for v in 0..3usize {
        assert!(buf.write(v));
    }
    assert_eq!(buf.read(), Some(0));
    assert_eq!(buf.read(), Some(1));
    assert!(buf.write(3));
    assert!(buf.write(4));
    assert_eq!(buf.head, 1);
    assert_eq!(buf.tail, 2);
    assert_eq!(buf.len(), 3);
    assert_eq!(buf.read(), Some(2));
    assert_eq!(buf.read(), Some(3));
    assert_eq!(buf.read(), Some(4));
    assert!(buf.is_empty());
}

#[test]
fn fixed_zero_slots_reads_nothing() {
    let mut buf: RingBuf<0> = RingBuf::new();
    assert!(buf.is_empty());
    assert_eq!(buf.len(), 0);
    assert_eq!(buf.read(), None);
}

#[test]
fn fixed_is_empty_and_len_read_the_fields() {
    let buf: RingBuf<4> = RingBuf { data: vec![9, 8, 7, 6], head: 1, tail: 3, full: false };
    assert!(!buf.is_empty());
    assert_eq!(buf.len(), 2);
    let full: RingBuf<4> = RingBuf { data: vec![9, 8, 7, 6], head: 2, tail: 2, full: true };
    assert!(!full.is_empty());
    assert_eq!(full.len(), 4);
    let empty: RingBuf<4> = RingBuf { data: vec![0; 4], head: 2, tail: 2, full: false };
    assert!(empty.is_empty());
    assert_eq!(empty.len(), 0);
}

#[test]
fn fixed_history_returns_accepted_prefix() {
    let mut buf: RingBuf<3> = RingBuf::new();
    let mut accepted: Vec<usize> = Vec::new();
    let mut returned: Vec<usize> = Vec::new();
    let pattern = [1u8, 1, 1, 1, 0, 1, 0, 0, 1, 1, 0, 0, 0, 0];
    for (step, &op) in pattern.iter().cycle().take(200).enumerate() {
        if op == 1 {
            let written = buf.write(step);
            assert_eq!(written, accepted.len() - returned.len() < 3);
            if written {
                accepted.push(step);
            }
        } else if let Some(y) = buf.read() {
            returned.push(y);
        } else {
            assert_eq!(accepted.len(), returned.len());
        }
        assert_eq!(&returned[..], &accepted[..returned.len()]);
        assert_eq!(buf.len(), accepted.len() - returned.len());
    }
}
