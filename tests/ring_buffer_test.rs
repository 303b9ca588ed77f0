use ring_buffer::{Discard, Error, FnHandler, RingBuffer};
use std::sync::{Arc, Mutex};

type Chunks = Arc<Mutex<Vec<Vec<u8>>>>;

fn recorder() -> (FnHandler<impl Fn(Vec<u8>)>, Chunks) {
    let chunks: Chunks = Arc::new(Mutex::new(Vec::new()));
    let sink: Chunks = chunks.clone();
    (
        FnHandler::new(move |chunk: Vec<u8>| sink.lock().unwrap().push(chunk)),
        chunks,
    )
}

#[test]
fn test1() {
    let mut rb: RingBuffer = RingBuffer::new(16);
    let buf: [u8; 17] = [1; 17];
    assert_eq!(rb.write(&buf), 16);

    let buf: [u8; 17] = [2; 17];
    assert_eq!(rb.write(&buf), 0);
}

#[test]
fn test2() {
    let mut rb: RingBuffer = RingBuffer::new(16);
    let buf: [u8; 8] = [2; 8];
    rb.write(&buf);
    assert_eq!(rb.len(), 8);

    let buf: [u8; 9] = [3; 9];
    rb.write(&buf);
    assert_eq!(rb.len(), 16);
}

#[test]
fn test3() {
    let mut rb: RingBuffer = RingBuffer::new(16);
    let buf: [u8; 8] = [3; 8];
    rb.write(&buf);
    assert_eq!(rb.len(), 8);

    let read_buf = rb.read_all();
    assert_eq!(read_buf.len(), 8);
}

#[test]
fn test_4() {
    let mut rb: RingBuffer = RingBuffer::new(16);
    let buf: [u8; 8] = [2; 8];
    rb.write(&buf);
    assert_eq!(rb.read_all(), vec![2; 8]);

    let buf: [u8; 8] = [3; 8];
    rb.write(&buf);
    assert_eq!(rb.read_all(), vec![3; 8]);
}

#[test]
fn test_5() {
    let mut rb: RingBuffer = RingBuffer::new(16);
    let buf: [u8; 9] = [2; 9];
    assert_eq!(rb.write(&buf), 9);

    let buf: [u8; 9] = [3; 9];
    assert_eq!(rb.write(&buf), 7);
    assert_eq!(
        rb.read_all(),
        vec![2, 2, 2, 2, 2, 2, 2, 2, 2, 3, 3, 3, 3, 3, 3, 3]
    );
}

#[test]
fn test_6() {
    let mut rb = RingBuffer::new(16);
    let buf: [u8; 32] = [2; 32];

    rb.set_callback(FnHandler::new(|result: Vec<u8>| {
        assert_eq!(result, vec![2; 16]);
    }));

    rb.callback_by_write(&buf).unwrap();
}

#[test]
fn write_takes_what_fits() {
    let mut rb: RingBuffer = RingBuffer::new(16);
    assert_eq!(rb.write(&[7; 5]), 5);
    assert_eq!(rb.len(), 5);
    assert_eq!(rb.write(&[8; 20]), 11);
    assert_eq!(rb.len(), 16);
    assert!(rb.is_full());
    assert_eq!(rb.write(&[9; 1]), 0);
    assert_eq!(rb.len(), 16);
}

#[test]
fn write_of_nothing_takes_nothing() {
    let mut rb: RingBuffer = RingBuffer::new(4);
    assert_eq!(rb.write(&[]), 0);
    assert_eq!(rb.len(), 0);
    assert!(rb.read_all().is_empty());
}

#[test]
fn drain_twice_gives_all_then_nothing() {
    let mut rb: RingBuffer = RingBuffer::new(8);
    rb.write(&[1, 2, 3]);
    assert_eq!(rb.read_all(), vec![1, 2, 3]);
    assert_eq!(rb.read_all(), Vec::<u8>::new());
    assert_eq!(rb.len(), 0);
}

#[test]
fn round_trip_keeps_order() {
    let mut rb: RingBuffer = RingBuffer::new(6);
    let bytes: Vec<u8> = vec![10, 20, 30, 40, 50, 60];
    assert_eq!(rb.write(&bytes), 6);
    assert_eq!(rb.read_all(), bytes);
}

#[test]
fn wrap_around_keeps_order() {
    let mut rb: RingBuffer = RingBuffer::new(8);
    assert_eq!(rb.write(&[1, 2, 3, 4, 5]), 5);
    assert_eq!(rb.read_all(), vec![1, 2, 3, 4, 5]);
    assert_eq!(rb.write(&[6, 7, 8, 9, 10, 11, 12]), 7);
    assert_eq!(rb.write(&[13, 14]), 1);
    assert_eq!(rb.read_all(), vec![6, 7, 8, 9, 10, 11, 12, 13]);
    assert_eq!(rb.write(&[15, 16, 17]), 3);
    assert_eq!(rb.read_all(), vec![15, 16, 17]);
}

#[test]
fn two_writes_fill_sixteen() {
    let mut rb: RingBuffer = RingBuffer::new(16);
    let first = rb.write(&[1; 9]);
    let second = rb.write(&[2; 9]);
    assert_eq!(first + second, 16);
    assert_eq!(
        rb.read_all(),
        vec![1, 1, 1, 1, 1, 1, 1, 1, 1, 2, 2, 2, 2, 2, 2, 2]
    );
}

#[test]
fn zero_capacity_is_full_and_takes_nothing() {
    let mut rb: RingBuffer = RingBuffer::new(0);
    assert_eq!(rb.capacity(), 0);
    assert!(rb.is_full());
    assert_eq!(rb.write(&[1, 2, 3]), 0);
    assert_eq!(rb.len(), 0);
    assert!(rb.read_all().is_empty());
}

#[test]
fn capacity_is_fixed() {
    let mut rb: RingBuffer = RingBuffer::new(12);
    assert_eq!(rb.capacity(), 12);
    rb.write(&[0; 30]);
    rb.read_all();
    assert_eq!(rb.capacity(), 12);
}

#[test]
fn dispatch_without_handler_fails() {
    let mut rb: RingBuffer = RingBuffer::new(16);
    rb.write(&[4; 3]);
    assert_eq!(rb.callback_by_write(&[1; 5]), Err(Error::CallBack));
    assert_eq!(
        Error::CallBack.message(),
        "not set callback function to accquire buffer"
    );
    assert_eq!(rb.len(), 3);
    assert_eq!(rb.read_all(), vec![4; 3]);
}

#[test]
fn dispatch_after_registration_hands_on_drained_bytes() {
    let mut rb = RingBuffer::new(4);
    let (handler, chunks) = recorder();
    assert_eq!(rb.callback_by_write(&[1, 2, 3, 4]), Err(Error::CallBack));
    assert!(!rb.is_callback_set());
    rb.set_callback(handler);
    assert!(rb.is_callback_set());
    assert_eq!(rb.callback_by_write(&[1, 2, 3, 4]), Ok(()));
    assert_eq!(*chunks.lock().unwrap(), vec![vec![1, 2, 3, 4]]);
    assert_eq!(rb.len(), 0);
}

#[test]
fn dispatch_chunks_by_capacity() {
    let mut rb = RingBuffer::new(16);
    let (handler, chunks) = recorder();
    rb.set_callback(handler);
    assert_eq!(rb.callback_by_write(&[2; 32]), Ok(()));
    assert_eq!(*chunks.lock().unwrap(), vec![vec![2; 16], vec![2; 16]]);
    assert_eq!(rb.len(), 0);
}

#[test]
fn dispatch_drains_short_tail_without_handing_it_on() {
    let mut rb = RingBuffer::new(16);
    let (handler, chunks) = recorder();
    rb.set_callback(handler);
    assert_eq!(rb.callback_by_write(&[5; 40]), Ok(()));
    assert_eq!(*chunks.lock().unwrap(), vec![vec![5; 16], vec![5; 16]]);
    assert_eq!(rb.len(), 0);
    assert!(rb.read_all().is_empty());
}

#[test]
fn dispatch_includes_bytes_already_held() {
    let mut rb = RingBuffer::new(4);
    rb.write(&[9, 8]);
    let (handler, chunks) = recorder();
    rb.set_callback(handler);
    assert_eq!(rb.callback_by_write(&[1, 2, 3, 4, 5, 6, 7]), Ok(()));
    assert_eq!(
        *chunks.lock().unwrap(),
        vec![vec![9, 8, 1, 2], vec![3, 4, 5, 6]]
    );
    assert_eq!(rb.len(), 0);
}

#[test]
fn dispatch_with_full_buffer_hands_it_on_first() {
    let mut rb = RingBuffer::new(3);
    rb.write(&[1, 2, 3]);
    let (handler, chunks) = recorder();
    rb.set_callback(handler);
    assert_eq!(rb.callback_by_write(&[4, 5, 6]), Ok(()));
    assert_eq!(*chunks.lock().unwrap(), vec![vec![1, 2, 3], vec![4, 5, 6]]);
}

#[test]
fn dispatch_of_nothing_changes_nothing() {
    let mut rb = RingBuffer::new(4);
    rb.write(&[1, 2]);
    let (handler, chunks) = recorder();
    rb.set_callback(handler);
    assert_eq!(rb.callback_by_write(&[]), Ok(()));
    assert!(chunks.lock().unwrap().is_empty());
    assert_eq!(rb.read_all(), vec![1, 2]);
}

#[test]
fn later_handler_replaces_earlier() {
    let mut rb = RingBuffer::new(2);
    let (first, first_chunks) = recorder();
    let (second, second_chunks) = recorder();
    rb.set_callback(first);
    rb.set_callback(second);
    assert_eq!(rb.callback_by_write(&[1, 2]), Ok(()));
    assert!(first_chunks.lock().unwrap().is_empty());
    assert_eq!(*second_chunks.lock().unwrap(), vec![vec![1, 2]]);
}

#[test]
fn dispatch_of_one_capacity_hands_on_one_chunk() {
    let mut rb = RingBuffer::new(16);
    let (handler, chunks) = recorder();
    rb.set_callback(handler);
    assert_eq!(rb.callback_by_write(&[7; 16]), Ok(()));
    assert_eq!(*chunks.lock().unwrap(), vec![vec![7; 16]]);
    assert_eq!(rb.len(), 0);
}

#[test]
fn dispatch_puts_held_bytes_first() {
    let mut rb = RingBuffer::new(16);
    rb.write(&[1; 10]);
    let (handler, chunks) = recorder();
    rb.set_callback(handler);
    assert_eq!(rb.callback_by_write(&[2; 10]), Ok(()));
    let mut expected: Vec<u8> = vec![1; 10];
    expected.extend_from_slice(&[2; 6]);
    assert_eq!(*chunks.lock().unwrap(), vec![expected]);
    assert_eq!(rb.len(), 0);
}

#[test]
fn discard_handler_accepts_dispatch() {
    let mut rb = RingBuffer::new(4);
    rb.set_callback(Discard::new());
    assert_eq!(rb.callback_by_write(&[1, 2, 3, 4, 5]), Ok(()));
    assert_eq!(rb.len(), 0);
}

#[test]
fn positions_coincide_when_empty_or_full() {
    let mut rb: RingBuffer = RingBuffer::new(4);
    assert!(rb.is_empty());
    rb.write(&[1, 2]);
    assert!(!rb.is_empty());
    rb.write(&[3, 4]);
    assert!(rb.is_full());
    assert!(rb.is_empty());
    rb.read_all();
    assert!(rb.is_empty());
    let zero: RingBuffer = RingBuffer::new(0);
    assert!(zero.is_empty());
    assert!(zero.is_full());
}
