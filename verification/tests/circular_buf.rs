use sevent::circular_buf::CircularBuffer;
use sevent::circular_buf::INITIAL_CAP;

fn put_i64(cb: &mut CircularBuffer, v: i64) {
    cb.put_slice(&v.to_be_bytes());
}

fn put_i32(cb: &mut CircularBuffer, v: i32) {
    cb.put_slice(&v.to_be_bytes());
}

fn put_u64(cb: &mut CircularBuffer, v: u64) {
    cb.put_slice(&v.to_be_bytes());
}

fn get_i64(cb: &mut CircularBuffer) -> i64 {
    i64::from_be_bytes(cb.copy_to_vec(8).try_into().unwrap())
}

fn get_i32(cb: &mut CircularBuffer) -> i32 {
    i32::from_be_bytes(cb.copy_to_vec(4).try_into().unwrap())
}

fn get_i16(cb: &mut CircularBuffer) -> i16 {
    i16::from_be_bytes(cb.copy_to_vec(2).try_into().unwrap())
}

fn get_i8(cb: &mut CircularBuffer) -> i8 {
    cb.copy_to_vec(1)[0] as i8
}

fn get_u64(cb: &mut CircularBuffer) -> u64 {
    u64::from_be_bytes(cb.copy_to_vec(8).try_into().unwrap())
}

fn get_u32(cb: &mut CircularBuffer) -> u32 {
    u32::from_be_bytes(cb.copy_to_vec(4).try_into().unwrap())
}

fn get_u16(cb: &mut CircularBuffer) -> u16 {
    u16::from_be_bytes(cb.copy_to_vec(2).try_into().unwrap())
}

#[test]
fn circular_buffer_new() {
    let mut cb = CircularBuffer::new();
    assert_eq!(cb.len(), 0);
    assert_eq!(cb.bytes_mut_len(), INITIAL_CAP);

    let mut cb = CircularBuffer::with_capacity(100);
    assert_eq!(cb.len(), 0);
    assert_eq!(cb.bytes_mut_len(), 100);
}

#[test]
fn circular_buffer_put() {
    let mut cb = CircularBuffer::new();
    put_i64(&mut cb, 42);
    put_i64(&mut cb, 123);
    put_i64(&mut cb, -21444);
    put_i64(&mut cb, 88);
    assert_eq!(cb.len(), 8 * 4);
    assert_eq!(cb.bytes_mut_len(), INITIAL_CAP - 8 * 4);
    assert_eq!(cb.bytes().len(), 8 * 4);
    assert_eq!(get_i64(&mut cb), 42);
    assert_eq!(get_i64(&mut cb), 123);
    assert_eq!(cb.bytes().len(), 8 * 2);
    assert_eq!(get_i64(&mut cb), -21444);
    assert_eq!(get_i64(&mut cb), 88);
    assert_eq!(cb.bytes().len(), 0);
    assert_eq!(cb.bytes_mut_len(), INITIAL_CAP);
}

#[test]
fn circular_buffer_doubles_capacity() {
    let mut cb = CircularBuffer::with_capacity(10);
    put_i64(&mut cb, 42);
    put_i64(&mut cb, 32);
    assert_eq!(cb.bytes_mut_len(), 20 - 8 * 2);
    put_i64(&mut cb, 12);
    assert_eq!(cb.len(), 8 * 3);
    assert_eq!(cb.bytes_mut_len(), 40 - 8 * 3);
    assert_eq!(get_i64(&mut cb), 42);
    assert_eq!(get_i64(&mut cb), 32);
    assert_eq!(get_i64(&mut cb), 12);
}

#[test]
fn circular_buffer_start_after_end() {
    let mut cb = CircularBuffer::with_capacity(10);
    put_i32(&mut cb, 42); // advance end by 4;
    assert_eq!(cb.bytes_mut_len(), 6);
    assert_eq!(get_i32(&mut cb), 42); // start and end meet, both reset to 0
    assert_eq!(cb.bytes_mut_len(), 10);
    put_i32(&mut cb, 42); // advance end by 4;
    // advance start by 3. There is still space for an i64, but it is not contiguous
    get_i16(&mut cb);
    get_i8(&mut cb);
    assert_eq!(cb.bytes_mut_len(), 6);
    put_i64(&mut cb, 33);
    assert_eq!(cb.bytes_mut_len(), 1);
    assert_eq!(cb.len(), 9);
    get_i8(&mut cb);
    assert_eq!(get_i64(&mut cb), 33);
    // buffer should be reset since start/end have met
    assert_eq!(cb.bytes_mut_len(), 10);
}

#[test]
fn circular_buffer_pullup() {
    let mut cb = CircularBuffer::with_capacity(10);
    assert!(cb.pullup(0));
    assert!(!cb.pullup(1));

    put_u64(&mut cb, 0x1122334455667788);
    assert!(cb.pullup(8));
    assert!(!cb.pullup(9));

    assert_eq!(get_u32(&mut cb), 0x11223344); // read 4
    assert_eq!(get_u16(&mut cb), 0x5566); // read 2
    assert!(cb.pullup(2));
    assert!(!cb.pullup(3));
    put_u64(&mut cb, 0x1122334455667788); // put 8 => buffer full and starting at 6
    // this will be broken up in two parts
    assert_eq!(cb.len(), 10);
    assert_eq!(cb.bytes().len(), 4);
    // make it contiguous
    assert!(cb.pullup(5));
    assert_eq!(cb.len(), 10);
    assert_eq!(cb.bytes().len(), 10);
    assert_eq!(get_u16(&mut cb), 0x7788); // read 2
    assert_eq!(cb.len(), 8);
    assert_eq!(cb.bytes().len(), 8);
    assert_eq!(get_u64(&mut cb), 0x1122334455667788);
}

#[test]
fn circular_buffer_bincode() {
    let mut cb = CircularBuffer::with_capacity(3);
    let msg0 = (1u64, Some(true), "foobar".to_owned());
    let msg1 = (1234u64, Some(false), "bladsf lakds jfkjsa kfdjds".to_owned());
    cb.put_frame(&bincode::serialize(&msg0).unwrap());
    cb.put_frame(&bincode::serialize(&msg1).unwrap());
    let msgs: Vec<Result<(u64, Option<bool>, String), bincode::Error>> =
        cb.drain_frames().iter().map(|p| bincode::deserialize(p)).collect();
    assert_eq!(msgs[0].as_ref().expect("deserialization failure"), &msg0);
    assert_eq!(msgs[1].as_ref().expect("deserialization failure"), &msg1);
}

#[test]
fn circular_buffer_capacity_is_free_slots() {
    let mut cb = CircularBuffer::with_capacity(16);
    assert_eq!(cb.capacity(), 16);
    cb.put_slice(&[1, 2, 3, 4, 5]);
    assert_eq!(cb.capacity(), 11);
    cb.advance(2);
    assert_eq!(cb.capacity(), 13);
    assert_eq!(cb.bytes(), &[3, 4, 5]);
}

#[test]
fn circular_buffer_grows_from_nothing() {
    let mut cb = CircularBuffer::new();
    assert_eq!(cb.capacity(), 0);
    cb.put_slice(&[9; 1500]);
    // 0 slots grow to 1024, then to 2048
    assert_eq!(cb.len(), 1500);
    assert_eq!(cb.capacity(), 2048 - 1500);
    assert_eq!(cb.copy_to_vec(1500), vec![9u8; 1500]);
}

#[test]
fn circular_buffer_wrapped_growth_keeps_order() {
    let mut cb = CircularBuffer::with_capacity(4);
    cb.put_slice(&[1, 2, 3]);
    cb.advance(2);
    cb.put_slice(&[4, 5, 6]); // wraps: slots hold 5 6 3 4
    assert_eq!(cb.len(), 4);
    assert_eq!(cb.bytes(), &[3, 4]);
    cb.put_slice(&[7]); // full and wrapped: the contents move to slot 0 of 8 slots
    assert_eq!(cb.capacity(), 8 - 5);
    assert_eq!(cb.bytes(), &[3, 4, 5, 6, 7]);
}

#[test]
fn circular_buffer_frames_in_order_and_partial_left() {
    let mut cb = CircularBuffer::with_capacity(5);
    cb.put_frame(b"hello");
    cb.put_frame(b"");
    cb.put_frame(b"world!");
    // a header that announces 3 bytes, and only 2 of them
    cb.put_slice(&[0, 0, 0, 3, 0xaa, 0xbb]);
    let frames = cb.drain_frames();
    assert_eq!(frames, vec![b"hello".to_vec(), Vec::new(), b"world!".to_vec()]);
    assert_eq!(cb.len(), 6);
    assert_eq!(cb.next_frame(), None);
    cb.put_slice(&[0xcc]);
    assert_eq!(cb.next_frame(), Some(vec![0xaa, 0xbb, 0xcc]));
    assert_eq!(cb.len(), 0);
}

#[test]
fn circular_buffer_frame_header_is_big_endian() {
    let mut cb = CircularBuffer::new();
    cb.put_frame(&[7u8; 300]);
    assert_eq!(cb.copy_to_vec(4), vec![0, 0, 1, 44]);
}

#[test]
fn circular_buffer_fits() {
    let cb = CircularBuffer::new();
    assert!(cb.fits(10));
    assert!(!cb.fits(usize::MAX));
    let mut cb = CircularBuffer::with_capacity(8);
    cb.put_slice(&[1, 2]);
    assert!(cb.fits(usize::MAX / 4));
    assert!(!cb.fits(usize::MAX - 1));
}
