use sevent::iobuf::IoBuffer;
use sevent::iobuf::DEFAULT_CAP;

fn put_i64(cb: &mut IoBuffer, v: i64) {
    cb.put_slice(&v.to_be_bytes());
}

fn put_u64(cb: &mut IoBuffer, v: u64) {
    cb.put_slice(&v.to_be_bytes());
}

fn get_i64(cb: &mut IoBuffer) -> i64 {
    i64::from_be_bytes(cb.copy_to_vec(8).try_into().unwrap())
}

fn get_u32(cb: &mut IoBuffer) -> u32 {
    u32::from_be_bytes(cb.copy_to_vec(4).try_into().unwrap())
}

fn get_u16(cb: &mut IoBuffer) -> u16 {
    u16::from_be_bytes(cb.copy_to_vec(2).try_into().unwrap())
}

fn read_u64(bytes: &[u8]) -> u64 {
    u64::from_be_bytes(bytes[..8].try_into().unwrap())
}

fn read_u16(bytes: &[u8]) -> u16 {
    u16::from_be_bytes(bytes[..2].try_into().unwrap())
}

#[test]
fn buffer_new() {
    let mut cb = IoBuffer::new();
    assert_eq!(cb.len(), 0);
    assert_eq!(cb.bytes_mut_len(), DEFAULT_CAP);

    let mut cb = IoBuffer::with_capacity(100);
    assert_eq!(cb.len(), 0);
    assert_eq!(cb.bytes_mut_len(), 128);
}

#[test]
fn buffer_put() {
    let mut cb = IoBuffer::new();
    put_i64(&mut cb, 42);
    put_i64(&mut cb, 123);
    put_i64(&mut cb, -21444);
    put_i64(&mut cb, 88);
    assert_eq!(cb.len(), 8 * 4);
    assert_eq!(cb.bytes_mut_len(), DEFAULT_CAP - 8 * 4);
    assert_eq!(cb.bytes().len(), 8 * 4);
    assert_eq!(get_i64(&mut cb), 42);
    assert_eq!(get_i64(&mut cb), 123);
    assert_eq!(cb.bytes().len(), 8 * 2);
    assert_eq!(get_i64(&mut cb), -21444);
    assert_eq!(get_i64(&mut cb), 88);
    assert_eq!(cb.bytes().len(), 0);
    assert_eq!(cb.bytes_mut_len(), DEFAULT_CAP);
}

#[test]
fn buffer_peek() {
    let mut cb = IoBuffer::with_capacity(10);
    cb.with_peek(0, |buf| {
        assert!(buf.is_some());
    });
    cb.with_peek(1, |buf| {
        assert!(buf.is_none());
    });

    put_u64(&mut cb, 0x1122334455667788);
    cb.with_peek(8, |buf| {
        let bytes = buf.unwrap();
        assert_eq!(read_u64(bytes), 0x1122334455667788);
    });
    cb.with_peek(9, |buf| {
        assert!(buf.is_none());
    });

    assert_eq!(get_u32(&mut cb), 0x11223344); // read 4
    assert_eq!(get_u16(&mut cb), 0x5566); // read 2
    cb.with_peek(2, |buf| {
        let bytes = buf.unwrap();
        assert_eq!(read_u16(bytes), 0x7788);
    });
    cb.with_peek(3, |buf| {
        assert!(buf.is_none());
    });
    put_u64(&mut cb, 0x1122334455667788); // put 8 => buffer full and starting at 6
    cb.with_peek(10, |buf| {
        let bytes = buf.unwrap();
        assert_eq!(read_u16(&bytes[..2]), 0x7788);
        assert_eq!(read_u64(&bytes[2..10]), 0x1122334455667788);
    });
}

#[test]
fn buffer_reserve() {
    let mut cb = IoBuffer::new();
    cb.reserve(1);
    assert_eq!(cb.bytes_mut_len(), 32);
    cb.reserve(32);
    assert_eq!(cb.bytes_mut_len(), 32);
    cb.reserve(33);
    assert_eq!(cb.bytes_mut_len(), 64);
}

#[test]
fn buffer_bincode() {
    let mut cb = IoBuffer::with_capacity(3);
    let msg0 = (1u64, Some(true), "foobar".to_owned());
    let msg1 = (1234u64, Some(false), "bladsf lakds jfkjsa kfdjds".to_owned());
    cb.put_frame(&bincode::serialize(&msg0).unwrap());
    cb.put_frame(&bincode::serialize(&msg1).unwrap());
    let msgs: Vec<Result<(u64, Option<bool>, String), bincode::Error>> =
        cb.drain_frames().iter().map(|p| bincode::deserialize(p)).collect();
    assert_eq!(msgs[0].as_ref().expect("deserialization failure"), &msg0);
    assert_eq!(msgs[1].as_ref().expect("deserialization failure"), &msg1);
}

#[test]
fn buffer_peek_across_chunks_copies() {
    let mut cb = IoBuffer::with_capacity(4);
    cb.put_slice(&[1; 32]);
    cb.put_slice(&[2, 3]); // the first chunk (32 slots) is full: a new one of 1024 takes these
    assert_eq!(cb.chunk_count(), 2);
    assert_eq!(cb.chunk(1), &[2, 3]);
    let got = cb.with_peek(33, |buf| buf.unwrap()[31..].to_vec());
    assert_eq!(got, vec![1, 2]);
    assert_eq!(cb.len(), 34);
}

#[test]
fn buffer_advance_drops_read_chunks() {
    let mut cb = IoBuffer::with_capacity(4);
    cb.put_slice(&[1; 32]);
    cb.put_slice(&[2, 3, 4]);
    cb.advance(33);
    assert_eq!(cb.chunk_count(), 1);
    assert_eq!(cb.bytes(), &[3, 4]);
    cb.advance(2);
    assert_eq!(cb.chunk_count(), 0);
    assert_eq!(cb.bytes(), &[] as &[u8]);
}

#[test]
fn buffer_reserve_adds_chunk_after_data() {
    let mut cb = IoBuffer::with_capacity(10);
    cb.put_slice(&[5; 10]);
    cb.reserve(100); // 22 spare slots are too few, and the chunk holds data
    assert_eq!(cb.chunk_count(), 2);
    assert_eq!(cb.bytes_mut_len(), 128);
    assert_eq!(cb.iovec_count(), 2);
}

#[test]
fn buffer_frames_left_partial() {
    let mut cb = IoBuffer::new();
    cb.put_frame(b"abc");
    cb.put_slice(&[0, 0, 0, 9, 1]);
    assert_eq!(cb.next_frame(), Some(b"abc".to_vec()));
    assert_eq!(cb.next_frame(), None);
    assert_eq!(cb.len(), 5);
}

#[test]
fn buffer_reserve_then_put_adds_no_chunk() {
    let mut cb = IoBuffer::new();
    cb.put_slice(&[1; 1000]);
    cb.reserve(50); // 24 spare slots: a chunk of 64 is added
    assert_eq!(cb.chunk_count(), 2);
    cb.put_slice(&[2; 50]);
    assert_eq!(cb.chunk_count(), 2);
    assert_eq!(cb.chunk(1), &[2; 50][..]);
    assert_eq!(cb.bytes_mut_len(), 14);
}

#[test]
fn buffer_take_frame_header_leaves_payload_to_stream() {
    let mut cb = IoBuffer::new();
    cb.put_frame(b"abc");
    cb.put_slice(&[9]);
    assert_eq!(cb.take_frame_header(), Some(3));
    assert_eq!(cb.len(), 4);
    // a reader that takes only two bytes of the payload leaves the rest
    assert_eq!(cb.copy_to_vec(2), b"ab".to_vec());
    assert_eq!(cb.len(), 2);
    // no complete frame: nothing is taken
    assert_eq!(cb.take_frame_header(), None);
    assert_eq!(cb.len(), 2);
}

#[test]
fn buffer_bincode_stream_read() {
    let mut cb = IoBuffer::with_capacity(3);
    let msg = (7u64, "xy".to_owned());
    cb.put_frame(&bincode::serialize(&msg).unwrap());
    let n = cb.take_frame_header().unwrap();
    let payload = cb.copy_to_vec(n);
    let got: (u64, String) = bincode::deserialize_from(&payload[..]).unwrap();
    assert_eq!(got, msg);
    assert_eq!(cb.len(), 0);
}
