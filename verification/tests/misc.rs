use sevent::connection::{connection_write, ConnState, IoOutcome, ReadStep, WriteStep, READ_SIZE};
use sevent::evloop::{rotate, shutdown, LoopState, WorkBudget};
use sevent::ext::{drain_frames, duration_nanosecs, duration_usecs, frame_at, put_frame, DurationExt, FrameCursor};
use sevent::{token_from_id_kind, token_to_id_kind, Config, TokenKind, POLL_TIMEOUT_NS};
use std::collections::VecDeque;
use std::time::Duration;

#[test]
fn token_roundtrip() {
    for kind in [TokenKind::Listener, TokenKind::Connect, TokenKind::Connection, TokenKind::Chan, TokenKind::Timer] {
        let t = token_from_id_kind(12345, kind);
        assert_eq!(token_to_id_kind(t), (12345, kind));
    }
    assert_eq!(token_from_id_kind(5, TokenKind::Chan), (5 << 3) | 3);
    assert_eq!(token_to_id_kind(0b1010_100), (0b1010, TokenKind::Timer));
}

#[test]
fn config_default() {
    let c = Config::default();
    assert!(c.randomize_work);
    assert!(!c.work_until_would_block);
    assert_eq!(c.max_read_size, 16 * 1024);
    assert_eq!(c.max_write_size, 16 * 1024);
}

#[test]
fn vec_frames_roundtrip() {
    let mut v: Vec<u8> = Vec::new();
    put_frame(&mut v, b"one");
    put_frame(&mut v, b"two!");
    v.extend_from_slice(&[0, 0]);
    assert_eq!(frame_at(&v, 0), Some(3));
    assert_eq!(frame_at(&v, 7), Some(4));
    assert_eq!(frame_at(&v, 15), None);
    let frames = drain_frames(&mut v);
    assert_eq!(frames, vec![b"one".to_vec(), b"two!".to_vec()]);
    assert_eq!(v, vec![0, 0]);
}

#[test]
fn vec_frames_bincode() {
    let mut v: Vec<u8> = Vec::new();
    put_frame(&mut v, &bincode::serialize(&"hey joe!".to_string()).unwrap());
    let msgs: Vec<String> = drain_frames(&mut v).iter().map(|p| bincode::deserialize(p).unwrap()).collect();
    assert_eq!(msgs, vec!["hey joe!".to_string()]);
    assert!(v.is_empty());
}

#[test]
fn durations() {
    assert_eq!(duration_nanosecs(2, 5), 2_000_000_005);
    assert_eq!(duration_usecs(2, 5_999), 2_000_005);
    let d = Duration::new(3, 250_000);
    assert_eq!(d.as_nanosecs(), 3_000_250_000);
    assert_eq!(d.as_usecs(), 3_000_250);
    // wraps around past u64::MAX
    assert_eq!(duration_nanosecs(u64::MAX, 0), u64::MAX.wrapping_mul(1_000_000_000));
}

#[test]
fn connection_write_steps() {
    let mut c = ConnState::new(7);
    assert!(c.writable && !c.readable);
    assert!(!c.is_writable());
    let became = connection_write(&mut c, |mut b| {
        b.extend_from_slice(b"hello");
        b
    });
    assert!(became);
    assert!(c.is_writable());
    let again = connection_write(&mut c, |mut b| {
        b.push(b'!');
        b
    });
    assert!(!again);
    assert_eq!(c.write_done(16, IoOutcome::Done(2)), WriteStep::Again);
    assert_eq!(c.wbuf, b"llo!".to_vec());
    assert_eq!(c.write_done(16, IoOutcome::WouldBlock), WriteStep::Blocked);
    assert!(!c.writable && !c.is_writable());
    assert_eq!(c.write_done(16, IoOutcome::Failed), WriteStep::Failed);
    c.ready(false, true);
    assert_eq!(c.write_done(16, IoOutcome::Done(4)), WriteStep::Finished);
    assert!(c.wbuf.is_empty());
}

#[test]
fn connection_read_steps() {
    let mut c = ConnState::new(1);
    c.ready(true, false);
    assert!(c.is_readable());
    let orig = c.read_start(READ_SIZE);
    assert_eq!(orig, 0);
    assert_eq!(c.rbuf.len(), READ_SIZE);
    c.rbuf[0] = 42;
    c.rbuf[1] = 43;
    assert_eq!(c.read_done(orig, READ_SIZE, IoOutcome::Done(2)), ReadStep::Again);
    assert_eq!(c.rbuf, vec![42, 43]);
    let orig = c.read_start(READ_SIZE);
    assert_eq!(c.read_done(orig, READ_SIZE, IoOutcome::WouldBlock), ReadStep::Blocked);
    assert_eq!(c.rbuf, vec![42, 43]);
    assert!(!c.is_readable());
    let orig = c.read_start(READ_SIZE);
    assert_eq!(c.read_done(orig, READ_SIZE, IoOutcome::Done(0)), ReadStep::Closed);
    let orig = c.read_start(READ_SIZE);
    assert_eq!(c.read_done(orig, READ_SIZE, IoOutcome::Failed), ReadStep::Failed);
    assert_eq!(c.rbuf.len(), 2);
}

#[test]
fn loop_state_and_budget() {
    let mut s = LoopState::new();
    assert!(s.is_running());
    assert_eq!(s.poll_timeout_ns(), None);
    s.note_pending();
    assert_eq!(s.poll_timeout_ns(), Some(POLL_TIMEOUT_NS));
    assert!(s.note_pending_write(10));
    assert!(!s.note_pending_write(5));
    assert_eq!(s.max_pending_write, 10);
    shutdown(&mut s);
    assert!(!s.is_running());

    let cfg = Config::default();
    let mut b = WorkBudget::new(&cfg, 2);
    assert!(b.take());
    assert!(b.take());
    assert!(!b.take());
    let cfg = Config { work_until_would_block: true, ..Config::default() };
    let mut b = WorkBudget::new(&cfg, 0);
    assert!(b.take());
}

#[test]
fn rotation() {
    let mut q: VecDeque<u32> = (1..=5).collect();
    rotate(&mut q, 2);
    assert_eq!(q, VecDeque::from(vec![3, 4, 5, 1, 2]));
    let mut q: VecDeque<u32> = (1..=5).collect();
    sevent::evloop::rotate_randomly(&mut q);
    let mut v: Vec<u32> = q.iter().copied().collect();
    v.sort();
    assert_eq!(v, vec![1, 2, 3, 4, 5]);
}

#[test]
fn rotation_is_random() {
    let mut seen_rotated = false;
    let mut seen_kept = false;
    for _ in 0..200 {
        let mut q: VecDeque<u32> = VecDeque::from(vec![1, 2]);
        sevent::evloop::rotate_randomly(&mut q);
        if q == VecDeque::from(vec![2, 1]) {
            seen_rotated = true;
        } else {
            assert_eq!(q, VecDeque::from(vec![1, 2]));
            seen_kept = true;
        }
    }
    assert!(seen_rotated && seen_kept);
}

#[test]
fn connection_limits_per_read_and_write() {
    let mut c = ConnState::new(3);
    let cfg = Config { max_read_size: 100, max_write_size: 3, ..Config::default() };
    c.wbuf = b"abcdefgh".to_vec();
    assert_eq!(c.write_size(cfg.max_write_size), 3);
    assert_eq!(c.write_done(cfg.max_write_size, IoOutcome::Done(3)), WriteStep::Again);
    assert_eq!(c.wbuf, b"defgh".to_vec());
    c.wbuf = b"ab".to_vec();
    assert_eq!(c.write_size(cfg.max_write_size), 2);
    let orig = c.read_start(cfg.max_read_size);
    assert_eq!(c.rbuf.len(), 100);
    assert_eq!(c.read_done(orig, cfg.max_read_size, IoOutcome::Done(100)), ReadStep::Again);
    assert_eq!(c.rbuf.len(), 100);
}

#[test]
fn frame_cursor_removes_taken_frames() {
    let mut v: Vec<u8> = Vec::new();
    put_frame(&mut v, b"a");
    put_frame(&mut v, b"bc");
    put_frame(&mut v, b"def");
    v.push(0);
    let mut c = FrameCursor::new();
    assert_eq!(c.next(&v), Some(b"a".to_vec()));
    assert_eq!(c.next(&v), Some(b"bc".to_vec()));
    assert_eq!(c.position(), 11);
    c.finish(&mut v);
    let mut c = FrameCursor::new();
    assert_eq!(c.next(&v), Some(b"def".to_vec()));
    assert_eq!(c.next(&v), None);
    c.finish(&mut v);
    assert_eq!(v, vec![0]);
}

#[test]
fn phase_turns() {
    use_phase_turns();
}

fn use_phase_turns() {
    let cfg = Config { randomize_work: false, ..Config::default() };
    let mut q: VecDeque<u32> = VecDeque::from(vec![1, 2]);
    let mut s = LoopState::new();
    let mut b = WorkBudget::new(&cfg, q.len());
    let t = sevent::evloop::next_turn(&mut q, &mut b);
    assert_eq!(t, Some(1));
    sevent::evloop::after_turn(&mut q, &mut s, 1, true);
    assert_eq!(q, VecDeque::from(vec![2, 1]));
    assert!(s.pending_writes_or_reads);
    let t = sevent::evloop::next_turn(&mut q, &mut b);
    assert_eq!(t, Some(2));
    sevent::evloop::after_turn(&mut q, &mut s, 2, false);
    // each of the two queued connections had its turn: the phase ends
    assert_eq!(sevent::evloop::next_turn(&mut q, &mut b), None);
    assert_eq!(q, VecDeque::from(vec![1]));
}
