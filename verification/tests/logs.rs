//! The logs: records that are appended, read back, and committed in groups.

use zerokv::executor::Poll;
use zerokv::group_commit::{sort_by_seq, CommitError, Completion, GroupCommitWal, Pending};
use zerokv::mmap_log::{round_to_page, MappedLog};
use zerokv::store::make_frame;
use zerokv::KvStore;

#[test]
fn pages_are_whole() {
    assert_eq!(round_to_page(0), 0);
    assert_eq!(round_to_page(1), 4096);
    assert_eq!(round_to_page(4096), 4096);
    assert_eq!(round_to_page(4097), 8192);
}

#[test]
fn log_refuses_what_does_not_fit() {
    let mut log = MappedLog::open(&[], 1);
    assert_eq!(log.capacity(), 4096);
    assert!(log.is_empty());
    assert_eq!(log.append(&[1u8; 4000]), Some(0));
    assert_eq!(log.append(&[2u8; 97]), None);
    assert_eq!(log.append(&[3u8; 96]), Some(1));
    assert_eq!(log.len(), 4096);
    assert_eq!(log.record(2), None);
}

#[test]
fn log_goes_on_behind_what_a_file_holds() {
    let mut log = MappedLog::open(b"before", 4096);
    assert_eq!(log.append(b"after"), Some(0));
    assert_eq!(log.record(0), Some(&b"after"[..]));
    assert_eq!(log.flush(), b"beforeafter");
    let again = MappedLog::open(log.flush(), 4096);
    assert_eq!(again.flush(), b"beforeafter");
}

#[test]
fn writes_are_logged_as_frames() {
    assert_eq!(make_frame(b"key", b"value"), b"\x03\0\0\0keyvalue".to_vec());
    let mut s = KvStore::durable(&[], 8, 1024, 1 << 20);
    s.put(b"a", b"1");
    s.put(b"bc", b"2");
    s.delete(b"a");
    assert_eq!(s.flush(), Some(&b"\x01\0\0\0a1\x02\0\0\0bc2"[..]));
    assert_eq!(s.len(), 1);
}

#[test]
fn writes_that_are_not_logged_are_not_applied() {
    let mut s = KvStore::durable(&[], 2, 16, 4096);
    assert!(s.put(b"a", &[7; 4000]));
    assert!(!s.put(b"b", &[8; 100]));
    assert_eq!(s.get(b"b"), None);
    assert!(!s.put(b"a", &[9; 100]));
    assert_eq!(s.get(b"a"), Some(vec![7; 4000]));
    assert_eq!(s.flush().unwrap().len(), 4005);
    assert!(s.put(b"c", b"1"));
    assert_eq!(s.len(), 2);
}

#[test]
fn records_are_sorted_by_number() {
    let records: Vec<Pending> = [5u64, 1, 4, 2, 3].iter().map(|&seq| Pending { seq, data: vec![seq as u8] }).collect();
    let sorted = sort_by_seq(records);
    let numbers: Vec<u64> = sorted.iter().map(|p| p.seq).collect();
    assert_eq!(numbers, vec![1, 2, 3, 4, 5]);
    assert_eq!(sorted[2].data, vec![3]);
}

#[test]
fn completions_hand_out_their_waker_once() {
    let mut c = Completion::new();
    c.register(4);
    c.register(9);
    assert_eq!(c.signal(), Some(9));
    assert_eq!(c.signal(), None);
}

#[test]
fn batches_restore_the_order_of_submission() {
    let mut wal = GroupCommitWal::new(100, 3);
    assert!(wal.take_batch().is_none());
    assert!(wal.should_wait(true));
    assert!(!wal.should_wait(false));
    let a = wal.append(b"one");
    let b = wal.append(b"two2");
    assert_eq!(wal.pending(), 2);
    assert!(wal.should_wait(true));
    assert!(matches!(a.poll(&mut wal, 11), Poll::Pending));
    assert!(matches!(b.poll(&mut wal, 22), Poll::Pending));
    let first = wal.take_batch().unwrap();
    assert_eq!(first.offset, 100);
    assert_eq!(first.total, 7);
    let data: Vec<&[u8]> = first.records.iter().map(|p| p.data.as_slice()).collect();
    assert_eq!(data, vec![&b"one"[..], &b"two2"[..]]);
    // A record that comes while the batch is written goes behind it.
    let c = wal.append(b"three");
    assert!(matches!(a.poll(&mut wal, 11), Poll::Pending));
    assert_eq!(wal.commit(&first, true), vec![11, 22]);
    assert!(matches!(a.poll(&mut wal, 11), Poll::Ready(Ok(()))));
    assert!(matches!(b.poll(&mut wal, 22), Poll::Ready(Ok(()))));
    assert!(matches!(c.poll(&mut wal, 33), Poll::Pending));
    wal.stop();
    assert!(!wal.is_finished());
    assert!(!wal.should_wait(true));
    let second = wal.take_batch().unwrap();
    assert_eq!(second.offset, 107);
    assert_eq!(wal.commit(&second, true), vec![33]);
    assert!(matches!(c.poll(&mut wal, 33), Poll::Ready(Ok(()))));
    assert!(wal.is_finished());
}

#[test]
fn writers_learn_that_a_write_failed() {
    let mut wal = GroupCommitWal::new(0, 8);
    let a = wal.append(b"aa");
    let b = wal.append(b"bbb");
    assert!(matches!(a.poll(&mut wal, 1), Poll::Pending));
    let first = wal.take_batch().unwrap();
    assert_eq!(wal.commit(&first, false), vec![1]);
    assert!(matches!(a.poll(&mut wal, 1), Poll::Ready(Err(CommitError::WriteFailed))));
    assert!(matches!(b.poll(&mut wal, 2), Poll::Ready(Err(CommitError::WriteFailed))));
    // Later records go behind the place of those that were lost.
    let c = wal.append(b"c");
    let second = wal.take_batch().unwrap();
    assert_eq!(second.offset, 5);
    assert!(wal.commit(&second, true).is_empty());
    assert!(matches!(c.poll(&mut wal, 3), Poll::Ready(Ok(()))));
    assert!(matches!(a.poll(&mut wal, 1), Poll::Ready(Err(CommitError::WriteFailed))));
}
