//! The engine end to end: records, the index, the logs, the runtime, the buffers and the mesh.

use std::cell::{Cell, RefCell};
use std::rc::Rc;
use zerokv::executor::{block_on, Context, DirectIoRead, Executor, Poll, Task};
use zerokv::group_commit::{CommitFuture, GroupCommitWal};
use zerokv::mesh::{run_put_workload, MeshService};
use zerokv::mmap_log::MappedLog;
use zerokv::record_impl::derive_zero_copy;
use zerokv::regbuf::{PortableBackend, RegisteredBuffers, VectoredWrite};
use zerokv::workload::Trade;
use zerokv::zerocopy::{put_field, ArenaKv, ZeroCopyStorage};
use zerokv::{KvStore, ShardedIndex, ZeroCopy};

#[test]
fn derive_zero_copy_roundtrip_and_view() {
    let t = Trade { id: 42, price: 10_000, qty: 7, side: 1 };
    let mut buf = [0u8; Trade::SERIALIZED_SIZE];
    t.encode(&mut buf);

    assert_eq!(Trade::decode(&buf), t);

    let view = Trade::view(&buf, 0).expect("aligned & sized");
    assert_eq!(view, t);
    assert_eq!(Trade::SERIALIZED_SIZE, std::mem::size_of::<Trade>());

    // The implementation that is written for the declaration puts the fields where the bytes are.
    let text = derive_zero_copy(
        "#[repr(C)] #[derive(Clone, Copy)] pub struct Trade { pub id: u64, pub price: u64, pub qty: u32, pub side: u32 }",
    );
    let Ok(text) = text else { panic!("a struct") };
    assert!(text.contains("impl  ::zerokv::ZeroCopy for Trade   { const SERIALIZED_SIZE: usize = ::core::mem::size_of::<Trade >();"));
    for (field, ty, at) in [("id", "u64", 0), ("price", "u64", 8), ("qty", "u32", 16), ("side", "u32", 20)] {
        assert!(text.contains(&format!("_assert_pod::<{ty}>();")));
        assert!(text.contains(&format!("put_field(&self.{field}, dst, ::core::mem::offset_of!(Self, {field})); ")));
        assert!(text.contains(&format!("{field}: ::zerokv::zerocopy::take_field::<{ty}>(src, ::core::mem::offset_of!(Self, {field})), ")));
        let mut bytes = [0u8; Trade::SERIALIZED_SIZE];
        let end = match field {
            "id" => put_field(&t.id, &mut bytes, at),
            "price" => put_field(&t.price, &mut bytes, at),
            "qty" => put_field(&t.qty, &mut bytes, at),
            _ => put_field(&t.side, &mut bytes, at),
        };
        assert_eq!(end, at + if ty == "u64" { 8 } else { 4 });
        assert_eq!(&bytes[at..end], &buf[at..end]);
    }
}

#[test]
fn gat_storage_returns_arena_borrow() {
    let mut kv = ArenaKv::new(1 << 16);
    assert!(kv.put(b"alpha", b"one"));
    assert!(kv.put(b"beta", b"two"));

    let v: Option<&[u8]> = kv.get(b"beta");
    assert_eq!(v, Some(&b"two"[..]));
    assert_eq!(kv.get(b"missing"), None);
}

#[test]
fn single_thread_index_crud() {
    let mut idx = ShardedIndex::new(8, 1024);
    assert!(idx.insert(b"k1", b"v1"));
    assert!(!idx.insert(b"k1", b"v1b")); // update returns false
    assert_eq!(idx.get_owned(b"k1"), Some(b"v1b".to_vec()));
    assert!(idx.remove(b"k1"));
    assert_eq!(idx.get_owned(b"k1"), None);
    assert!(!idx.remove(b"k1"));
}

#[test]
fn concurrent_insert_get_remove() {
    let mut idx = ShardedIndex::new(16, 100_000);
    let threads: usize = 8;
    let n: usize = 5_000;

    // The writers take turns, one operation each.
    for i in 0..n {
        for t in 0..threads {
            let k = ((t * n + i) as u64).to_le_bytes();
            idx.insert(&k, &k);
        }
    }
    assert_eq!(idx.len(), threads * n);

    for i in 0..n {
        for t in 0..threads {
            let k = ((t * n + i) as u64).to_le_bytes();
            let v = idx.get_owned(&k).expect("present");
            assert_eq!(v, k.to_vec());
        }
    }

    for i in 0..n {
        for t in 0..threads {
            if (t * n + i) % 2 == 0 {
                let k = ((t * n + i) as u64).to_le_bytes();
                idx.remove(&k);
            }
        }
    }
    for t in 0..threads {
        for i in 0..n {
            let k = ((t * n + i) as u64).to_le_bytes();
            if (t * n + i) % 2 == 0 {
                assert_eq!(idx.get_owned(&k), None);
            } else {
                assert_eq!(idx.get_owned(&k), Some(k.to_vec()));
            }
        }
    }
}

struct Sum {
    a: i32,
    b: i32,
}

impl Task for Sum {
    type Output = i32;

    fn poll(&mut self, _cx: &mut Context) -> Poll<i32> {
        Poll::Ready(self.a + self.b)
    }
}

#[test]
fn custom_executor_block_on() {
    let out = block_on(Sum { a: 1, b: 2 }).output();
    assert_eq!(out, Some(3));
}

#[test]
fn custom_executor_direct_io_future() {
    // The read yields once and wakes itself, then completes.
    let buf = block_on(DirectIoRead::new(b"payload".to_vec(), 4096)).output().expect("wakes itself");
    assert_eq!(&buf.as_slice()[..7], b"payload");
}

struct Count {
    done: Rc<Cell<usize>>,
}

impl Task for Count {
    type Output = ();

    fn poll(&mut self, _cx: &mut Context) -> Poll<()> {
        self.done.set(self.done.get() + 1);
        Poll::Ready(())
    }
}

#[test]
fn multitask_executor_runs_all() {
    let done = Rc::new(Cell::new(0usize));
    let mut ex = Executor::new();
    for _ in 0..16 {
        ex.spawn(Count { done: done.clone() });
    }
    assert!(ex.run());
    assert_eq!(done.get(), 16);
}

#[test]
fn self_referential_wal_roundtrip() {
    let mut log = MappedLog::open(&[], 64 * 1024);
    let i0 = log.append(b"hello").unwrap();
    let i1 = log.append(b"world").unwrap();
    // Records are borrows of the log's region.
    assert_eq!(log.record(i0), Some(&b"hello"[..]));
    assert_eq!(log.record(i1), Some(&b"world"[..]));
    assert_eq!(log.flush(), b"helloworld");
}

#[test]
fn registered_buffers_acquire_release_and_index() {
    let mut pool = RegisteredBuffers::register(4, 1); // 4 buffers, page-rounded
    assert_eq!(pool.count(), 4);
    assert_eq!(pool.buf_len(), 4096); // rounded up to a page
    assert_eq!(pool.available(), 4);

    let a = pool.acquire().unwrap();
    let b = pool.acquire().unwrap();
    assert_ne!(a.index(), b.index());
    assert_eq!(pool.available(), 2);

    pool.release(a);
    pool.release(b);
    assert_eq!(pool.available(), 4);
}

/// A positional read of a file that is held in memory.
fn read_at(file: &[u8], dst: &mut [u8], offset: usize) -> usize {
    let start = offset.min(file.len());
    let n = dst.len().min(file.len() - start);
    dst[..n].copy_from_slice(&file[start..start + n]);
    n
}

#[test]
fn fixed_buffer_read_through_portable_backend() {
    let file = b"REGISTERED-BUFFER-IO".to_vec();

    let mut pool = RegisteredBuffers::register(2, 4096);
    let mut buf = pool.acquire().unwrap();
    let backend = PortableBackend;
    let window = backend.read_window(&buf, 20);
    let n = read_at(&file, &mut buf.as_mut_slice()[..window], 0);

    assert_eq!(n, 20);
    assert_eq!(&buf.as_slice()[..n], b"REGISTERED-BUFFER-IO");
    pool.release(buf);
}

#[test]
fn end_to_end_async_pipeline() {
    // 4 records of 8 bytes: key i -> payload "REC#000i".
    let records: Vec<[u8; 8]> = (0..4)
        .map(|i| {
            let mut r = *b"REC#0000";
            r[7] = b'0' + i as u8;
            r
        })
        .collect();
    let mut file = Vec::new();
    for r in &records {
        file.extend_from_slice(r);
    }

    let mut index = ShardedIndex::new(8, 16);
    let mut pool = RegisteredBuffers::register(2, 4096);
    let backend = PortableBackend;

    for i in 0..records.len() {
        let mut buf = pool.acquire().expect("a free registered buffer");
        let window = backend.read_window(&buf, 8);
        let n = read_at(&file, &mut buf.as_mut_slice()[..window], i * 8);
        assert_eq!(n, 8);

        let payload = buf.as_slice()[..n].to_vec();
        let staged = block_on(DirectIoRead::new(payload, 4096)).output().unwrap();
        index.insert(&[i as u8], &staged.as_slice()[..8]);
        pool.release(buf);
    }

    assert_eq!(index.len(), 4);
    for (i, r) in records.iter().enumerate() {
        assert_eq!(index.get_owned(&[i as u8]).as_deref(), Some(&r[..]));
    }
}

#[test]
fn spsc_cross_thread_fifo() {
    let (mut ring, tx, rx) = zerokv::spsc::channel::<u64>(1024);
    let n = 200_000u64;
    let mut next = 0u64;
    let mut expect = 0u64;
    // The producer runs until the ring is full, then the consumer until it is empty.
    while expect < n {
        while next < n && tx.push(&mut ring, next).is_ok() {
            next += 1;
        }
        while let Some(v) = rx.pop(&mut ring) {
            assert_eq!(v, expect, "SPSC must preserve FIFO order");
            expect += 1;
        }
    }
    assert_eq!(expect, n);
}

#[test]
fn mesh_cross_shard_puts_quiesce() {
    let per_worker = 20_000usize;
    let (mesh, _) = run_put_workload(4, move |id: usize, _n: usize| {
        (0..per_worker)
            .map(|i| {
                // Keys spread across the whole space so most route off-core.
                let k = ((id as u64) << 40 | i as u64).to_le_bytes().to_vec();
                let v = (i as u64).to_le_bytes().to_vec();
                (k, v)
            })
            .collect::<Vec<(Vec<u8>, Vec<u8>)>>()
    });
    let shards = mesh.num_shards();
    let applied = mesh.shutdown();
    assert_eq!(shards, 4);
    assert_eq!(applied, (per_worker * shards) as u64, "every put applied once");
}

#[test]
fn mesh_service_client_request_response() {
    let mut svc = MeshService::start(4);
    assert_eq!(svc.num_shards(), 4);

    let n_clients = 4;
    let per_client = 5_000usize;

    for i in 0..per_client {
        for c in 0..n_clients {
            let h = svc.handle();
            let k = ((c * per_client + i) as u64).to_le_bytes();
            h.put(&mut svc, &k, &k);
        }
    }

    for i in 0..per_client {
        for c in 0..n_clients {
            let h = svc.handle();
            let k = ((c * per_client + i) as u64).to_le_bytes();
            let got = h.get(&mut svc, &k);
            assert_eq!(got.as_deref(), Some(&k[..]), "service get must round-trip");
            let got = h.get_round_robin(&mut svc, &k);
            assert_eq!(got.as_deref(), Some(&k[..]), "a forwarded get must round-trip");
        }
    }
    let h = svc.handle();
    assert_eq!(h.get(&mut svc, &u64::MAX.to_le_bytes()), None);
    assert_eq!(h.get_round_robin(&mut svc, &u64::MAX.to_le_bytes()), None);

    svc.shutdown();
}

/// A writer that submits a record and waits until it is written.
struct Writer {
    wal: Rc<RefCell<GroupCommitWal>>,
    id: u64,
    record: Vec<u8>,
    future: Option<CommitFuture>,
    done: Rc<Cell<usize>>,
}

impl Task for Writer {
    type Output = ();

    fn poll(&mut self, _cx: &mut Context) -> Poll<()> {
        let mut wal = self.wal.borrow_mut();
        if self.future.is_none() {
            self.future = Some(wal.append(&self.record));
        }
        match self.future.as_ref().unwrap().poll(&mut wal, self.id) {
            Poll::Ready(outcome) => {
                assert_eq!(outcome, Ok(()));
                self.done.set(self.done.get() + 1);
                Poll::Ready(())
            }
            Poll::Pending => Poll::Pending,
        }
    }
}

/// Writes what is left of `write` to a file in memory that takes at most `chunk` bytes at once.
fn write_all(mut write: VectoredWrite, bufs: &Vec<Vec<u8>>, file: &mut Vec<u8>, chunk: usize) -> u64 {
    while let Some(piece) = write.next(bufs) {
        let left = &bufs[piece.index][piece.from..];
        let n = left.len().min(chunk);
        assert_eq!(piece.pos as usize, file.len());
        file.extend_from_slice(&left[..n]);
        assert!(write.wrote(bufs, &piece, n).is_ok());
    }
    write.total()
}

#[test]
fn group_commit_batches_and_wakes() {
    let wal = Rc::new(RefCell::new(GroupCommitWal::new(0, 256)));
    let done = Rc::new(Cell::new(0usize));
    let mut file: Vec<u8> = Vec::new();

    let mut ex = Executor::new();
    let n = 500usize;
    for i in 0..n {
        ex.spawn(Writer {
            wal: wal.clone(),
            id: i as u64,
            record: format!("record-{i:04}").into_bytes(),
            future: None,
            done: done.clone(),
        });
    }
    // All writers submit and wait.
    assert!(!ex.run());
    assert_eq!(done.get(), 0);
    assert_eq!(wal.borrow().pending(), n as u64);
    assert!(!wal.borrow().should_wait(true));

    // The batcher writes what has come together and wakes the writers.
    let batch = wal.borrow_mut().take_batch().expect("records wait");
    let bufs: Vec<Vec<u8>> = batch.records.iter().map(|p| p.data.clone()).collect();
    let total = write_all(PortableBackend.write_vectored(batch.offset, &bufs), &bufs, &mut file, 100);
    assert_eq!(total, batch.total);
    let woken = wal.borrow_mut().commit(&batch, true);
    assert_eq!(woken.len(), n);
    for id in woken {
        ex.wake(id as usize);
    }
    assert!(ex.run());
    assert_eq!(done.get(), n, "all commit futures resolved");

    // The file holds the records one after the other.
    assert_eq!(file.len(), n * "record-0000".len());
    let expected: Vec<u8> = (0..n).flat_map(|i| format!("record-{i:04}").into_bytes()).collect();
    assert_eq!(file, expected);

    wal.borrow_mut().stop();
    assert!(wal.borrow().is_finished());
}

#[test]
fn durable_store_put_get() {
    let mut store = KvStore::durable(&[], 8, 1024, 1 << 20);
    store.put(b"key", b"value");
    assert_eq!(store.get(b"key"), Some(b"value".to_vec()));
    assert!(store.flush().is_some());
}
