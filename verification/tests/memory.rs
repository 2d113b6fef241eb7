//! Arenas, records as bytes, and buffers.

use zerokv::arena::Arena;
use zerokv::executor::AlignedBuf;
use zerokv::le::{from_le, to_le};
use zerokv::mmap_log::MappedLog;
use zerokv::record_impl::{derive_zero_copy, implement_record, Declaration, DeriveError, RecordField, RecordGenerics};
use zerokv::regbuf::{PortableBackend, RegisteredBuffers, WriteError};
use zerokv::region::{read_address, Region};
use zerokv::workload::{key, local_stride, percentile, shards_for, shared_stride, MixedOps, Trade};
use zerokv::zerocopy::{
    check_record, put_field, take_field, ArenaKv, FieldLayout, ItemKind, LayoutError, ZeroCopyStorage,
};
use zerokv::{Pod, ZeroCopy};

#[test]
fn little_endian_bytes() {
    assert_eq!(to_le(0x0102_0304, 4), vec![4, 3, 2, 1]);
    assert_eq!(to_le(0x1_0000_0002, 4), vec![2, 0, 0, 0]);
    assert_eq!(from_le(&[4, 3, 2, 1]), 0x0102_0304);
    assert_eq!(from_le(&[]), 0);
}

#[test]
fn arena_allocations_are_aligned_and_bounded() {
    let mut a = Arena::with_capacity(64, 64);
    assert_eq!(a.capacity(), 64);
    let p = a.alloc_raw(1, 1).unwrap();
    let q = a.alloc_raw(8, 8).unwrap();
    assert_eq!(q % 8, 0);
    assert!(q >= p + 1);
    assert_eq!(a.used(), 16);
    assert_eq!(a.alloc_raw(64, 1), None);
    assert_eq!(a.used(), 16);
    assert_eq!(a.push_bytes(b"abc"), Some(&b"abc"[..]));
    let s = a.push_span(b"defg").unwrap();
    assert_eq!(a.slice(&s), b"defg");
    assert_eq!(a.used(), 23);
    a.reset();
    assert_eq!(a.used(), 0);
}

#[test]
fn arena_capacities_are_rounded_up_to_the_alignment() {
    assert_eq!(Arena::with_capacity(100, 64).capacity(), 128);
    assert_eq!(Arena::with_capacity(128, 64).capacity(), 128);
    assert_eq!(Arena::with_capacity(1, 8).capacity(), 8);
    let mut a = Arena::with_capacity(100, 64);
    assert!(a.alloc_raw(128, 1).is_some());
    assert_eq!(a.alloc_raw(1, 1), None);
}

/// Where `bytes` lie in memory.
fn address_of(bytes: &[u8]) -> usize {
    let shown = format!("{:p}", &bytes[0]);
    usize::from_str_radix(&shown[2..], 16).unwrap()
}

#[test]
fn addresses_are_read_from_text() {
    assert_eq!(read_address(b"0x7ffd1a2b3c40"), 0x7ffd_1a2b_3c40);
    assert_eq!(read_address(b"0x0"), 0);
    assert_eq!(read_address(b""), 0);
    assert_eq!(read_address(b"10"), 16);
}

#[test]
fn regions_start_at_their_alignment() {
    for align in [1usize, 8, 64, 4096, 1 << 16] {
        for len in [1usize, 100, 8192] {
            let mut r = Region::new(len, align);
            assert_eq!(r.len(), len);
            assert!(r.as_slice().iter().all(|&b| b == 0));
            assert_eq!(address_of(r.as_slice()) % align, 0);
            assert_eq!(r.address(), Some(address_of(r.as_slice())));
            r.set(len - 1, 7);
            r.as_mut_slice()[0] = 9;
            assert_eq!(r.as_slice()[0], 9);
            assert_eq!(r.as_slice()[len - 1], if len == 1 { 9 } else { 7 });
        }
    }
}

#[test]
fn buffers_and_arenas_lie_at_their_alignment() {
    for len in [1usize, 4096, 5000] {
        assert_eq!(address_of(AlignedBuf::new(len).as_slice()) % 4096, 0);
    }
    let mut pool = RegisteredBuffers::register(3, 100);
    for _ in 0..3 {
        assert_eq!(address_of(pool.acquire().unwrap().as_slice()) % 4096, 0);
    }
    let mut log = MappedLog::open(b"", 4096);
    log.append(b"first").unwrap();
    assert_eq!(address_of(log.record(0).unwrap()) % 4096, 0);
    // The addresses that an arena gives out are those of its memory.
    let mut a = Arena::with_capacity(256, 128);
    let s = a.push_span(b"abc").unwrap();
    assert_eq!(s.addr % 128, 0);
    assert_eq!(s.addr, address_of(a.slice(&s)));
    let p = a.alloc_raw(16, 32).unwrap();
    assert_eq!(p, s.addr + 32);
}

#[test]
fn arena_store_takes_the_first_entry_and_reports_when_full() {
    let mut kv = ArenaKv::new(16);
    assert!(kv.put(b"k", b"one"));
    assert!(kv.put(b"k", b"two"));
    assert_eq!(kv.get(b"k"), Some(&b"one"[..]));
    // Eight of the sixty-four bytes are taken.
    assert!(!kv.put(b"key", &[b'x'; 54]));
    assert_eq!(kv.get(b"key"), None);
    assert!(kv.put(b"last", &[b'x'; 40]));
}

#[test]
fn stores_are_read_through_their_trait() {
    fn size_of_value<S: ZeroCopyStorage<Ref = [u8]>>(s: &S, key: &[u8]) -> Option<usize> {
        s.get(key).map(|v| v.len())
    }
    let mut kv = ArenaKv::new(64);
    assert!(kv.put(b"k", b"three"));
    assert_eq!(size_of_value(&kv, b"k"), Some(5));
    assert_eq!(size_of_value(&kv, b"other"), None);
}

#[test]
fn plain_data_round_trips() {
    assert_eq!(0x1234u16.to_bytes(), vec![0x34, 0x12]);
    assert_eq!((-2i32).to_bytes(), vec![0xfe, 0xff, 0xff, 0xff]);
    assert_eq!(i8::from_bytes(&[0x80]), i8::MIN);
    assert_eq!(u64::from_bytes(&7u64.to_bytes()), 7);
    assert_eq!(i128::from_bytes(&(-5i128).to_bytes()), -5);
    assert_eq!(usize::from_bytes(&usize::MAX.to_bytes()), usize::MAX);
    assert_eq!(isize::from_bytes(&isize::MIN.to_bytes()), isize::MIN);
    let a = [1u16, 2, 0xffff];
    assert_eq!(a.to_bytes(), vec![1, 0, 2, 0, 0xff, 0xff]);
    assert_eq!(<[u16; 3]>::from_bytes(&a.to_bytes()), a);
    assert_eq!(<[u16; 3] as Pod>::size_of(), 6);
    assert_eq!(<[u16; 3] as Pod>::align_of(), 2);
    assert_eq!(<[u8; 0]>::from_bytes(&[]), [0u8; 0]);
}

#[test]
fn views_need_length_and_alignment() {
    let t = Trade { id: 1, price: 2, qty: 3, side: 4 };
    let mut buf = [9u8; 32];
    t.encode(&mut buf);
    assert_eq!(&buf[24..], &[9u8; 8]);
    assert_eq!(&buf[..8], &[1, 0, 0, 0, 0, 0, 0, 0]);
    assert_eq!(&buf[16..24], &[3, 0, 0, 0, 4, 0, 0, 0]);
    assert_eq!(Trade::view(&buf, 16), Some(t));
    assert_eq!(Trade::view(&buf, 17), None);
    assert_eq!(Trade::view(&buf[..23], 16), None);
    assert_eq!(Trade::decode(&buf), t);
}

#[test]
fn fields_are_written_at_their_places_in_any_order() {
    // The fields of a struct as a compiler may reorder them: c, then a, then b.
    let (a, b, c) = (0x11u8, 0x22u8, 0x4433u16);
    let mut dst = [9u8; 6];
    assert_eq!(put_field(&a, &mut dst, 2), 3);
    assert_eq!(put_field(&b, &mut dst, 3), 4);
    assert_eq!(put_field(&c, &mut dst, 0), 2);
    assert_eq!(dst, [0x33, 0x44, 0x11, 0x22, 9, 9]);
    assert_eq!(take_field::<u8>(&dst, 2), a);
    assert_eq!(take_field::<u8>(&dst, 3), b);
    assert_eq!(take_field::<u16>(&dst, 0), c);
}

fn field(size: usize, align: usize, pod: bool) -> FieldLayout {
    FieldLayout { size, align, pod }
}

#[test]
fn records_are_checked() {
    let trade = [field(8, 8, true), field(8, 8, true), field(4, 4, true), field(4, 4, true)];
    assert_eq!(check_record(ItemKind::Struct, &trade), Ok(24));
    assert_eq!(check_record(ItemKind::Struct, &[]), Ok(0));
    assert_eq!(check_record(ItemKind::Enum, &trade), Err(LayoutError::NotAStruct));
    assert_eq!(check_record(ItemKind::Union, &[]), Err(LayoutError::NotAStruct));
    let reference = [field(8, 8, true), field(8, 8, false)];
    assert_eq!(check_record(ItemKind::Struct, &reference), Err(LayoutError::FieldNotPod(1)));
    // A gap between the fields, and one behind them.
    let gap = [field(1, 1, true), field(4, 4, true)];
    assert_eq!(check_record(ItemKind::Struct, &gap), Err(LayoutError::Padding));
    let tail = [field(4, 4, true), field(1, 1, true)];
    assert_eq!(check_record(ItemKind::Struct, &tail), Err(LayoutError::Padding));
}

fn item(kind: ItemKind, fields: Vec<RecordField>) -> Declaration {
    Declaration { kind, name: "Point".to_string(), fields }
}

fn plain() -> RecordGenerics {
    RecordGenerics { impl_generics: "".to_string(), ty_generics: "".to_string(), where_clause: "".to_string() }
}

fn named(name: &str, ty: &str) -> RecordField {
    RecordField { name: Some(name.to_string()), ty: ty.to_string() }
}

#[test]
fn record_implementations_are_written() {
    let fields = vec![named("x", "u32"), named("y", "[u8; 4]")];
    let text = implement_record(&item(ItemKind::Struct, fields), &plain()).unwrap();
    assert!(text.contains("_assert_pod::<u32>();"));
    assert!(text.contains("_assert_pod::<[u8; 4]>();"));
    assert!(text.contains(
        "assert!(::core::mem::size_of::<Point >() == (0 + ::core::mem::size_of::<u32>() + ::core::mem::size_of::<[u8; 4]>())"
    ));
    assert!(text.contains("impl  ::zerokv::ZeroCopy for Point   {"));
    assert!(text.contains(
        "put_field(&self.x, dst, ::core::mem::offset_of!(Self, x)); ::zerokv::zerocopy::put_field(&self.y, dst, ::core::mem::offset_of!(Self, y));"
    ));
    assert!(text.contains("x: ::zerokv::zerocopy::take_field::<u32>(src, ::core::mem::offset_of!(Self, x)), "));
    assert!(text.contains("y: ::zerokv::zerocopy::take_field::<[u8; 4]>(src, ::core::mem::offset_of!(Self, y)), "));
    assert!(text.contains("let _ = &_v.x; let _ = &_v.y; "));
    let unit = implement_record(&item(ItemKind::Struct, Vec::new()), &plain()).unwrap();
    assert!(unit.contains("== (0)"));
    assert!(matches!(implement_record(&item(ItemKind::Enum, Vec::new()), &plain()), Err(LayoutError::NotAStruct)));
}

#[test]
fn fields_without_names_are_numbered() {
    let fields: Vec<RecordField> = (0..12).map(|_| RecordField { name: None, ty: "u8".to_string() }).collect();
    let text = implement_record(&item(ItemKind::Struct, fields), &plain()).unwrap();
    assert!(text.contains("put_field(&self.0, dst, ::core::mem::offset_of!(Self, 0)); "));
    assert!(text.contains("put_field(&self.11, dst, ::core::mem::offset_of!(Self, 11)); } fn decode"));
    assert!(text.contains("Self { 0: ::zerokv::zerocopy::take_field::<u8>(src, ::core::mem::offset_of!(Self, 0)), 1: "));
    assert!(text.contains("let _ = &_v.9; let _ = &_v.10; let _ = &_v.11; };"));
}

#[test]
fn declarations_are_taken_apart() {
    let derived = |text: &str| derive_zero_copy(text);
    let same = |r: Result<String, DeriveError>, fields: Vec<RecordField>| {
        let want = implement_record(&item(ItemKind::Struct, fields), &plain()).unwrap();
        assert!(matches!(r, Ok(text) if text == want));
    };
    same(derived("#[repr(C)] pub struct Point { pub x: u32, y: u64 }"), vec![named("x", "u32"), named("y", "u64")]);
    let number = || RecordField { name: None, ty: "u16".to_string() };
    same(derived("struct Point(u16, u16);"), vec![number(), number()]);
    same(derived("struct Point;"), Vec::new());
    let generic = derived("struct Pair<T: Copy = u8> where T: Pod { a: T }");
    assert!(matches!(generic, Ok(text)
        if text.contains("impl < T : Copy > ::zerokv::ZeroCopy for Pair < T > where T : Pod {")));
    assert!(matches!(derived("enum Point { A, B }"), Err(DeriveError::NotAStruct)));
    assert!(matches!(derived("union Point { a: u8, b: i8 }"), Err(DeriveError::NotAStruct)));
    assert!(matches!(derived("fn point() {}"), Err(DeriveError::Syntax(_))));
    assert!(matches!(derived("struct Point {"), Err(DeriveError::Syntax(_))));
}

#[test]
fn buffers_are_handed_out_once() {
    let mut pool = RegisteredBuffers::register(3, 5000);
    assert_eq!(pool.buf_len(), 8192);
    let mut a = pool.acquire().unwrap();
    let b = pool.acquire().unwrap();
    let c = pool.acquire().unwrap();
    assert_eq!((a.index(), b.index(), c.index()), (2, 1, 0));
    assert!(pool.acquire().is_none());
    a.as_mut_slice()[0] = 42;
    pool.release(a);
    assert_eq!(pool.available(), 1);
    // The buffer keeps what was written to it.
    let a = pool.acquire().unwrap();
    assert_eq!(a.index(), 2);
    assert_eq!(a.as_slice()[0], 42);
    assert_eq!(b.as_slice()[0], 0);
    assert_eq!(PortableBackend.read_window(&a, 10), 10);
    assert_eq!(PortableBackend.read_window(&a, 10_000), 8192);
}

#[test]
fn vectored_writes_go_on_where_they_stopped() {
    let bufs = vec![b"ab".to_vec(), Vec::new(), b"cde".to_vec()];
    let mut w = PortableBackend.write_vectored(10, &bufs);
    let p = w.next(&bufs).unwrap();
    assert_eq!((p.index, p.from, p.pos), (0, 0, 10));
    assert_eq!(w.wrote(&bufs, &p, 0), Err(WriteError::WriteZero));
    assert_eq!(w.wrote(&bufs, &p, 2), Ok(()));
    let p = w.next(&bufs).unwrap();
    assert_eq!((p.index, p.from, p.pos), (2, 0, 12));
    assert_eq!(w.wrote(&bufs, &p, 1), Ok(()));
    let p = w.next(&bufs).unwrap();
    assert_eq!((p.index, p.from, p.pos), (2, 1, 13));
    assert_eq!(w.wrote(&bufs, &p, 2), Ok(()));
    assert!(w.next(&bufs).is_none());
    assert_eq!(w.total(), 5);
}

#[test]
fn workloads_are_fixed() {
    assert_eq!(key(2, 3, 100), 203u64.to_le_bytes().to_vec());
    assert_eq!(shards_for(1), 32);
    assert_eq!(shards_for(4), 32);
    assert_eq!(shards_for(5), 64);
    let mut ops = MixedOps::new(0, 1000);
    let first = ops.next();
    assert_eq!((first.slot, first.write), (180, true));
    let second = ops.next();
    assert_eq!((second.slot, second.write), (223, false));
    let mut ops = MixedOps::new(3, 1000);
    let writes = (0..10_000).filter(|_| ops.next().write).count();
    assert_eq!(writes, 983);
    assert_eq!(shared_stride(2, 3, 1000), 25);
    assert_eq!(local_stride(5, 1000), 805);
}

#[test]
fn percentiles_are_samples() {
    let samples: Vec<u64> = (0..2000).map(|i| i * 3).collect();
    assert_eq!(percentile(&samples, 0), 0);
    assert_eq!(percentile(&samples, 500), 3000);
    assert_eq!(percentile(&samples, 900), 5400);
    assert_eq!(percentile(&samples, 990), 5940);
    assert_eq!(percentile(&samples, 999), 5994);
    assert_eq!(percentile(&samples, 1000), 5997);
    assert_eq!(percentile(&vec![7], 500), 7);
}
