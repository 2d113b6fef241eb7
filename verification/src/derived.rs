//! What an implementation of [`crate::ZeroCopy`] written by [`crate::record_impl`] does.
//!
//! The text of an implementation is a row of calls: [`crate::zerocopy::put_field`] for each field
//! in `encode`, as [`crate::record_impl::encode_text`] has them, and
//! [`crate::zerocopy::take_field`] for each field in `decode`, as
//! [`crate::record_impl::decode_text`] has them, each at the place that the compiler gave the
//! field. What such a call does is its contract, so what the row does is stated here call by
//! call, over the places of the fields and the bytes of their values. The laws say that an
//! implementation made of these rows keeps the contracts of [`crate::ZeroCopy`] and
//! [`crate::zerocopy::FixedImage`], whatever order the compiler chose for the fields.

use vstd::prelude::*;
use vstd::set_lib::*;

verus! {

/// Where the compiler put a field, and how large the field is: what `offset_of!` and `size_of`
/// give.
pub struct Place {
    pub at: nat,
    pub size: nat,
}

/// The sizes of the first `n` fields together.
pub open spec fn total_size(places: Seq<Place>, n: int) -> nat
    decreases n,
{
    if n <= 0 {
        0
    } else {
        total_size(places, n - 1) + places[n - 1].size
    }
}

/// Two fields do not overlap.
pub open spec fn apart(a: Place, b: Place) -> bool {
    a.at + a.size <= b.at || b.at + b.size <= a.at
}

/// A struct of `size` bytes has its fields at these places: they lie inside it and do not
/// overlap, as the fields of every struct do, and they fill it, as the text demands of the
/// compiler.
pub open spec fn laid_out(places: Seq<Place>, size: nat) -> bool {
    &&& forall|i: int| 0 <= i < places.len() ==> (#[trigger] places[i]).at + places[i].size <= size
    &&& forall|i: int, j: int| 0 <= i < j < places.len() ==> apart(#[trigger] places[i], #[trigger] places[j])
    &&& total_size(places, places.len() as int) == size
}

/// The bytes of the fields of a value: each has as many as its type is large.
pub open spec fn values_of(places: Seq<Place>, bytes: Seq<Seq<u8>>) -> bool {
    &&& bytes.len() == places.len()
    &&& forall|i: int| 0 <= i < places.len() ==> (#[trigger] bytes[i]).len() == places[i].size
}

/// The place of a field of `size` bytes that starts at `at`.
pub open spec fn place(at: int, size: nat) -> Place {
    Place { at: at as nat, size }
}

/// What [`crate::zerocopy::put_field`] makes of `dst`.
pub open spec fn put(dst: Seq<u8>, p: Place, bytes: Seq<u8>) -> Seq<u8> {
    dst.take(p.at as int) + bytes + dst.skip((p.at + p.size) as int)
}

/// What [`crate::zerocopy::take_field`] reads from `src`.
pub open spec fn taken(src: Seq<u8>, p: Place) -> Seq<u8> {
    src.subrange(p.at as int, (p.at + p.size) as int)
}

/// What the calls for the first `n` fields in `encode` make of `dst`.
pub open spec fn encoded(dst: Seq<u8>, places: Seq<Place>, bytes: Seq<Seq<u8>>, n: int) -> Seq<u8>
    decreases n,
{
    if n <= 0 {
        dst
    } else {
        put(encoded(dst, places, bytes, n - 1), places[n - 1], bytes[n - 1])
    }
}

/// What the calls in `decode` read: the bytes at the place of each field.
pub open spec fn decoded(src: Seq<u8>, places: Seq<Place>) -> Seq<Seq<u8>> {
    Seq::new(places.len(), |i: int| taken(src, places[i]))
}

/// The bytes of a value in memory: each field's bytes at its place.
pub open spec fn is_memory(m: Seq<u8>, places: Seq<Place>, bytes: Seq<Seq<u8>>, size: nat) -> bool {
    m.len() == size && decoded(m, places) == bytes
}

/// Byte `k` belongs to one of the first `n` fields.
pub open spec fn covered(places: Seq<Place>, n: int, k: int) -> bool {
    exists|i: int| 0 <= i < n && (#[trigger] places[i]).at <= k < places[i].at + places[i].size
}

/// The bytes that belong to the first `n` fields are as many as the fields are large together.
proof fn lemma_covered(places: Seq<Place>, size: nat, n: int)
    requires
        forall|i: int| 0 <= i < places.len() ==> (#[trigger] places[i]).at + places[i].size <= size,
        forall|i: int, j: int| 0 <= i < j < places.len() ==> apart(#[trigger] places[i], #[trigger] places[j]),
        0 <= n <= places.len(),
    ensures
        ({
            let all = set_int_range(0, size as int).filter(|k: int| covered(places, n, k));
            all.finite() && all.len() == total_size(places, n)
        }),
    decreases n,
{
    let range = set_int_range(0, size as int);
    let all = range.filter(|k: int| covered(places, n, k));
    lemma_int_range(0, size as int);
    if n == 0 {
        assert(all =~= Set::empty());
    } else {
        lemma_covered(places, size, n - 1);
        let before = range.filter(|k: int| covered(places, n - 1, k));
        let p = places[n - 1];
        let here = set_int_range(p.at as int, (p.at + p.size) as int);
        lemma_int_range(p.at as int, (p.at + p.size) as int);
        assert forall|k: int| #[trigger] all.contains(k) <==> before.contains(k) || here.contains(k) by {
            if all.contains(k) {
                let i = choose|i: int| 0 <= i < n && (#[trigger] places[i]).at <= k < places[i].at + places[i].size;
                if i < n - 1 {
                    assert(covered(places, n - 1, k));
                }
            }
            if before.contains(k) {
                let i = choose|i: int| 0 <= i < n - 1 && (#[trigger] places[i]).at <= k < places[i].at + places[i].size;
                assert(covered(places, n, k));
            }
            if here.contains(k) {
                assert(places[n - 1].at <= k < places[n - 1].at + places[n - 1].size);
                assert(covered(places, n, k));
            }
        }
        assert(all =~= before + here);
        assert(before.disjoint(here)) by {
            assert forall|k: int| before.contains(k) implies !here.contains(k) by {
                let i = choose|i: int| 0 <= i < n - 1 && (#[trigger] places[i]).at <= k < places[i].at + places[i].size;
                assert(apart(places[i], places[n - 1]));
            }
        }
        lemma_set_disjoint_lens(before, here);
    }
}

/// A struct that is as large as its fields together has no byte outside of them.
pub proof fn no_padding(places: Seq<Place>, size: nat, k: int)
    requires
        laid_out(places, size),
        0 <= k < size,
    ensures
        covered(places, places.len() as int, k),
{
    let n = places.len() as int;
    let range = set_int_range(0, size as int);
    let all = range.filter(|k: int| covered(places, n, k));
    lemma_int_range(0, size as int);
    lemma_covered(places, size, n);
    lemma_subset_equality(all, range);
    assert(all.contains(k));
}

/// What the calls for the first `n` fields leave behind.
proof fn lemma_encoded(dst: Seq<u8>, places: Seq<Place>, bytes: Seq<Seq<u8>>, size: nat, n: int)
    requires
        laid_out(places, size),
        values_of(places, bytes),
        size <= dst.len(),
        0 <= n <= places.len(),
    ensures
        ({
            let out = encoded(dst, places, bytes, n);
            &&& out.len() == dst.len()
            &&& out.skip(size as int) == dst.skip(size as int)
            &&& forall|i: int|
                0 <= i < n ==> (#[trigger] bytes[i]) == out.subrange(places[i].at as int, (places[i].at + places[i].size) as int)
        }),
    decreases n,
{
    if n > 0 {
        lemma_encoded(dst, places, bytes, size, n - 1);
        let mid = encoded(dst, places, bytes, n - 1);
        let out = encoded(dst, places, bytes, n);
        let p = places[n - 1];
        assert(bytes[n - 1].len() == p.size);
        assert(out.len() == dst.len());
        assert forall|k: int| 0 <= k < out.len() && !(p.at <= k < p.at + p.size) implies out[k] == mid[k] by {}
        assert(out.skip(size as int) =~= dst.skip(size as int)) by {
            assert forall|k: int| size <= k < dst.len() implies out[k] == dst[k] by {
                assert(mid.skip(size as int)[k - size] == dst.skip(size as int)[k - size]);
            }
        }
        assert forall|i: int| 0 <= i < n implies (#[trigger] bytes[i]) == out.subrange(
            places[i].at as int,
            (places[i].at + places[i].size) as int,
        ) by {
            let q = places[i];
            assert(bytes[i].len() == q.size);
            if i < n - 1 {
                assert(apart(places[i], places[n - 1]));
                assert(bytes[i] == mid.subrange(q.at as int, (q.at + q.size) as int));
            }
            assert(bytes[i] =~= out.subrange(q.at as int, (q.at + q.size) as int));
        }
    }
}

/// There is one row of bytes that a value has in memory.
pub proof fn memory_is_one(a: Seq<u8>, b: Seq<u8>, places: Seq<Place>, bytes: Seq<Seq<u8>>, size: nat)
    requires
        laid_out(places, size),
        is_memory(a, places, bytes, size),
        is_memory(b, places, bytes, size),
    ensures
        a == b,
{
    assert forall|k: int| 0 <= k < size implies a[k] == b[k] by {
        no_padding(places, size, k);
        let i = choose|i: int|
            0 <= i < places.len() && (#[trigger] places[i]).at <= k < places[i].at + places[i].size;
        let p = places[i];
        assert(decoded(a, places)[i] == decoded(b, places)[i]);
        assert(a.subrange(p.at as int, (p.at + p.size) as int)[k - p.at] == b.subrange(
            p.at as int,
            (p.at + p.size) as int,
        )[k - p.at]);
    }
    assert(a =~= b);
}

/// A derived `encode` on a destination that is large enough writes the bytes that the value has
/// in memory to the front, leaves the rest as it was, and makes no call that a field's place does
/// not allow.
pub proof fn derived_encode(dst: Seq<u8>, places: Seq<Place>, bytes: Seq<Seq<u8>>, size: nat, m: Seq<u8>)
    requires
        laid_out(places, size),
        values_of(places, bytes),
        size <= dst.len(),
        is_memory(m, places, bytes, size),
    ensures
        encoded(dst, places, bytes, places.len() as int) == m + dst.skip(size as int),
        forall|i: int| 0 <= i < places.len() ==> (#[trigger] places[i]).at + places[i].size <= dst.len(),
{
    let n = places.len() as int;
    let out = encoded(dst, places, bytes, n);
    lemma_encoded(dst, places, bytes, size, n);
    lemma_front(out, places, bytes, size);
    memory_is_one(out.take(size as int), m, places, bytes, size);
    assert(out =~= out.take(size as int) + out.skip(size as int));
}

proof fn lemma_front(out: Seq<u8>, places: Seq<Place>, bytes: Seq<Seq<u8>>, size: nat)
    requires
        laid_out(places, size),
        values_of(places, bytes),
        size <= out.len(),
        forall|i: int|
            0 <= i < places.len() ==> (#[trigger] bytes[i]) == out.subrange(
                places[i].at as int,
                (places[i].at + places[i].size) as int,
            ),
    ensures
        is_memory(out.take(size as int), places, bytes, size),
{
    let front = out.take(size as int);
    assert forall|i: int| 0 <= i < places.len() implies #[trigger] decoded(front, places)[i] == bytes[i] by {
        let p = places[i];
        assert(bytes[i].len() == p.size);
        assert(front.subrange(p.at as int, (p.at + p.size) as int) =~= out.subrange(
            p.at as int,
            (p.at + p.size) as int,
        ));
    }
    assert(decoded(front, places) =~= bytes);
}

/// Every value has bytes in memory, as many as the type is large.
pub proof fn memory_exists(places: Seq<Place>, bytes: Seq<Seq<u8>>, size: nat) -> (m: Seq<u8>)
    requires
        laid_out(places, size),
        values_of(places, bytes),
    ensures
        is_memory(m, places, bytes, size),
        m.len() == size,
{
    let zeros = Seq::new(size, |i: int| 0u8);
    let n = places.len() as int;
    lemma_encoded(zeros, places, bytes, size, n);
    lemma_front(encoded(zeros, places, bytes, n), places, bytes, size);
    encoded(zeros, places, bytes, n).take(size as int)
}

/// A derived `decode` on a source that is large enough makes no call that a field's place does
/// not allow, and gives the value whose bytes in memory stand at the front of the source.
pub proof fn derived_decode(src: Seq<u8>, places: Seq<Place>, size: nat)
    requires
        laid_out(places, size),
        size <= src.len(),
    ensures
        values_of(places, decoded(src, places)),
        is_memory(src.take(size as int), places, decoded(src, places), size),
        forall|i: int| 0 <= i < places.len() ==> (#[trigger] places[i]).at + places[i].size <= src.len(),
{
    let bytes = decoded(src, places);
    assert forall|i: int| 0 <= i < places.len() implies (#[trigger] bytes[i]).len() == places[i].size by {
        assert(places[i].at + places[i].size <= size);
    }
    lemma_front(src, places, bytes, size);
}

/// A derived `decode` gives back the value that a derived `encode` wrote, field by field.
pub proof fn derived_decode_inverts_encode(dst: Seq<u8>, places: Seq<Place>, bytes: Seq<Seq<u8>>, size: nat)
    requires
        laid_out(places, size),
        values_of(places, bytes),
        size <= dst.len(),
    ensures
        decoded(encoded(dst, places, bytes, places.len() as int), places) == bytes,
{
    let n = places.len() as int;
    lemma_encoded(dst, places, bytes, size, n);
    let out = encoded(dst, places, bytes, n);
    assert forall|i: int| 0 <= i < n implies #[trigger] decoded(out, places)[i] == bytes[i] by {}
    assert(decoded(out, places) =~= bytes);
}

/// Values of a derived record that have the same bytes in memory have the same fields.
pub proof fn derived_image_determines(places: Seq<Place>, a: Seq<Seq<u8>>, b: Seq<Seq<u8>>, size: nat, m: Seq<u8>)
    requires
        laid_out(places, size),
        is_memory(m, places, a, size),
        is_memory(m, places, b, size),
    ensures
        a == b,
{
}

/// A statement of a generated method.
pub enum Step {
    /// The destination has to be as long as the type is large.
    CheckDst,
    /// [`crate::zerocopy::put_field`] writes field number `0` to the destination, at its place.
    Put(int),
    /// The source has to be as long as the type is large.
    CheckSrc,
    /// [`crate::zerocopy::take_field`] reads field number `0` from the source, at its place.
    Take(int),
}

/// The statements of `encode`: the check, then a write for each field, in order.
pub open spec fn encode_steps(n: nat) -> Seq<Step> {
    seq![Step::CheckDst] + Seq::new(n, |i: int| Step::Put(i))
}

/// The statements of `decode`: the check, then a read for each field, in order.
pub open spec fn decode_steps(n: nat) -> Seq<Step> {
    seq![Step::CheckSrc] + Seq::new(n, |i: int| Step::Take(i))
}

/// What a generated method works on: the destination, the source, the bytes of the fields that
/// were read, and whether it has not panicked.
pub struct Machine {
    pub dst: Seq<u8>,
    pub src: Seq<u8>,
    pub read: Seq<Seq<u8>>,
    pub ok: bool,
}

/// What a statement does, for a value with these bytes.
pub open spec fn step(m: Machine, s: Step, places: Seq<Place>, bytes: Seq<Seq<u8>>, size: nat) -> Machine {
    if !m.ok {
        m
    } else {
        match s {
            Step::CheckDst => Machine { ok: m.dst.len() >= size, ..m },
            Step::CheckSrc => Machine { ok: m.src.len() >= size, ..m },
            Step::Put(i) => if places[i].at + places[i].size <= m.dst.len() {
                Machine { dst: put(m.dst, places[i], bytes[i]), ..m }
            } else {
                Machine { ok: false, ..m }
            },
            Step::Take(i) => if places[i].at + places[i].size <= m.src.len() {
                Machine { read: m.read.push(taken(m.src, places[i])), ..m }
            } else {
                Machine { ok: false, ..m }
            },
        }
    }
}

/// What statements do, one after the other.
pub open spec fn run(m: Machine, steps: Seq<Step>, places: Seq<Place>, bytes: Seq<Seq<u8>>, size: nat) -> Machine
    decreases steps.len(),
{
    if steps.len() == 0 {
        m
    } else {
        step(run(m, steps.drop_last(), places, bytes, size), steps.last(), places, bytes, size)
    }
}

proof fn lemma_encode_run(m: Machine, places: Seq<Place>, bytes: Seq<Seq<u8>>, size: nat, n: nat)
    requires
        laid_out(places, size),
        values_of(places, bytes),
        m.ok,
        n <= places.len(),
    ensures
        ({
            let r = run(m, encode_steps(n), places, bytes, size);
            &&& r.ok <==> m.dst.len() >= size
            &&& !r.ok ==> r.dst == m.dst
            &&& r.ok ==> r.dst == encoded(m.dst, places, bytes, n as int)
            &&& r.src == m.src
        }),
    decreases n,
{
    let steps = encode_steps(n);
    if n == 0 {
        assert(steps.drop_last() =~= Seq::<Step>::empty());
        assert(steps.last() == Step::CheckDst);
        assert(run(m, steps.drop_last(), places, bytes, size) == m);
    } else {
        lemma_encode_run(m, places, bytes, size, (n - 1) as nat);
        assert(steps.drop_last() =~= encode_steps((n - 1) as nat));
        assert(steps.last() == Step::Put(n - 1));
        if m.dst.len() >= size {
            lemma_encoded(m.dst, places, bytes, size, n - 1);
        }
    }
}

proof fn lemma_decode_run(m: Machine, places: Seq<Place>, bytes: Seq<Seq<u8>>, size: nat, n: nat)
    requires
        laid_out(places, size),
        m.ok,
        m.read.len() == 0,
        n <= places.len(),
    ensures
        ({
            let r = run(m, decode_steps(n), places, bytes, size);
            &&& r.ok <==> m.src.len() >= size
            &&& r.ok ==> r.read == decoded(m.src, places).take(n as int)
            &&& r.src == m.src
            &&& r.dst == m.dst
        }),
    decreases n,
{
    let steps = decode_steps(n);
    if n == 0 {
        assert(steps.drop_last() =~= Seq::<Step>::empty());
        assert(steps.last() == Step::CheckSrc);
        assert(run(m, steps.drop_last(), places, bytes, size) == m);
        assert(m.read =~= decoded(m.src, places).take(0));
    } else {
        lemma_decode_run(m, places, bytes, size, (n - 1) as nat);
        assert(steps.drop_last() =~= decode_steps((n - 1) as nat));
        assert(steps.last() == Step::Take(n - 1));
        let all = decoded(m.src, places);
        assert(all.take(n - 1).push(all[n - 1]) =~= all.take(n as int));
    }
}

/// A generated `encode` panics exactly where the destination is too short. Otherwise the caller's
/// destination starts with the bytes that the value has in memory, and is behind them as it was:
/// the contract of [`crate::ZeroCopy::encode`].
pub proof fn generated_encode_encodes(m: Machine, places: Seq<Place>, bytes: Seq<Seq<u8>>, size: nat, memory: Seq<u8>)
    requires
        laid_out(places, size),
        values_of(places, bytes),
        is_memory(memory, places, bytes, size),
        m.ok,
    ensures
        ({
            let r = run(m, encode_steps(places.len()), places, bytes, size);
            &&& r.ok <==> m.dst.len() >= size
            &&& r.ok ==> r.dst == memory + m.dst.skip(size as int)
            &&& r.ok ==> r.dst.len() == m.dst.len() && r.dst.take(size as int) == memory && r.dst.skip(size as int)
                == m.dst.skip(size as int)
        }),
{
    lemma_encode_run(m, places, bytes, size, places.len());
    if m.dst.len() >= size {
        derived_encode(m.dst, places, bytes, size, memory);
        let out = memory + m.dst.skip(size as int);
        assert(out.take(size as int) =~= memory);
        assert(out.skip(size as int) =~= m.dst.skip(size as int));
    }
}

/// A generated `decode` panics exactly where the source is too short. Otherwise it gives the value
/// whose bytes in memory stand at the front of the source: the contract of
/// [`crate::ZeroCopy::decode`].
pub proof fn generated_decode_decodes(m: Machine, places: Seq<Place>, bytes: Seq<Seq<u8>>, size: nat)
    requires
        laid_out(places, size),
        m.ok,
        m.read.len() == 0,
    ensures
        ({
            let r = run(m, decode_steps(places.len()), places, bytes, size);
            &&& r.ok <==> m.src.len() >= size
            &&& r.ok ==> values_of(places, r.read) && is_memory(m.src.take(size as int), places, r.read, size)
        }),
{
    lemma_decode_run(m, places, bytes, size, places.len());
    if m.src.len() >= size {
        derived_decode(m.src, places, size);
        let all = decoded(m.src, places);
        assert(all.take(places.len() as int) =~= all);
    }
}

/// A generated `decode` gives back, field by field, the value that a generated `encode` wrote.
pub proof fn generated_decode_inverts_encode(
    m: Machine,
    k: Machine,
    places: Seq<Place>,
    bytes: Seq<Seq<u8>>,
    other: Seq<Seq<u8>>,
    size: nat,
)
    requires
        laid_out(places, size),
        values_of(places, bytes),
        m.ok,
        m.dst.len() >= size,
        k.ok,
        k.read.len() == 0,
        k.src == run(m, encode_steps(places.len()), places, bytes, size).dst,
    ensures
        run(k, decode_steps(places.len()), places, other, size).ok,
        run(k, decode_steps(places.len()), places, other, size).read == bytes,
{
    lemma_encode_run(m, places, bytes, size, places.len());
    lemma_encoded(m.dst, places, bytes, size, places.len() as int);
    derived_decode_inverts_encode(m.dst, places, bytes, size);
    lemma_decode_run(k, places, other, size, places.len());
    assert(bytes.take(places.len() as int) =~= bytes);
}

/// What the statements work with is what their names say: a write puts the bytes of the field at
/// its place and changes no other byte of the destination, and a read takes them from there.
pub proof fn steps_write_and_read_at_places(dst: Seq<u8>, p: Place, bytes: Seq<u8>, k: int)
    requires
        p.at + p.size <= dst.len(),
        bytes.len() == p.size,
        0 <= k < dst.len(),
    ensures
        put(dst, p, bytes).len() == dst.len(),
        p.at <= k < p.at + p.size ==> put(dst, p, bytes)[k] == bytes[k - p.at],
        !(p.at <= k < p.at + p.size) ==> put(dst, p, bytes)[k] == dst[k],
        taken(put(dst, p, bytes), p) == bytes,
        taken(dst, p).len() == p.size,
        p.at <= k < p.at + p.size ==> taken(dst, p)[k - p.at] == dst[k],
{
    assert(taken(put(dst, p, bytes), p) =~= bytes);
}

} // verus!
