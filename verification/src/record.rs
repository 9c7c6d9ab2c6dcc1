//! Fixed-width records and tables of them.
//!
//! A table is a flat array: its records follow one another without gaps, each
//! `width()` bytes long.
use crate::codec::splice;
use crate::error::MstError;
use vstd::prelude::*;

verus! {

/// A value with a fixed-width binary form in either byte order.
pub trait Record: Sized + Copy {
    /// The number of bytes of one record.
    spec fn width() -> nat;

    /// The bytes that store the record.
    spec fn encoding(self, little: bool) -> Seq<u8>;

    /// The record that `bytes` stores.
    spec fn decoding(bytes: Seq<u8>, little: bool) -> Self;

    /// Whether `bytes` holds nothing outside the record's fields, so that
    /// decoding loses nothing.
    spec fn exact(bytes: Seq<u8>, little: bool) -> bool;

    /// Every record is stored in `width()` bytes, and `width()` is not zero.
    proof fn lemma_width(self, little: bool)
        ensures
            Self::width() > 0,
            self.encoding(little).len() == Self::width(),
    ;

    /// Decoding the stored bytes gives the record back.
    proof fn lemma_decode_encode(self, little: bool)
        ensures
            Self::decoding(self.encoding(little), little) == self,
            Self::exact(self.encoding(little), little),
    ;

    /// Storing a decoded record gives the bytes back exactly when they are exact.
    proof fn lemma_encode_decode(bytes: Seq<u8>, little: bool)
        requires
            bytes.len() == Self::width(),
        ensures
            Self::exact(bytes, little) <==> Self::decoding(bytes, little).encoding(little)
                == bytes,
    ;

    /// The number of bytes of one record.
    fn byte_len() -> (n: usize)
        ensures
            n == Self::width(),
    ;

    /// Appends the record to `out`.
    fn put(&self, out: &mut Vec<u8>, little: bool)
        ensures
            final(out)@ == old(out)@ + self.encoding(little),
    ;

    /// Reads the record that starts at `pos`.
    fn get(data: &[u8], pos: usize, little: bool) -> (record: Self)
        requires
            pos + Self::width() <= data@.len(),
        ensures
            record == Self::decoding(
                data@.subrange(pos as int, pos + Self::width()),
                little,
            ),
    ;
}

/// The bytes of a table that holds `items` in order.
pub open spec fn encode_all<R: Record>(items: Seq<R>, little: bool) -> Seq<u8>
    decreases items.len(),
{
    if items.len() == 0 {
        Seq::empty()
    } else {
        encode_all(items.drop_last(), little) + items.last().encoding(little)
    }
}

/// The part of `bytes` that holds record `i` of a table of `R`.
pub open spec fn slot<R: Record>(bytes: Seq<u8>, i: int) -> Seq<u8> {
    bytes.subrange(i * R::width(), i * R::width() + R::width())
}

/// The `count` records that a table stores at the start of `bytes`.
pub open spec fn decode_all<R: Record>(bytes: Seq<u8>, count: nat, little: bool) -> Seq<R> {
    Seq::new(count, |i: int| R::decoding(slot::<R>(bytes, i), little))
}

/// Whether each of the first `count` slots of `bytes` is exact.
pub open spec fn all_exact<R: Record>(bytes: Seq<u8>, count: nat, little: bool) -> bool {
    forall|i: int| 0 <= i < count ==> R::exact(#[trigger] slot::<R>(bytes, i), little)
}

/// A table of `n` records is `n * width()` bytes long.
pub proof fn lemma_encode_all_len<R: Record>(items: Seq<R>, little: bool)
    ensures
        encode_all(items, little).len() == items.len() * R::width(),
    decreases items.len(),
{
    if items.len() == 0 {
        assert(0 * R::width() == 0) by (nonlinear_arith);
    } else {
        lemma_encode_all_len(items.drop_last(), little);
        items.last().lemma_width(little);
        let n = items.len() as int;
        let w = R::width() as int;
        assert((n - 1) * w + w == n * w) by (nonlinear_arith);
    }
}

/// Where slot `i` of `n` lies.
pub proof fn lemma_slot_bounds(i: int, n: int, w: int)
    requires
        0 <= i < n,
        0 <= w,
    ensures
        0 <= i * w,
        i * w + w <= n * w,
        (i + 1) * w == i * w + w,
{
    assert(0 <= i * w) by (nonlinear_arith)
        requires
            0 <= i,
            0 <= w,
    ;
    assert(i * w + w <= n * w) by (nonlinear_arith)
        requires
            i + 1 <= n,
            0 <= w,
    ;
    assert((i + 1) * w == i * w + w) by (nonlinear_arith);
}

/// A table is its first records followed by the rest.
pub proof fn lemma_encode_all_push<R: Record>(items: Seq<R>, last: R, little: bool)
    ensures
        encode_all(items.push(last), little) == encode_all(items, little) + last.encoding(
            little,
        ),
{
    assert(items.push(last).drop_last() =~= items);
}

/// Slot `i` of a table holds record `i`, also with other bytes behind the table.
pub proof fn lemma_encode_all_slot<R: Record>(items: Seq<R>, rest: Seq<u8>, i: int, little: bool)
    requires
        0 <= i < items.len(),
    ensures
        slot::<R>(encode_all(items, little) + rest, i) == items[i].encoding(little),
    decreases items.len(),
{
    let w = R::width() as int;
    let front = items.drop_last();
    let last = items.last();
    lemma_encode_all_len(front, little);
    lemma_encode_all_len(items, little);
    last.lemma_width(little);
    lemma_slot_bounds(i, items.len() as int, w);
    if i == items.len() - 1 {
        assert(slot::<R>(encode_all(items, little) + rest, i) =~= last.encoding(little));
    } else {
        lemma_encode_all_slot(front, last.encoding(little) + rest, i, little);
        lemma_slot_bounds(i, front.len() as int, w);
        assert(encode_all(items, little) + rest =~= encode_all(front, little) + (last.encoding(
            little,
        ) + rest));
        assert(front[i] == items[i]);
    }
}

/// Decoding a stored table gives the records back, also with other bytes
/// behind the table.
pub proof fn lemma_decode_encode_all<R: Record>(items: Seq<R>, rest: Seq<u8>, little: bool)
    ensures
        decode_all::<R>(encode_all(items, little) + rest, items.len(), little) == items,
        all_exact::<R>(encode_all(items, little) + rest, items.len(), little),
{
    let bytes = encode_all(items, little) + rest;
    assert forall|i: int| 0 <= i < items.len() implies R::decoding(
        #[trigger] slot::<R>(bytes, i),
        little,
    ) == items[i] && R::exact(slot::<R>(bytes, i), little) by {
        lemma_encode_all_slot(items, rest, i, little);
        items[i].lemma_decode_encode(little);
    }
    assert(decode_all::<R>(bytes, items.len(), little) =~= items);
}

/// Storing a decoded table gives the bytes back where every slot is exact.
pub proof fn lemma_encode_decode_all<R: Record>(bytes: Seq<u8>, count: nat, little: bool)
    requires
        bytes.len() == count * R::width(),
        all_exact::<R>(bytes, count, little),
    ensures
        encode_all(decode_all::<R>(bytes, count, little), little) == bytes,
    decreases count,
{
    let w = R::width() as int;
    let items = decode_all::<R>(bytes, count, little);
    if count == 0 {
        assert(0 * w == 0) by (nonlinear_arith);
        assert(encode_all(items, little) =~= bytes);
    } else {
        let n = (count - 1) as nat;
        lemma_slot_bounds(n as int, count as int, w);
        let front = bytes.subrange(0, n * w);
        assert forall|i: int| 0 <= i < n implies R::exact(
            #[trigger] slot::<R>(front, i),
            little,
        ) by {
            lemma_slot_bounds(i, n as int, w);
            assert(slot::<R>(front, i) =~= slot::<R>(bytes, i));
        }
        lemma_encode_decode_all::<R>(front, n, little);
        assert forall|i: int| 0 <= i < n implies decode_all::<R>(front, n, little)[i]
            == items[i] by {
            lemma_slot_bounds(i, n as int, w);
            assert(slot::<R>(front, i) =~= slot::<R>(bytes, i));
        }
        assert(items.drop_last() =~= decode_all::<R>(front, n, little));
        assert(R::exact(slot::<R>(bytes, n as int), little));
        R::lemma_encode_decode(slot::<R>(bytes, n as int), little);
        assert(items.last() == R::decoding(slot::<R>(bytes, n as int), little));
        assert(front + slot::<R>(bytes, n as int) =~= bytes);
    }
}

/// Decoding a table looks only at the bytes of its slots.
pub proof fn lemma_decode_all_window<R: Record>(bytes: Seq<u8>, count: nat, little: bool)
    requires
        bytes.len() >= count * R::width(),
    ensures
        decode_all::<R>(bytes, count, little) == decode_all::<R>(
            bytes.subrange(0, (count * R::width()) as int),
            count,
            little,
        ),
        all_exact::<R>(bytes, count, little) == all_exact::<R>(
            bytes.subrange(0, (count * R::width()) as int),
            count,
            little,
        ),
{
    let w = R::width() as int;
    let window = bytes.subrange(0, count * w);
    assert forall|i: int| 0 <= i < count implies #[trigger] slot::<R>(window, i) == slot::<R>(
        bytes,
        i,
    ) by {
        lemma_slot_bounds(i, count as int, w);
        assert(slot::<R>(window, i) =~= slot::<R>(bytes, i));
    }
    assert(decode_all::<R>(bytes, count, little) =~= decode_all::<R>(window, count, little));
    if all_exact::<R>(bytes, count, little) {
        assert forall|i: int| 0 <= i < count implies R::exact(
            #[trigger] slot::<R>(window, i),
            little,
        ) by {
            assert(slot::<R>(window, i) == slot::<R>(bytes, i));
        }
    }
    if all_exact::<R>(window, count, little) {
        assert forall|i: int| 0 <= i < count implies R::exact(
            #[trigger] slot::<R>(bytes, i),
            little,
        ) by {
            assert(slot::<R>(window, i) == slot::<R>(bytes, i));
        }
    }
}

/// Storing a decoded table gives the bytes back exactly when every slot is exact.
pub proof fn lemma_encode_decode_all_iff<R: Record>(bytes: Seq<u8>, count: nat, little: bool)
    requires
        bytes.len() == count * R::width(),
    ensures
        encode_all(decode_all::<R>(bytes, count, little), little).len() == bytes.len(),
        all_exact::<R>(bytes, count, little) <==> encode_all(
            decode_all::<R>(bytes, count, little),
            little,
        ) == bytes,
{
    let items = decode_all::<R>(bytes, count, little);
    lemma_encode_all_len(items, little);
    if all_exact::<R>(bytes, count, little) {
        lemma_encode_decode_all::<R>(bytes, count, little);
    }
    if encode_all(items, little) == bytes {
        assert forall|i: int| 0 <= i < count implies R::exact(
            #[trigger] slot::<R>(bytes, i),
            little,
        ) by {
            lemma_encode_all_slot(items, Seq::empty(), i, little);
            assert(encode_all(items, little) + Seq::<u8>::empty() =~= encode_all(items, little));
            lemma_slot_bounds(i, count as int, R::width() as int);
            R::lemma_encode_decode(slot::<R>(bytes, i), little);
        }
    }
}

/// Replacing record `i` of a table replaces the bytes of slot `i`.
pub proof fn lemma_encode_all_update<R: Record>(items: Seq<R>, i: int, item: R, little: bool)
    requires
        0 <= i < items.len(),
    ensures
        encode_all(items.update(i, item), little) == splice(
            encode_all(items, little),
            i * R::width(),
            item.encoding(little),
        ),
    decreases items.len(),
{
    let w = R::width() as int;
    let front = items.drop_last();
    let last = items.last();
    let changed = items.update(i, item);
    lemma_encode_all_len(front, little);
    lemma_encode_all_len(items, little);
    last.lemma_width(little);
    item.lemma_width(little);
    lemma_slot_bounds(i, items.len() as int, w);
    if i == items.len() - 1 {
        assert(changed.drop_last() =~= front);
        assert(changed.last() == item);
        assert(encode_all(changed, little) =~= splice(
            encode_all(items, little),
            i * w,
            item.encoding(little),
        ));
    } else {
        lemma_encode_all_update(front, i, item, little);
        lemma_slot_bounds(i, front.len() as int, w);
        assert(changed.drop_last() =~= front.update(i, item));
        assert(changed.last() == last);
        assert(encode_all(changed, little) =~= splice(
            encode_all(items, little),
            i * w,
            item.encoding(little),
        ));
    }
}

/// Appends the table of `items` to `out`.
pub fn put_all<R: Record>(items: &Vec<R>, out: &mut Vec<u8>, little: bool)
    ensures
        final(out)@ == old(out)@ + encode_all(items@, little),
{
    let mut i: usize = 0;
    while i < items.len()
        invariant
            i <= items.len(),
            out@ == old(out)@ + encode_all(items@.subrange(0, i as int), little),
        decreases items.len() - i,
    {
        items[i].put(out, little);
        proof {
            lemma_encode_all_push(items@.subrange(0, i as int), items@[i as int], little);
            assert(items@.subrange(0, i as int).push(items@[i as int]) =~= items@.subrange(
                0,
                i + 1,
            ));
        }
        i += 1;
    }
    assert(items@.subrange(0, i as int) =~= items@);
}

/// Reads a table of `count` records that starts at `pos`, and says where the
/// table ends. Fails with `Io` where `data` ends before the table does.
pub fn get_all<R: Record>(data: &[u8], pos: usize, count: usize, little: bool) -> (table: Result<
    (Vec<R>, usize),
    MstError,
>)
    requires
        pos <= data@.len(),
    ensures
        match table {
            Ok((items, end)) => {
                &&& end == pos + count * R::width()
                &&& end <= data@.len()
                &&& items@ == decode_all::<R>(
                    data@.subrange(pos as int, data@.len() as int),
                    count as nat,
                    little,
                )
            },
            Err(error) => error == MstError::Io && pos + count * R::width() > data@.len(),
        },
{
    let width: usize = R::byte_len();
    let ghost w = R::width() as int;
    let ghost tail = data@.subrange(pos as int, data@.len() as int);
    let mut items: Vec<R> = Vec::new();
    let mut at: usize = pos;
    let mut i: usize = 0;
    proof {
        assert(0 * w == 0) by (nonlinear_arith);
    }
    while i < count
        invariant
            i <= count,
            width == w,
            w == R::width(),
            at == pos + i * w,
            at <= data@.len(),
            tail == data@.subrange(pos as int, data@.len() as int),
            items@ == decode_all::<R>(tail, i as nat, little),
        decreases count - i,
    {
        if data.len() - at < width {
            proof {
                assert(pos + count * w > data@.len()) by (nonlinear_arith)
                    requires
                        at == pos + i * w,
                        i < count,
                        data@.len() - at < w,
                        0 <= w,
                ;
            }
            return Err(MstError::Io);
        }
        let item = R::get(data, at, little);
        proof {
            lemma_slot_bounds(i as int, i + 1, w);
            assert(slot::<R>(tail, i as int) =~= data@.subrange(at as int, at + w));
        }
        items.push(item);
        at += width;
        i += 1;
        assert(items@ =~= decode_all::<R>(tail, i as nat, little));
    }
    Ok((items, at))
}

impl Record for u32 {
    open spec fn width() -> nat {
        4
    }

    open spec fn encoding(self, little: bool) -> Seq<u8> {
        crate::codec::u32_bytes(self, little)
    }

    open spec fn decoding(bytes: Seq<u8>, little: bool) -> Self {
        crate::codec::u32_of(bytes, little)
    }

    open spec fn exact(bytes: Seq<u8>, little: bool) -> bool {
        true
    }

    proof fn lemma_width(self, little: bool) {
    }

    proof fn lemma_decode_encode(self, little: bool) {
        crate::codec::lemma_u32_round_trip(self, little);
    }

    proof fn lemma_encode_decode(bytes: Seq<u8>, little: bool) {
        crate::codec::lemma_u32_bytes_of(bytes, little);
    }

    fn byte_len() -> (n: usize) {
        4
    }

    fn put(&self, out: &mut Vec<u8>, little: bool) {
        crate::codec::put_u32(out, *self, little);
    }

    fn get(data: &[u8], pos: usize, little: bool) -> (record: Self) {
        crate::codec::get_u32(data, pos, little)
    }
}

} // verus!
