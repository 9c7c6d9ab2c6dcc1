//! Byte-order-aware integer encoding.
//!
//! Every multi-byte integer of an archive is stored either least significant
//! byte first or most significant byte first. The functions here convert
//! between integers and their byte sequences in both orders.
use vstd::prelude::*;

verus! {

/// The 32-bit word whose bytes are, from least to most significant, `b0` to `b3`.
pub open spec fn word(b0: u8, b1: u8, b2: u8, b3: u8) -> u32 {
    (b0 as u32) | ((b1 as u32) << 8) | ((b2 as u32) << 16) | ((b3 as u32) << 24)
}

/// Byte `k` of `v`, counted from the least significant one.
pub open spec fn byte_of(v: u32, k: u32) -> u8 {
    ((v >> (8 * k)) & 0xff) as u8
}

/// The 16-bit value whose low byte is `b0` and whose high byte is `b1`.
pub open spec fn half(b0: u8, b1: u8) -> u16 {
    (b0 as u16) | ((b1 as u16) << 8)
}

/// The low byte of `v`.
pub open spec fn low_byte(v: u16) -> u8 {
    (v & 0xff) as u8
}

/// The high byte of `v`.
pub open spec fn high_byte(v: u16) -> u8 {
    ((v >> 8) & 0xff) as u8
}

/// The four bytes that store `v` in the given byte order.
pub open spec fn u32_bytes(v: u32, little: bool) -> Seq<u8> {
    if little {
        seq![byte_of(v, 0), byte_of(v, 1), byte_of(v, 2), byte_of(v, 3)]
    } else {
        seq![byte_of(v, 3), byte_of(v, 2), byte_of(v, 1), byte_of(v, 0)]
    }
}

/// The value stored by the first four bytes of `bytes` in the given byte order.
pub open spec fn u32_of(bytes: Seq<u8>, little: bool) -> u32 {
    if little {
        word(bytes[0], bytes[1], bytes[2], bytes[3])
    } else {
        word(bytes[3], bytes[2], bytes[1], bytes[0])
    }
}

/// The two bytes that store `v` in the given byte order.
pub open spec fn u16_bytes(v: u16, little: bool) -> Seq<u8> {
    if little {
        seq![low_byte(v), high_byte(v)]
    } else {
        seq![high_byte(v), low_byte(v)]
    }
}

/// The value stored by the first two bytes of `bytes` in the given byte order.
pub open spec fn u16_of(bytes: Seq<u8>, little: bool) -> u16 {
    if little {
        half(bytes[0], bytes[1])
    } else {
        half(bytes[1], bytes[0])
    }
}

/// `s` with the bytes from `at` on replaced by `piece`; the length stays.
pub open spec fn splice(s: Seq<u8>, at: int, piece: Seq<u8>) -> Seq<u8> {
    s.subrange(0, at) + piece + s.subrange(at + piece.len(), s.len() as int)
}

/// Splitting a word into bytes and joining them again gives the word back.
pub proof fn lemma_word_of_bytes(v: u32)
    by (bit_vector)
    ensures
        word(byte_of(v, 0), byte_of(v, 1), byte_of(v, 2), byte_of(v, 3)) == v,
{
}

/// Joining four bytes and splitting the word again gives the bytes back.
pub proof fn lemma_bytes_of_word(b0: u8, b1: u8, b2: u8, b3: u8)
    by (bit_vector)
    ensures
        byte_of(word(b0, b1, b2, b3), 0) == b0,
        byte_of(word(b0, b1, b2, b3), 1) == b1,
        byte_of(word(b0, b1, b2, b3), 2) == b2,
        byte_of(word(b0, b1, b2, b3), 3) == b3,
{
}

/// Splitting a 16-bit value and joining it again gives the value back, and
/// the other way round.
pub proof fn lemma_half_bytes(v: u16, b0: u8, b1: u8)
    by (bit_vector)
    ensures
        half(low_byte(v), high_byte(v)) == v,
        low_byte(half(b0, b1)) == b0,
        high_byte(half(b0, b1)) == b1,
{
}

/// Decoding what was encoded gives the value back, in either byte order.
pub proof fn lemma_u32_round_trip(v: u32, little: bool)
    ensures
        u32_bytes(v, little).len() == 4,
        u32_of(u32_bytes(v, little), little) == v,
{
    lemma_word_of_bytes(v);
}

/// Encoding what was decoded from four bytes gives the bytes back.
pub proof fn lemma_u32_bytes_of(bytes: Seq<u8>, little: bool)
    requires
        bytes.len() == 4,
    ensures
        u32_bytes(u32_of(bytes, little), little) == bytes,
{
    lemma_bytes_of_word(bytes[0], bytes[1], bytes[2], bytes[3]);
    lemma_bytes_of_word(bytes[3], bytes[2], bytes[1], bytes[0]);
    assert(u32_bytes(u32_of(bytes, little), little) =~= bytes);
}

/// Decoding what was encoded gives the value back, in either byte order.
pub proof fn lemma_u16_round_trip(v: u16, little: bool)
    ensures
        u16_bytes(v, little).len() == 2,
        u16_of(u16_bytes(v, little), little) == v,
{
    lemma_half_bytes(v, 0, 0);
}

/// Encoding what was decoded from two bytes gives the bytes back.
pub proof fn lemma_u16_bytes_of(bytes: Seq<u8>, little: bool)
    requires
        bytes.len() == 2,
    ensures
        u16_bytes(u16_of(bytes, little), little) == bytes,
{
    lemma_half_bytes(0, bytes[0], bytes[1]);
    lemma_half_bytes(0, bytes[1], bytes[0]);
    assert(u16_bytes(u16_of(bytes, little), little) =~= bytes);
}

/// The four bytes of `v`, the least significant one first.
pub fn split_u32(v: u32) -> (bytes: (u8, u8, u8, u8))
    ensures
        bytes.0 == byte_of(v, 0),
        bytes.1 == byte_of(v, 1),
        bytes.2 == byte_of(v, 2),
        bytes.3 == byte_of(v, 3),
{
    let b0: u8 = #[verifier::truncate] ((v & 0xff) as u8);
    let b1: u8 = #[verifier::truncate] (((v >> 8) & 0xff) as u8);
    let b2: u8 = #[verifier::truncate] (((v >> 16) & 0xff) as u8);
    let b3: u8 = #[verifier::truncate] (((v >> 24) & 0xff) as u8);
    assert(b0 == byte_of(v, 0) && b1 == byte_of(v, 1) && b2 == byte_of(v, 2) && b3 == byte_of(
        v,
        3,
    )) by (bit_vector)
        requires
            b0 == (v & 0xff) as u8,
            b1 == ((v >> 8) & 0xff) as u8,
            b2 == ((v >> 16) & 0xff) as u8,
            b3 == ((v >> 24) & 0xff) as u8,
    ;
    (b0, b1, b2, b3)
}

/// Appends `v` to `out` in the given byte order.
pub fn put_u32(out: &mut Vec<u8>, v: u32, little: bool)
    ensures
        final(out)@ == old(out)@ + u32_bytes(v, little),
{
    let (b0, b1, b2, b3) = split_u32(v);
    if little {
        out.push(b0);
        out.push(b1);
        out.push(b2);
        out.push(b3);
    } else {
        out.push(b3);
        out.push(b2);
        out.push(b1);
        out.push(b0);
    }
    assert(out@ =~= old(out)@ + u32_bytes(v, little));
}

/// Appends `v` to `out` in the given byte order.
pub fn put_u16(out: &mut Vec<u8>, v: u16, little: bool)
    ensures
        final(out)@ == old(out)@ + u16_bytes(v, little),
{
    let b0: u8 = #[verifier::truncate] ((v & 0xff) as u8);
    let b1: u8 = #[verifier::truncate] (((v >> 8) & 0xff) as u8);
    if little {
        out.push(b0);
        out.push(b1);
    } else {
        out.push(b1);
        out.push(b0);
    }
    assert(out@ =~= old(out)@ + u16_bytes(v, little));
}

/// Reads the 32-bit value stored at `pos` in the given byte order.
pub fn get_u32(data: &[u8], pos: usize, little: bool) -> (v: u32)
    requires
        pos + 4 <= data@.len(),
    ensures
        v == u32_of(data@.subrange(pos as int, pos + 4), little),
{
    let b0: u8 = data[pos];
    let b1: u8 = data[pos + 1];
    let b2: u8 = data[pos + 2];
    let b3: u8 = data[pos + 3];
    if little {
        (b0 as u32) | ((b1 as u32) << 8) | ((b2 as u32) << 16) | ((b3 as u32) << 24)
    } else {
        (b3 as u32) | ((b2 as u32) << 8) | ((b1 as u32) << 16) | ((b0 as u32) << 24)
    }
}

/// Reads the 16-bit value stored at `pos` in the given byte order.
pub fn get_u16(data: &[u8], pos: usize, little: bool) -> (v: u16)
    requires
        pos + 2 <= data@.len(),
    ensures
        v == u16_of(data@.subrange(pos as int, pos + 2), little),
{
    let b0: u8 = data[pos];
    let b1: u8 = data[pos + 1];
    if little {
        (b0 as u16) | ((b1 as u16) << 8)
    } else {
        (b1 as u16) | ((b0 as u16) << 8)
    }
}

/// Overwrites the four bytes at `pos` with `v` in the given byte order.
pub fn set_u32(out: &mut Vec<u8>, pos: usize, v: u32, little: bool)
    requires
        pos + 4 <= old(out)@.len(),
    ensures
        final(out)@ == splice(old(out)@, pos as int, u32_bytes(v, little)),
{
    let len: usize = out.len();
    let (b0, b1, b2, b3) = split_u32(v);
    if little {
        out.set(pos, b0);
        out.set(pos + 1, b1);
        out.set(pos + 2, b2);
        out.set(pos + 3, b3);
    } else {
        out.set(pos, b3);
        out.set(pos + 1, b2);
        out.set(pos + 2, b1);
        out.set(pos + 3, b0);
    }
    assert(out@ =~= splice(old(out)@, pos as int, u32_bytes(v, little)));
}

/// `count` zero bytes.
pub open spec fn zeros(count: nat) -> Seq<u8> {
    Seq::new(count, |i: int| 0u8)
}

/// Appends `src` to `out`.
pub fn put_bytes(out: &mut Vec<u8>, src: &[u8])
    ensures
        final(out)@ == old(out)@ + src@,
{
    let mut i: usize = 0;
    while i < src.len()
        invariant
            i <= src@.len(),
            out@ == old(out)@ + src@.subrange(0, i as int),
        decreases src@.len() - i,
    {
        out.push(src[i]);
        i += 1;
        assert(out@ =~= old(out)@ + src@.subrange(0, i as int));
    }
    assert(src@.subrange(0, i as int) =~= src@);
}

/// Appends `count` zero bytes to `out`.
pub fn put_zeros(out: &mut Vec<u8>, count: usize)
    ensures
        final(out)@ == old(out)@ + zeros(count as nat),
{
    let mut i: usize = 0;
    while i < count
        invariant
            i <= count,
            out@ == old(out)@ + zeros(i as nat),
        decreases count - i,
    {
        out.push(0u8);
        i += 1;
        assert(out@ =~= old(out)@ + zeros(i as nat));
    }
}

/// The array that holds `items`.
pub open spec fn array_of<T, const N: usize>(items: Seq<T>) -> [T; N] {
    choose|a: [T; N]| a@ == items
}

/// For every sequence of `N` items there is an array that holds it.
proof fn lemma_array_holds<T: Copy, const N: usize>(items: Seq<T>, upto: nat) -> (a: [T; N])
    requires
        items.len() == N,
        upto <= N,
    ensures
        forall|i: int| 0 <= i < upto ==> a@[i] == items[i],
    decreases upto,
{
    broadcast use vstd::array::group_array_axioms;

    if upto == 0 {
        vstd::array::spec_array_fill_for_copy_type::<T, N>(arbitrary())
    } else {
        let before = lemma_array_holds::<T, N>(items, (upto - 1) as nat);
        vstd::array::spec_array_update(before, upto - 1, items[upto - 1])
    }
}

/// `array_of` holds what it was given.
pub proof fn lemma_array_of<T: Copy, const N: usize>(items: Seq<T>)
    requires
        items.len() == N,
    ensures
        array_of::<T, N>(items)@ == items,
{
    let a = lemma_array_holds::<T, N>(items, N as nat);
    assert(a@ =~= items);
}

/// An array is fixed by what it holds.
pub proof fn lemma_array_held<T: Copy, const N: usize>(held: [T; N])
    ensures
        held@.len() == N,
        array_of::<T, N>(held@) == held,
{
    broadcast use vstd::array::group_array_axioms;

    let b = choose|a: [T; N]| a@ == held@;
    assert(b =~= held);
}

/// Replacing bytes in the first of two parts leaves the second part alone.
pub proof fn lemma_splice_front(a: Seq<u8>, b: Seq<u8>, at: int, piece: Seq<u8>)
    requires
        0 <= at,
        at + piece.len() <= a.len(),
    ensures
        splice(a + b, at, piece) == splice(a, at, piece) + b,
        splice(a, at, piece).len() == a.len(),
{
    assert(splice(a + b, at, piece) =~= splice(a, at, piece) + b);
}

/// Replacing bytes in the second of two parts leaves the first part alone.
pub proof fn lemma_splice_back(a: Seq<u8>, b: Seq<u8>, at: int, piece: Seq<u8>)
    requires
        0 <= at,
        at + piece.len() <= b.len(),
    ensures
        splice(a + b, a.len() + at, piece) == a + splice(b, at, piece),
{
    assert(splice(a + b, a.len() + at, piece) =~= a + splice(b, at, piece));
}

/// Replacing a window by the window with some bytes replaced is replacing
/// those bytes.
pub proof fn lemma_splice_nested(s: Seq<u8>, at: int, width: int, inner: int, piece: Seq<u8>)
    requires
        0 <= at,
        at + width <= s.len(),
        0 <= inner,
        inner + piece.len() <= width,
    ensures
        splice(s, at, splice(s.subrange(at, at + width), inner, piece)) == splice(
            s,
            at + inner,
            piece,
        ),
{
    assert(splice(s, at, splice(s.subrange(at, at + width), inner, piece)) =~= splice(
        s,
        at + inner,
        piece,
    ));
}

/// The parts of a sequence that is made of a front of 4, 4 and 100 bytes
/// and of two more parts.
pub proof fn lemma_front_parts(a: Seq<u8>, b: Seq<u8>, c: Seq<u8>, d: Seq<u8>, e: Seq<u8>)
    requires
        a.len() == 4,
        b.len() == 4,
        c.len() == 100,
    ensures
        (a + b + c + d + e).subrange(0, 4) == a,
        (a + b + c + d + e).subrange(4, 8) == b,
        (a + b + c + d + e).subrange(8, 108) == c,
        (a + b + c + d + e).subrange(108, (a + b + c + d + e).len() as int) == d + e,
        (a + b + c + d + e).len() == 108 + d.len() + e.len(),
{
    let all = a + b + c + d + e;
    assert(all.subrange(0, 4) =~= a);
    assert(all.subrange(4, 8) =~= b);
    assert(all.subrange(8, 108) =~= c);
    assert(all.subrange(108, all.len() as int) =~= d + e);
}

/// A prefix is a shorter prefix followed by the start of what is behind it,
/// and two sequences with one front are equal exactly when their rests are.
pub proof fn lemma_prefix_parts(bytes: Seq<u8>, front: int, more: int, other: Seq<u8>)
    requires
        0 <= front,
        0 <= more,
        front + more <= bytes.len(),
    ensures
        bytes.subrange(0, front + more) == bytes.subrange(0, front) + bytes.subrange(
            front,
            bytes.len() as int,
        ).subrange(0, more),
        bytes.subrange(0, front) + other == bytes.subrange(0, front + more) <==> other
            == bytes.subrange(front, bytes.len() as int).subrange(0, more),
{
    let head = bytes.subrange(0, front);
    let rest = bytes.subrange(front, bytes.len() as int).subrange(0, more);
    assert(bytes.subrange(0, front + more) =~= head + rest);
    if head + other == head + rest {
        assert(other =~= (head + other).subrange(front, front + other.len()));
        assert(rest =~= (head + rest).subrange(front, front + rest.len()));
        assert((head + other).len() == (head + rest).len());
    }
}

} // verus!
