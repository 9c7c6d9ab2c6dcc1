//! Entry records of the four table revisions and their canonical form.
use crate::codec::{
    array_of, get_u16, get_u32, lemma_array_held, lemma_array_of, lemma_u16_bytes_of,
    lemma_u16_round_trip, lemma_u32_bytes_of, lemma_u32_round_trip, put_u16, put_u32, put_zeros,
    splice, u16_bytes, u16_of, u32_bytes, u32_of, zeros,
};
use crate::record::Record;
use crate::util::until;
use vstd::prelude::*;
use vstd::std_specs::convert::FromSpecImpl;
use vstd::string::StrSliceExecFns;
use vstd::utf8::encode_utf8;

verus! {

/// A fixed-width, null-padded file name of `T` bytes.
#[derive(Clone, Copy, Debug)]
pub struct Filename<const T: usize>(pub [u8; T]);

impl<const T: usize> View for Filename<T> {
    type V = Seq<u8>;

    open spec fn view(&self) -> Seq<u8> {
        self.0@
    }
}

/// The bytes of a name field of `width` bytes that is made from `text`: as
/// much of `text` as leaves room for one terminator, then zero bytes.
pub open spec fn name_field(text: Seq<u8>, width: nat) -> Seq<u8> {
    Seq::new(
        width,
        |i: int|
            if i < text.len() && i + 1 < width {
                text[i]
            } else {
                0u8
            },
    )
}

/// The characters that stand for the bytes of `bytes`, one for one.
pub open spec fn latin1(bytes: Seq<u8>) -> Seq<char> {
    Seq::new(bytes.len(), |i: int| bytes[i] as char)
}

/// An array of `T` zero bytes.
fn blank<const T: usize>() -> (field: [u8; T])
    ensures
        field@ == zeros(T as nat),
{
    broadcast use vstd::array::group_array_axioms;

    let field = [0u8;T];
    assert(field == vstd::array::spec_array_fill_for_copy_type::<u8, T>(0u8));
    assert(forall|i: int| 0 <= i < T ==> field@[i] == 0u8);
    assert(field@.len() == T);
    assert(field@ =~= zeros(T as nat));
    field
}

impl<const T: usize> Filename<T> {
    /// The name whose bytes are `bytes`.
    pub open spec fn of(bytes: Seq<u8>) -> Self {
        Filename(array_of(bytes))
    }

    /// `of` holds what it was given.
    pub proof fn lemma_of(bytes: Seq<u8>)
        requires
            bytes.len() == T,
        ensures
            Self::of(bytes)@ == bytes,
    {
        lemma_array_of::<u8, T>(bytes);
    }

    /// A name is fixed by its bytes.
    pub proof fn lemma_of_view(self)
        ensures
            self@.len() == T,
            Self::of(self@) == self,
    {
        lemma_array_held::<u8, T>(self.0);
    }

    /// The visible text: one character for each byte in front of the first
    /// zero byte.
    pub open spec fn text(self) -> Seq<char> {
        latin1(until(self@, 0u8))
    }

    /// A name from its bytes.
    pub fn new(bytes: [u8; T]) -> (name: Self)
        ensures
            name@ == bytes@,
    {
        Filename(bytes)
    }

    /// The bytes of the name.
    pub fn bytes(&self) -> (bytes: [u8; T])
        ensures
            bytes@ == self@,
    {
        self.0
    }

    /// Whether the name holds no visible text.
    pub fn is_empty(&self) -> (empty: bool)
        ensures
            empty == (T == 0 || self@[0] == 0),
            empty == (self.text().len() == 0),
    {
        proof {
            crate::util::lemma_run_before_bound(self@, 0u8);
            assert(self@.len() == T);
        }
        T == 0 || self.0[0] == 0
    }

    /// The visible text of the name.
    pub fn to_string(&self) -> (text: String)
        ensures
            text@ == self.text(),
    {
        let mut text = String::new();
        let mut i: usize = 0;
        while i < T && self.0[i] != 0
            invariant
                i <= T,
                self@.len() == T,
                forall|j: int| 0 <= j < i ==> self@[j] != 0,
                text@ == latin1(self@.subrange(0, i as int)),
            decreases T - i,
        {
            text.push(self.0[i] as char);
            i += 1;
            assert(text@ =~= latin1(self@.subrange(0, i as int)));
        }
        proof {
            crate::util::lemma_run_before_is(self@, 0u8, i as int);
        }
        text
    }

    /// The name made from `text`: its UTF-8 bytes, cut so that one zero byte
    /// is left at the end, and padded with zero bytes. The cut is made
    /// between bytes, also where that is within a character of several bytes.
    pub fn named(text: &str) -> (name: Self)
        ensures
            name == Self::of(name_field(encode_utf8(text@), T as nat)),
    {
        let text = text.as_bytes();
        let mut buf = blank::<T>();
        let mut i: usize = 0;
        while i < T && i < text.len() && i + 1 < T
            invariant
                i <= T,
                buf@.len() == T,
                forall|j: int| 0 <= j < i ==> buf@[j] == name_field(text@, T as nat)[j],
                forall|j: int| i <= j < T ==> buf@[j] == 0,
            decreases T - i,
        {
            buf[i] = text[i];
            i += 1;
        }
        proof {
            assert(buf@ =~= name_field(text@, T as nat));
            Filename(buf).lemma_of_view();
        }
        Filename(buf)
    }
}

impl<const T: usize> From<&String> for Filename<T> {
    /// The name made from `other`: its UTF-8 bytes, cut so that one zero byte
    /// is left at the end, and padded with zero bytes.
    fn from(other: &String) -> (name: Self) {
        Self::named(other.as_str())
    }
}

impl<const T: usize> FromSpecImpl<&String> for Filename<T> {
    open spec fn obeys_from_spec() -> bool {
        true
    }

    open spec fn from_spec(other: &String) -> Self {
        Self::of(name_field(encode_utf8(other@), T as nat))
    }
}

impl<const T: usize> Filename<T> {
    /// Appends the bytes of the name to `out`.
    pub fn put(&self, out: &mut Vec<u8>)
        ensures
            final(out)@ == old(out)@ + self@,
    {
        crate::codec::put_bytes(out, self.0.as_slice());
    }

    /// Reads the name that starts at `pos`.
    pub fn get(data: &[u8], pos: usize) -> (name: Self)
        requires
            pos + T <= data@.len(),
        ensures
            name == Self::of(data@.subrange(pos as int, pos + T)),
    {
        let len: usize = data.len();
        broadcast use vstd::array::group_array_axioms;

        let mut buf = blank::<T>();
        let mut i: usize = 0;
        while i < T
            invariant
                i <= T,
                pos + T <= data@.len() == len,
                buf@.len() == T,
                forall|j: int| 0 <= j < i ==> buf@[j] == data@[pos + j],
            decreases T - i,
        {
            buf[i] = data[pos + i];
            i += 1;
        }
        proof {
            assert(buf@ =~= data@.subrange(pos as int, pos + T));
            Filename(buf).lemma_of_view();
        }
        Filename(buf)
    }
}

/// A 16-byte name in the 20-byte field: the same bytes, then four zero bytes.
pub open spec fn widened(name: Filename<16>) -> Filename<20> {
    Filename::<20>::of(name@ + crate::codec::zeros(4))
}

/// A 20-byte name in the 16-byte field: its first 15 bytes, then a zero byte.
pub open spec fn narrowed(name: Filename<20>) -> Filename<16> {
    Filename::<16>::of(name@.subrange(0, 15).push(0u8))
}

impl Filename<16> {
    /// The name in the 20-byte field: the bytes stay and zero bytes follow.
    pub fn widen(&self) -> (name: Filename<20>)
        ensures
            name == widened(*self),
    {
        let mut buf = blank::<20>();
        let mut i: usize = 0;
        while i < 16
            invariant
                i <= 16,
                forall|j: int| 0 <= j < i ==> buf@[j] == self@[j],
                forall|j: int| i <= j < 20 ==> buf@[j] == 0,
            decreases 16 - i,
        {
            buf[i] = self.0[i];
            i += 1;
        }
        proof {
            assert(buf@ =~= self@ + crate::codec::zeros(4));
            Filename(buf).lemma_of_view();
        }
        Filename(buf)
    }
}

impl Filename<20> {
    /// The name in the 16-byte field: 15 bytes stay and a terminator follows.
    pub fn narrow(&self) -> (name: Filename<16>)
        ensures
            name == narrowed(*self),
    {
        let mut buf = blank::<16>();
        let mut i: usize = 0;
        while i < 15
            invariant
                i <= 15,
                forall|j: int| 0 <= j < i ==> buf@[j] == self@[j],
                forall|j: int| i <= j < 16 ==> buf@[j] == 0,
            decreases 15 - i,
        {
            buf[i] = self.0[i];
            i += 1;
        }
        proof {
            assert(buf@ =~= self@.subrange(0, 15).push(0u8));
            Filename(buf).lemma_of_view();
        }
        Filename(buf)
    }
}

impl From<Filename<16>> for Filename<20> {
    /// Widens a name: the bytes stay and zero bytes follow.
    fn from(other: Filename<16>) -> (name: Self) {
        other.widen()
    }
}

impl FromSpecImpl<Filename<16>> for Filename<20> {
    open spec fn obeys_from_spec() -> bool {
        true
    }

    open spec fn from_spec(other: Filename<16>) -> Self {
        widened(other)
    }
}

impl From<Filename<20>> for Filename<16> {
    /// Narrows a name: 15 bytes stay and a terminator follows.
    fn from(other: Filename<20>) -> (name: Self) {
        other.narrow()
    }
}

impl FromSpecImpl<Filename<20>> for Filename<16> {
    open spec fn obeys_from_spec() -> bool {
        true
    }

    open spec fn from_spec(other: Filename<20>) -> Self {
        narrowed(other)
    }
}

/// Widening a name and narrowing it again gives the name back exactly when
/// its last byte is zero.
pub proof fn lemma_narrow_widen(name: Filename<16>)
    ensures
        (narrowed(widened(name)) == name) <==> name@[15] == 0,
        narrowed(widened(name))@ == name@.update(15, 0u8),
{
    name.lemma_of_view();
    Filename::<20>::lemma_of(name@ + crate::codec::zeros(4));
    let wide = widened(name);
    Filename::<16>::lemma_of(wide@.subrange(0, 15).push(0u8));
    assert(narrowed(wide)@ =~= name@.update(15, 0u8));
    if name@[15] == 0 {
        assert(narrowed(wide)@ =~= name@);
    } else {
        assert(narrowed(wide)@[15] != name@[15]);
    }
}

/// Narrowing a name and widening it again keeps its first 15 bytes and
/// clears the rest.
pub proof fn lemma_widen_narrow(name: Filename<20>)
    ensures
        widened(narrowed(name))@ == name@.subrange(0, 15) + crate::codec::zeros(5),
        (widened(narrowed(name)) == name) <==> (forall|i: int| 15 <= i < 20 ==> name@[i] == 0),
{
    name.lemma_of_view();
    Filename::<16>::lemma_of(name@.subrange(0, 15).push(0u8));
    let narrow = narrowed(name);
    Filename::<20>::lemma_of(narrow@ + crate::codec::zeros(4));
    let back = widened(narrow);
    assert(back@ =~= name@.subrange(0, 15) + crate::codec::zeros(5));
    if forall|i: int| 15 <= i < 20 ==> name@[i] == 0 {
        assert(back@ =~= name@);
        back.lemma_of_view();
    } else {
        let i = choose|i: int| 15 <= i < 20 && name@[i] != 0;
        assert(back@[i] == 0);
    }
}

/// An entry of the newest revision: name, flags, content range, time stamp
/// and checksum. The name is `FNL` bytes wide.
#[derive(Clone, Copy, Debug)]
pub struct EntryV180Variable<const FNL: usize> {
    pub filename: Filename<FNL>,
    pub flags: u16,
    pub offset: u32,
    pub size: u32,
    pub timestamp: u32,
    pub crc: u32,
}

/// An entry of the intermediate revision: no flags.
#[derive(Clone, Copy, Debug)]
pub struct EntryV170 {
    pub filename: Filename<16>,
    pub offset: u32,
    pub size: u32,
    pub timestamp: u32,
    pub crc: u32,
}

/// An entry of the oldest revision: neither flags nor checksum.
#[derive(Clone, Copy, Debug)]
pub struct EntryV160 {
    pub filename: Filename<16>,
    pub offset: u32,
    pub size: u32,
    pub timestamp: u32,
}

/// A support entry: a name and a time stamp, without content.
#[derive(Clone, Copy, Debug)]
pub struct SupportEntryVariable<const FNL: usize> {
    pub filename: Filename<FNL>,
    pub timestamp: u32,
}

/// The entry shape that every revision maps into.
pub type CanonicalEntry = EntryV180Variable<20>;

/// The support entry shape that every revision maps into.
pub type CanonicalSupportEntry = SupportEntryVariable<20>;

impl<const FNL: usize> EntryV180Variable<FNL> {
    /// The bytes that store the entry: name, flags, two zero bytes, offset,
    /// size, time stamp, checksum.
    pub open spec fn stored(self, little: bool) -> Seq<u8> {
        self.filename@ + u16_bytes(self.flags, little) + zeros(2) + u32_bytes(self.offset, little)
            + u32_bytes(self.size, little) + u32_bytes(self.timestamp, little) + u32_bytes(
            self.crc,
            little,
        )
    }

    /// The entry that `bytes` stores.
    pub open spec fn loaded(bytes: Seq<u8>, little: bool) -> Self {
        EntryV180Variable {
            filename: Filename::of(bytes.subrange(0, FNL as int)),
            flags: u16_of(bytes.subrange(FNL as int, FNL + 2), little),
            offset: u32_of(bytes.subrange(FNL + 4, FNL + 8), little),
            size: u32_of(bytes.subrange(FNL + 8, FNL + 12), little),
            timestamp: u32_of(bytes.subrange(FNL + 12, FNL + 16), little),
            crc: u32_of(bytes.subrange(FNL + 16, FNL + 20), little),
        }
    }

    /// Whether the two bytes behind the flags are zero.
    pub open spec fn padding_clear(bytes: Seq<u8>) -> bool {
        bytes[FNL + 2] == 0 && bytes[FNL + 3] == 0
    }

    /// The entry with another content offset.
    pub open spec fn at_offset(self, offset: u32) -> Self {
        EntryV180Variable { offset, ..self }
    }

    /// Loading the stored bytes gives the entry back.
    pub proof fn lemma_loaded_stored(self, little: bool)
        ensures
            self.stored(little).len() == FNL + 20,
            Self::loaded(self.stored(little), little) == self,
            Self::padding_clear(self.stored(little)),
    {
        self.filename.lemma_of_view();
        lemma_u16_round_trip(self.flags, little);
        lemma_u32_round_trip(self.offset, little);
        lemma_u32_round_trip(self.size, little);
        lemma_u32_round_trip(self.timestamp, little);
        lemma_u32_round_trip(self.crc, little);
        let bytes = self.stored(little);
        assert(bytes.subrange(0, FNL as int) =~= self.filename@);
        assert(bytes.subrange(FNL as int, FNL + 2) =~= u16_bytes(self.flags, little));
        assert(bytes.subrange(FNL + 4, FNL + 8) =~= u32_bytes(self.offset, little));
        assert(bytes.subrange(FNL + 8, FNL + 12) =~= u32_bytes(self.size, little));
        assert(bytes.subrange(FNL + 12, FNL + 16) =~= u32_bytes(self.timestamp, little));
        assert(bytes.subrange(FNL + 16, FNL + 20) =~= u32_bytes(self.crc, little));
    }

    /// Storing a loaded entry gives the bytes back exactly when the padding
    /// is clear.
    pub proof fn lemma_stored_loaded(bytes: Seq<u8>, little: bool)
        requires
            bytes.len() == FNL + 20,
        ensures
            Self::padding_clear(bytes) <==> Self::loaded(bytes, little).stored(little) == bytes,
    {
        let entry = Self::loaded(bytes, little);
        Filename::<FNL>::lemma_of(bytes.subrange(0, FNL as int));
        lemma_u16_bytes_of(bytes.subrange(FNL as int, FNL + 2), little);
        lemma_u32_bytes_of(bytes.subrange(FNL + 4, FNL + 8), little);
        lemma_u32_bytes_of(bytes.subrange(FNL + 8, FNL + 12), little);
        lemma_u32_bytes_of(bytes.subrange(FNL + 12, FNL + 16), little);
        lemma_u32_bytes_of(bytes.subrange(FNL + 16, FNL + 20), little);
        let again = entry.stored(little);
        assert(again.len() == bytes.len());
        assert(again[FNL + 2] == 0 && again[FNL + 3] == 0);
        if Self::padding_clear(bytes) {
            assert(again =~= bytes);
        }
    }

    /// Another offset changes the four bytes of the offset field and nothing else.
    pub proof fn lemma_stored_at_offset(self, offset: u32, little: bool)
        ensures
            self.at_offset(offset).stored(little) == splice(
                self.stored(little),
                FNL + 4,
                u32_bytes(offset, little),
            ),
    {
        self.filename.lemma_of_view();
        assert(self.at_offset(offset).stored(little) =~= splice(
            self.stored(little),
            FNL + 4,
            u32_bytes(offset, little),
        ));
    }

    /// Appends the stored bytes of the entry to `out`.
    pub fn store(&self, out: &mut Vec<u8>, little: bool)
        ensures
            final(out)@ == old(out)@ + self.stored(little),
    {
        self.filename.put(out);
        put_u16(out, self.flags, little);
        put_zeros(out, 2);
        put_u32(out, self.offset, little);
        put_u32(out, self.size, little);
        put_u32(out, self.timestamp, little);
        put_u32(out, self.crc, little);
        assert(out@ =~= old(out)@ + self.stored(little));
    }

    /// Reads the entry that starts at `pos`.
    pub fn load(data: &[u8], pos: usize, little: bool) -> (entry: Self)
        requires
            pos + FNL + 20 <= data@.len(),
        ensures
            entry == Self::loaded(data@.subrange(pos as int, pos + FNL + 20), little),
    {
        let len: usize = data.len();
        let ghost bytes = data@.subrange(pos as int, pos + FNL + 20);
        proof {
            assert(bytes.subrange(0, FNL as int) =~= data@.subrange(pos as int, pos + FNL));
            assert(bytes.subrange(FNL as int, FNL + 2) =~= data@.subrange(
                pos + FNL,
                pos + FNL + 2,
            ));
            assert(bytes.subrange(FNL + 4, FNL + 8) =~= data@.subrange(
                pos + FNL + 4,
                pos + FNL + 8,
            ));
            assert(bytes.subrange(FNL + 8, FNL + 12) =~= data@.subrange(
                pos + FNL + 8,
                pos + FNL + 12,
            ));
            assert(bytes.subrange(FNL + 12, FNL + 16) =~= data@.subrange(
                pos + FNL + 12,
                pos + FNL + 16,
            ));
            assert(bytes.subrange(FNL + 16, FNL + 20) =~= data@.subrange(
                pos + FNL + 16,
                pos + FNL + 20,
            ));
        }
        let at: usize = pos + FNL;
        EntryV180Variable {
            filename: Filename::get(data, pos),
            flags: get_u16(data, at, little),
            offset: get_u32(data, at + 4, little),
            size: get_u32(data, at + 8, little),
            timestamp: get_u32(data, at + 12, little),
            crc: get_u32(data, at + 16, little),
        }
    }
}

impl Record for EntryV180Variable<20> {
    open spec fn width() -> nat {
        40
    }

    open spec fn encoding(self, little: bool) -> Seq<u8> {
        self.stored(little)
    }

    open spec fn decoding(bytes: Seq<u8>, little: bool) -> Self {
        Self::loaded(bytes, little)
    }

    open spec fn exact(bytes: Seq<u8>, little: bool) -> bool {
        Self::padding_clear(bytes)
    }

    proof fn lemma_width(self, little: bool) {
        self.lemma_loaded_stored(little);
    }

    proof fn lemma_decode_encode(self, little: bool) {
        self.lemma_loaded_stored(little);
    }

    proof fn lemma_encode_decode(bytes: Seq<u8>, little: bool) {
        Self::lemma_stored_loaded(bytes, little);
    }

    fn byte_len() -> (n: usize) {
        40
    }

    fn put(&self, out: &mut Vec<u8>, little: bool) {
        self.store(out, little);
    }

    fn get(data: &[u8], pos: usize, little: bool) -> (record: Self) {
        Self::load(data, pos, little)
    }
}

impl Record for EntryV180Variable<16> {
    open spec fn width() -> nat {
        36
    }

    open spec fn encoding(self, little: bool) -> Seq<u8> {
        self.stored(little)
    }

    open spec fn decoding(bytes: Seq<u8>, little: bool) -> Self {
        Self::loaded(bytes, little)
    }

    open spec fn exact(bytes: Seq<u8>, little: bool) -> bool {
        Self::padding_clear(bytes)
    }

    proof fn lemma_width(self, little: bool) {
        self.lemma_loaded_stored(little);
    }

    proof fn lemma_decode_encode(self, little: bool) {
        self.lemma_loaded_stored(little);
    }

    proof fn lemma_encode_decode(bytes: Seq<u8>, little: bool) {
        Self::lemma_stored_loaded(bytes, little);
    }

    fn byte_len() -> (n: usize) {
        36
    }

    fn put(&self, out: &mut Vec<u8>, little: bool) {
        self.store(out, little);
    }

    fn get(data: &[u8], pos: usize, little: bool) -> (record: Self) {
        Self::load(data, pos, little)
    }
}

impl EntryV170 {
    /// The entry with another content offset.
    pub open spec fn at_offset(self, offset: u32) -> Self {
        EntryV170 { offset, ..self }
    }

    /// Another offset changes the four bytes of the offset field and nothing else.
    pub proof fn lemma_stored_at_offset(self, offset: u32, little: bool)
        ensures
            self.at_offset(offset).encoding(little) == splice(
                self.encoding(little),
                16,
                u32_bytes(offset, little),
            ),
    {
        self.filename.lemma_of_view();
        assert(self.at_offset(offset).encoding(little) =~= splice(
            self.encoding(little),
            16,
            u32_bytes(offset, little),
        ));
    }
}

impl Record for EntryV170 {
    open spec fn width() -> nat {
        32
    }

    open spec fn encoding(self, little: bool) -> Seq<u8> {
        self.filename@ + u32_bytes(self.offset, little) + u32_bytes(self.size, little)
            + u32_bytes(self.timestamp, little) + u32_bytes(self.crc, little)
    }

    open spec fn decoding(bytes: Seq<u8>, little: bool) -> Self {
        EntryV170 {
            filename: Filename::of(bytes.subrange(0, 16)),
            offset: u32_of(bytes.subrange(16, 20), little),
            size: u32_of(bytes.subrange(20, 24), little),
            timestamp: u32_of(bytes.subrange(24, 28), little),
            crc: u32_of(bytes.subrange(28, 32), little),
        }
    }

    open spec fn exact(bytes: Seq<u8>, little: bool) -> bool {
        true
    }

    proof fn lemma_width(self, little: bool) {
        self.filename.lemma_of_view();
    }

    proof fn lemma_decode_encode(self, little: bool) {
        self.filename.lemma_of_view();
        lemma_u32_round_trip(self.offset, little);
        lemma_u32_round_trip(self.size, little);
        lemma_u32_round_trip(self.timestamp, little);
        lemma_u32_round_trip(self.crc, little);
        let bytes = self.encoding(little);
        assert(bytes.subrange(0, 16) =~= self.filename@);
        assert(bytes.subrange(16, 20) =~= u32_bytes(self.offset, little));
        assert(bytes.subrange(20, 24) =~= u32_bytes(self.size, little));
        assert(bytes.subrange(24, 28) =~= u32_bytes(self.timestamp, little));
        assert(bytes.subrange(28, 32) =~= u32_bytes(self.crc, little));
    }

    proof fn lemma_encode_decode(bytes: Seq<u8>, little: bool) {
        Filename::<16>::lemma_of(bytes.subrange(0, 16));
        lemma_u32_bytes_of(bytes.subrange(16, 20), little);
        lemma_u32_bytes_of(bytes.subrange(20, 24), little);
        lemma_u32_bytes_of(bytes.subrange(24, 28), little);
        lemma_u32_bytes_of(bytes.subrange(28, 32), little);
        assert(Self::decoding(bytes, little).encoding(little) =~= bytes);
    }

    fn byte_len() -> (n: usize) {
        32
    }

    fn put(&self, out: &mut Vec<u8>, little: bool) {
        self.filename.put(out);
        put_u32(out, self.offset, little);
        put_u32(out, self.size, little);
        put_u32(out, self.timestamp, little);
        put_u32(out, self.crc, little);
        assert(out@ =~= old(out)@ + self.encoding(little));
    }

    fn get(data: &[u8], pos: usize, little: bool) -> (record: Self) {
        let len: usize = data.len();
        let ghost bytes = data@.subrange(pos as int, pos + 32);
        proof {
            assert(bytes.subrange(0, 16) =~= data@.subrange(pos as int, pos + 16));
            assert(bytes.subrange(16, 20) =~= data@.subrange(pos + 16, pos + 20));
            assert(bytes.subrange(20, 24) =~= data@.subrange(pos + 20, pos + 24));
            assert(bytes.subrange(24, 28) =~= data@.subrange(pos + 24, pos + 28));
            assert(bytes.subrange(28, 32) =~= data@.subrange(pos + 28, pos + 32));
        }
        EntryV170 {
            filename: Filename::get(data, pos),
            offset: get_u32(data, pos + 16, little),
            size: get_u32(data, pos + 20, little),
            timestamp: get_u32(data, pos + 24, little),
            crc: get_u32(data, pos + 28, little),
        }
    }
}

impl EntryV160 {
    /// The entry with another content offset.
    pub open spec fn at_offset(self, offset: u32) -> Self {
        EntryV160 { offset, ..self }
    }

    /// Another offset changes the four bytes of the offset field and nothing else.
    pub proof fn lemma_stored_at_offset(self, offset: u32, little: bool)
        ensures
            self.at_offset(offset).encoding(little) == splice(
                self.encoding(little),
                16,
                u32_bytes(offset, little),
            ),
    {
        self.filename.lemma_of_view();
        assert(self.at_offset(offset).encoding(little) =~= splice(
            self.encoding(little),
            16,
            u32_bytes(offset, little),
        ));
    }
}

impl Record for EntryV160 {
    open spec fn width() -> nat {
        28
    }

    open spec fn encoding(self, little: bool) -> Seq<u8> {
        self.filename@ + u32_bytes(self.offset, little) + u32_bytes(self.size, little)
            + u32_bytes(self.timestamp, little)
    }

    open spec fn decoding(bytes: Seq<u8>, little: bool) -> Self {
        EntryV160 {
            filename: Filename::of(bytes.subrange(0, 16)),
            offset: u32_of(bytes.subrange(16, 20), little),
            size: u32_of(bytes.subrange(20, 24), little),
            timestamp: u32_of(bytes.subrange(24, 28), little),
        }
    }

    open spec fn exact(bytes: Seq<u8>, little: bool) -> bool {
        true
    }

    proof fn lemma_width(self, little: bool) {
        self.filename.lemma_of_view();
    }

    proof fn lemma_decode_encode(self, little: bool) {
        self.filename.lemma_of_view();
        lemma_u32_round_trip(self.offset, little);
        lemma_u32_round_trip(self.size, little);
        lemma_u32_round_trip(self.timestamp, little);
        let bytes = self.encoding(little);
        assert(bytes.subrange(0, 16) =~= self.filename@);
        assert(bytes.subrange(16, 20) =~= u32_bytes(self.offset, little));
        assert(bytes.subrange(20, 24) =~= u32_bytes(self.size, little));
        assert(bytes.subrange(24, 28) =~= u32_bytes(self.timestamp, little));
    }

    proof fn lemma_encode_decode(bytes: Seq<u8>, little: bool) {
        Filename::<16>::lemma_of(bytes.subrange(0, 16));
        lemma_u32_bytes_of(bytes.subrange(16, 20), little);
        lemma_u32_bytes_of(bytes.subrange(20, 24), little);
        lemma_u32_bytes_of(bytes.subrange(24, 28), little);
        assert(Self::decoding(bytes, little).encoding(little) =~= bytes);
    }

    fn byte_len() -> (n: usize) {
        28
    }

    fn put(&self, out: &mut Vec<u8>, little: bool) {
        self.filename.put(out);
        put_u32(out, self.offset, little);
        put_u32(out, self.size, little);
        put_u32(out, self.timestamp, little);
        assert(out@ =~= old(out)@ + self.encoding(little));
    }

    fn get(data: &[u8], pos: usize, little: bool) -> (record: Self) {
        let len: usize = data.len();
        let ghost bytes = data@.subrange(pos as int, pos + 28);
        proof {
            assert(bytes.subrange(0, 16) =~= data@.subrange(pos as int, pos + 16));
            assert(bytes.subrange(16, 20) =~= data@.subrange(pos + 16, pos + 20));
            assert(bytes.subrange(20, 24) =~= data@.subrange(pos + 20, pos + 24));
            assert(bytes.subrange(24, 28) =~= data@.subrange(pos + 24, pos + 28));
        }
        EntryV160 {
            filename: Filename::get(data, pos),
            offset: get_u32(data, pos + 16, little),
            size: get_u32(data, pos + 20, little),
            timestamp: get_u32(data, pos + 24, little),
        }
    }
}

impl<const FNL: usize> SupportEntryVariable<FNL> {
    /// The bytes that store the support entry: name, then time stamp.
    pub open spec fn stored(self, little: bool) -> Seq<u8> {
        self.filename@ + u32_bytes(self.timestamp, little)
    }

    /// The support entry that `bytes` stores.
    pub open spec fn loaded(bytes: Seq<u8>, little: bool) -> Self {
        SupportEntryVariable {
            filename: Filename::of(bytes.subrange(0, FNL as int)),
            timestamp: u32_of(bytes.subrange(FNL as int, FNL + 4), little),
        }
    }

    /// Loading the stored bytes gives the support entry back.
    pub proof fn lemma_loaded_stored(self, little: bool)
        ensures
            self.stored(little).len() == FNL + 4,
            Self::loaded(self.stored(little), little) == self,
    {
        self.filename.lemma_of_view();
        lemma_u32_round_trip(self.timestamp, little);
        let bytes = self.stored(little);
        assert(bytes.subrange(0, FNL as int) =~= self.filename@);
        assert(bytes.subrange(FNL as int, FNL + 4) =~= u32_bytes(self.timestamp, little));
    }

    /// Storing a loaded support entry gives the bytes back.
    pub proof fn lemma_stored_loaded(bytes: Seq<u8>, little: bool)
        requires
            bytes.len() == FNL + 4,
        ensures
            Self::loaded(bytes, little).stored(little) == bytes,
    {
        Filename::<FNL>::lemma_of(bytes.subrange(0, FNL as int));
        lemma_u32_bytes_of(bytes.subrange(FNL as int, FNL + 4), little);
        assert(Self::loaded(bytes, little).stored(little) =~= bytes);
    }

    /// Appends the stored bytes of the support entry to `out`.
    pub fn store(&self, out: &mut Vec<u8>, little: bool)
        ensures
            final(out)@ == old(out)@ + self.stored(little),
    {
        self.filename.put(out);
        put_u32(out, self.timestamp, little);
        assert(out@ =~= old(out)@ + self.stored(little));
    }

    /// Reads the support entry that starts at `pos`.
    pub fn load(data: &[u8], pos: usize, little: bool) -> (entry: Self)
        requires
            pos + FNL + 4 <= data@.len(),
        ensures
            entry == Self::loaded(data@.subrange(pos as int, pos + FNL + 4), little),
    {
        let len: usize = data.len();
        let ghost bytes = data@.subrange(pos as int, pos + FNL + 4);
        proof {
            assert(bytes.subrange(0, FNL as int) =~= data@.subrange(pos as int, pos + FNL));
            assert(bytes.subrange(FNL as int, FNL + 4) =~= data@.subrange(
                pos + FNL,
                pos + FNL + 4,
            ));
        }
        SupportEntryVariable {
            filename: Filename::get(data, pos),
            timestamp: get_u32(data, pos + FNL, little),
        }
    }
}

impl Record for SupportEntryVariable<20> {
    open spec fn width() -> nat {
        24
    }

    open spec fn encoding(self, little: bool) -> Seq<u8> {
        self.stored(little)
    }

    open spec fn decoding(bytes: Seq<u8>, little: bool) -> Self {
        Self::loaded(bytes, little)
    }

    open spec fn exact(bytes: Seq<u8>, little: bool) -> bool {
        true
    }

    proof fn lemma_width(self, little: bool) {
        self.lemma_loaded_stored(little);
    }

    proof fn lemma_decode_encode(self, little: bool) {
        self.lemma_loaded_stored(little);
    }

    proof fn lemma_encode_decode(bytes: Seq<u8>, little: bool) {
        Self::lemma_stored_loaded(bytes, little);
    }

    fn byte_len() -> (n: usize) {
        24
    }

    fn put(&self, out: &mut Vec<u8>, little: bool) {
        self.store(out, little);
    }

    fn get(data: &[u8], pos: usize, little: bool) -> (record: Self) {
        Self::load(data, pos, little)
    }
}

impl Record for SupportEntryVariable<16> {
    open spec fn width() -> nat {
        20
    }

    open spec fn encoding(self, little: bool) -> Seq<u8> {
        self.stored(little)
    }

    open spec fn decoding(bytes: Seq<u8>, little: bool) -> Self {
        Self::loaded(bytes, little)
    }

    open spec fn exact(bytes: Seq<u8>, little: bool) -> bool {
        true
    }

    proof fn lemma_width(self, little: bool) {
        self.lemma_loaded_stored(little);
    }

    proof fn lemma_decode_encode(self, little: bool) {
        self.lemma_loaded_stored(little);
    }

    proof fn lemma_encode_decode(bytes: Seq<u8>, little: bool) {
        Self::lemma_stored_loaded(bytes, little);
    }

    fn byte_len() -> (n: usize) {
        20
    }

    fn put(&self, out: &mut Vec<u8>, little: bool) {
        self.store(out, little);
    }

    fn get(data: &[u8], pos: usize, little: bool) -> (record: Self) {
        Self::load(data, pos, little)
    }
}

/// Zero bytes behind a name do not change its visible text.
pub proof fn lemma_widened_text(name: Filename<16>)
    ensures
        widened(name).text() == name.text(),
{
    name.lemma_of_view();
    Filename::<20>::lemma_of(name@ + zeros(4));
    let wide = widened(name)@;
    let n = crate::util::run_before(name@, 0u8) as int;
    crate::util::lemma_run_before_holds(name@, 0u8);
    crate::util::lemma_run_before_is(wide, 0u8, n);
    assert(until(wide, 0u8) =~= until(name@, 0u8));
}

/// An entry of one of the four table revisions.
pub trait Entry: Record {
    /// The canonical form, which loses nothing.
    spec fn canonical(self) -> CanonicalEntry;

    /// The entry of this revision that a canonical entry becomes: fields that
    /// the revision lacks are dropped, and a name too wide is narrowed.
    spec fn projected(entry: CanonicalEntry) -> Self;

    /// Where in the stored entry the content offset stands.
    spec fn offset_site() -> nat;

    /// The entry with another content offset.
    spec fn moved(self, offset: u32) -> Self;

    /// Another content offset changes the four bytes at `offset_site()` of
    /// the stored entry, the `offset` of the canonical form, and nothing else.
    proof fn lemma_moved(self, offset: u32, little: bool)
        ensures
            Self::offset_site() + 4 <= Self::width(),
            self.moved(offset).encoding(little) == splice(
                self.encoding(little),
                Self::offset_site() as int,
                u32_bytes(offset, little),
            ),
            self.moved(offset).canonical() == self.canonical().at_offset(offset),
            self.moved(self.canonical().offset) == self,
    ;

    /// Two entries with one canonical form are the same entry.
    proof fn lemma_canonical_injective(self, other: Self)
        requires
            self.canonical() == other.canonical(),
        ensures
            self == other,
    ;

    /// The canonical form of the entry.
    fn to_canonical(&self) -> (entry: CanonicalEntry)
        ensures
            entry == self.canonical(),
    ;

    /// The entry of this revision that `entry` becomes.
    fn from_canonical(entry: &CanonicalEntry) -> (projected: Self)
        ensures
            projected == Self::projected(*entry),
    ;

    /// The entry with another content offset.
    fn with_offset(&self, offset: u32) -> (moved: Self)
        ensures
            moved == self.moved(offset),
    ;

    /// Where in the stored entry the content offset stands.
    fn offset_pos() -> (site: usize)
        ensures
            site == Self::offset_site(),
    ;

    /// The visible name.
    fn filename(&self) -> (name: String)
        ensures
            name@ == self.canonical().filename.text(),
    ;

    /// Where the content starts in the archive.
    fn offset(&self) -> (offset: usize)
        ensures
            offset == self.canonical().offset,
    ;

    /// The number of content bytes.
    fn size(&self) -> (size: usize)
        ensures
            size == self.canonical().size,
    ;

    /// The time of the last change, in seconds since 1970-01-01 00:00:00 UTC.
    fn timestamp(&self) -> (seconds: u32)
        ensures
            seconds == self.canonical().timestamp,
    ;
}

/// A support entry of one of the table revisions.
pub trait SupportEntry: Record {
    /// The canonical form, which loses nothing.
    spec fn canonical(self) -> CanonicalSupportEntry;

    /// The support entry of this revision that a canonical one becomes.
    spec fn projected(entry: CanonicalSupportEntry) -> Self;

    /// Two support entries with one canonical form are the same entry.
    proof fn lemma_canonical_injective(self, other: Self)
        requires
            self.canonical() == other.canonical(),
        ensures
            self == other,
    ;

    /// The canonical form of the support entry.
    fn to_canonical(&self) -> (entry: CanonicalSupportEntry)
        ensures
            entry == self.canonical(),
    ;

    /// The support entry of this revision that `entry` becomes.
    fn from_canonical(entry: &CanonicalSupportEntry) -> (projected: Self)
        ensures
            projected == Self::projected(*entry),
    ;

    /// The visible name.
    fn filename(&self) -> (name: String)
        ensures
            name@ == self.canonical().filename.text(),
    ;

    /// The time of the last change, in seconds since 1970-01-01 00:00:00 UTC.
    fn timestamp(&self) -> (seconds: u32)
        ensures
            seconds == self.canonical().timestamp,
    ;
}

/// Two names with one widened form are the same name.
pub proof fn lemma_widened_injective(a: Filename<16>, b: Filename<16>)
    requires
        widened(a) == widened(b),
    ensures
        a == b,
{
    a.lemma_of_view();
    b.lemma_of_view();
    Filename::<20>::lemma_of(a@ + zeros(4));
    Filename::<20>::lemma_of(b@ + zeros(4));
    assert(a@ =~= (a@ + zeros(4)).subrange(0, 16));
    assert(b@ =~= (b@ + zeros(4)).subrange(0, 16));
}

impl Entry for EntryV180Variable<20> {
    open spec fn canonical(self) -> CanonicalEntry {
        self
    }

    open spec fn projected(entry: CanonicalEntry) -> Self {
        entry
    }

    open spec fn offset_site() -> nat {
        24
    }

    open spec fn moved(self, offset: u32) -> Self {
        self.at_offset(offset)
    }

    proof fn lemma_moved(self, offset: u32, little: bool) {
        self.lemma_stored_at_offset(offset, little);
    }

    proof fn lemma_canonical_injective(self, other: Self) {
    }

    fn to_canonical(&self) -> (entry: CanonicalEntry) {
        *self
    }

    fn from_canonical(entry: &CanonicalEntry) -> (projected: Self) {
        *entry
    }

    fn with_offset(&self, offset: u32) -> (moved: Self) {
        EntryV180Variable { offset, ..*self }
    }

    fn offset_pos() -> (site: usize) {
        24
    }

    fn filename(&self) -> (name: String) {
        self.filename.to_string()
    }

    fn offset(&self) -> (offset: usize) {
        self.offset as usize
    }

    fn size(&self) -> (size: usize) {
        self.size as usize
    }

    fn timestamp(&self) -> (seconds: u32) {
        self.timestamp
    }
}

impl Entry for EntryV180Variable<16> {
    open spec fn canonical(self) -> CanonicalEntry {
        EntryV180Variable {
            filename: widened(self.filename),
            flags: self.flags,
            offset: self.offset,
            size: self.size,
            timestamp: self.timestamp,
            crc: self.crc,
        }
    }

    open spec fn projected(entry: CanonicalEntry) -> Self {
        EntryV180Variable {
            filename: narrowed(entry.filename),
            flags: entry.flags,
            offset: entry.offset,
            size: entry.size,
            timestamp: entry.timestamp,
            crc: entry.crc,
        }
    }

    open spec fn offset_site() -> nat {
        20
    }

    open spec fn moved(self, offset: u32) -> Self {
        self.at_offset(offset)
    }

    proof fn lemma_moved(self, offset: u32, little: bool) {
        self.lemma_stored_at_offset(offset, little);
    }

    proof fn lemma_canonical_injective(self, other: Self) {
        lemma_widened_injective(self.filename, other.filename);
    }

    fn to_canonical(&self) -> (entry: CanonicalEntry) {
        EntryV180Variable {
            filename: self.filename.widen(),
            flags: self.flags,
            offset: self.offset,
            size: self.size,
            timestamp: self.timestamp,
            crc: self.crc,
        }
    }

    fn from_canonical(entry: &CanonicalEntry) -> (projected: Self) {
        EntryV180Variable {
            filename: entry.filename.narrow(),
            flags: entry.flags,
            offset: entry.offset,
            size: entry.size,
            timestamp: entry.timestamp,
            crc: entry.crc,
        }
    }

    fn with_offset(&self, offset: u32) -> (moved: Self) {
        EntryV180Variable { offset, ..*self }
    }

    fn offset_pos() -> (site: usize) {
        20
    }

    fn filename(&self) -> (name: String) {
        proof {
            lemma_widened_text(self.filename);
        }
        self.filename.to_string()
    }

    fn offset(&self) -> (offset: usize) {
        self.offset as usize
    }

    fn size(&self) -> (size: usize) {
        self.size as usize
    }

    fn timestamp(&self) -> (seconds: u32) {
        self.timestamp
    }
}

impl Entry for EntryV170 {
    open spec fn canonical(self) -> CanonicalEntry {
        EntryV180Variable {
            filename: widened(self.filename),
            flags: 0,
            offset: self.offset,
            size: self.size,
            timestamp: self.timestamp,
            crc: self.crc,
        }
    }

    open spec fn projected(entry: CanonicalEntry) -> Self {
        EntryV170 {
            filename: narrowed(entry.filename),
            offset: entry.offset,
            size: entry.size,
            timestamp: entry.timestamp,
            crc: entry.crc,
        }
    }

    open spec fn offset_site() -> nat {
        16
    }

    open spec fn moved(self, offset: u32) -> Self {
        self.at_offset(offset)
    }

    proof fn lemma_moved(self, offset: u32, little: bool) {
        self.lemma_stored_at_offset(offset, little);
    }

    proof fn lemma_canonical_injective(self, other: Self) {
        lemma_widened_injective(self.filename, other.filename);
    }

    fn to_canonical(&self) -> (entry: CanonicalEntry) {
        EntryV180Variable {
            filename: self.filename.widen(),
            flags: 0,
            offset: self.offset,
            size: self.size,
            timestamp: self.timestamp,
            crc: self.crc,
        }
    }

    fn from_canonical(entry: &CanonicalEntry) -> (projected: Self) {
        EntryV170 {
            filename: entry.filename.narrow(),
            offset: entry.offset,
            size: entry.size,
            timestamp: entry.timestamp,
            crc: entry.crc,
        }
    }

    fn with_offset(&self, offset: u32) -> (moved: Self) {
        EntryV170 { offset, ..*self }
    }

    fn offset_pos() -> (site: usize) {
        16
    }

    fn filename(&self) -> (name: String) {
        proof {
            lemma_widened_text(self.filename);
        }
        self.filename.to_string()
    }

    fn offset(&self) -> (offset: usize) {
        self.offset as usize
    }

    fn size(&self) -> (size: usize) {
        self.size as usize
    }

    fn timestamp(&self) -> (seconds: u32) {
        self.timestamp
    }
}

impl Entry for EntryV160 {
    open spec fn canonical(self) -> CanonicalEntry {
        EntryV180Variable {
            filename: widened(self.filename),
            flags: 0,
            offset: self.offset,
            size: self.size,
            timestamp: self.timestamp,
            crc: 0,
        }
    }

    open spec fn projected(entry: CanonicalEntry) -> Self {
        EntryV160 {
            filename: narrowed(entry.filename),
            offset: entry.offset,
            size: entry.size,
            timestamp: entry.timestamp,
        }
    }

    open spec fn offset_site() -> nat {
        16
    }

    open spec fn moved(self, offset: u32) -> Self {
        self.at_offset(offset)
    }

    proof fn lemma_moved(self, offset: u32, little: bool) {
        self.lemma_stored_at_offset(offset, little);
    }

    proof fn lemma_canonical_injective(self, other: Self) {
        lemma_widened_injective(self.filename, other.filename);
    }

    fn to_canonical(&self) -> (entry: CanonicalEntry) {
        EntryV180Variable {
            filename: self.filename.widen(),
            flags: 0,
            offset: self.offset,
            size: self.size,
            timestamp: self.timestamp,
            crc: 0,
        }
    }

    fn from_canonical(entry: &CanonicalEntry) -> (projected: Self) {
        EntryV160 {
            filename: entry.filename.narrow(),
            offset: entry.offset,
            size: entry.size,
            timestamp: entry.timestamp,
        }
    }

    fn with_offset(&self, offset: u32) -> (moved: Self) {
        EntryV160 { offset, ..*self }
    }

    fn offset_pos() -> (site: usize) {
        16
    }

    fn filename(&self) -> (name: String) {
        proof {
            lemma_widened_text(self.filename);
        }
        self.filename.to_string()
    }

    fn offset(&self) -> (offset: usize) {
        self.offset as usize
    }

    fn size(&self) -> (size: usize) {
        self.size as usize
    }

    fn timestamp(&self) -> (seconds: u32) {
        self.timestamp
    }
}

impl SupportEntry for SupportEntryVariable<20> {
    open spec fn canonical(self) -> CanonicalSupportEntry {
        self
    }

    open spec fn projected(entry: CanonicalSupportEntry) -> Self {
        entry
    }

    proof fn lemma_canonical_injective(self, other: Self) {
    }

    fn to_canonical(&self) -> (entry: CanonicalSupportEntry) {
        *self
    }

    fn from_canonical(entry: &CanonicalSupportEntry) -> (projected: Self) {
        *entry
    }

    fn filename(&self) -> (name: String) {
        self.filename.to_string()
    }

    fn timestamp(&self) -> (seconds: u32) {
        self.timestamp
    }
}

impl SupportEntry for SupportEntryVariable<16> {
    open spec fn canonical(self) -> CanonicalSupportEntry {
        SupportEntryVariable { filename: widened(self.filename), timestamp: self.timestamp }
    }

    open spec fn projected(entry: CanonicalSupportEntry) -> Self {
        SupportEntryVariable { filename: narrowed(entry.filename), timestamp: entry.timestamp }
    }

    proof fn lemma_canonical_injective(self, other: Self) {
        lemma_widened_injective(self.filename, other.filename);
    }

    fn to_canonical(&self) -> (entry: CanonicalSupportEntry) {
        SupportEntryVariable { filename: self.filename.widen(), timestamp: self.timestamp }
    }

    fn from_canonical(entry: &CanonicalSupportEntry) -> (projected: Self) {
        SupportEntryVariable { filename: entry.filename.narrow(), timestamp: entry.timestamp }
    }

    fn filename(&self) -> (name: String) {
        proof {
            lemma_widened_text(self.filename);
        }
        self.filename.to_string()
    }

    fn timestamp(&self) -> (seconds: u32) {
        self.timestamp
    }
}

impl From<EntryV180Variable<16>> for EntryV180Variable<20> {
    /// The canonical form: the name is widened, the other fields stay.
    fn from(other: EntryV180Variable<16>) -> (entry: Self) {
        other.to_canonical()
    }
}

impl FromSpecImpl<EntryV180Variable<16>> for EntryV180Variable<20> {
    open spec fn obeys_from_spec() -> bool {
        true
    }

    open spec fn from_spec(other: EntryV180Variable<16>) -> Self {
        other.canonical()
    }
}

impl From<EntryV180Variable<20>> for EntryV180Variable<16> {
    /// The entry with the narrow name field: the name is narrowed, the other
    /// fields stay.
    fn from(other: EntryV180Variable<20>) -> (entry: Self) {
        EntryV180Variable::<16>::from_canonical(&other)
    }
}

impl FromSpecImpl<EntryV180Variable<20>> for EntryV180Variable<16> {
    open spec fn obeys_from_spec() -> bool {
        true
    }

    open spec fn from_spec(other: EntryV180Variable<20>) -> Self {
        EntryV180Variable::<16>::projected(other)
    }
}

impl From<EntryV170> for EntryV180Variable<20> {
    /// The canonical form: the name is widened and the flags are zero.
    fn from(other: EntryV170) -> (entry: Self) {
        other.to_canonical()
    }
}

impl FromSpecImpl<EntryV170> for EntryV180Variable<20> {
    open spec fn obeys_from_spec() -> bool {
        true
    }

    open spec fn from_spec(other: EntryV170) -> Self {
        other.canonical()
    }
}

impl From<EntryV180Variable<20>> for EntryV170 {
    /// The entry of the intermediate revision: the name is narrowed and the
    /// flags are dropped.
    fn from(other: EntryV180Variable<20>) -> (entry: Self) {
        EntryV170::from_canonical(&other)
    }
}

impl FromSpecImpl<EntryV180Variable<20>> for EntryV170 {
    open spec fn obeys_from_spec() -> bool {
        true
    }

    open spec fn from_spec(other: EntryV180Variable<20>) -> Self {
        EntryV170::projected(other)
    }
}

impl From<EntryV160> for EntryV180Variable<20> {
    /// The canonical form: the name is widened, flags and checksum are zero.
    fn from(other: EntryV160) -> (entry: Self) {
        other.to_canonical()
    }
}

impl FromSpecImpl<EntryV160> for EntryV180Variable<20> {
    open spec fn obeys_from_spec() -> bool {
        true
    }

    open spec fn from_spec(other: EntryV160) -> Self {
        other.canonical()
    }
}

impl From<EntryV180Variable<20>> for EntryV160 {
    /// The entry of the oldest revision: the name is narrowed, flags and
    /// checksum are dropped.
    fn from(other: EntryV180Variable<20>) -> (entry: Self) {
        EntryV160::from_canonical(&other)
    }
}

impl FromSpecImpl<EntryV180Variable<20>> for EntryV160 {
    open spec fn obeys_from_spec() -> bool {
        true
    }

    open spec fn from_spec(other: EntryV180Variable<20>) -> Self {
        EntryV160::projected(other)
    }
}

impl From<SupportEntryVariable<16>> for SupportEntryVariable<20> {
    /// The canonical form: the name is widened.
    fn from(other: SupportEntryVariable<16>) -> (entry: Self) {
        other.to_canonical()
    }
}

impl FromSpecImpl<SupportEntryVariable<16>> for SupportEntryVariable<20> {
    open spec fn obeys_from_spec() -> bool {
        true
    }

    open spec fn from_spec(other: SupportEntryVariable<16>) -> Self {
        other.canonical()
    }
}

impl From<SupportEntryVariable<20>> for SupportEntryVariable<16> {
    /// The support entry with the narrow name field.
    fn from(other: SupportEntryVariable<20>) -> (entry: Self) {
        SupportEntryVariable::<16>::from_canonical(&other)
    }
}

impl FromSpecImpl<SupportEntryVariable<20>> for SupportEntryVariable<16> {
    open spec fn obeys_from_spec() -> bool {
        true
    }

    open spec fn from_spec(other: SupportEntryVariable<20>) -> Self {
        SupportEntryVariable::<16>::projected(other)
    }
}

} // verus!
