//! The entry table in its four revisions and the conversion between them.
//!
//! A table holds four flat arrays in this order: live entries, free entries,
//! live support entries and free support entries. Conversion goes through the
//! canonical form, which every revision maps into without loss.
use crate::error::MstError;
use crate::mst::entry::{
    narrowed, widened, CanonicalEntry, CanonicalSupportEntry, Entry, EntryV160, EntryV170,
    EntryV180Variable, Filename, SupportEntry, SupportEntryVariable,
};
use crate::mst::header::MstHeader;
use crate::mst::version::MstVersionKnown;
use crate::codec::{lemma_splice_front, lemma_splice_nested, splice, u32_bytes};
use crate::record::{
    all_exact, decode_all, encode_all, get_all, lemma_decode_all_window,
    lemma_decode_encode_all, lemma_encode_all_len,
    lemma_encode_all_push, lemma_encode_all_slot, lemma_encode_all_update,
    lemma_encode_decode_all_iff, lemma_slot_bounds, put_all, slot, Record,
};
use vstd::prelude::*;

verus! {

/// The four arrays of a table whose entries are `E` and whose support
/// entries are `S`.
#[derive(Debug)]
pub struct InnerEntries<E, S> {
    pub entries: Vec<E>,
    pub free_entries: Vec<E>,
    pub support_entries: Vec<S>,
    pub free_support_entries: Vec<S>,
}

/// What a table holds: its four sequences.
pub struct InnerView<E, S> {
    pub entries: Seq<E>,
    pub free_entries: Seq<E>,
    pub support_entries: Seq<S>,
    pub free_support_entries: Seq<S>,
}

/// A table in canonical form.
pub type CanonicalInnerEntries = InnerEntries<CanonicalEntry, CanonicalSupportEntry>;

/// What a table in canonical form holds.
pub type CanonicalView = InnerView<CanonicalEntry, CanonicalSupportEntry>;

impl<E, S> View for InnerEntries<E, S> {
    type V = InnerView<E, S>;

    open spec fn view(&self) -> InnerView<E, S> {
        InnerView {
            entries: self.entries@,
            free_entries: self.free_entries@,
            support_entries: self.support_entries@,
            free_support_entries: self.free_support_entries@,
        }
    }
}

/// The canonical forms of `items`, in order.
pub open spec fn canonical_entries<E: Entry>(items: Seq<E>) -> Seq<CanonicalEntry> {
    Seq::new(items.len(), |i: int| items[i].canonical())
}

/// The entries of revision `E` that `items` become, in order.
pub open spec fn projected_entries<E: Entry>(items: Seq<CanonicalEntry>) -> Seq<E> {
    Seq::new(items.len(), |i: int| E::projected(items[i]))
}

/// The canonical forms of `items`, in order.
pub open spec fn canonical_supports<S: SupportEntry>(items: Seq<S>) -> Seq<
    CanonicalSupportEntry,
> {
    Seq::new(items.len(), |i: int| items[i].canonical())
}

/// The support entries of revision `S` that `items` become, in order.
pub open spec fn projected_supports<S: SupportEntry>(items: Seq<CanonicalSupportEntry>) -> Seq<
    S,
> {
    Seq::new(items.len(), |i: int| S::projected(items[i]))
}

/// Whether `sites` holds, for each of `count` entries of a table that starts
/// at `start`, the place of its content offset.
pub open spec fn are_sites<E: Entry>(sites: Seq<usize>, start: int, count: nat) -> bool {
    &&& sites.len() == count
    &&& forall|i: int|
        0 <= i < count ==> #[trigger] sites[i] == start + i * E::width() + E::offset_site()
}

impl<E: Entry, S: SupportEntry> InnerView<E, S> {
    /// The table in canonical form.
    pub open spec fn canonical(self) -> CanonicalView {
        InnerView {
            entries: canonical_entries(self.entries),
            free_entries: canonical_entries(self.free_entries),
            support_entries: canonical_supports(self.support_entries),
            free_support_entries: canonical_supports(self.free_support_entries),
        }
    }

    /// The table of this revision that a canonical table becomes.
    pub open spec fn projected(table: CanonicalView) -> Self {
        InnerView {
            entries: projected_entries(table.entries),
            free_entries: projected_entries(table.free_entries),
            support_entries: projected_supports(table.support_entries),
            free_support_entries: projected_supports(table.free_support_entries),
        }
    }

    /// The bytes that store the table.
    pub open spec fn encoding(self, little: bool) -> Seq<u8> {
        encode_all(self.entries, little) + encode_all(self.free_entries, little) + encode_all(
            self.support_entries,
            little,
        ) + encode_all(self.free_support_entries, little)
    }

    /// The number of bytes of a table with the counts of `header`.
    pub open spec fn stored_len(header: MstHeader) -> nat {
        (header.num_entries * E::width() + header.num_free_entries * E::width()
            + header.num_support_entries * S::width() + header.num_free_support_entries
            * S::width()) as nat
    }

    /// The table with the counts of `header` that stands at the start of `bytes`.
    pub open spec fn decoding(bytes: Seq<u8>, header: MstHeader, little: bool) -> Self {
        let a = header.num_entries * E::width();
        let b = a + header.num_free_entries * E::width();
        let c = b + header.num_support_entries * S::width();
        let end = bytes.len() as int;
        InnerView {
            entries: decode_all::<E>(bytes, header.num_entries as nat, little),
            free_entries: decode_all::<E>(
                bytes.subrange(a, end),
                header.num_free_entries as nat,
                little,
            ),
            support_entries: decode_all::<S>(
                bytes.subrange(b, end),
                header.num_support_entries as nat,
                little,
            ),
            free_support_entries: decode_all::<S>(
                bytes.subrange(c, end),
                header.num_free_support_entries as nat,
                little,
            ),
        }
    }

    /// Whether the bytes of a table with the counts of `header` hold nothing
    /// outside the fields of its entries, so that reading loses nothing.
    pub open spec fn exact(bytes: Seq<u8>, header: MstHeader, little: bool) -> bool {
        let a = header.num_entries * E::width();
        let b = a + header.num_free_entries * E::width();
        let c = b + header.num_support_entries * S::width();
        let end = bytes.len() as int;
        &&& all_exact::<E>(bytes, header.num_entries as nat, little)
        &&& all_exact::<E>(bytes.subrange(a, end), header.num_free_entries as nat, little)
        &&& all_exact::<S>(bytes.subrange(b, end), header.num_support_entries as nat, little)
        &&& all_exact::<S>(bytes.subrange(c, end), header.num_free_support_entries as nat, little)
    }

    /// Storing the table that was read gives the bytes of the table back
    /// exactly when they are exact.
    #[verifier::rlimit(40)]
    pub proof fn lemma_round_trip(bytes: Seq<u8>, header: MstHeader, little: bool)
        requires
            bytes.len() >= Self::stored_len(header),
        ensures
            Self::decoding(bytes, header, little).encoding(little).len() == Self::stored_len(
                header,
            ),
            Self::exact(bytes, header, little) <==> Self::decoding(bytes, header, little).encoding(
                little,
            ) == bytes.subrange(0, Self::stored_len(header) as int),
    {
        let we = E::width() as int;
        let ws = S::width() as int;
        let n1 = header.num_entries as nat;
        let n2 = header.num_free_entries as nat;
        let n3 = header.num_support_entries as nat;
        let n4 = header.num_free_support_entries as nat;
        assert(0 <= n1 * we && 0 <= n2 * we && 0 <= n3 * ws && 0 <= n4 * ws) by (nonlinear_arith)
            requires
                0 <= we,
                0 <= ws,
        ;
        let a = n1 * we;
        let b = a + n2 * we;
        let c = b + n3 * ws;
        let d = c + n4 * ws;
        let end = bytes.len() as int;
        let t1 = bytes;
        let t2 = bytes.subrange(a, end);
        let t3 = bytes.subrange(b, end);
        let t4 = bytes.subrange(c, end);
        let s1 = bytes.subrange(0, a);
        let s2 = bytes.subrange(a, b);
        let s3 = bytes.subrange(b, c);
        let s4 = bytes.subrange(c, d);
        lemma_decode_all_window::<E>(t1, n1, little);
        lemma_decode_all_window::<E>(t2, n2, little);
        lemma_decode_all_window::<S>(t3, n3, little);
        lemma_decode_all_window::<S>(t4, n4, little);
        assert(t1.subrange(0, a) =~= s1);
        assert(t2.subrange(0, n2 * we) =~= s2);
        assert(t3.subrange(0, n3 * ws) =~= s3);
        assert(t4.subrange(0, n4 * ws) =~= s4);
        lemma_encode_decode_all_iff::<E>(s1, n1, little);
        lemma_encode_decode_all_iff::<E>(s2, n2, little);
        lemma_encode_decode_all_iff::<S>(s3, n3, little);
        lemma_encode_decode_all_iff::<S>(s4, n4, little);
        let e1 = encode_all(decode_all::<E>(s1, n1, little), little);
        let e2 = encode_all(decode_all::<E>(s2, n2, little), little);
        let e3 = encode_all(decode_all::<S>(s3, n3, little), little);
        let e4 = encode_all(decode_all::<S>(s4, n4, little), little);
        let again = Self::decoding(bytes, header, little).encoding(little);
        assert(again == e1 + e2 + e3 + e4);
        let stored = bytes.subrange(0, d);
        assert(stored =~= s1 + s2 + s3 + s4);
        if again == stored {
            assert(e1 =~= again.subrange(0, a));
            assert(e2 =~= again.subrange(a, b));
            assert(e3 =~= again.subrange(b, c));
            assert(e4 =~= again.subrange(c, d));
            assert(s1 =~= stored.subrange(0, a));
            assert(s2 =~= stored.subrange(a, b));
            assert(s3 =~= stored.subrange(b, c));
            assert(s4 =~= stored.subrange(c, d));
        }
    }

    /// Whether the four counts of `header` are the lengths of the four
    /// arrays of the table.
    pub open spec fn counted_by(self, header: MstHeader) -> bool {
        &&& header.num_entries == self.entries.len()
        &&& header.num_free_entries == self.free_entries.len()
        &&& header.num_support_entries == self.support_entries.len()
        &&& header.num_free_support_entries == self.free_support_entries.len()
    }

    /// Reading the stored table with its own counts gives the table back,
    /// whatever follows it.
    pub proof fn lemma_decoding_encoding(self, rest: Seq<u8>, header: MstHeader, little: bool)
        requires
            self.counted_by(header),
        ensures
            self.encoding(little).len() == Self::stored_len(header),
            Self::decoding(self.encoding(little) + rest, header, little) == self,
    {
        let e1 = encode_all(self.entries, little);
        let e2 = encode_all(self.free_entries, little);
        let e3 = encode_all(self.support_entries, little);
        let e4 = encode_all(self.free_support_entries, little);
        lemma_encode_all_len(self.entries, little);
        lemma_encode_all_len(self.free_entries, little);
        lemma_encode_all_len(self.support_entries, little);
        lemma_encode_all_len(self.free_support_entries, little);
        let bytes = self.encoding(little) + rest;
        let end = bytes.len() as int;
        let a = e1.len() as int;
        let b = a + e2.len();
        let c = b + e3.len();
        lemma_decode_encode_all(self.entries, e2 + e3 + e4 + rest, little);
        lemma_decode_encode_all(self.free_entries, e3 + e4 + rest, little);
        lemma_decode_encode_all(self.support_entries, e4 + rest, little);
        lemma_decode_encode_all(self.free_support_entries, rest, little);
        assert(bytes =~= e1 + (e2 + e3 + e4 + rest));
        assert(bytes.subrange(a, end) =~= e2 + (e3 + e4 + rest));
        assert(bytes.subrange(b, end) =~= e3 + (e4 + rest));
        assert(bytes.subrange(c, end) =~= e4 + rest);
        let read = Self::decoding(bytes, header, little);
        assert(read.entries == self.entries);
        assert(read.free_entries == self.free_entries);
        assert(read.support_entries == self.support_entries);
        assert(read.free_support_entries == self.free_support_entries);
    }

    /// The table with the content offsets of its first `upto` live entries
    /// replaced by those of `offsets`, in order.
    pub open spec fn moved_upto(self, offsets: Seq<u32>, upto: int) -> Self {
        InnerView {
            entries: Seq::new(
                self.entries.len(),
                |i: int|
                    if i < upto {
                        self.entries[i].moved(offsets[i])
                    } else {
                        self.entries[i]
                    },
            ),
            ..self
        }
    }

    /// The table with the content offsets of its live entries replaced by
    /// `offsets`, in order.
    pub open spec fn moved(self, offsets: Seq<u32>) -> Self {
        self.moved_upto(offsets, self.entries.len() as int)
    }

    /// Where in the stored table the content offset of live entry `i` stands.
    pub open spec fn site(i: int) -> int {
        i * E::width() + E::offset_site()
    }

    /// Other content offsets show in the canonical live entries and nowhere
    /// else, and change no length.
    pub proof fn lemma_moved_canonical(self, offsets: Seq<u32>)
        ensures
            self.moved(offsets).canonical() == (InnerView {
                entries: Seq::new(
                    self.entries.len(),
                    |i: int| self.canonical().entries[i].at_offset(offsets[i]),
                ),
                ..self.canonical()
            }),
            self.moved(offsets).entries.len() == self.entries.len(),
            self.moved(offsets).free_entries == self.free_entries,
            self.moved(offsets).support_entries == self.support_entries,
            self.moved(offsets).free_support_entries == self.free_support_entries,
    {
        let after = self.moved(offsets).canonical();
        let wanted = Seq::new(
            self.entries.len(),
            |i: int| self.canonical().entries[i].at_offset(offsets[i]),
        );
        assert forall|i: int| 0 <= i < self.entries.len() implies after.entries[i]
            == wanted[i] by {
            self.entries[i].lemma_moved(offsets[i], true);
        }
        assert(after.entries =~= wanted);
    }

    /// Content offsets that are replaced by themselves leave the table as it is.
    pub proof fn lemma_moved_same(self, offsets: Seq<u32>)
        requires
            offsets.len() == self.entries.len(),
            forall|i: int|
                0 <= i < offsets.len() ==> offsets[i] == (#[trigger] self.canonical().entries[i]).offset,
        ensures
            self.moved(offsets) == self,
    {
        assert forall|i: int| 0 <= i < self.entries.len() implies self.entries[i].moved(
            offsets[i],
        ) == self.entries[i] by {
            assert(offsets[i] == self.canonical().entries[i].offset);
            self.entries[i].lemma_moved(offsets[i], true);
        }
        assert(self.moved(offsets).entries =~= self.entries);
    }

    /// Replacing the content offset of one more live entry replaces the four
    /// bytes at its site.
    pub proof fn lemma_moved_step(self, offsets: Seq<u32>, k: int, little: bool)
        requires
            0 <= k < self.entries.len(),
        ensures
            0 <= Self::site(k),
            Self::site(k) + 4 <= self.moved_upto(offsets, k).encoding(little).len(),
            self.moved_upto(offsets, k + 1).encoding(little) == splice(
                self.moved_upto(offsets, k).encoding(little),
                Self::site(k),
                u32_bytes(offsets[k], little),
            ),
    {
        let cur = self.moved_upto(offsets, k);
        let next = self.moved_upto(offsets, k + 1);
        let w = E::width() as int;
        let site = E::offset_site() as int;
        let entry = self.entries[k];
        let moved = entry.moved(offsets[k]);
        assert(cur.entries[k] == entry);
        assert(next.entries =~= cur.entries.update(k, moved));
        let table = encode_all(cur.entries, little);
        let rest = encode_all(cur.free_entries, little) + encode_all(
            cur.support_entries,
            little,
        ) + encode_all(cur.free_support_entries, little);
        lemma_encode_all_update(cur.entries, k, moved, little);
        entry.lemma_moved(offsets[k], little);
        entry.lemma_width(little);
        lemma_encode_all_slot(cur.entries, Seq::empty(), k, little);
        assert(table + Seq::<u8>::empty() =~= table);
        lemma_encode_all_len(cur.entries, little);
        lemma_slot_bounds(k, cur.entries.len() as int, w);
        assert(slot::<E>(table, k) == table.subrange(k * w, k * w + w));
        lemma_splice_nested(table, k * w, w, site, u32_bytes(offsets[k], little));
        lemma_splice_front(table, rest, k * w + site, u32_bytes(offsets[k], little));
        assert(cur.encoding(little) =~= table + rest);
        assert(next.encoding(little) =~= encode_all(next.entries, little) + rest);
    }
}

/// A copy of `items`.
fn copy_of<T: Copy>(items: &Vec<T>) -> (copy: Vec<T>)
    ensures
        copy@ == items@,
{
    let mut copy: Vec<T> = Vec::new();
    let mut i: usize = 0;
    while i < items.len()
        invariant
            i <= items.len(),
            copy@ == items@.subrange(0, i as int),
        decreases items.len() - i,
    {
        copy.push(items[i]);
        i += 1;
        assert(copy@ =~= items@.subrange(0, i as int));
    }
    assert(items@.subrange(0, i as int) =~= items@);
    copy
}

/// The canonical forms of `items`.
fn canonical_of<E: Entry>(items: &Vec<E>) -> (canonical: Vec<CanonicalEntry>)
    ensures
        canonical@ == canonical_entries(items@),
{
    let mut canonical: Vec<CanonicalEntry> = Vec::new();
    let mut i: usize = 0;
    while i < items.len()
        invariant
            i <= items.len(),
            canonical@ == canonical_entries(items@.subrange(0, i as int)),
        decreases items.len() - i,
    {
        canonical.push(items[i].to_canonical());
        i += 1;
        assert(canonical@ =~= canonical_entries(items@.subrange(0, i as int)));
    }
    assert(items@.subrange(0, i as int) =~= items@);
    canonical
}

/// The entries of revision `E` that `items` become.
fn projected_of<E: Entry>(items: &Vec<CanonicalEntry>) -> (projected: Vec<E>)
    ensures
        projected@ == projected_entries::<E>(items@),
{
    let mut projected: Vec<E> = Vec::new();
    let mut i: usize = 0;
    while i < items.len()
        invariant
            i <= items.len(),
            projected@ == projected_entries::<E>(items@.subrange(0, i as int)),
        decreases items.len() - i,
    {
        projected.push(E::from_canonical(&items[i]));
        i += 1;
        assert(projected@ =~= projected_entries::<E>(items@.subrange(0, i as int)));
    }
    assert(items@.subrange(0, i as int) =~= items@);
    projected
}

/// The canonical forms of `items`.
fn canonical_supports_of<S: SupportEntry>(items: &Vec<S>) -> (canonical: Vec<
    CanonicalSupportEntry,
>)
    ensures
        canonical@ == canonical_supports(items@),
{
    let mut canonical: Vec<CanonicalSupportEntry> = Vec::new();
    let mut i: usize = 0;
    while i < items.len()
        invariant
            i <= items.len(),
            canonical@ == canonical_supports(items@.subrange(0, i as int)),
        decreases items.len() - i,
    {
        canonical.push(items[i].to_canonical());
        i += 1;
        assert(canonical@ =~= canonical_supports(items@.subrange(0, i as int)));
    }
    assert(items@.subrange(0, i as int) =~= items@);
    canonical
}

/// The support entries of revision `S` that `items` become.
fn projected_supports_of<S: SupportEntry>(items: &Vec<CanonicalSupportEntry>) -> (projected:
    Vec<S>)
    ensures
        projected@ == projected_supports::<S>(items@),
{
    let mut projected: Vec<S> = Vec::new();
    let mut i: usize = 0;
    while i < items.len()
        invariant
            i <= items.len(),
            projected@ == projected_supports::<S>(items@.subrange(0, i as int)),
        decreases items.len() - i,
    {
        projected.push(S::from_canonical(&items[i]));
        i += 1;
        assert(projected@ =~= projected_supports::<S>(items@.subrange(0, i as int)));
    }
    assert(items@.subrange(0, i as int) =~= items@);
    projected
}

/// Appends the live entries `items` to `out` and records where the content
/// offset of each one stands.
fn put_entries<E: Entry>(items: &Vec<E>, out: &mut Vec<u8>, little: bool) -> (sites: Vec<usize>)
    ensures
        final(out)@ == old(out)@ + encode_all(items@, little),
        are_sites::<E>(sites@, old(out)@.len() as int, items@.len()),
{
    let ghost start = out@.len() as int;
    let ghost w = E::width() as int;
    let mut sites: Vec<usize> = Vec::new();
    let mut i: usize = 0;
    proof {
        assert(0 * w == 0) by (nonlinear_arith);
    }
    while i < items.len()
        invariant
            i <= items.len(),
            w == E::width(),
            start == old(out)@.len(),
            out@ == old(out)@ + encode_all(items@.subrange(0, i as int), little),
            out@.len() == start + i * w,
            are_sites::<E>(sites@, start, i as nat),
        decreases items.len() - i,
    {
        let ghost before = sites@;
        items[i].put(out, little);
        proof {
            items@[i as int].lemma_width(little);
            items@[i as int].lemma_moved(0, little);
            lemma_encode_all_push(items@.subrange(0, i as int), items@[i as int], little);
            assert(items@.subrange(0, i as int).push(items@[i as int]) =~= items@.subrange(
                0,
                i + 1,
            ));
            assert((i + 1) * w == i * w + w) by (nonlinear_arith);
        }
        let end: usize = out.len();
        let site: usize = end - E::byte_len() + E::offset_pos();
        sites.push(site);
        proof {
            assert forall|k: int| 0 <= k < i + 1 implies #[trigger] sites@[k] == start + k * w
                + E::offset_site() by {
                if k < i {
                    assert(sites@[k] == before[k]);
                }
            }
        }
        i += 1;
    }
    assert(items@.subrange(0, i as int) =~= items@);
    sites
}

impl<E: Entry, S: SupportEntry> Clone for InnerEntries<E, S> {
    fn clone(&self) -> (copy: Self)
        ensures
            copy@ == self@,
    {
        InnerEntries {
            entries: copy_of(&self.entries),
            free_entries: copy_of(&self.free_entries),
            support_entries: copy_of(&self.support_entries),
            free_support_entries: copy_of(&self.free_support_entries),
        }
    }
}

impl<E: Entry, S: SupportEntry> InnerEntries<E, S> {
    /// The table in canonical form: every entry and support entry is mapped
    /// to its canonical form, in place.
    pub fn into_canonical(&self) -> (canonical: CanonicalInnerEntries)
        ensures
            canonical@ == self@.canonical(),
    {
        InnerEntries {
            entries: canonical_of(&self.entries),
            free_entries: canonical_of(&self.free_entries),
            support_entries: canonical_supports_of(&self.support_entries),
            free_support_entries: canonical_supports_of(&self.free_support_entries),
        }
    }

    /// The table of this revision that a canonical table becomes: every entry
    /// and support entry is projected, in place.
    pub fn from_canonical(canonical: CanonicalInnerEntries) -> (table: Self)
        ensures
            table@ == InnerView::<E, S>::projected(canonical@),
    {
        InnerEntries {
            entries: projected_of(&canonical.entries),
            free_entries: projected_of(&canonical.free_entries),
            support_entries: projected_supports_of(&canonical.support_entries),
            free_support_entries: projected_supports_of(&canonical.free_support_entries),
        }
    }

    /// Appends the table to `out`. Returns, for each live entry in order, the
    /// place in `out` of its content offset.
    pub fn put(&self, out: &mut Vec<u8>, little: bool) -> (sites: Vec<usize>)
        ensures
            final(out)@ == old(out)@ + self@.encoding(little),
            are_sites::<E>(sites@, old(out)@.len() as int, self@.entries.len()),
    {
        let sites = put_entries(&self.entries, out, little);
        put_all(&self.free_entries, out, little);
        put_all(&self.support_entries, out, little);
        put_all(&self.free_support_entries, out, little);
        assert(out@ =~= old(out)@ + self@.encoding(little));
        sites
    }

    /// Reads the table with the counts of `header` that starts at `pos`, and
    /// says where it ends. Fails with `Io` where `data` ends before the table.
    pub fn get(data: &[u8], pos: usize, header: &MstHeader, little: bool) -> (table: Result<
        (Self, usize),
        MstError,
    >)
        requires
            pos <= data@.len(),
        ensures
            match table {
                Ok((inner, end)) => {
                    &&& end == pos + InnerView::<E, S>::stored_len(*header)
                    &&& end <= data@.len()
                    &&& inner@ == InnerView::<E, S>::decoding(
                        data@.subrange(pos as int, data@.len() as int),
                        *header,
                        little,
                    )
                },
                Err(error) => error == MstError::Io && pos + InnerView::<E, S>::stored_len(
                    *header,
                ) > data@.len(),
            },
    {
        let ghost bytes = data@.subrange(pos as int, data@.len() as int);
        let ghost we = E::width() as int;
        let ghost ws = S::width() as int;
        proof {
            assert(0 <= header.num_entries * we && 0 <= header.num_free_entries * we && 0
                <= header.num_support_entries * ws && 0 <= header.num_free_support_entries * ws)
                by (nonlinear_arith)
                requires
                    0 <= we,
                    0 <= ws,
            ;
        }
        let (entries, live_end) = match get_all::<E>(data, pos, header.num_entries as usize, little) {
            Ok(pair) => pair,
            Err(error) => {
                return Err(error);
            },
        };
        let (free_entries, free_end) = match get_all::<E>(
            data,
            live_end,
            header.num_free_entries as usize,
            little,
        ) {
            Ok(pair) => pair,
            Err(error) => {
                return Err(error);
            },
        };
        let (support_entries, support_end) = match get_all::<S>(
            data,
            free_end,
            header.num_support_entries as usize,
            little,
        ) {
            Ok(pair) => pair,
            Err(error) => {
                return Err(error);
            },
        };
        let (free_support_entries, table_end) = match get_all::<S>(
            data,
            support_end,
            header.num_free_support_entries as usize,
            little,
        ) {
            Ok(pair) => pair,
            Err(error) => {
                return Err(error);
            },
        };
        proof {
            let end = bytes.len() as int;
            assert(data@.subrange(live_end as int, data@.len() as int) =~= bytes.subrange(
                live_end - pos,
                end,
            ));
            assert(data@.subrange(free_end as int, data@.len() as int) =~= bytes.subrange(
                free_end - pos,
                end,
            ));
            assert(data@.subrange(support_end as int, data@.len() as int) =~= bytes.subrange(
                support_end - pos,
                end,
            ));
        }
        Ok(
            (
                InnerEntries { entries, free_entries, support_entries, free_support_entries },
                table_end,
            ),
        )
    }
}

/// The entry table of an archive in one of the four revisions.
#[allow(inconsistent_fields)]
#[derive(Debug)]
pub enum Entries {
    V180PS2 { inner: InnerEntries<EntryV180Variable<20>, SupportEntryVariable<20>> },
    V180 { inner: InnerEntries<EntryV180Variable<16>, SupportEntryVariable<16>> },
    V170 { inner: InnerEntries<EntryV170, SupportEntryVariable<16>> },
    V160 { inner: InnerEntries<EntryV160, SupportEntryVariable<16>> },
}

/// What an entry table holds.
#[allow(inconsistent_fields)]
pub enum EntriesView {
    V180PS2 { inner: InnerView<EntryV180Variable<20>, SupportEntryVariable<20>> },
    V180 { inner: InnerView<EntryV180Variable<16>, SupportEntryVariable<16>> },
    V170 { inner: InnerView<EntryV170, SupportEntryVariable<16>> },
    V160 { inner: InnerView<EntryV160, SupportEntryVariable<16>> },
}

impl View for Entries {
    type V = EntriesView;

    open spec fn view(&self) -> EntriesView {
        match *self {
            Entries::V180PS2 { inner } => EntriesView::V180PS2 { inner: inner@ },
            Entries::V180 { inner } => EntriesView::V180 { inner: inner@ },
            Entries::V170 { inner } => EntriesView::V170 { inner: inner@ },
            Entries::V160 { inner } => EntriesView::V160 { inner: inner@ },
        }
    }
}

impl EntriesView {
    /// The revision of the table.
    pub open spec fn version(self) -> MstVersionKnown {
        match self {
            EntriesView::V180PS2 { .. } => MstVersionKnown::V180PS2,
            EntriesView::V180 { .. } => MstVersionKnown::V180,
            EntriesView::V170 { .. } => MstVersionKnown::V170,
            EntriesView::V160 { .. } => MstVersionKnown::V160,
        }
    }

    /// The table in canonical form.
    pub open spec fn canonical(self) -> CanonicalView {
        match self {
            EntriesView::V180PS2 { inner } => inner.canonical(),
            EntriesView::V180 { inner } => inner.canonical(),
            EntriesView::V170 { inner } => inner.canonical(),
            EntriesView::V160 { inner } => inner.canonical(),
        }
    }

    /// The table of revision `version` that a canonical table becomes.
    pub open spec fn projected(version: MstVersionKnown, table: CanonicalView) -> Self {
        match version {
            MstVersionKnown::V180PS2 => EntriesView::V180PS2 { inner: InnerView::projected(table) },
            MstVersionKnown::V180 => EntriesView::V180 { inner: InnerView::projected(table) },
            MstVersionKnown::V170 => EntriesView::V170 { inner: InnerView::projected(table) },
            MstVersionKnown::V160 => EntriesView::V160 { inner: InnerView::projected(table) },
        }
    }

    /// The table in revision `version`: the table itself where that is its
    /// revision, and else its canonical form projected to `version`.
    pub open spec fn converted(self, version: MstVersionKnown) -> Self {
        if self.version() == version {
            self
        } else {
            Self::projected(version, self.canonical())
        }
    }

    /// The bytes that store the table.
    pub open spec fn encoding(self, little: bool) -> Seq<u8> {
        match self {
            EntriesView::V180PS2 { inner } => inner.encoding(little),
            EntriesView::V180 { inner } => inner.encoding(little),
            EntriesView::V170 { inner } => inner.encoding(little),
            EntriesView::V160 { inner } => inner.encoding(little),
        }
    }

    /// The number of bytes of a table of `version` with the counts of `header`.
    pub open spec fn stored_len(version: MstVersionKnown, header: MstHeader) -> nat {
        match version {
            MstVersionKnown::V180PS2 => InnerView::<
                EntryV180Variable<20>,
                SupportEntryVariable<20>,
            >::stored_len(header),
            MstVersionKnown::V180 => InnerView::<
                EntryV180Variable<16>,
                SupportEntryVariable<16>,
            >::stored_len(header),
            MstVersionKnown::V170 => InnerView::<EntryV170, SupportEntryVariable<16>>::stored_len(
                header,
            ),
            MstVersionKnown::V160 => InnerView::<EntryV160, SupportEntryVariable<16>>::stored_len(
                header,
            ),
        }
    }

    /// The table of `version` with the counts of `header` that stands at the
    /// start of `bytes`.
    pub open spec fn decoding(
        version: MstVersionKnown,
        bytes: Seq<u8>,
        header: MstHeader,
        little: bool,
    ) -> Self {
        match version {
            MstVersionKnown::V180PS2 => EntriesView::V180PS2 {
                inner: InnerView::decoding(bytes, header, little),
            },
            MstVersionKnown::V180 => EntriesView::V180 {
                inner: InnerView::decoding(bytes, header, little),
            },
            MstVersionKnown::V170 => EntriesView::V170 {
                inner: InnerView::decoding(bytes, header, little),
            },
            MstVersionKnown::V160 => EntriesView::V160 {
                inner: InnerView::decoding(bytes, header, little),
            },
        }
    }

    /// Whether the bytes of a table of `version` with the counts of `header`
    /// hold nothing outside the fields of its entries: the two bytes behind
    /// the flags of every entry of version 1.8.0 are zero.
    pub open spec fn exact(
        version: MstVersionKnown,
        bytes: Seq<u8>,
        header: MstHeader,
        little: bool,
    ) -> bool {
        match version {
            MstVersionKnown::V180PS2 => InnerView::<
                EntryV180Variable<20>,
                SupportEntryVariable<20>,
            >::exact(bytes, header, little),
            MstVersionKnown::V180 => InnerView::<
                EntryV180Variable<16>,
                SupportEntryVariable<16>,
            >::exact(bytes, header, little),
            MstVersionKnown::V170 => InnerView::<EntryV170, SupportEntryVariable<16>>::exact(
                bytes,
                header,
                little,
            ),
            MstVersionKnown::V160 => InnerView::<EntryV160, SupportEntryVariable<16>>::exact(
                bytes,
                header,
                little,
            ),
        }
    }

    /// Storing the table that was read gives the bytes of the table back
    /// exactly when they are exact. The bytes of a table of version 1.7.0 or
    /// 1.6.0 are always exact.
    pub proof fn lemma_round_trip(
        version: MstVersionKnown,
        bytes: Seq<u8>,
        header: MstHeader,
        little: bool,
    )
        requires
            bytes.len() >= Self::stored_len(version, header),
        ensures
            Self::decoding(version, bytes, header, little).version() == version,
            Self::decoding(version, bytes, header, little).encoding(little).len()
                == Self::stored_len(version, header),
            Self::exact(version, bytes, header, little) <==> Self::decoding(
                version,
                bytes,
                header,
                little,
            ).encoding(little) == bytes.subrange(0, Self::stored_len(version, header) as int),
            version == MstVersionKnown::V170 || version == MstVersionKnown::V160 ==> Self::exact(
                version,
                bytes,
                header,
                little,
            ),
    {
        match version {
            MstVersionKnown::V180PS2 => {
                InnerView::<EntryV180Variable<20>, SupportEntryVariable<20>>::lemma_round_trip(
                    bytes,
                    header,
                    little,
                );
            },
            MstVersionKnown::V180 => {
                InnerView::<EntryV180Variable<16>, SupportEntryVariable<16>>::lemma_round_trip(
                    bytes,
                    header,
                    little,
                );
            },
            MstVersionKnown::V170 => {
                InnerView::<EntryV170, SupportEntryVariable<16>>::lemma_round_trip(
                    bytes,
                    header,
                    little,
                );
            },
            MstVersionKnown::V160 => {
                InnerView::<EntryV160, SupportEntryVariable<16>>::lemma_round_trip(
                    bytes,
                    header,
                    little,
                );
            },
        }
    }

    /// Whether the four counts of `header` are the lengths of the four
    /// arrays of the table.
    pub open spec fn counted_by(self, header: MstHeader) -> bool {
        match self {
            EntriesView::V180PS2 { inner } => inner.counted_by(header),
            EntriesView::V180 { inner } => inner.counted_by(header),
            EntriesView::V170 { inner } => inner.counted_by(header),
            EntriesView::V160 { inner } => inner.counted_by(header),
        }
    }

    /// Reading the stored table with its own revision and counts gives the
    /// table back, whatever follows it.
    pub proof fn lemma_decoding_encoding(self, rest: Seq<u8>, header: MstHeader, little: bool)
        requires
            self.counted_by(header),
        ensures
            self.encoding(little).len() == Self::stored_len(self.version(), header),
            Self::decoding(self.version(), self.encoding(little) + rest, header, little) == self,
    {
        match self {
            EntriesView::V180PS2 { inner } => {
                inner.lemma_decoding_encoding(rest, header, little);
            },
            EntriesView::V180 { inner } => {
                inner.lemma_decoding_encoding(rest, header, little);
            },
            EntriesView::V170 { inner } => {
                inner.lemma_decoding_encoding(rest, header, little);
            },
            EntriesView::V160 { inner } => {
                inner.lemma_decoding_encoding(rest, header, little);
            },
        }
    }

    /// The number of live entries.
    pub open spec fn live_count(self) -> nat {
        self.canonical().entries.len()
    }

    /// Whether `sites` holds, for each live entry of the table stored at
    /// `start`, the place of its content offset.
    pub open spec fn has_sites(self, sites: Seq<usize>, start: int) -> bool {
        match self {
            EntriesView::V180PS2 { inner } => are_sites::<EntryV180Variable<20>>(
                sites,
                start,
                inner.entries.len(),
            ),
            EntriesView::V180 { inner } => are_sites::<EntryV180Variable<16>>(
                sites,
                start,
                inner.entries.len(),
            ),
            EntriesView::V170 { inner } => are_sites::<EntryV170>(
                sites,
                start,
                inner.entries.len(),
            ),
            EntriesView::V160 { inner } => are_sites::<EntryV160>(
                sites,
                start,
                inner.entries.len(),
            ),
        }
    }

    /// The table with the content offsets of its first `upto` live entries
    /// replaced by those of `offsets`, in order.
    pub open spec fn moved_upto(self, offsets: Seq<u32>, upto: int) -> Self {
        match self {
            EntriesView::V180PS2 { inner } => EntriesView::V180PS2 {
                inner: inner.moved_upto(offsets, upto),
            },
            EntriesView::V180 { inner } => EntriesView::V180 {
                inner: inner.moved_upto(offsets, upto),
            },
            EntriesView::V170 { inner } => EntriesView::V170 {
                inner: inner.moved_upto(offsets, upto),
            },
            EntriesView::V160 { inner } => EntriesView::V160 {
                inner: inner.moved_upto(offsets, upto),
            },
        }
    }

    /// The table with the content offsets of its live entries replaced by
    /// `offsets`, in order.
    pub open spec fn moved(self, offsets: Seq<u32>) -> Self {
        self.moved_upto(offsets, self.live_count() as int)
    }

    /// Where in the stored table the content offset of live entry `i` stands.
    pub open spec fn site(self, i: int) -> int {
        match self {
            EntriesView::V180PS2 { .. } => InnerView::<
                EntryV180Variable<20>,
                SupportEntryVariable<20>,
            >::site(i),
            EntriesView::V180 { .. } => InnerView::<
                EntryV180Variable<16>,
                SupportEntryVariable<16>,
            >::site(i),
            EntriesView::V170 { .. } => InnerView::<EntryV170, SupportEntryVariable<16>>::site(i),
            EntriesView::V160 { .. } => InnerView::<EntryV160, SupportEntryVariable<16>>::site(i),
        }
    }

    /// Other content offsets show in the canonical live entries and nowhere
    /// else; revision and counts stay.
    pub proof fn lemma_moved_canonical(self, offsets: Seq<u32>)
        ensures
            self.moved(offsets).canonical() == (InnerView {
                entries: Seq::new(
                    self.live_count(),
                    |i: int| self.canonical().entries[i].at_offset(offsets[i]),
                ),
                ..self.canonical()
            }),
            self.moved(offsets).version() == self.version(),
            forall|header: MstHeader|
                self.counted_by(header) ==> #[trigger] self.moved(offsets).counted_by(header),
    {
        match self {
            EntriesView::V180PS2 { inner } => {
                inner.lemma_moved_canonical(offsets);
            },
            EntriesView::V180 { inner } => {
                inner.lemma_moved_canonical(offsets);
            },
            EntriesView::V170 { inner } => {
                inner.lemma_moved_canonical(offsets);
            },
            EntriesView::V160 { inner } => {
                inner.lemma_moved_canonical(offsets);
            },
        }
    }

    /// Content offsets that are replaced by themselves leave the table as it is.
    pub proof fn lemma_moved_same(self, offsets: Seq<u32>)
        requires
            offsets.len() == self.live_count(),
            forall|i: int|
                0 <= i < offsets.len() ==> offsets[i] == (#[trigger] self.canonical().entries[i]).offset,
        ensures
            self.moved(offsets) == self,
    {
        match self {
            EntriesView::V180PS2 { inner } => {
                inner.lemma_moved_same(offsets);
            },
            EntriesView::V180 { inner } => {
                inner.lemma_moved_same(offsets);
            },
            EntriesView::V170 { inner } => {
                inner.lemma_moved_same(offsets);
            },
            EntriesView::V160 { inner } => {
                inner.lemma_moved_same(offsets);
            },
        }
    }

    /// Replacing the content offset of one more live entry replaces the four
    /// bytes at its site, and sites are where `has_sites` says.
    pub proof fn lemma_moved_step(self, offsets: Seq<u32>, k: int, little: bool)
        requires
            0 <= k < self.live_count(),
        ensures
            0 <= self.site(k),
            self.site(k) + 4 <= self.moved_upto(offsets, k).encoding(little).len(),
            self.moved_upto(offsets, k + 1).encoding(little) == splice(
                self.moved_upto(offsets, k).encoding(little),
                self.site(k),
                u32_bytes(offsets[k], little),
            ),
            forall|sites: Seq<usize>, start: int|
                self.has_sites(sites, start) ==> sites[k] == start + self.site(k),
    {
        match self {
            EntriesView::V180PS2 { inner } => {
                inner.lemma_moved_step(offsets, k, little);
            },
            EntriesView::V180 { inner } => {
                inner.lemma_moved_step(offsets, k, little);
            },
            EntriesView::V170 { inner } => {
                inner.lemma_moved_step(offsets, k, little);
            },
            EntriesView::V160 { inner } => {
                inner.lemma_moved_step(offsets, k, little);
            },
        }
    }
}

impl Clone for Entries {
    fn clone(&self) -> (copy: Self)
        ensures
            copy@ == self@,
    {
        match self {
            Entries::V180PS2 { inner } => Entries::V180PS2 { inner: inner.clone() },
            Entries::V180 { inner } => Entries::V180 { inner: inner.clone() },
            Entries::V170 { inner } => Entries::V170 { inner: inner.clone() },
            Entries::V160 { inner } => Entries::V160 { inner: inner.clone() },
        }
    }
}

impl Entries {
    /// The revision of the table.
    pub fn version(&self) -> (version: MstVersionKnown)
        ensures
            version == self@.version(),
    {
        match self {
            Entries::V180PS2 { .. } => MstVersionKnown::V180PS2,
            Entries::V180 { .. } => MstVersionKnown::V180,
            Entries::V170 { .. } => MstVersionKnown::V170,
            Entries::V160 { .. } => MstVersionKnown::V160,
        }
    }

    /// The table in canonical form.
    pub fn into_canonical(&self) -> (canonical: CanonicalInnerEntries)
        ensures
            canonical@ == self@.canonical(),
    {
        match self {
            Entries::V180PS2 { inner } => inner.into_canonical(),
            Entries::V180 { inner } => inner.into_canonical(),
            Entries::V170 { inner } => inner.into_canonical(),
            Entries::V160 { inner } => inner.into_canonical(),
        }
    }

    /// The table of revision `version` that a canonical table becomes.
    pub fn from_canonical(version: MstVersionKnown, canonical: CanonicalInnerEntries) -> (table:
        Entries)
        ensures
            table@ == EntriesView::projected(version, canonical@),
    {
        match version {
            MstVersionKnown::V180PS2 => Entries::V180PS2 {
                inner: InnerEntries::from_canonical(canonical),
            },
            MstVersionKnown::V180 => Entries::V180 {
                inner: InnerEntries::from_canonical(canonical),
            },
            MstVersionKnown::V170 => Entries::V170 {
                inner: InnerEntries::from_canonical(canonical),
            },
            MstVersionKnown::V160 => Entries::V160 {
                inner: InnerEntries::from_canonical(canonical),
            },
        }
    }

    /// The table in revision `new_version`. Converting to the table's own
    /// revision gives a copy. Any other conversion goes through the canonical
    /// form: fields that the old revision lacks become zero, fields that the
    /// new one lacks are dropped, and a name too wide is narrowed.
    pub fn convert(&self, new_version: MstVersionKnown) -> (converted: Entries)
        ensures
            converted@ == self@.converted(new_version),
            converted@.version() == new_version,
    {
        if self.version() == new_version {
            self.clone()
        } else {
            Self::from_canonical(new_version, self.into_canonical())
        }
    }

    /// Appends the table to `out`. Returns, for each live entry in order, the
    /// place in `out` of its content offset.
    pub fn put(&self, out: &mut Vec<u8>, little: bool) -> (sites: Vec<usize>)
        ensures
            final(out)@ == old(out)@ + self@.encoding(little),
            self@.has_sites(sites@, old(out)@.len() as int),
    {
        match self {
            Entries::V180PS2 { inner } => inner.put(out, little),
            Entries::V180 { inner } => inner.put(out, little),
            Entries::V170 { inner } => inner.put(out, little),
            Entries::V160 { inner } => inner.put(out, little),
        }
    }

    /// Reads the table of `version` with the counts of `header` that starts
    /// at `pos`, and says where it ends. Fails with `Io` where `data` ends
    /// before the table does.
    pub fn get(
        version: MstVersionKnown,
        data: &[u8],
        pos: usize,
        header: &MstHeader,
        little: bool,
    ) -> (table: Result<(Entries, usize), MstError>)
        requires
            pos <= data@.len(),
        ensures
            match table {
                Ok((entries, end)) => {
                    &&& end == pos + EntriesView::stored_len(version, *header)
                    &&& end <= data@.len()
                    &&& entries@ == EntriesView::decoding(
                        version,
                        data@.subrange(pos as int, data@.len() as int),
                        *header,
                        little,
                    )
                },
                Err(error) => error == MstError::Io && pos + EntriesView::stored_len(
                    version,
                    *header,
                ) > data@.len(),
            },
    {
        match version {
            MstVersionKnown::V180PS2 => match InnerEntries::get(data, pos, header, little) {
                Ok((inner, end)) => Ok((Entries::V180PS2 { inner }, end)),
                Err(error) => Err(error),
            },
            MstVersionKnown::V180 => match InnerEntries::get(data, pos, header, little) {
                Ok((inner, end)) => Ok((Entries::V180 { inner }, end)),
                Err(error) => Err(error),
            },
            MstVersionKnown::V170 => match InnerEntries::get(data, pos, header, little) {
                Ok((inner, end)) => Ok((Entries::V170 { inner }, end)),
                Err(error) => Err(error),
            },
            MstVersionKnown::V160 => match InnerEntries::get(data, pos, header, little) {
                Ok((inner, end)) => Ok((Entries::V160 { inner }, end)),
                Err(error) => Err(error),
            },
        }
    }
}

/// Whether entries of `version` have a name field of 20 bytes.
pub open spec fn has_wide_names(version: MstVersionKnown) -> bool {
    version == MstVersionKnown::V180PS2
}

/// Whether entries of `version` have flags.
pub open spec fn has_flags(version: MstVersionKnown) -> bool {
    version == MstVersionKnown::V180PS2 || version == MstVersionKnown::V180
}

/// Whether entries of `version` have a checksum.
pub open spec fn has_crc(version: MstVersionKnown) -> bool {
    version != MstVersionKnown::V160
}

/// What is left of a name after a passage through `version`: the name itself
/// where names are 20 bytes wide there, and else its first 15 bytes followed
/// by zero bytes.
pub open spec fn kept_name(name: Filename<20>, version: MstVersionKnown) -> Filename<20> {
    if has_wide_names(version) {
        name
    } else {
        widened(narrowed(name))
    }
}

/// What is left of a canonical entry after a passage through `version`:
/// flags and checksum are zero where the revision has none, and the name is
/// what `kept_name` says.
pub open spec fn kept(entry: CanonicalEntry, version: MstVersionKnown) -> CanonicalEntry {
    EntryV180Variable {
        filename: kept_name(entry.filename, version),
        flags: if has_flags(version) {
            entry.flags
        } else {
            0
        },
        offset: entry.offset,
        size: entry.size,
        timestamp: entry.timestamp,
        crc: if has_crc(version) {
            entry.crc
        } else {
            0
        },
    }
}

/// What is left of a canonical support entry after a passage through `version`.
pub open spec fn kept_support(entry: CanonicalSupportEntry, version: MstVersionKnown) -> CanonicalSupportEntry {
    SupportEntryVariable {
        filename: kept_name(entry.filename, version),
        timestamp: entry.timestamp,
    }
}

impl InnerView<CanonicalEntry, CanonicalSupportEntry> {
    /// What is left of a canonical table after a passage through `version`.
    pub open spec fn kept(self, version: MstVersionKnown) -> CanonicalView {
        InnerView {
            entries: Seq::new(self.entries.len(), |i: int| kept(self.entries[i], version)),
            free_entries: Seq::new(
                self.free_entries.len(),
                |i: int| kept(self.free_entries[i], version),
            ),
            support_entries: Seq::new(
                self.support_entries.len(),
                |i: int| kept_support(self.support_entries[i], version),
            ),
            free_support_entries: Seq::new(
                self.free_support_entries.len(),
                |i: int| kept_support(self.free_support_entries[i], version),
            ),
        }
    }

    /// Whether a passage through `version` loses nothing of the table: no
    /// name has a byte other than zero from its 16th byte on where names are
    /// narrow there, and flags and checksums are zero where the revision has
    /// none.
    pub open spec fn survives(self, version: MstVersionKnown) -> bool {
        &&& forall|i: int|
            0 <= i < self.entries.len() ==> kept(#[trigger] self.entries[i], version)
                == self.entries[i]
        &&& forall|i: int|
            0 <= i < self.free_entries.len() ==> kept(#[trigger] self.free_entries[i], version)
                == self.free_entries[i]
        &&& forall|i: int|
            0 <= i < self.support_entries.len() ==> kept_support(
                #[trigger] self.support_entries[i],
                version,
            ) == self.support_entries[i]
        &&& forall|i: int|
            0 <= i < self.free_support_entries.len() ==> kept_support(
                #[trigger] self.free_support_entries[i],
                version,
            ) == self.free_support_entries[i]
    }

    /// A table is what is left of it exactly when it survives.
    pub proof fn lemma_survives(self, version: MstVersionKnown)
        ensures
            self.survives(version) <==> self.kept(version) == self,
    {
        let after = self.kept(version);
        if self.survives(version) {
            assert(after.entries =~= self.entries);
            assert(after.free_entries =~= self.free_entries);
            assert(after.support_entries =~= self.support_entries);
            assert(after.free_support_entries =~= self.free_support_entries);
        }
        if after == self {
            assert forall|i: int| 0 <= i < self.entries.len() implies kept(
                #[trigger] self.entries[i],
                version,
            ) == self.entries[i] by {
                assert(after.entries[i] == kept(self.entries[i], version));
            }
            assert forall|i: int| 0 <= i < self.free_entries.len() implies kept(
                #[trigger] self.free_entries[i],
                version,
            ) == self.free_entries[i] by {
                assert(after.free_entries[i] == kept(self.free_entries[i], version));
            }
            assert forall|i: int| 0 <= i < self.support_entries.len() implies kept_support(
                #[trigger] self.support_entries[i],
                version,
            ) == self.support_entries[i] by {
                assert(after.support_entries[i] == kept_support(
                    self.support_entries[i],
                    version,
                ));
            }
            assert forall|i: int| 0 <= i < self.free_support_entries.len() implies kept_support(
                #[trigger] self.free_support_entries[i],
                version,
            ) == self.free_support_entries[i] by {
                assert(after.free_support_entries[i] == kept_support(
                    self.free_support_entries[i],
                    version,
                ));
            }
        }
    }

    /// What two passages leave of a table is the table itself exactly when
    /// it survives each of them.
    pub proof fn lemma_survives_both(self, first: MstVersionKnown, second: MstVersionKnown)
        ensures
            self.kept(first).kept(second) == self <==> self.survives(first) && self.survives(
                second,
            ),
    {
        let once = self.kept(first);
        let twice = once.kept(second);
        self.lemma_survives(first);
        self.lemma_survives(second);
        if self.survives(first) && self.survives(second) {
            assert(once == self);
        }
        if twice == self {
            assert forall|i: int| 0 <= i < self.entries.len() implies kept(
                #[trigger] self.entries[i],
                first,
            ) == self.entries[i] && kept(self.entries[i], second) == self.entries[i] by {
                assert(twice.entries[i] == kept(kept(self.entries[i], first), second));
                lemma_kept_twice(self.entries[i], first, second);
            }
            assert forall|i: int| 0 <= i < self.free_entries.len() implies kept(
                #[trigger] self.free_entries[i],
                first,
            ) == self.free_entries[i] && kept(self.free_entries[i], second)
                == self.free_entries[i] by {
                assert(twice.free_entries[i] == kept(kept(self.free_entries[i], first), second));
                lemma_kept_twice(self.free_entries[i], first, second);
            }
            assert forall|i: int| 0 <= i < self.support_entries.len() implies kept_support(
                #[trigger] self.support_entries[i],
                first,
            ) == self.support_entries[i] && kept_support(self.support_entries[i], second)
                == self.support_entries[i] by {
                assert(twice.support_entries[i] == kept_support(
                    kept_support(self.support_entries[i], first),
                    second,
                ));
                lemma_kept_support_twice(self.support_entries[i], first, second);
            }
            assert forall|i: int| 0 <= i < self.free_support_entries.len() implies kept_support(
                #[trigger] self.free_support_entries[i],
                first,
            ) == self.free_support_entries[i] && kept_support(
                self.free_support_entries[i],
                second,
            ) == self.free_support_entries[i] by {
                assert(twice.free_support_entries[i] == kept_support(
                    kept_support(self.free_support_entries[i], first),
                    second,
                ));
                lemma_kept_support_twice(self.free_support_entries[i], first, second);
            }
        }
    }
}

/// A second passage through a revision changes nothing, and what two
/// passages leave is the entry itself exactly when each passage alone leaves
/// the entry as it is.
pub proof fn lemma_kept_twice(entry: CanonicalEntry, first: MstVersionKnown, second: MstVersionKnown)
    ensures
        kept(kept(entry, first), first) == kept(entry, first),
        kept(kept(entry, first), second) == entry <==> kept(entry, first) == entry && kept(
            entry,
            second,
        ) == entry,
{
    lemma_kept_name_twice(entry.filename, first, second);
}

/// The same for support entries.
pub proof fn lemma_kept_support_twice(
    entry: CanonicalSupportEntry,
    first: MstVersionKnown,
    second: MstVersionKnown,
)
    ensures
        kept_support(kept_support(entry, first), first) == kept_support(entry, first),
        kept_support(kept_support(entry, first), second) == entry <==> kept_support(entry, first)
            == entry && kept_support(entry, second) == entry,
{
    lemma_kept_name_twice(entry.filename, first, second);
}

/// The same for names.
pub proof fn lemma_kept_name_twice(name: Filename<20>, first: MstVersionKnown, second: MstVersionKnown)
    ensures
        kept_name(kept_name(name, first), first) == kept_name(name, first),
        kept_name(kept_name(name, first), second) == name <==> kept_name(name, first) == name
            && kept_name(name, second) == name,
{
    let once = widened(narrowed(name));
    crate::mst::entry::lemma_widen_narrow(name);
    crate::mst::entry::lemma_widen_narrow(once);
    name.lemma_of_view();
    once.lemma_of_view();
    widened(narrowed(once)).lemma_of_view();
    assert(widened(narrowed(once))@ =~= once@);
}

/// A name is what is left of it after a passage through a revision with
/// narrow names exactly when its bytes from the 16th on are zero.
pub proof fn lemma_kept_name(name: Filename<20>, version: MstVersionKnown)
    ensures
        kept_name(name, version) == name <==> (has_wide_names(version) || forall|i: int|
            15 <= i < 20 ==> name@[i] == 0),
        !has_wide_names(version) ==> kept_name(name, version)@ == name@.subrange(0, 15)
            + crate::codec::zeros(5),
{
    crate::mst::entry::lemma_widen_narrow(name);
}

impl EntriesView {
    /// The canonical form of a table that was projected to `version` is what
    /// is left of the canonical table after a passage through `version`.
    pub proof fn lemma_projected_canonical(version: MstVersionKnown, table: CanonicalView)
        ensures
            Self::projected(version, table).canonical() == table.kept(version),
            Self::projected(version, table).version() == version,
    {
        let after = Self::projected(version, table).canonical();
        let left = table.kept(version);
        assert(after.entries =~= left.entries);
        assert(after.free_entries =~= left.free_entries);
        assert(after.support_entries =~= left.support_entries);
        assert(after.free_support_entries =~= left.free_support_entries);
    }

    /// Converting to the table's own revision leaves the canonical form as it
    /// is; converting to another one leaves of it what a passage through
    /// that revision does.
    pub proof fn lemma_canonical_converted(self, version: MstVersionKnown)
        ensures
            self.converted(version).version() == version,
            self.converted(version).canonical() == (if self.version() == version {
                self.canonical()
            } else {
                self.canonical().kept(version)
            }),
    {
        Self::lemma_projected_canonical(version, self.canonical());
    }
}

} // verus!
