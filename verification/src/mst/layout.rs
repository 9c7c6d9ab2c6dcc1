//! The content region and the patching of content offsets.
//!
//! Content blocks follow the entry table in entry order. Each block starts on
//! a 2048-byte boundary; the gap in front of it is filled with zero bytes.
use crate::codec::{put_bytes, put_zeros, set_u32, splice, u32_bytes, zeros};
use vstd::prelude::*;

verus! {

/// The distance between the starts of two content blocks is a multiple of this.
pub const ALIGNMENT: usize = 2048;

/// The first multiple of 2048 that is not below `pos`.
pub open spec fn aligned(pos: int) -> int {
    if pos % 2048 == 0 {
        pos
    } else {
        pos + (2048 - pos % 2048)
    }
}

/// The content region that holds `blocks` behind the first `start` bytes of
/// an archive: in front of each block as many zero bytes as bring it to a
/// 2048-byte boundary.
pub open spec fn region(blocks: Seq<Seq<u8>>, start: int) -> Seq<u8>
    decreases blocks.len(),
{
    if blocks.len() == 0 {
        Seq::empty()
    } else {
        let before = region(blocks.drop_last(), start);
        let at = start + before.len();
        before + zeros((aligned(at) - at) as nat) + blocks.last()
    }
}

/// Where block `i` of `blocks` starts in an archive whose content region
/// follows its first `start` bytes.
pub open spec fn block_start(blocks: Seq<Seq<u8>>, start: int, i: int) -> int {
    aligned(start + region(blocks.subrange(0, i), start).len())
}

/// What slices hold, in order.
pub open spec fn slices_view(blocks: Seq<&[u8]>) -> Seq<Seq<u8>> {
    Seq::new(blocks.len(), |i: int| blocks[i]@)
}

/// The low 32 bits of `value`: what a 32-bit field of an archive keeps of it.
pub open spec fn low32(value: int) -> u32 {
    (value % 0x1_0000_0000) as u32
}

/// The low 32 bits of each of `offsets`.
pub open spec fn low32s(offsets: Seq<usize>) -> Seq<u32> {
    Seq::new(offsets.len(), |i: int| low32(offsets[i] as int))
}

/// `bytes` after the first `count` of `sites` were overwritten, in order,
/// each with the low 32 bits of the offset of the same index.
pub open spec fn patched(
    bytes: Seq<u8>,
    sites: Seq<usize>,
    offsets: Seq<usize>,
    little: bool,
    count: nat,
) -> Seq<u8>
    decreases count,
{
    if count == 0 {
        bytes
    } else {
        splice(
            patched(bytes, sites, offsets, little, (count - 1) as nat),
            sites[count - 1] as int,
            u32_bytes(low32(offsets[count - 1] as int), little),
        )
    }
}

/// `aligned` gives a multiple of 2048 that is less than 2048 above its argument.
pub proof fn lemma_aligned(pos: int)
    requires
        0 <= pos,
    ensures
        pos <= aligned(pos) < pos + 2048,
        aligned(pos) % 2048 == 0,
        pos % 2048 == 0 ==> aligned(pos) == pos,
{
}

/// The least of `values`, or `otherwise` where there is none.
pub open spec fn least(values: Seq<int>, otherwise: int) -> int
    decreases values.len(),
{
    if values.len() == 0 {
        otherwise
    } else if values.len() == 1 {
        values[0]
    } else {
        let before = least(values.drop_last(), otherwise);
        if values.last() < before {
            values.last()
        } else {
            before
        }
    }
}

/// Where each of `blocks` starts behind the first `start` bytes.
pub open spec fn block_starts(blocks: Seq<Seq<u8>>, start: int) -> Seq<int> {
    Seq::new(blocks.len(), |i: int| block_start(blocks, start, i))
}

/// The low 32 bits of each of `values`.
pub open spec fn low32_all(values: Seq<int>) -> Seq<u32> {
    Seq::new(values.len(), |i: int| low32(values[i]))
}

/// The least of values that do not fall is the first one.
pub proof fn lemma_least_first(values: Seq<int>, otherwise: int)
    requires
        forall|i: int, j: int| 0 <= i <= j < values.len() ==> values[i] <= values[j],
    ensures
        least(values, otherwise) == (if values.len() == 0 {
            otherwise
        } else {
            values[0]
        }),
        forall|i: int| 0 <= i < values.len() ==> least(values, otherwise) <= values[i],
    decreases values.len(),
{
    if values.len() > 1 {
        lemma_least_first(values.drop_last(), otherwise);
    }
}

/// The blocks of a content region start in rising order, each on a 2048-byte
/// boundary behind the end of the one in front of it, and each block stands
/// in the region where it starts.
pub proof fn lemma_region(blocks: Seq<Seq<u8>>, start: int, bytes: Seq<u8>)
    requires
        0 <= start,
        bytes.len() == start,
    ensures
        forall|i: int|
            0 <= i < blocks.len() ==> #[trigger] block_start(blocks, start, i) % 2048 == 0,
        forall|i: int, j: int|
            #![trigger block_start(blocks, start, i), block_start(blocks, start, j)]
            0 <= i <= j < blocks.len() ==> start <= block_start(blocks, start, i)
                && block_start(blocks, start, i) <= block_start(blocks, start, j),
        forall|i: int|
            0 <= i < blocks.len() ==> #[trigger] block_start(blocks, start, i) + blocks[i].len()
                <= start + region(blocks, start).len(),
        forall|i: int|
            0 <= i < blocks.len() ==> (bytes + region(blocks, start)).subrange(
                #[trigger] block_start(blocks, start, i),
                block_start(blocks, start, i) + blocks[i].len(),
            ) == blocks[i],
    decreases blocks.len(),
{
    if blocks.len() > 0 {
        let n = blocks.len() - 1;
        let front = blocks.drop_last();
        lemma_region(front, start, bytes);
        assert(blocks.subrange(0, n) =~= front);
        lemma_aligned(start + region(front, start).len());
        let last = block_start(blocks, start, n);
        assert forall|i: int| 0 <= i < n implies block_start(blocks, start, i) == block_start(
            front,
            start,
            i,
        ) by {
            assert(blocks.subrange(0, i) =~= front.subrange(0, i));
        }
        assert forall|i: int| 0 <= i < blocks.len() implies (bytes + region(
            blocks,
            start,
        )).subrange(
            #[trigger] block_start(blocks, start, i),
            block_start(blocks, start, i) + blocks[i].len(),
        ) == blocks[i] by {
            if i < n {
                assert(blocks[i] == front[i]);
                assert((bytes + region(blocks, start)).subrange(
                    block_start(blocks, start, i),
                    block_start(blocks, start, i) + blocks[i].len(),
                ) =~= (bytes + region(front, start)).subrange(
                    block_start(front, start, i),
                    block_start(front, start, i) + front[i].len(),
                ));
            } else {
                assert((bytes + region(blocks, start)).subrange(
                    last,
                    last + blocks[n].len(),
                ) =~= blocks[n]);
            }
        }
        assert forall|i: int, j: int|
            #![trigger block_start(blocks, start, i), block_start(blocks, start, j)]
            0 <= i <= j < blocks.len() implies start <= block_start(blocks, start, i)
            && block_start(blocks, start, i) <= block_start(blocks, start, j) by {
            if j == n && i < n {
                assert(block_start(front, start, i) + front[i].len() <= start + region(
                    front,
                    start,
                ).len());
            }
        }
    }
}

/// The low 32 bits of a multiple of 2048 are a multiple of 2048, and the low
/// 32 bits of a value that 32 bits can hold are the value.
pub proof fn lemma_low32(value: int)
    requires
        0 <= value,
    ensures
        value % 2048 == 0 ==> low32(value) % 2048 == 0,
        value <= u32::MAX ==> low32(value) == value,
{
}

/// The low 32 bits of `value`.
pub fn low32_of(value: usize) -> (low: u32)
    ensures
        low == low32(value as int),
{
    let low: u32 = #[verifier::truncate] (value as u32);
    assert(low == low32(value as int)) by (bit_vector)
        requires
            low == value as u32,
    ;
    low
}

/// Appends `blocks` to `out`, each on a 2048-byte boundary, and returns where
/// each block starts.
pub fn append_blocks(out: &mut Vec<u8>, blocks: &Vec<&[u8]>) -> (offsets: Vec<usize>)
    ensures
        final(out)@ == old(out)@ + region(slices_view(blocks@), old(out)@.len() as int),
        offsets@.len() == blocks@.len(),
        forall|i: int|
            0 <= i < blocks@.len() ==> #[trigger] offsets@[i] == block_start(
                slices_view(blocks@),
                old(out)@.len() as int,
                i,
            ),
{
    let ghost start = out@.len() as int;
    let ghost all = slices_view(blocks@);
    let mut offsets: Vec<usize> = Vec::new();
    let mut i: usize = 0;
    assert(all.subrange(0, 0) =~= Seq::empty());
    while i < blocks.len()
        invariant
            i <= blocks@.len(),
            start == old(out)@.len(),
            all == slices_view(blocks@),
            out@ == old(out)@ + region(all.subrange(0, i as int), start),
            offsets@.len() == i,
            forall|j: int| 0 <= j < i ==> #[trigger] offsets@[j] == block_start(all, start, j),
        decreases blocks@.len() - i,
    {
        let ghost before = region(all.subrange(0, i as int), start);
        let pos: usize = out.len();
        let rest: usize = pos % ALIGNMENT;
        if rest > 0 {
            put_zeros(out, ALIGNMENT - rest);
        }
        let at: usize = out.len();
        offsets.push(at);
        put_bytes(out, blocks[i]);
        proof {
            let upto = all.subrange(0, i + 1);
            assert(upto.drop_last() =~= all.subrange(0, i as int));
            assert(upto.last() == blocks@[i as int]@);
            assert(pos == start + before.len());
            assert(at == aligned(pos as int));
            assert(out@ =~= old(out)@ + region(upto, start));
        }
        i += 1;
    }
    assert(all.subrange(0, i as int) =~= all);
    offsets
}

/// Overwrites the content offset at each site with the low 32 bits of the
/// offset of the same index, as far as both lists go.
pub fn patch_offsets(out: &mut Vec<u8>, sites: &Vec<usize>, offsets: &Vec<usize>, little: bool)
    requires
        forall|i: int| 0 <= i < sites@.len() ==> #[trigger] sites@[i] + 4 <= old(out)@.len(),
    ensures
        final(out)@ == patched(
            old(out)@,
            sites@,
            offsets@,
            little,
            if sites@.len() <= offsets@.len() {
                sites@.len()
            } else {
                offsets@.len()
            },
        ),
        final(out)@.len() == old(out)@.len(),
{
    let count: usize = if sites.len() <= offsets.len() {
        sites.len()
    } else {
        offsets.len()
    };
    let mut i: usize = 0;
    while i < count
        invariant
            i <= count,
            count <= sites@.len(),
            count <= offsets@.len(),
            out@.len() == old(out)@.len(),
            forall|k: int| 0 <= k < sites@.len() ==> #[trigger] sites@[k] + 4 <= old(out)@.len(),
            out@ == patched(old(out)@, sites@, offsets@, little, i as nat),
        decreases count - i,
    {
        assert(sites@[i as int] + 4 <= old(out)@.len());
        set_u32(out, sites[i], low32_of(offsets[i]), little);
        i += 1;
    }
}

} // verus!
