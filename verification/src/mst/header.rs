//! The fixed header that follows the version word.
use crate::codec::{array_of, lemma_array_held, lemma_array_of};
use crate::record::{
    decode_all, encode_all, lemma_decode_encode_all, lemma_encode_all_len,
    lemma_encode_decode_all, put_all, slot, Record,
};
use vstd::prelude::*;

verus! {

/// The compiler stamps: one provenance number for each kind of content.
#[derive(Clone, Copy, Debug)]
pub struct MstCompilers {
    pub tga_compiler_version: u32,
    pub ape_compiler_version: u32,
    pub mtx_compiler_version: u32,
    pub csv_compiler_version: u32,
    pub fnt_compiler_version: u32,
    pub sma_compiler_version: u32,
    pub gt_compiler_version: u32,
    pub wvb_compiler_version: u32,
    pub fpr_compiler_version: u32,
    pub cam_compiler_version: u32,
}

/// The header: the file size, the four table counts, the start of the
/// content region, the compiler stamps and nine reserved words.
#[derive(Clone, Copy, Debug)]
pub struct MstHeader {
    pub bytes_in_file: u32,
    pub num_entries: u32,
    pub num_free_entries: u32,
    pub num_support_entries: u32,
    pub num_free_support_entries: u32,
    pub data_offset: u32,
    pub compilers: MstCompilers,
    pub reserved: [u32; 9],
}

impl MstCompilers {
    /// The ten stamps in the order in which they are stored.
    pub open spec fn words(self) -> Seq<u32> {
        seq![
            self.tga_compiler_version,
            self.ape_compiler_version,
            self.mtx_compiler_version,
            self.csv_compiler_version,
            self.fnt_compiler_version,
            self.sma_compiler_version,
            self.gt_compiler_version,
            self.wvb_compiler_version,
            self.fpr_compiler_version,
            self.cam_compiler_version,
        ]
    }

    /// The stamps that ten words hold.
    pub open spec fn of_words(words: Seq<u32>) -> Self {
        MstCompilers {
            tga_compiler_version: words[0],
            ape_compiler_version: words[1],
            mtx_compiler_version: words[2],
            csv_compiler_version: words[3],
            fnt_compiler_version: words[4],
            sma_compiler_version: words[5],
            gt_compiler_version: words[6],
            wvb_compiler_version: words[7],
            fpr_compiler_version: words[8],
            cam_compiler_version: words[9],
        }
    }
}

impl MstHeader {
    /// The 25 words of the header in the order in which they are stored.
    pub open spec fn words(self) -> Seq<u32> {
        seq![
            self.bytes_in_file,
            self.num_entries,
            self.num_free_entries,
            self.num_support_entries,
            self.num_free_support_entries,
            self.data_offset,
        ] + self.compilers.words() + self.reserved@
    }

    /// The header that 25 words hold.
    pub open spec fn of_words(words: Seq<u32>) -> Self {
        MstHeader {
            bytes_in_file: words[0],
            num_entries: words[1],
            num_free_entries: words[2],
            num_support_entries: words[3],
            num_free_support_entries: words[4],
            data_offset: words[5],
            compilers: MstCompilers::of_words(words.subrange(6, 16)),
            reserved: array_of(words.subrange(16, 25)),
        }
    }

    /// A header and its 25 words determine each other.
    pub proof fn lemma_words(self, words: Seq<u32>)
        ensures
            self.words().len() == 25,
            Self::of_words(self.words()) == self,
            words.len() == 25 ==> Self::of_words(words).words() == words,
    {
        broadcast use vstd::array::group_array_axioms;

        let mine = self.words();
        assert(mine.subrange(6, 16) =~= self.compilers.words());
        assert(mine.subrange(16, 25) =~= self.reserved@);
        lemma_array_held::<u32, 9>(self.reserved);
        if words.len() == 25 {
            lemma_array_of::<u32, 9>(words.subrange(16, 25));
        }
        if words.len() == 25 {
            assert(Self::of_words(words).words() =~= words);
        }
    }

    /// The words of the header as a vector.
    fn to_words(&self) -> (words: Vec<u32>)
        ensures
            words@ == self.words(),
    {
        let mut words: Vec<u32> = Vec::new();
        words.push(self.bytes_in_file);
        words.push(self.num_entries);
        words.push(self.num_free_entries);
        words.push(self.num_support_entries);
        words.push(self.num_free_support_entries);
        words.push(self.data_offset);
        words.push(self.compilers.tga_compiler_version);
        words.push(self.compilers.ape_compiler_version);
        words.push(self.compilers.mtx_compiler_version);
        words.push(self.compilers.csv_compiler_version);
        words.push(self.compilers.fnt_compiler_version);
        words.push(self.compilers.sma_compiler_version);
        words.push(self.compilers.gt_compiler_version);
        words.push(self.compilers.wvb_compiler_version);
        words.push(self.compilers.fpr_compiler_version);
        words.push(self.compilers.cam_compiler_version);
        let mut i: usize = 0;
        while i < 9
            invariant
                i <= 9,
                words@ == self.words().subrange(0, 16 + i),
            decreases 9 - i,
        {
            words.push(self.reserved[i]);
            i += 1;
            assert(words@ =~= self.words().subrange(0, 16 + i));
        }
        assert(words@ =~= self.words());
        words
    }
}

impl Record for MstHeader {
    open spec fn width() -> nat {
        100
    }

    open spec fn encoding(self, little: bool) -> Seq<u8> {
        encode_all(self.words(), little)
    }

    open spec fn decoding(bytes: Seq<u8>, little: bool) -> Self {
        Self::of_words(decode_all::<u32>(bytes, 25, little))
    }

    open spec fn exact(bytes: Seq<u8>, little: bool) -> bool {
        true
    }

    proof fn lemma_width(self, little: bool) {
        self.lemma_words(Seq::empty());
        lemma_encode_all_len(self.words(), little);
    }

    proof fn lemma_decode_encode(self, little: bool) {
        self.lemma_words(Seq::empty());
        lemma_decode_encode_all(self.words(), Seq::empty(), little);
        assert(encode_all(self.words(), little) + Seq::<u8>::empty() =~= encode_all(
            self.words(),
            little,
        ));
    }

    proof fn lemma_encode_decode(bytes: Seq<u8>, little: bool) {
        let words = decode_all::<u32>(bytes, 25, little);
        lemma_encode_decode_all::<u32>(bytes, 25, little);
        Self::of_words(words).lemma_words(words);
    }

    fn byte_len() -> (n: usize) {
        100
    }

    fn put(&self, out: &mut Vec<u8>, little: bool) {
        let words = self.to_words();
        put_all(&words, out, little);
    }

    fn get(data: &[u8], pos: usize, little: bool) -> (record: Self) {
        broadcast use vstd::array::group_array_axioms;

        let len: usize = data.len();
        let ghost bytes = data@.subrange(pos as int, pos + 100);
        let ghost words = decode_all::<u32>(bytes, 25, little);
        proof {
            assert forall|k: int| 0 <= k < 25 implies #[trigger] words[k] == crate::codec::u32_of(
                data@.subrange(pos + 4 * k, pos + 4 * k + 4),
                little,
            ) by {
                assert(slot::<u32>(bytes, k) =~= data@.subrange(pos + 4 * k, pos + 4 * k + 4));
            }
        }
        let mut reserved = [0u32;9];
        let mut i: usize = 0;
        while i < 9
            invariant
                i <= 9,
                pos + 100 <= data@.len() == len,
                forall|k: int|
                    0 <= k < 25 ==> #[trigger] words[k] == crate::codec::u32_of(
                        data@.subrange(pos + 4 * k, pos + 4 * k + 4),
                        little,
                    ),
                forall|j: int| 0 <= j < i ==> reserved@[j] == words[16 + j],
            decreases 9 - i,
        {
            let ghost k = 16 + i;
            assert(words[k] == crate::codec::u32_of(
                data@.subrange(pos + 4 * k, pos + 4 * k + 4),
                little,
            ));
            reserved[i] = crate::codec::get_u32(data, pos + 64 + 4 * i, little);
            i += 1;
        }
        let header = MstHeader {
            bytes_in_file: crate::codec::get_u32(data, pos, little),
            num_entries: crate::codec::get_u32(data, pos + 4, little),
            num_free_entries: crate::codec::get_u32(data, pos + 8, little),
            num_support_entries: crate::codec::get_u32(data, pos + 12, little),
            num_free_support_entries: crate::codec::get_u32(data, pos + 16, little),
            data_offset: crate::codec::get_u32(data, pos + 20, little),
            compilers: MstCompilers {
                tga_compiler_version: crate::codec::get_u32(data, pos + 24, little),
                ape_compiler_version: crate::codec::get_u32(data, pos + 28, little),
                mtx_compiler_version: crate::codec::get_u32(data, pos + 32, little),
                csv_compiler_version: crate::codec::get_u32(data, pos + 36, little),
                fnt_compiler_version: crate::codec::get_u32(data, pos + 40, little),
                sma_compiler_version: crate::codec::get_u32(data, pos + 44, little),
                gt_compiler_version: crate::codec::get_u32(data, pos + 48, little),
                wvb_compiler_version: crate::codec::get_u32(data, pos + 52, little),
                fpr_compiler_version: crate::codec::get_u32(data, pos + 56, little),
                cam_compiler_version: crate::codec::get_u32(data, pos + 60, little),
            },
            reserved,
        };
        proof {
            assert(words[0] == header.bytes_in_file);
            assert(words[1] == header.num_entries);
            assert(words[2] == header.num_free_entries);
            assert(words[3] == header.num_support_entries);
            assert(words[4] == header.num_free_support_entries);
            assert(words[5] == header.data_offset);
            assert(words[6] == header.compilers.tga_compiler_version);
            assert(words[7] == header.compilers.ape_compiler_version);
            assert(words[8] == header.compilers.mtx_compiler_version);
            assert(words[9] == header.compilers.csv_compiler_version);
            assert(words[10] == header.compilers.fnt_compiler_version);
            assert(words[11] == header.compilers.sma_compiler_version);
            assert(words[12] == header.compilers.gt_compiler_version);
            assert(words[13] == header.compilers.wvb_compiler_version);
            assert(words[14] == header.compilers.fpr_compiler_version);
            assert(words[15] == header.compilers.cam_compiler_version);
            assert(header.reserved@ =~= words.subrange(16, 25));
            lemma_array_held::<u32, 9>(header.reserved);
        }
        header
    }
}

} // verus!
