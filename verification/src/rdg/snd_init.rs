//! The sound initialisation file: where project, pool and sample directory
//! lie in it, and the sample directory itself.
use crate::codec::{
    get_u16, get_u32, lemma_u16_bytes_of, lemma_u16_round_trip, lemma_u32_bytes_of,
    lemma_u32_round_trip, put_u16, put_u32, put_zeros, u16_bytes, u16_of, u32_bytes, u32_of,
    zeros,
};
use crate::error::MstError;
use crate::record::{decode_all, get_all, Record};
use vstd::prelude::*;

verus! {

/// One sample of the sample directory.
#[derive(Clone, Copy, Debug)]
pub struct SdirFileDsp {
    pub id: u16,
    pub samp_offset: u32,
    pub base_note: u8,
    pub sample_rate: u16,
    pub sample_count: u32,
    pub loop_start: u32,
    pub loop_length: u32,
    pub info_offset: u32,
}

/// The sample directory: its samples in order.
#[derive(Debug)]
pub struct SdirFile {
    pub dsps: Vec<SdirFileDsp>,
}

/// The sound initialisation file: size and place of its three parts, and the
/// sample directory.
#[derive(Debug)]
pub struct SndInitRdg {
    pub proj_file_bytes: u32,
    pub proj_file_offset: u32,
    pub pool_file_bytes: u32,
    pub pool_file_offset: u32,
    pub sdir_file_bytes: u32,
    pub sdir_file_offset: u32,
    pub sdir_file: SdirFile,
}

/// What a sound initialisation file holds.
pub struct SndInitView {
    pub proj_file_bytes: u32,
    pub proj_file_offset: u32,
    pub pool_file_bytes: u32,
    pub pool_file_offset: u32,
    pub sdir_file_bytes: u32,
    pub sdir_file_offset: u32,
    pub dsps: Seq<SdirFileDsp>,
}

impl View for SndInitRdg {
    type V = SndInitView;

    open spec fn view(&self) -> SndInitView {
        SndInitView {
            proj_file_bytes: self.proj_file_bytes,
            proj_file_offset: self.proj_file_offset,
            pool_file_bytes: self.pool_file_bytes,
            pool_file_offset: self.pool_file_offset,
            sdir_file_bytes: self.sdir_file_bytes,
            sdir_file_offset: self.sdir_file_offset,
            dsps: self.sdir_file.dsps@,
        }
    }
}

impl Record for SdirFileDsp {
    open spec fn width() -> nat {
        32
    }

    /// The identifier and two unused bytes, the sample offset and four
    /// unused bytes, the base note and one unused byte, the sample rate, and
    /// four words.
    open spec fn encoding(self, little: bool) -> Seq<u8> {
        u16_bytes(self.id, little) + zeros(2) + u32_bytes(self.samp_offset, little) + zeros(4)
            + seq![self.base_note, 0u8] + u16_bytes(self.sample_rate, little) + u32_bytes(
            self.sample_count,
            little,
        ) + u32_bytes(self.loop_start, little) + u32_bytes(self.loop_length, little) + u32_bytes(
            self.info_offset,
            little,
        )
    }

    open spec fn decoding(bytes: Seq<u8>, little: bool) -> Self {
        SdirFileDsp {
            id: u16_of(bytes.subrange(0, 2), little),
            samp_offset: u32_of(bytes.subrange(4, 8), little),
            base_note: bytes[12],
            sample_rate: u16_of(bytes.subrange(14, 16), little),
            sample_count: u32_of(bytes.subrange(16, 20), little),
            loop_start: u32_of(bytes.subrange(20, 24), little),
            loop_length: u32_of(bytes.subrange(24, 28), little),
            info_offset: u32_of(bytes.subrange(28, 32), little),
        }
    }

    open spec fn exact(bytes: Seq<u8>, little: bool) -> bool {
        &&& bytes[2] == 0
        &&& bytes[3] == 0
        &&& bytes[8] == 0
        &&& bytes[9] == 0
        &&& bytes[10] == 0
        &&& bytes[11] == 0
        &&& bytes[13] == 0
    }

    proof fn lemma_width(self, little: bool) {
    }

    proof fn lemma_decode_encode(self, little: bool) {
        lemma_u16_round_trip(self.id, little);
        lemma_u32_round_trip(self.samp_offset, little);
        lemma_u16_round_trip(self.sample_rate, little);
        lemma_u32_round_trip(self.sample_count, little);
        lemma_u32_round_trip(self.loop_start, little);
        lemma_u32_round_trip(self.loop_length, little);
        lemma_u32_round_trip(self.info_offset, little);
        let bytes = self.encoding(little);
        assert(bytes.subrange(0, 2) =~= u16_bytes(self.id, little));
        assert(bytes.subrange(4, 8) =~= u32_bytes(self.samp_offset, little));
        assert(bytes.subrange(14, 16) =~= u16_bytes(self.sample_rate, little));
        assert(bytes.subrange(16, 20) =~= u32_bytes(self.sample_count, little));
        assert(bytes.subrange(20, 24) =~= u32_bytes(self.loop_start, little));
        assert(bytes.subrange(24, 28) =~= u32_bytes(self.loop_length, little));
        assert(bytes.subrange(28, 32) =~= u32_bytes(self.info_offset, little));
    }

    proof fn lemma_encode_decode(bytes: Seq<u8>, little: bool) {
        lemma_u16_bytes_of(bytes.subrange(0, 2), little);
        lemma_u32_bytes_of(bytes.subrange(4, 8), little);
        lemma_u16_bytes_of(bytes.subrange(14, 16), little);
        lemma_u32_bytes_of(bytes.subrange(16, 20), little);
        lemma_u32_bytes_of(bytes.subrange(20, 24), little);
        lemma_u32_bytes_of(bytes.subrange(24, 28), little);
        lemma_u32_bytes_of(bytes.subrange(28, 32), little);
        let again = Self::decoding(bytes, little).encoding(little);
        assert(again.len() == 32);
        assert(again[2] == 0 && again[3] == 0 && again[8] == 0 && again[9] == 0 && again[10] == 0
            && again[11] == 0 && again[13] == 0);
        if Self::exact(bytes, little) {
            assert(again =~= bytes);
        }
    }

    fn byte_len() -> (n: usize) {
        32
    }

    fn put(&self, out: &mut Vec<u8>, little: bool) {
        put_u16(out, self.id, little);
        put_zeros(out, 2);
        put_u32(out, self.samp_offset, little);
        put_zeros(out, 4);
        out.push(self.base_note);
        out.push(0u8);
        put_u16(out, self.sample_rate, little);
        put_u32(out, self.sample_count, little);
        put_u32(out, self.loop_start, little);
        put_u32(out, self.loop_length, little);
        put_u32(out, self.info_offset, little);
        assert(out@ =~= old(out)@ + self.encoding(little));
    }

    fn get(data: &[u8], pos: usize, little: bool) -> (record: Self) {
        let len: usize = data.len();
        let ghost bytes = data@.subrange(pos as int, pos + 32);
        proof {
            assert(bytes.subrange(0, 2) =~= data@.subrange(pos as int, pos + 2));
            assert(bytes.subrange(4, 8) =~= data@.subrange(pos + 4, pos + 8));
            assert(bytes.subrange(14, 16) =~= data@.subrange(pos + 14, pos + 16));
            assert(bytes.subrange(16, 20) =~= data@.subrange(pos + 16, pos + 20));
            assert(bytes.subrange(20, 24) =~= data@.subrange(pos + 20, pos + 24));
            assert(bytes.subrange(24, 28) =~= data@.subrange(pos + 24, pos + 28));
            assert(bytes.subrange(28, 32) =~= data@.subrange(pos + 28, pos + 32));
        }
        SdirFileDsp {
            id: get_u16(data, pos, little),
            samp_offset: get_u32(data, pos + 4, little),
            base_note: data[pos + 12],
            sample_rate: get_u16(data, pos + 14, little),
            sample_count: get_u32(data, pos + 16, little),
            loop_start: get_u32(data, pos + 20, little),
            loop_length: get_u32(data, pos + 24, little),
            info_offset: get_u32(data, pos + 28, little),
        }
    }
}

/// The number of samples in a sample directory of `size_bytes` bytes: each
/// sample takes 32 bytes in the directory and 40 bytes behind it, and four
/// bytes end the directory.
pub open spec fn dsp_count(size_bytes: u32) -> nat {
    ((size_bytes - 4) / 72) as nat
}

/// The samples of the sample directory of `size_bytes` bytes that starts at
/// `pos`. `Io` where the directory is shorter than its four closing bytes,
/// or where `bytes` ends before the last sample does.
pub open spec fn sdir_of(bytes: Seq<u8>, pos: nat, size_bytes: u32, little: bool) -> Result<
    Seq<SdirFileDsp>,
    MstError,
> {
    if size_bytes < 4 {
        Err(MstError::Io)
    } else if dsp_count(size_bytes) == 0 {
        Ok(Seq::empty())
    } else if pos + dsp_count(size_bytes) * 32 > bytes.len() {
        Err(MstError::Io)
    } else {
        Ok(
            decode_all::<SdirFileDsp>(
                bytes.subrange(pos as int, bytes.len() as int),
                dsp_count(size_bytes),
                little,
            ),
        )
    }
}

/// The sound initialisation file that `bytes` holds: six words, and the
/// sample directory at the offset and of the size that the last two of them
/// give. `Io` where `bytes` ends before the six words do, or where the
/// sample directory cannot be read.
pub open spec fn snd_init_of(bytes: Seq<u8>, little: bool) -> Result<SndInitView, MstError> {
    if bytes.len() < 24 {
        Err(MstError::Io)
    } else {
        let sdir_file_bytes = u32_of(bytes.subrange(16, 20), little);
        let sdir_file_offset = u32_of(bytes.subrange(20, 24), little);
        match sdir_of(bytes, sdir_file_offset as nat, sdir_file_bytes, little) {
            Err(error) => Err(error),
            Ok(dsps) => Ok(
                SndInitView {
                    proj_file_bytes: u32_of(bytes.subrange(0, 4), little),
                    proj_file_offset: u32_of(bytes.subrange(4, 8), little),
                    pool_file_bytes: u32_of(bytes.subrange(8, 12), little),
                    pool_file_offset: u32_of(bytes.subrange(12, 16), little),
                    sdir_file_bytes,
                    sdir_file_offset,
                    dsps,
                },
            ),
        }
    }
}

/// What a fallible sample directory holds.
pub open spec fn sdir_outcome(result: Result<SdirFile, MstError>) -> Result<
    Seq<SdirFileDsp>,
    MstError,
> {
    match result {
        Ok(file) => Ok(file.dsps@),
        Err(error) => Err(error),
    }
}

/// What a fallible sound initialisation file holds.
pub open spec fn snd_init_outcome(result: Result<SndInitRdg, MstError>) -> Result<
    SndInitView,
    MstError,
> {
    match result {
        Ok(file) => Ok(file@),
        Err(error) => Err(error),
    }
}

impl SdirFile {
    /// Reads the sample directory of `size_bytes` bytes that starts at `pos`.
    pub fn read(data: &[u8], pos: usize, size_bytes: u32, little: bool) -> (file: Result<
        SdirFile,
        MstError,
    >)
        ensures
            sdir_outcome(file) == sdir_of(data@, pos as nat, size_bytes, little),
    {
        if size_bytes < 4 {
            return Err(MstError::Io);
        }
        let count: usize = ((size_bytes - 4) / 72) as usize;
        if count == 0 {
            return Ok(SdirFile { dsps: Vec::new() });
        }
        if pos > data.len() {
            assert(pos + dsp_count(size_bytes) * 32 > data@.len());
            return Err(MstError::Io);
        }
        match get_all::<SdirFileDsp>(data, pos, count, little) {
            Ok((dsps, _end)) => Ok(SdirFile { dsps }),
            Err(error) => Err(error),
        }
    }
}

impl SndInitRdg {
    /// Reads a sound initialisation file.
    pub fn read(data: &[u8], little: bool) -> (file: Result<SndInitRdg, MstError>)
        ensures
            snd_init_outcome(file) == snd_init_of(data@, little),
    {
        if data.len() < 24 {
            return Err(MstError::Io);
        }
        let proj_file_bytes = get_u32(data, 0, little);
        let proj_file_offset = get_u32(data, 4, little);
        let pool_file_bytes = get_u32(data, 8, little);
        let pool_file_offset = get_u32(data, 12, little);
        let sdir_file_bytes = get_u32(data, 16, little);
        let sdir_file_offset = get_u32(data, 20, little);
        match SdirFile::read(data, sdir_file_offset as usize, sdir_file_bytes, little) {
            Ok(sdir_file) => Ok(
                SndInitRdg {
                    proj_file_bytes,
                    proj_file_offset,
                    pool_file_bytes,
                    pool_file_offset,
                    sdir_file_bytes,
                    sdir_file_offset,
                    sdir_file,
                },
            ),
            Err(error) => Err(error),
        }
    }
}

} // verus!
