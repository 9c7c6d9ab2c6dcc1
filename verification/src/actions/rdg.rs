//! Operations on sound data.
use crate::error::MstError;
use crate::mst::builder::{file_views, input, input_of, FileView, SourceFile};
use crate::rdg::snd_init::{snd_init_of, snd_init_outcome, SndInitRdg, SndInitView};
use vstd::prelude::*;

verus! {

/// What `info` needs: the directory that holds the sound data.
#[derive(Debug)]
pub struct InfoOpts {
    pub input_dir: String,
}

/// An operation on sound data.
#[derive(Debug)]
pub enum Command {
    /// Describe the sound initialisation file of a directory.
    Info(InfoOpts),
}

/// The name of the sound initialisation file in its directory.
pub fn snd_init_name() -> (name: &'static str)
    ensures
        name@ == "snd_init.rdg"@,
{
    "snd_init.rdg"
}

/// What describing the sound data of `dir` gives: the sound initialisation
/// file, whose bytes stand in `files` under the path of the directory, read
/// most significant byte first.
pub open spec fn info_of(files: Seq<FileView>, dir: Seq<char>) -> Result<SndInitView, MstError> {
    match input_of(files, dir) {
        Err(error) => Err(error),
        Ok(bytes) => snd_init_of(bytes, false),
    }
}

/// Reads the sound initialisation file of the directory `opts.input_dir`.
pub fn info_rdg(opts: &InfoOpts, files: &Vec<SourceFile>) -> (file: Result<SndInitRdg, MstError>)
    ensures
        snd_init_outcome(file) == info_of(file_views(files@), opts.input_dir@),
{
    match input(files, &opts.input_dir) {
        Ok(bytes) => SndInitRdg::read(bytes, false),
        Err(error) => Err(error),
    }
}

impl Command {
    /// Carries the operation out on the files `files`, which hold the bytes
    /// of the sound initialisation file under the path of its directory.
    pub fn process(self, files: &Vec<SourceFile>) -> (file: Result<SndInitRdg, MstError>)
        ensures
            self matches Command::Info(opts) && snd_init_outcome(file) == info_of(
                file_views(files@),
                opts.input_dir@,
            ),
    {
        match self {
            Command::Info(opts) => info_rdg(&opts, files),
        }
    }
}

} // verus!
