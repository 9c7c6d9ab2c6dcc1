//! The operations of the command-line tool, as functions from the bytes of
//! the files they read to what they print or write.
pub mod ape;
pub mod mst;
pub mod rdg;

use crate::error::MstError;
use crate::mst::builder::{file_views, FileView, SourceFile};
use crate::rdg::snd_init::{SndInitRdg, SndInitView};
use vstd::prelude::*;

verus! {

/// An operation on a file of one of the three kinds.
#[derive(Debug)]
pub enum FileTypeCommand {
    /// An operation on an archive.
    Mst { cmd: mst::Command },
    /// An operation on a model.
    Ape { cmd: ape::Command },
    /// An operation on sound data.
    Rdg { cmd: rdg::Command },
}

/// What an operation gives.
#[derive(Debug)]
pub enum FileTypeOutcome {
    /// What the operation on an archive gives.
    Mst(mst::Outcome),
    /// The model that is to be read and described.
    Ape(ape::ApeRequest),
    /// The sound initialisation file that was read.
    Rdg(SndInitRdg),
}

/// What an outcome holds.
pub enum FileTypeOutcomeView {
    Mst(mst::OutcomeView),
    Ape { input_path: Seq<char>, little: bool },
    Rdg(SndInitView),
}

impl View for FileTypeOutcome {
    type V = FileTypeOutcomeView;

    open spec fn view(&self) -> FileTypeOutcomeView {
        match *self {
            FileTypeOutcome::Mst(outcome) => FileTypeOutcomeView::Mst(outcome@),
            FileTypeOutcome::Ape(request) => FileTypeOutcomeView::Ape {
                input_path: request.input_path@,
                little: request.little,
            },
            FileTypeOutcome::Rdg(file) => FileTypeOutcomeView::Rdg(file@),
        }
    }
}

/// What a fallible outcome holds.
pub open spec fn outcome_view(result: Result<FileTypeOutcome, MstError>) -> Result<
    FileTypeOutcomeView,
    MstError,
> {
    match result {
        Ok(outcome) => Ok(outcome@),
        Err(error) => Err(error),
    }
}

impl FileTypeCommand {
    /// What the operation gives with the files `files`.
    pub open spec fn processed(self, files: Seq<FileView>) -> Result<FileTypeOutcomeView, MstError> {
        match self {
            FileTypeCommand::Mst { cmd } => match cmd.processed(files) {
                Ok(outcome) => Ok(FileTypeOutcomeView::Mst(outcome)),
                Err(error) => Err(error),
            },
            FileTypeCommand::Ape { cmd: ape::Command::Info(opts) } => Ok(
                FileTypeOutcomeView::Ape { input_path: opts.input_path@, little: !opts.gamecube },
            ),
            FileTypeCommand::Rdg { cmd: rdg::Command::Info(opts) } => match rdg::info_of(
                files,
                opts.input_dir@,
            ) {
                Ok(file) => Ok(FileTypeOutcomeView::Rdg(file)),
                Err(error) => Err(error),
            },
        }
    }

    /// Carries the operation out on the files `files` and gives what is to
    /// be printed, written or read next.
    pub fn process(self, files: &Vec<SourceFile>) -> (outcome: Result<FileTypeOutcome, MstError>)
        ensures
            outcome_view(outcome) == self.processed(file_views(files@)),
    {
        match self {
            FileTypeCommand::Mst { cmd } => match cmd.process(files) {
                Ok(outcome) => Ok(FileTypeOutcome::Mst(outcome)),
                Err(error) => Err(error),
            },
            FileTypeCommand::Ape { cmd } => Ok(FileTypeOutcome::Ape(cmd.process())),
            FileTypeCommand::Rdg { cmd } => match cmd.process(files) {
                Ok(file) => Ok(FileTypeOutcome::Rdg(file)),
                Err(error) => Err(error),
            },
        }
    }
}

} // verus!
