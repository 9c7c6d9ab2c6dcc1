//! Operations on models.
use vstd::prelude::*;

verus! {

/// What `info` needs: the model to describe, and whether it is one for the
/// GameCube.
#[derive(Debug)]
pub struct InfoOpts {
    pub input_path: String,
    pub gamecube: bool,
}

/// An operation on a model.
#[derive(Debug)]
pub enum Command {
    /// Describe a model.
    Info(InfoOpts),
}

/// A model that is to be read and described, with its byte order.
#[derive(Debug)]
pub struct ApeRequest {
    pub input_path: String,
    pub little: bool,
}

impl Command {
    /// What is to be read for the operation, and in which byte order: a
    /// model for the GameCube is stored most significant byte first, every
    /// other one least significant byte first.
    pub fn process(self) -> (request: ApeRequest)
        ensures
            self matches Command::Info(opts) && request.input_path@ == opts.input_path@
                && request.little == !opts.gamecube,
    {
        match self {
            Command::Info(opts) => ApeRequest {
                input_path: opts.input_path,
                little: !opts.gamecube,
            },
        }
    }
}

} // verus!
