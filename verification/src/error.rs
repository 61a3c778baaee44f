//! Errors.

use vstd::prelude::*;

verus! {

/// What an error is about.
#[derive(Debug, Clone, Copy, PartialEq, Eq, Structural)]
pub enum ErrorKind {
    /// A parameter is out of its range.
    InvalidArgument,
    /// An image cannot be processed.
    Image,
    /// A model gave an unexpected output.
    Inference,
    /// A file cannot be read.
    Io,
    /// A model file does not exist.
    ModelNotFound,
}

/// An error: what it is about and a message.
#[derive(Debug)]
pub struct VisionError {
    pub kind: ErrorKind,
    pub message: String,
}

impl VisionError {
    /// Whether this is an error of the given kind with the given message.
    pub open spec fn is(self, kind: ErrorKind, message: Seq<char>) -> bool {
        self.kind == kind && self.message@ == message
    }

    /// An error on a parameter.
    pub fn invalid_argument(message: String) -> (e: VisionError)
        ensures
            e.is(ErrorKind::InvalidArgument, message@),
    {
        VisionError { kind: ErrorKind::InvalidArgument, message }
    }

    /// An error on an image.
    pub fn image(message: String) -> (e: VisionError)
        ensures
            e.is(ErrorKind::Image, message@),
    {
        VisionError { kind: ErrorKind::Image, message }
    }

    /// An error on a model output.
    pub fn inference(message: String) -> (e: VisionError)
        ensures
            e.is(ErrorKind::Inference, message@),
    {
        VisionError { kind: ErrorKind::Inference, message }
    }

    /// An error on reading a file.
    pub fn io(message: String) -> (e: VisionError)
        ensures
            e.is(ErrorKind::Io, message@),
    {
        VisionError { kind: ErrorKind::Io, message }
    }

    /// An error on a missing model file.
    pub fn model_not_found(message: String) -> (e: VisionError)
        ensures
            e.is(ErrorKind::ModelNotFound, message@),
    {
        VisionError { kind: ErrorKind::ModelNotFound, message }
    }
}

/// Whether a result is an error of the given kind with the given message.
pub open spec fn fails<T>(r: Result<T, VisionError>, kind: ErrorKind, message: Seq<char>) -> bool {
    r is Err && r->Err_0.is(kind, message)
}

} // verus!
