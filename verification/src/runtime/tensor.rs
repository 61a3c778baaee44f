//! Outputs of a model.

use vstd::prelude::*;

use crate::error::{fails, ErrorKind, VisionError};
use crate::ieee::Single;

verus! {

/// The elements of an output.
#[derive(Debug)]
pub enum TensorData {
    /// Single-precision values.
    F32(Vec<Single>),
    /// Elements of another type, by their number.
    Other(usize),
}

/// One output of a model.
#[derive(Debug)]
pub struct TensorOutput {
    pub name: String,
    pub shape: Vec<i64>,
    pub data: TensorData,
}

impl TensorOutput {
    /// Whether every dimension is a number of elements.
    pub open spec fn wf(self) -> bool {
        forall|i: int| 0 <= i < self.shape.len() ==> 0 <= #[trigger] self.shape[i] <= usize::MAX
    }

    /// A dimension as a number of elements.
    pub open spec fn dim(self, i: int) -> int {
        self.shape[i] as int
    }

    /// The single-precision values.
    pub open spec fn values(self) -> Seq<Single> {
        self.data->F32_0@
    }

    /// The number of elements.
    pub open spec fn count(self) -> int {
        match self.data {
            TensorData::F32(values) => values.len() as int,
            TensorData::Other(n) => n as int,
        }
    }

    /// The number of elements.
    pub fn element_count(&self) -> (n: usize)
        ensures
            n == self.count(),
    {
        match &self.data {
            TensorData::F32(values) => values.len(),
            TensorData::Other(n) => *n,
        }
    }

    /// The single-precision values.
    pub fn as_f32(&self) -> (r: Result<&Vec<Single>, VisionError>)
        ensures
            self.data is F32 ==> r is Ok && *r->Ok_0 == self.data->F32_0,
            !(self.data is F32) ==> fails(r, ErrorKind::Inference, "output tensor is not f32"@),
    {
        match &self.data {
            TensorData::F32(values) => Ok(values),
            TensorData::Other(_) => Err(VisionError::inference(String::from_str("output tensor is not f32"))),
        }
    }
}

} // verus!
