//! Frames and the events that carry them.

use crate::media::Resolution;
use crate::time::Duration;
use std::sync::Arc;
use vstd::prelude::*;

verus! {

/// A picture to be shown at `pts`. The pixel data is shared, never copied.
#[derive(Debug)]
pub struct Frame<D> {
    pub data: Arc<D>,
    pub pts: Duration,
    pub resolution: Resolution,
}

impl<D> Frame<D> {
    /// Another handle on the same frame.
    pub fn share(&self) -> (r: Self)
        ensures
            r == *self,
    {
        Frame { data: Arc::clone(&self.data), pts: self.pts, resolution: self.resolution }
    }
}

/// Something that travels through the pipeline: data, or the end of the stream.
#[derive(Debug)]
pub enum PipelineEvent<T> {
    Data(T),
    EOS,
}

} // verus!
