//! The failure taxonomy of the pipeline.

use vstd::prelude::*;

verus! {

/// Every way a pipeline operation can fail. Bulk operations that tolerate
/// per-file failures report counts instead; these variants are the fatal
/// outcomes surfaced to the caller.
#[derive(Debug, PartialEq, Eq)]
pub enum PipelineError {
    /// The root handed to an operation does not exist.
    PathNotFound,
    /// The destination package already exists and overwriting was not allowed.
    AlreadyExists,
    /// The destination to remove does not exist.
    NotFound,
    /// The metadata document could not be parsed or re-serialized.
    MetadataMalformed,
    /// The external extractor failed; carries its captured standard error.
    SubprocessFailed(String),
    /// A filesystem operation failed; carries a description of the cause.
    IoFailure(String),
}

impl PipelineError {
    /// The human-readable message for this error.
    pub open spec fn spec_message(&self) -> Seq<char> {
        match self {
            PipelineError::PathNotFound => "path does not exist"@,
            PipelineError::AlreadyExists => "destination already exists; enable overwrite to replace it"@,
            PipelineError::NotFound => "destination does not exist"@,
            PipelineError::MetadataMalformed => "project metadata is malformed"@,
            PipelineError::SubprocessFailed(stderr) => "extractor failed: "@ + stderr@,
            PipelineError::IoFailure(cause) => "filesystem operation failed: "@ + cause@,
        }
    }

    /// Render the error as a message string.
    pub fn message(&self) -> (r: String)
        ensures
            r@ == self.spec_message(),
    {
        match self {
            PipelineError::PathNotFound => "path does not exist".to_owned(),
            PipelineError::AlreadyExists => "destination already exists; enable overwrite to replace it".to_owned(),
            PipelineError::NotFound => "destination does not exist".to_owned(),
            PipelineError::MetadataMalformed => "project metadata is malformed".to_owned(),
            PipelineError::SubprocessFailed(stderr) => {
                let mut m = "extractor failed: ".to_owned();
                m.append(stderr.as_str());
                m
            },
            PipelineError::IoFailure(cause) => {
                let mut m = "filesystem operation failed: ".to_owned();
                m.append(cause.as_str());
                m
            },
        }
    }
}

} // verus!
