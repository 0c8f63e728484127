//! What is kept of a run, to resume it later.
use vstd::prelude::*;
use vstd::utf8::encode_utf8;

use crate::digest;
use crate::digest::sha256_of;
use crate::models::{JobResult, StateFile, Timestamp};
use crate::numbers;
use crate::numbers::hex_str;
use crate::paths;
use crate::paths::ci_path_str;
use crate::string_map::{DeepClone, StringMap};
use crate::text::str_eq;

verus! {

/// The state if it belongs to the pipeline with the given hash.
pub open spec fn accepted(state: StateFile, pipeline_hash: Seq<char>) -> Option<StateFile> {
    if state.pipeline_hash@ == pipeline_hash {
        Some(state)
    } else {
        None
    }
}

/// Where the state of a run is kept.
#[derive(Debug, Clone)]
pub struct StateManager {
    pub base_dir: String,
}

impl StateManager {
    /// A manager that keeps the state under the given directory.
    pub fn new(base_dir: &str) -> (r: StateManager)
        ensures
            r.base_dir@ == base_dir@,
    {
        StateManager { base_dir: base_dir.to_owned() }
    }

    /// The file in which the state is kept.
    pub fn state_file_path(&self) -> (r: String)
        ensures
            r@ == paths::ci_path(self.base_dir@, "state.json"@),
    {
        ci_path_str(self.base_dir.as_str(), "state.json")
    }

    /// The hash by which a pipeline definition is known.
    pub fn compute_pipeline_hash(&self, pipeline_content: &str) -> (r: String)
        ensures
            r@ == numbers::hex(digest::sha256(encode_utf8(pipeline_content@))),
    {
        hex_str(sha256_of(pipeline_content.as_bytes()).as_slice())
    }

    /// The state if it belongs to the pipeline with the given hash.
    pub fn accept_state(&self, state: StateFile, pipeline_hash: &str) -> (r: Option<StateFile>)
        ensures
            r == accepted(state, pipeline_hash@),
    {
        if str_eq(state.pipeline_hash.as_str(), pipeline_hash) {
            Some(state)
        } else {
            None
        }
    }

    /// The state of a run at the given time.
    pub fn make_state(
        &self,
        pipeline_hash: &str,
        job_results: &StringMap<JobResult>,
        timestamp: Timestamp,
    ) -> (r: StateFile)
        ensures
            r.pipeline_hash@ == pipeline_hash@,
            r.job_results.deep_view() == job_results.deep_view(),
            r.timestamp == timestamp,
    {
        StateFile {
            pipeline_hash: pipeline_hash.to_owned(),
            job_results: job_results.deep_clone(),
            timestamp,
        }
    }
}

/// A run is resumed with the results that were kept of the same pipeline, and
/// with none of another.
pub proof fn lemma_resumes_same_pipeline(state: StateFile, kept_for: Seq<char>, asked_for: Seq<char>)
    requires
        state.pipeline_hash@ == kept_for,
    ensures
        kept_for == asked_for ==> accepted(state, asked_for) == Some(state),
        kept_for != asked_for ==> accepted(state, asked_for) is None,
{
}

} // verus!
