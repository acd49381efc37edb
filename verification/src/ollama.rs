//! Data describing the local inference runtime, and the decisions the
//! manager of that runtime makes over plain values.  Talking to the runtime
//! itself — HTTP, process control — is the surrounding application's work.

use vstd::prelude::*;
use vstd::string::StrSliceExecFns;
use vstd::string::StringExecFns;
use crate::chars::{starts_with_spec, starts_with_str};
use crate::errors::{AppError, AppResult};

verus! {

/// A model the runtime has available.
#[derive(Debug, Clone)]
pub struct ModelInfo {
    /// Full model name, possibly with a tag.
    pub name: String,
    /// Size on disk in bytes.
    pub size: u64,
    /// Content digest of the model.
    pub digest: String,
    /// Details of the model build.
    pub details: ModelDetails,
}

/// Details of a model build.
#[derive(Debug, Clone)]
pub struct ModelDetails {
    /// Number of parameters, as reported.
    pub parameter_size: String,
    /// Quantization level, as reported.
    pub quantization_level: String,
    /// Model family.
    pub family: String,
}

/// A snapshot of the runtime's state.
#[derive(Debug, Clone)]
pub struct OllamaStatus {
    /// Whether the runtime answers health checks.
    pub is_running: bool,
    /// Whether the runtime executable was found.
    pub is_installed: bool,
    /// The runtime's reported version, when running.
    pub version: Option<String>,
    /// The models it has available, when running.
    pub models: Vec<ModelInfo>,
}

/// A snapshot of the host environment.
#[derive(Debug, Clone)]
pub struct SystemStatus {
    /// The application's version string.
    pub app_version: String,
    /// Where application data is kept.
    pub data_directory: String,
    /// Free disk space in bytes, where known.
    pub disk_space_available: u64,
    /// Memory in use in bytes, where known.
    pub memory_usage: u64,
}

/// Whether some available model's name begins with the configured model
/// name — the test deciding whether a download is needed.
pub fn model_available(models: &Vec<ModelInfo>, name: &str) -> (r: bool)
    ensures
        r == exists|i: int|
            0 <= i < models@.len() && starts_with_spec((#[trigger] models@[i]).name@, name@),
{
    let mut i: usize = 0;
    while i < models.len()
        invariant
            i <= models@.len(),
            forall|t: int|
                0 <= t < i ==> !starts_with_spec((#[trigger] models@[t]).name@, name@),
        decreases models@.len() - i,
    {
        if starts_with_str(models[i].name.as_str(), name) {
            return true;
        }
        i = i + 1;
    }
    false
}


/// Decides what a generation reply means: a reported error is surfaced, a
/// missing or empty `response` field is a failure, anything else is the
/// generated text.
pub fn interpret_generation(
    response_field: Option<String>,
    error_field: Option<String>,
) -> (r: AppResult<String>)
    ensures
        error_field matches Some(e) ==> r matches Err(err) && err is OllamaError,
        error_field is None ==> match response_field {
            Some(text) => if text@.len() == 0 {
                r matches Err(err) && err is OllamaError
            } else {
                r matches Ok(t) && t@ == text@
            },
            None => r matches Err(err) && err is OllamaError,
        },
{
    if let Some(e) = error_field {
        let mut msg = "runtime returned an error: ".to_owned();
        msg.append(e.as_str());
        return Err(AppError::OllamaError(msg));
    }
    match response_field {
        Some(text) => {
            if text.as_str().unicode_len() == 0 {
                Err(AppError::OllamaError("runtime returned an empty response".to_owned()))
            } else {
                Ok(text)
            }
        },
        None => Err(AppError::OllamaError("runtime returned no response text".to_owned())),
    }
}

} // verus!
