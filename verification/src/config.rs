//! Configuration of the inference runtime, the content source and the
//! embedding stage, with their defaults and the validity rule the chunker
//! depends on.

use vstd::prelude::*;
use vstd::string::StringExecFns;
use crate::errors::{AppError, AppResult};

verus! {

/// Where the inference runtime listens and which model it serves.
#[derive(Debug, Clone)]
pub struct OllamaConfig {
    /// Host of the runtime's HTTP endpoint.
    pub host: String,
    /// Port of the runtime's HTTP endpoint.
    pub port: u16,
    /// The generation model to use.
    pub model_name: String,
    /// Where the runtime is installed, if known.
    pub installation_path: Option<String>,
}

impl Default for OllamaConfig {
    /// The local runtime on its usual port, with a small default model.
    fn default() -> (r: Self)
        ensures
            r.host@ == "127.0.0.1"@,
            r.port == 11434,
            r.model_name@ == "phi3:mini"@,
            r.installation_path is None,
    {
        OllamaConfig {
            host: "127.0.0.1".to_owned(),
            port: 11434,
            model_name: "phi3:mini".to_owned(),
            installation_path: None,
        }
    }
}

/// Where the wiki lives and how often it is re-crawled.
#[derive(Debug, Clone)]
pub struct WikiConfig {
    /// Base address of the content source.
    pub base_url: String,
    /// How many hours to wait between content updates.
    pub update_interval_hours: u64,
    /// When content was last updated, if ever.
    pub last_update: Option<String>,
}

impl Default for WikiConfig {
    /// The game's public wiki, updated daily.
    fn default() -> (r: Self)
        ensures
            r.base_url@ == "https://wiki.vintagestory.at"@,
            r.update_interval_hours == 24,
            r.last_update is None,
    {
        WikiConfig {
            base_url: "https://wiki.vintagestory.at".to_owned(),
            update_interval_hours: 24,
            last_update: None,
        }
    }
}

/// How content is chunked and embedded.
#[derive(Debug, Clone)]
pub struct EmbeddingConfig {
    /// The embedding model to ask the runtime for.
    pub model_name: String,
    /// Words per chunk.
    pub chunk_size: usize,
    /// Words shared between consecutive chunks.
    pub chunk_overlap: usize,
    /// Chunks embedded per batch.
    pub batch_size: usize,
}

impl EmbeddingConfig {
    /// The chunking invariant: windows must advance, so the overlap has to
    /// stay below the chunk size (and the chunk size above zero).
    pub open spec fn valid(self) -> bool {
        0 < self.chunk_size && self.chunk_overlap < self.chunk_size
    }

    /// Rejects a configuration whose windows would never advance; to be
    /// called at configuration time, before any chunking.
    pub fn validate(&self) -> (r: AppResult<()>)
        ensures
            r is Ok <==> self.valid(),
            r matches Err(e) ==> e is ConfigError,
    {
        if self.chunk_size == 0 {
            return Err(AppError::ConfigError("chunk size must be positive".to_owned()));
        }
        if self.chunk_overlap >= self.chunk_size {
            return Err(
                AppError::ConfigError("chunk overlap must be smaller than the chunk size".to_owned()),
            );
        }
        Ok(())
    }
}

impl Default for EmbeddingConfig {
    /// The default embedding model with 512-word chunks overlapping by 50.
    fn default() -> (r: Self)
        ensures
            r.model_name@ == "nomic-embed-text"@,
            r.chunk_size == 512,
            r.chunk_overlap == 50,
            r.batch_size == 10,
            r.valid(),
    {
        EmbeddingConfig {
            model_name: "nomic-embed-text".to_owned(),
            chunk_size: 512,
            chunk_overlap: 50,
            batch_size: 10,
        }
    }
}

} // verus!
