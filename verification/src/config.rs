//! Configuration of the tool (`.rustrag.toml` at the workspace root).
//!
//! Reading the file is the caller's part; this module holds the settings,
//! their defaults and their validation.
use vstd::prelude::*;
use crate::text::{concat3, decimal, decimal_string};

verus! {

/// Default time-to-live of semantic cache entries, in seconds.
pub const DEFAULT_TTL_SECS: u64 = 3600;

/// Largest accepted chunk overlap, in lines.
pub const MAX_CHUNK_OVERLAP: usize = 100;

/// Top-level configuration.
#[derive(Debug)]
pub struct Config {
    /// Embedding model and chunking settings.
    pub embedding: EmbeddingConfig,
    /// LLM endpoint and model name settings.
    pub llm: LlmConfig,
    /// Semantic cache configuration for caching LLM answers.
    pub semantic_cache: SemanticCacheConfig,
}

/// Configuration for the embedding model pipeline.
#[derive(Debug)]
pub struct EmbeddingConfig {
    /// Path to the ONNX model directory (overrides env/config lookup).
    pub model_path: Option<String>,
    /// Number of adjacent lines to include before and after each chunk.
    pub chunk_overlap: usize,
}

/// Configuration for LLM endpoint access.
#[derive(Debug)]
pub struct LlmConfig {
    /// Base URL of the LLM API endpoint.
    pub endpoint: Option<String>,
    /// Model name to use when querying the LLM endpoint.
    pub model: Option<String>,
    /// Number of retrieved chunks handed to the LLM.
    pub top_k: usize,
    /// Maximum size in bytes of the assembled context sent to the LLM.
    pub max_context_size: Option<usize>,
}

/// Configuration for semantic caching of LLM answers.
#[derive(Debug)]
pub struct SemanticCacheConfig {
    /// Enable semantic caching of LLM answers.
    pub enabled: bool,
    /// Time-to-live in seconds for cached entries.
    pub ttl_secs: u64,
}

/// The validation error of an embedding configuration, if any.
pub open spec fn embedding_error(c: EmbeddingConfig) -> Option<Seq<char>> {
    if c.chunk_overlap > MAX_CHUNK_OVERLAP {
        Some("chunk_overlap ("@ + decimal(c.chunk_overlap as nat) + ") is too large (maximum 100)"@)
    } else {
        None
    }
}

/// The validation error of an LLM configuration, if any.
pub open spec fn llm_error(c: LlmConfig) -> Option<Seq<char>> {
    if c.top_k == 0 {
        Some("top_k must be greater than 0"@)
    } else if c.max_context_size == Some(0usize) {
        Some("max_context_size must be greater than 0 if set"@)
    } else {
        None
    }
}

/// The validation error of a semantic cache configuration, if any.
pub open spec fn cache_error(c: SemanticCacheConfig) -> Option<Seq<char>> {
    if c.ttl_secs == 0 {
        Some("ttl_secs must be greater than 0"@)
    } else {
        None
    }
}

/// The first validation error of a configuration, section by section.
pub open spec fn config_error(c: Config) -> Option<Seq<char>> {
    if embedding_error(c.embedding) is Some {
        embedding_error(c.embedding)
    } else if llm_error(c.llm) is Some {
        llm_error(c.llm)
    } else {
        cache_error(c.semantic_cache)
    }
}

/// A configuration is accepted exactly when its chunk overlap is at most
/// 100 lines, its `top_k` is positive, its context size, when set, is
/// positive, and its cache time-to-live is positive.
pub proof fn lemma_config_accepted_iff(c: Config)
    ensures
        config_error(c) is None <==> {
            &&& c.embedding.chunk_overlap <= 100
            &&& c.llm.top_k > 0
            &&& c.llm.max_context_size != Some(0usize)
            &&& c.semantic_cache.ttl_secs > 0
        },
{
}

/// `res` reports exactly the error `err` (or success when there is none).
pub open spec fn reports(res: Result<(), String>, err: Option<Seq<char>>) -> bool {
    match res {
        Ok(_) => err is None,
        Err(m) => err == Some(m@),
    }
}

/// Default number of retrieved chunks when the setting is omitted.
pub fn default_top_k() -> (n: usize)
    ensures
        n == 5,
{
    5
}

/// Default time-to-live of cache entries when the setting is omitted.
pub fn default_cache_ttl() -> (n: u64)
    ensures
        n == DEFAULT_TTL_SECS,
{
    3600
}

impl EmbeddingConfig {
    /// Validate the configuration values: the overlap is at most 100 lines.
    pub fn validate(&self) -> (res: Result<(), String>)
        ensures
            reports(res, embedding_error(*self)),
    {
        if self.chunk_overlap > MAX_CHUNK_OVERLAP {
            let n = decimal_string(self.chunk_overlap);
            return Err(concat3("chunk_overlap (", n.as_str(), ") is too large (maximum 100)"));
        }
        Ok(())
    }
}

impl LlmConfig {
    /// Validate the configuration values: `top_k` is positive and a set
    /// context size is positive.
    pub fn validate(&self) -> (res: Result<(), String>)
        ensures
            reports(res, llm_error(*self)),
    {
        if self.top_k == 0 {
            return Err("top_k must be greater than 0".to_owned());
        }
        if let Some(size) = self.max_context_size {
            if size == 0 {
                return Err("max_context_size must be greater than 0 if set".to_owned());
            }
        }
        Ok(())
    }
}

impl SemanticCacheConfig {
    /// Validate the configuration values: the time-to-live is positive.
    pub fn validate(&self) -> (res: Result<(), String>)
        ensures
            reports(res, cache_error(*self)),
    {
        if self.ttl_secs == 0 {
            return Err("ttl_secs must be greater than 0".to_owned());
        }
        Ok(())
    }
}

impl Default for EmbeddingConfig {
    fn default() -> (c: Self)
        ensures
            c.model_path is None,
            c.chunk_overlap == 0,
    {
        EmbeddingConfig { model_path: None, chunk_overlap: 0 }
    }
}

impl Default for LlmConfig {
    /// No endpoint, model or context size; the documented five results.
    fn default() -> (c: Self)
        ensures
            c.endpoint is None,
            c.model is None,
            c.top_k == 5,
            c.max_context_size is None,
    {
        LlmConfig { endpoint: None, model: None, top_k: default_top_k(), max_context_size: None }
    }
}

impl Default for SemanticCacheConfig {
    fn default() -> (c: Self)
        ensures
            !c.enabled,
            c.ttl_secs == DEFAULT_TTL_SECS,
    {
        SemanticCacheConfig { enabled: false, ttl_secs: default_cache_ttl() }
    }
}

impl Default for Config {
    fn default() -> (c: Self)
        ensures
            c.embedding.model_path is None,
            c.embedding.chunk_overlap == 0,
            c.llm.endpoint is None,
            c.llm.model is None,
            c.llm.top_k == 5,
            c.llm.max_context_size is None,
            !c.semantic_cache.enabled,
            c.semantic_cache.ttl_secs == DEFAULT_TTL_SECS,
    {
        Config {
            embedding: EmbeddingConfig::default(),
            llm: LlmConfig::default(),
            semantic_cache: SemanticCacheConfig::default(),
        }
    }
}

impl Config {
    /// The embedding configuration.
    pub fn embedding_config(&self) -> (res: &EmbeddingConfig)
        ensures
            *res == self.embedding,
    {
        &self.embedding
    }

    /// The LLM configuration.
    pub fn llm_config(&self) -> (res: &LlmConfig)
        ensures
            *res == self.llm,
    {
        &self.llm
    }

    /// The semantic cache configuration.
    pub fn semantic_cache_config(&self) -> (res: &SemanticCacheConfig)
        ensures
            *res == self.semantic_cache,
    {
        &self.semantic_cache
    }

    /// Validate all sections, reporting the first error found (embedding,
    /// then LLM, then semantic cache).
    pub fn validate(&self) -> (res: Result<(), String>)
        ensures
            reports(res, config_error(*self)),
    {
        self.embedding.validate()?;
        self.llm.validate()?;
        self.semantic_cache.validate()?;
        Ok(())
    }
}

/// A setting's value: the environment variable's when it is set, else the
/// configuration file's, else the default.
pub open spec fn setting_of(env: Option<Seq<char>>, file: Option<Seq<char>>, default: Seq<char>) -> Seq<char> {
    match env {
        Some(e) => e,
        None => match file {
            Some(f) => f,
            None => default,
        },
    }
}

/// An optional string as an optional character sequence.
pub open spec fn opt_text(s: Option<String>) -> Option<Seq<char>> {
    match s {
        Some(x) => Some(x@),
        None => None,
    }
}

/// Resolves a setting (see [`setting_of`]): environment variables take
/// precedence over the configuration file.
pub fn resolve_setting(env: Option<String>, file: Option<String>, default: &str) -> (r: String)
    ensures
        r@ == setting_of(opt_text(env), opt_text(file), default@),
{
    match env {
        Some(e) => e,
        None => match file {
            Some(f) => f,
            None => default.to_owned(),
        },
    }
}

/// The context size used when none is configured (bytes).
pub const DEFAULT_MAX_CONTEXT_SIZE: usize = 12_000;

/// The context size in force: the environment's when it names one, else the
/// configuration file's, where 0 or no value means the default.
pub open spec fn context_size_of(env: Option<usize>, file: Option<Option<usize>>) -> usize {
    match env {
        Some(n) => n,
        None => match file {
            Some(Some(n)) => if n == 0 { DEFAULT_MAX_CONTEXT_SIZE } else { n },
            _ => DEFAULT_MAX_CONTEXT_SIZE,
        },
    }
}

/// A context size taken from the environment is used as given; otherwise
/// the configured size is used when it is positive, and the default
/// otherwise, so that only the environment can give 0.
pub proof fn lemma_context_size_sources(env: Option<usize>, file: Option<Option<usize>>)
    ensures
        env matches Some(n) ==> context_size_of(env, file) == n,
        env is None ==> context_size_of(env, file) > 0,
        forall|n: usize| env is None && file == Some(Some(n)) && n > 0 ==> context_size_of(env, file) == n,
{
}

/// Resolves the context size (see [`context_size_of`]): `env` is the
/// environment's value when it parses, `file` the configuration's
/// `max_context_size` when a configuration was found.
pub fn resolve_context_size(env: Option<usize>, file: Option<Option<usize>>) -> (n: usize)
    ensures
        n == context_size_of(env, file),
{
    match env {
        Some(n) => n,
        None => match file {
            Some(Some(n)) => if n == 0 { DEFAULT_MAX_CONTEXT_SIZE } else { n },
            _ => DEFAULT_MAX_CONTEXT_SIZE,
        },
    }
}

} // verus!
