//! Token n-gram extraction for log files: per-line content extraction,
//! cross-line bigram / trigram accumulation, and shard-then-merge assembly.

pub mod builder;
pub mod extract;
pub mod invert;
pub mod ngram;
pub mod order;
pub mod pattern;
pub mod schema;
pub mod sharding;
pub mod tables;
pub mod template;
pub mod text;

pub use builder::{chunk_size, dictionary_builder, parse_lines, worker, worker_tokens};
pub use extract::{apply_domain_specific_re, token_splitter};
pub use invert::reverse_dict;
pub use ngram::{accumulate_line, process_dictionary_builder_line};
pub use pattern::{Pattern, PatternError};
pub use schema::{censored_regexps, format_string, redactor_patterns, regex_generator, LogFormat};
pub use tables::{FreqTable, TokenSet};
pub use template::regex_generator_helper;
