//! Verified core of a workspace-scoped fact memory.

pub mod agent;
pub mod answer_laws;
pub mod args;
pub mod args_laws;
pub mod batches;
pub mod clause;
pub mod cli;
pub mod clock;
pub mod codec_laws;
pub mod command_laws;
pub mod context;
pub mod datalog;
pub mod default_laws;
pub mod defaults;
pub mod engine;
pub mod evidence;
pub mod explanation_laws;
pub mod extraction_laws;
pub mod grammar_laws;
pub mod memory_laws;
pub mod news;
pub mod number;
pub mod observation_laws;
pub mod order;
pub mod persistence;
pub mod place_laws;
pub mod policy_laws;
pub mod presentation;
pub mod presentation_laws;
pub mod program_join;
pub mod program_laws;
pub mod protocol;
pub mod query;
pub mod query_laws;
pub mod reading_laws;
pub mod record_laws;
pub mod report_laws;
pub mod row_laws;
pub mod rows;
pub mod rule_laws;
pub mod scope_laws;
pub mod search;
pub mod search_laws;
pub mod snapshot;
pub mod sorted;
pub mod store_laws;
pub mod support;
pub mod support_laws;
pub mod text;
pub mod text_laws;
pub mod update;
pub mod update_laws;
pub mod window_laws;
pub mod workspace;
