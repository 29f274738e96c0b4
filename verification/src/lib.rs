//! Markdown memories with front matter, semantic facts, conflict detection and
//! transactional updates.

pub mod text;
pub mod text_laws;
pub mod letter_laws;
pub mod numeral;
pub mod order;
pub mod order_laws;
pub mod path;
pub mod error;
pub mod digest;
pub mod clock;
pub mod clock_laws;
pub mod calendar_laws;
pub mod frontmatter;
pub mod frontmatter_laws;
pub mod reading_laws;

pub mod config;
pub mod workspace;
pub mod policy;
pub mod memory;
pub mod memory_laws;
pub mod adding_laws;
pub mod changing_laws;
pub mod keeping_laws;

pub mod directive;
pub mod semantic;
pub mod fact_laws;
pub mod stating_laws;
pub mod query_laws;
pub mod expiry;
pub mod expiry_laws;
pub mod ending_laws;
pub mod conflict;
pub mod conflict_laws;
pub mod deciding_laws;
pub mod detection_laws;
pub mod evidence_laws;
pub mod relation_laws;
pub mod acceptance;
pub mod conflict_cache;
pub mod resolution;

pub mod git;
pub mod git_laws;
pub mod remote_laws;
pub mod vault_laws;
pub mod transaction;
pub mod external_laws;
pub mod carrying_laws;
pub mod index;
pub mod indexing_laws;
pub mod search;
pub mod search_laws;
pub mod review;
pub mod review_laws;
pub mod doctor;

pub mod output;
pub mod report;
pub mod cli;
pub mod command;
pub mod picker;
pub mod finder;
pub mod finder_laws;
pub mod tui;
pub mod screen;
pub mod showing_laws;
