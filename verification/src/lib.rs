//! Planning, ordering and linting of SQL migration fragments.

pub mod assemble;
pub mod changes;
pub mod collect;
pub mod control;
pub mod error;
pub mod fragment;
pub mod info;
pub mod lexer;
pub mod lint;
pub mod number;
pub mod order;
pub mod path;
pub mod pattern;
pub mod report;
pub mod semantic;
pub mod statement;
pub mod text;
pub mod unreleased;
pub mod version;
