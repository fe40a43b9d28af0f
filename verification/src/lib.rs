//! Parser for DM database SQL log files.

pub mod assoc;
pub mod chars;
pub mod error;
pub mod filter;
pub mod matcher;
pub mod number;
pub mod parser;
pub mod parser_config;
pub mod realtime;
pub mod record;
pub mod record_types;
pub mod rounding;
pub mod scan;
pub mod sqllog;
pub mod text;
pub mod tools;
