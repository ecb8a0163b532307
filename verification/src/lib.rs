pub mod analysis;
pub mod bindings;
pub mod features;
pub mod indexer;
pub mod paths;
pub mod report;
pub mod sea_parser;
pub mod symbol_table;
pub mod syntax;
pub mod text;
pub mod workspace;
