pub mod text;
pub mod patterns;
pub mod paths;
pub mod opf;
pub mod archive;
pub mod ingestion;
pub mod seqs;
pub mod sorting;
pub mod db;
pub mod json;
pub mod covers;
pub mod sources;
pub mod usage;
pub mod queries;
pub mod replace;
pub mod config;
pub mod utils;
pub mod agent;
pub mod library;
pub mod markup;
pub mod spider;
pub mod encoding;
pub mod webdav;
pub mod sync;
pub mod imports;
pub mod choosing;
pub mod pictures;
pub mod records;
pub mod merge;
pub mod reader;
pub mod shelf;
pub mod finish;
pub mod device;
pub mod libraries;
pub mod files;
pub mod tasks;
pub mod importing;
pub mod editing;
pub mod details;
pub mod chatbot;
pub mod settings;
pub mod listing;
