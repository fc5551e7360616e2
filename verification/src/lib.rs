//! Parser library for Zapret-Info CSV registry dumps.
//!
//! A dump is a windows-1251-encoded text document: a header line
//! carrying the publication timestamp, then semicolon-delimited rows
//! of six fields each. The library decodes the bytes, tokenizes the
//! rows honoring quoting, classifies the multi-valued address fields
//! into typed [`types::Address`] variants, and assembles the rows into
//! a [`types::List`], either eagerly through [`reader::load_records`]
//! or one record at a time through [`reader::Records`].
//!
//! Module map: [`tokenizer`] splits bytes into lines and fields;
//! [`decode`] turns field bytes into text; [`text`] trims and splits
//! token lists; [`classify`] types the address tokens; [`datetime`]
//! parses dates and normalizes the header instant to UTC; [`order`]
//! and [`addresses`] keep each record's address set sorted and
//! duplicate-free; [`reader`] assembles records and the list.

pub mod addresses;
pub mod classify;
pub mod datetime;
pub mod decode;
pub mod order;
pub mod reader;
pub mod text;
pub mod tokenizer;
pub mod types;
