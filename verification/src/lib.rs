//! Fills `{{ name }}` placeholders in text templates.
//!
//! The heart of the crate is [`template`]: a tokenizer that splits a template
//! into literal text and placeholder names, reports malformed placeholders with
//! their byte offsets, and keeps scanning after an error so that one pass finds
//! every problem in a template. [`data`] reads the names and their values,
//! [`names`] holds them, and [`fill`] puts a template and the values together.
pub mod data;
pub mod fill;
pub mod names;
pub mod template;
pub mod text;
