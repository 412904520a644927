//! A CLP-style log indexing and compression core.
//!
//! Log lines are tokenized, grouped by the structure of their token types,
//! decomposed into templates with constant and variable slots, and written
//! out as a dictionary, a template list, and per-template columns of term
//! ids that support exact-term search and full line reconstruction.

pub mod arena;
pub mod columns;
pub mod dict;
pub mod fastcmp;
pub mod hashes;
pub mod hashmap;
pub mod groups;
pub mod patterns;
pub mod postings;
pub mod prelim;
pub mod search;
pub mod sortutil;
pub mod strutil;
pub mod templates;
pub mod termmap;
pub mod tokenizer;
pub mod writer;

use vstd::prelude::*;

verus! {

/// A unique identifier for a template.
#[derive(Debug, Default, Clone, Copy, PartialEq, Eq, Structural, Hash)]
pub struct TemplateId(pub u32);

impl TemplateId {
    /// Wrap a raw template number.
    pub fn from_u32(id: u32) -> (r: TemplateId)
        ensures
            r.0 == id,
    {
        TemplateId(id)
    }
}

/// Why indexing can fail: a line longer than the positions a token can
/// address, or a term-id space close to running out.
#[derive(Debug, Clone, Copy, PartialEq, Eq, Structural)]
pub enum IndexError {
    /// A line was longer than `u32::MAX` bytes.
    LineTooLong,
    /// The `u32` term-id space is nearly exhausted.
    TermCapacity,
    /// An on-disk artifact did not decode.
    Corrupt,
}

/// A document in the index, containing a template ID and a list of term IDs.
#[derive(Debug, Clone, PartialEq, Eq)]
pub struct Doc {
    /// The ID of the template that this document matches.
    pub template_id: TemplateId,
    /// The list of term IDs that are present in this document.
    pub term_ids: Vec<u32>,
}

} // verus!
