//! What stands at an offset of a file that need not parse.
//!
//! A file being typed is never finished, so the features that answer while it is
//! being typed go by a tolerant reading of the text around the cursor rather
//! than by a tree.

use vstd::prelude::*;
use vstd::string::*;

use crate::text::{self, length};
use crate::tree::{self, innermost_at, Tag};

verus! {

/// What an offset is in.
#[derive(Debug)]
pub enum Context {
    /// Luau outside any LuauX.
    Luau,
    /// A captured expression.
    Expression,
    /// The name of an element, as far as it has been typed.
    TagName { start: usize, prefix: String, closing: bool },
    /// The name of an attribute of an element, as far as it has been typed.
    AttributeName { tag: String, start: usize, prefix: String },
    /// The value of an attribute.
    AttributeValue,
    /// Text between tags.
    Text,
}

/// An element that is open at an offset.
#[derive(Debug)]
pub struct Open {
    pub name: String,
}

/// What an offset is in, and what is open there, outermost first.
#[derive(Debug)]
pub struct Scan {
    pub context: Context,
    pub open: Vec<Open>,
}

impl Context {
    /// Whether what has been typed of a name really stands where it says.
    pub open spec fn fits(self, source: Seq<char>) -> bool {
        match self {
            Context::TagName { start, prefix, .. } => stands(source, start, prefix@),
            Context::AttributeName { start, prefix, .. } => stands(source, start, prefix@),
            _ => true,
        }
    }

    /// Whether this is verbatim Luau, which belongs to luau-lsp.
    pub open spec fn is_luau(self) -> bool {
        self is Luau || self is Expression
    }

    pub fn forwards(&self) -> (r: bool)
        ensures
            r == self.is_luau(),
    {
        matches!(self, Context::Luau | Context::Expression)
    }
}

/// Whether a text stands at an offset of a file.
pub open spec fn stands(source: Seq<char>, start: usize, prefix: Seq<char>) -> bool {
    &&& text::cuttable(source, start as int, start + text::bytes(prefix).len())
    &&& text::cut(source, start as int, start + text::bytes(prefix).len()) == prefix
}

/// Where a text that stands at an offset ends.
pub fn end_of(source: &str, start: usize, prefix: &str) -> (r: usize)
    requires
        stands(source@, start, prefix@),
    ensures
        r == start + text::bytes(prefix@).len(),
        text::cuttable(source@, start as int, r as int),
        text::cuttable(source@, r as int, text::bytes(source@).len() as int),
{
    let whole: usize = length(source);
    proof {
        text::lemma_boundary_ends(source@);
        assert(start + text::bytes(prefix@).len() <= whole);
    }
    start + length(prefix)
}

/// What an offset of a file that parses is in, as far as its elements tell: the
/// tag of the innermost one around it, or Luau.
pub fn around(tags: &[Tag], offset: usize) -> (r: Context)
    ensures
        match tree::last_holding(tree::flat(tags@), offset) {
            Some(found) if found.name@.len() > 0 => r matches Context::AttributeName {
                tag,
                start,
                prefix,
            } && tag@ == found.name@ && start == offset && prefix@.len() == 0,
            _ => r is Luau,
        },
{
    match innermost_at(tags, offset) {
        Some(tag) => if tag.name.as_str().is_empty() {
            Context::Luau
        } else {
            Context::AttributeName { tag: tag.name.clone(), start: offset, prefix: String::new() }
        },
        None => Context::Luau,
    }
}

} // verus!
