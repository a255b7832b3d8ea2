//! A SystemVerilog source pickler.
//!
//! The library ingests preprocessed SystemVerilog sources together with an
//! index of their top-level declarations (modules, interfaces, packages) and
//! of every reference that may denote such a declaration.  From these it
//! builds the inter-declaration dependency graph, supports reachability
//! pruning from a designated top, resolves missing names from a library map,
//! plans non-overlapping byte-range rewrites (renames, macro stripping,
//! timeunit stripping, `.*` port-wildcard expansion, exclusions), and emits a
//! single concatenated source stream, a source manifest, and a Graphviz
//! rendering of the graph.
//!
//! All texts are byte strings; every span is a byte range into the
//! preprocessed source of one file.

use vstd::prelude::*;

pub mod bytes;
pub mod doc;
pub mod edit;
pub mod graph;
pub mod laws;
pub mod pickle;
pub mod source;

verus! {

/// A byte range inside one source file.
#[derive(Clone, Copy, PartialEq, Eq, Structural, Debug)]
pub struct Span {
    /// Byte offset of the first byte of the range.
    pub offset: usize,
    /// Length of the range in bytes.
    pub len: usize,
}

impl Span {
    /// The first byte offset past the range.
    pub open spec fn end(self) -> int {
        self.offset + self.len
    }

    /// The range lies entirely within a buffer of length `n`.
    pub open spec fn within(self, n: int) -> bool {
        self.offset + self.len <= n
    }

    /// Two ranges share no byte.
    pub open spec fn disjoint(self, other: Span) -> bool {
        self.end() <= other.offset || other.end() <= self.offset
    }

    /// The range lies entirely inside `outer`.
    pub open spec fn inside(self, outer: Span) -> bool {
        outer.offset <= self.offset && self.end() <= outer.end()
    }

    pub fn new(offset: usize, len: usize) -> (s: Span)
        ensures
            s.offset == offset,
            s.len == len,
    {
        Span { offset, len }
    }
}

/// The fatal error kinds of the pickler.
///
/// Library misses and declaration/usage kind mismatches are not fatal; they
/// are reported through [`pickle::Pickle`] queries instead.
#[derive(PartialEq, Eq, Debug)]
pub enum PickleError {
    /// The same top-level name is declared twice in the live set.
    DuplicateDeclaration { name: Vec<u8> },
    /// Pruning was asked for a top that is not a graph node.
    TopNotFound { name: Vec<u8> },
    /// Topological emission could not make progress.
    Cycle,
    /// A planned rewrite would overlap another, or would cross the boundary
    /// of the emitted range.
    EditOverlap { file_id: usize },
    /// A `.*` wildcard names an instantiation target with no declaration.
    DotStarTargetUndeclared { name: Vec<u8> },
}

} // verus!
