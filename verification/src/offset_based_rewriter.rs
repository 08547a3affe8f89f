//! Rewriting a text by byte offsets.
use crate::splice::Session;
use crate::utf8::{byte_offset, index_at, is_boundary};
use vstd::prelude::*;

pub mod impls;

use impls::LazyRewriter;

verus! {

/// A rewriter that takes the ranges to replace as byte offsets into the
/// original text, from left to right.
pub trait Interface: Sized {
    /// The session that the rewriter is in.
    spec fn session(&self) -> Session;

    /// The rewriter's invariant.
    spec fn wf(&self) -> bool;

    /// Whether the rewriter has room for `replacement`.
    spec fn fits(&self, replacement: Seq<char>) -> bool;

    /// The whole rewritten text.
    fn contents(self) -> (contents: String)
        requires
            self.wf(),
        ensures
            contents@ == self.session().contents(),
    ;

    /// Replaces the bytes `start..end` of the original text by `replacement`
    /// and returns the text that they held.
    fn rewrite(&mut self, start: usize, end: usize, replacement: &str) -> (replaced: String)
        requires
            old(self).wf(),
            old(self).fits(replacement@),
            is_boundary(old(self).session().original, start as int),
            is_boundary(old(self).session().original, end as int),
            byte_offset(old(self).session().original, old(self).session().consumed) <= start <= end,
        ensures
            final(self).wf(),
            final(self).session() == old(self).session().rewrite(
                index_at(old(self).session().original, start as int),
                index_at(old(self).session().original, end as int),
                replacement@,
            ),
            replaced@ == old(self).session().replaced(
                index_at(old(self).session().original, start as int),
                index_at(old(self).session().original, end as int),
            ),
    ;
}

/// The rewriter that the library uses: it appends to its output and never
/// goes back.
#[derive(Debug)]
pub struct OffsetBasedRewriter<'original> {
    lazy: LazyRewriter<'original>,
}

impl<'original> OffsetBasedRewriter<'original> {
    /// A rewriter of `original` that has replaced nothing yet.
    pub fn new(original: &'original str) -> (rewriter: Self)
        ensures
            rewriter.wf(),
            rewriter.session() == Session::new(original@),
    {
        Self { lazy: LazyRewriter::new(original) }
    }
}

impl Interface for OffsetBasedRewriter<'_> {
    closed spec fn session(&self) -> Session {
        self.lazy.session()
    }

    closed spec fn wf(&self) -> bool {
        self.lazy.wf()
    }

    open spec fn fits(&self, replacement: Seq<char>) -> bool {
        true
    }

    fn contents(self) -> String {
        self.lazy.contents()
    }

    fn rewrite(&mut self, start: usize, end: usize, replacement: &str) -> String {
        self.lazy.rewrite(start, end, replacement)
    }
}

} // verus!
