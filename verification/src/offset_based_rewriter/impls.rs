use super::Interface;
use crate::splice::Session;
use crate::utf8::{
    byte_offset, index_at, is_boundary, lemma_byte_offset_ends, lemma_byte_offset_increases,
    lemma_byte_slice, lemma_bytes_between, lemma_common_tail, lemma_encode_concat,
    lemma_index_at, lemma_index_at_offset, substring,
};
use vstd::prelude::*;
use vstd::string::StringExecFns;
use vstd::utf8::*;

verus! {

/// Writes the rewritten text piece by piece: for each replacement the
/// untouched text before it, then the replacement.
#[derive(Debug)]
pub struct LazyRewriter<'original> {
    original: &'original str,
    rewritten: String,
    offset: usize,
}

/// Keeps the whole text as it stands after the replacements made so far, and
/// replaces inside it. Offsets into the original text are moved by `delta`,
/// the number of bytes by which the replacements have made the text longer.
pub struct EagerRewriter {
    rewritten: String,
    delta: isize,
    /// The text as it was before any replacement.
    original: Ghost<Seq<char>>,
    /// Number of characters of `original` that are used up.
    consumed: Ghost<int>,
}

impl<'original> LazyRewriter<'original> {
    /// A rewriter of `original` that has replaced nothing yet.
    pub fn new(original: &'original str) -> (rewriter: Self)
        ensures
            rewriter.wf(),
            rewriter.session() == Session::new(original@),
    {
        proof {
            lemma_byte_offset_ends(original@);
            lemma_index_at_offset(original@, 0);
        }
        Self { original, rewritten: String::new(), offset: 0 }
    }
}

impl EagerRewriter {
    /// A rewriter of `original` that has replaced nothing yet.
    pub fn new(original: &str) -> (rewriter: Self)
        ensures
            rewriter.wf(),
            rewriter.session() == Session::new(original@),
    {
        proof {
            lemma_byte_offset_ends(original@);
            assert(original@.take(0) =~= Seq::<char>::empty());
        }
        Self {
            rewritten: original.to_owned(),
            delta: 0,
            original: Ghost(original@),
            consumed: Ghost(0),
        }
    }

    /// Number of characters of the rewritten text that the replacements made
    /// so far have settled.
    closed spec fn produced(&self) -> int {
        self.rewritten@.len() - (self.original@.len() - self.consumed@)
    }
}

impl Interface for LazyRewriter<'_> {
    closed spec fn session(&self) -> Session {
        Session {
            original: self.original@,
            rewritten: self.rewritten@,
            consumed: index_at(self.original@, self.offset as int),
        }
    }

    closed spec fn wf(&self) -> bool {
        is_boundary(self.original@, self.offset as int)
    }

    open spec fn fits(&self, replacement: Seq<char>) -> bool {
        true
    }

    fn contents(self) -> String {
        let mut rewritten = self.rewritten;
        let len = self.original.as_bytes().len();
        proof {
            lemma_index_at(self.original@, self.offset as int);
            lemma_byte_offset_ends(self.original@);
            lemma_index_at_offset(self.original@, self.original@.len() as int);
            lemma_byte_slice(self.original@, self.offset as int, len as int);
            assert(self.original@.skip(index_at(self.original@, self.offset as int))
                =~= self.original@.subrange(
                index_at(self.original@, self.offset as int),
                self.original@.len() as int,
            ));
        }
        rewritten.append(substring(self.original, self.offset, len));
        rewritten
    }

    fn rewrite(&mut self, start: usize, end: usize, replacement: &str) -> String {
        proof {
            lemma_index_at(self.original@, self.offset as int);
            lemma_byte_slice(self.original@, self.offset as int, start as int);
            lemma_byte_slice(self.original@, start as int, end as int);
        }
        self.rewritten.append(substring(self.original, self.offset, start));
        self.rewritten.append(replacement);

        self.offset = end;

        String::from_str(substring(self.original, start, end))
    }
}

impl Interface for EagerRewriter {
    closed spec fn session(&self) -> Session {
        Session {
            original: self.original@,
            rewritten: self.rewritten@.take(self.produced()),
            consumed: self.consumed@,
        }
    }

    closed spec fn wf(&self) -> bool {
        &&& 0 <= self.consumed@ <= self.original@.len()
        &&& 0 <= self.produced()
        &&& self.rewritten@.skip(self.produced()) == self.original@.skip(self.consumed@)
        &&& self.delta == byte_offset(self.rewritten@, self.produced()) - byte_offset(
            self.original@,
            self.consumed@,
        )
    }

    /// The moved offsets and the new text fit the signed `delta`.
    open spec fn fits(&self, replacement: Seq<char>) -> bool {
        &&& encode_utf8(self.session().original).len() <= isize::MAX
        &&& encode_utf8(self.session().contents()).len() + encode_utf8(replacement).len()
            <= isize::MAX
    }

    fn contents(self) -> String {
        proof {
            assert(self.rewritten@ =~= self.rewritten@.take(self.produced())
                + self.rewritten@.skip(self.produced()));
        }
        self.rewritten
    }

    fn rewrite(&mut self, start: usize, end: usize, replacement: &str) -> String {
        let ghost original = self.original@;
        let ghost rewritten = self.rewritten@;
        let ghost consumed = self.consumed@;
        let ghost produced = self.produced();
        let ghost i = index_at(original, start as int);
        let ghost j = index_at(original, end as int);
        let ghost from = produced + (i - consumed);
        let ghost to = produced + (j - consumed);
        proof {
            lemma_index_at(original, start as int);
            lemma_index_at(original, end as int);
            if i < consumed {
                lemma_byte_offset_increases(original, i, consumed);
            }
            if j < i {
                lemma_byte_offset_increases(original, j, i);
            }
            assert(rewritten.skip(produced).len() == original.skip(consumed).len());
            lemma_common_tail(rewritten, produced, original, consumed, i - consumed);
            lemma_common_tail(rewritten, produced, original, consumed, j - consumed);
            lemma_common_tail(rewritten, from, original, i, j - i);
            lemma_index_at_offset(rewritten, from);
            lemma_index_at_offset(rewritten, to);
            lemma_index_at_offset(rewritten, 0);
            lemma_index_at_offset(rewritten, rewritten.len() as int);
            lemma_byte_offset_ends(rewritten);
            lemma_bytes_between(rewritten, from, to);
            lemma_bytes_between(rewritten, to, rewritten.len() as int);
            assert(rewritten =~= rewritten.take(produced) + rewritten.skip(produced));
        }
        let from_offset = (start as isize + self.delta) as usize;
        let to_offset = (end as isize + self.delta) as usize;
        let len = self.rewritten.as_str().as_bytes().len();
        proof {
            lemma_byte_slice(rewritten, 0, from_offset as int);
            lemma_byte_slice(rewritten, from_offset as int, to_offset as int);
            lemma_byte_slice(rewritten, to_offset as int, len as int);
        }

        let prefix = substring(self.rewritten.as_str(), 0, from_offset);
        let replaced = substring(self.rewritten.as_str(), from_offset, to_offset);
        let suffix = substring(self.rewritten.as_str(), to_offset, len);

        let replaced = String::from_str(replaced);

        let mut spliced = String::from_str(prefix);
        spliced.append(replacement);
        spliced.append(suffix);

        let added = replacement.as_bytes().len();
        proof {
            let head = rewritten.take(from) + replacement@;
            assert(spliced@ =~= head + rewritten.skip(to));
            assert(rewritten.subrange(0, from) =~= rewritten.take(from));
            assert(rewritten.subrange(to, rewritten.len() as int) =~= rewritten.skip(to));
            lemma_encode_concat(rewritten.take(from), replacement@);
            lemma_encode_concat(head, rewritten.skip(to));
            assert(spliced@.take(from + replacement@.len()) =~= head);
            assert(spliced@.skip(from + replacement@.len()) =~= rewritten.skip(to));
            assert(head =~= rewritten.take(produced) + original.subrange(consumed, i)
                + replacement@) by {
                assert(rewritten.take(from) =~= rewritten.take(produced) + rewritten.subrange(
                    produced,
                    from,
                ));
            }
        }
        self.rewritten = spliced;
        self.delta = self.delta + (added as isize - end as isize + start as isize);
        self.consumed = Ghost(j);

        replaced
    }
}

} // verus!
