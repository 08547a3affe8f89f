//! What a sequence of replacements makes of a text.
//!
//! A session runs over one text from left to right. Each replacement names a
//! range of characters at or after the end of the one before; the session
//! keeps what it has written so far and how much of the text it has used up.
use vstd::prelude::*;

verus! {

/// A replacement: the characters `start..end` of the text give way to
/// `replacement`.
pub ghost struct Edit {
    pub start: int,
    pub end: int,
    pub replacement: Seq<char>,
}

/// The state of a session.
pub ghost struct Session {
    /// The text that is rewritten.
    pub original: Seq<char>,
    /// What has been written: the text up to `consumed`, with the
    /// replacements made.
    pub rewritten: Seq<char>,
    /// Number of characters of `original` that are used up.
    pub consumed: int,
}

impl Session {
    /// The session that has replaced nothing yet.
    pub open spec fn new(original: Seq<char>) -> Session {
        Session { original, rewritten: Seq::empty(), consumed: 0 }
    }

    /// The used part lies within the text.
    pub open spec fn wf(self) -> bool {
        0 <= self.consumed <= self.original.len()
    }

    /// Whether the range `start..end` can be replaced next.
    pub open spec fn accepts(self, start: int, end: int) -> bool {
        self.consumed <= start <= end <= self.original.len()
    }

    /// The session after the range `start..end` gave way to `replacement`.
    pub open spec fn rewrite(self, start: int, end: int, replacement: Seq<char>) -> Session {
        Session {
            original: self.original,
            rewritten: self.rewritten + self.original.subrange(self.consumed, start) + replacement,
            consumed: end,
        }
    }

    /// The characters that a replacement of `start..end` removes.
    pub open spec fn replaced(self, start: int, end: int) -> Seq<char> {
        self.original.subrange(start, end)
    }

    /// The whole rewritten text: what was written, then the rest of the
    /// original.
    pub open spec fn contents(self) -> Seq<char> {
        self.rewritten + self.original.skip(self.consumed)
    }

    /// The session after the edits were made in order.
    pub open spec fn apply(self, edits: Seq<Edit>) -> Session
        decreases edits.len(),
    {
        if edits.len() == 0 {
            self
        } else {
            let last = edits.last();
            self.apply(edits.drop_last()).rewrite(last.start, last.end, last.replacement)
        }
    }
}

/// The edits lie in `from..len`, each is a range, and each starts at or after
/// the end of the one before.
pub open spec fn in_order(edits: Seq<Edit>, from: int, len: int) -> bool {
    &&& forall|k: int| 0 <= k < edits.len() ==> from <= (#[trigger] edits[k]).start <= edits[k].end <= len
    &&& forall|k: int, l: int|
        0 <= k < l < edits.len() ==> (#[trigger] edits[k]).end <= (#[trigger] edits[l]).start
}

/// `text` with each edit made at its own place. The last edit is made first,
/// which leaves the places of the others as they were.
pub open spec fn with_edits(text: Seq<char>, edits: Seq<Edit>) -> Seq<char>
    decreases edits.len(),
{
    if edits.len() == 0 {
        text
    } else {
        let last = edits.last();
        with_edits(
            text.take(last.start) + last.replacement + text.skip(last.end),
            edits.drop_last(),
        )
    }
}

/// With no edit made, the contents are the original text.
pub proof fn lemma_no_edit(text: Seq<char>)
    ensures
        Session::new(text).wf(),
        Session::new(text).contents() == text,
{
    assert(Session::new(text).contents() =~= text);
}

/// A replacement that the session accepts leaves it well formed and never
/// takes back what is used up; it puts the replacement in the place of the
/// range and changes nothing else of the contents.
pub proof fn lemma_rewrite(session: Session, start: int, end: int, replacement: Seq<char>)
    requires
        session.wf(),
        session.accepts(start, end),
    ensures
        session.rewrite(start, end, replacement).wf(),
        session.consumed <= session.rewrite(start, end, replacement).consumed,
        session.contents() == session.rewritten + session.original.subrange(
            session.consumed,
            start,
        ) + session.original.subrange(start, end) + session.original.skip(end),
        session.rewrite(start, end, replacement).contents() == session.rewritten
            + session.original.subrange(session.consumed, start) + replacement
            + session.original.skip(end),
{
    assert(session.original.skip(session.consumed) =~= session.original.subrange(
        session.consumed,
        start,
    ) + session.original.subrange(start, end) + session.original.skip(end));
}

/// One edit of the characters `start..end`: the contents are the text before
/// `start`, the replacement, and the text from `end` on; what is replaced is
/// the text between.
pub proof fn lemma_single_edit(text: Seq<char>, start: int, end: int, replacement: Seq<char>)
    requires
        0 <= start <= end <= text.len(),
    ensures
        Session::new(text).accepts(start, end),
        Session::new(text).rewrite(start, end, replacement).contents() == text.take(start)
            + replacement + text.skip(end),
        Session::new(text).replaced(start, end) == text.subrange(start, end),
{
    assert(Session::new(text).rewrite(start, end, replacement).contents() =~= text.take(start)
        + replacement + text.skip(end));
}

/// After edits made in order the session is well formed, it has used up the
/// text to the end of the last edit, and it accepts what lies behind that.
pub proof fn lemma_apply(session: Session, edits: Seq<Edit>)
    requires
        session.wf(),
        in_order(edits, session.consumed, session.original.len() as int),
    ensures
        session.apply(edits).wf(),
        session.apply(edits).original == session.original,
        session.apply(edits).consumed == if edits.len() == 0 {
            session.consumed
        } else {
            edits.last().end
        },
    decreases edits.len(),
{
    if edits.len() > 0 {
        let before = edits.drop_last();
        assert forall|k: int| 0 <= k < before.len() implies session.consumed <= (
        #[trigger] before[k]).start <= before[k].end <= session.original.len() by {
            assert(before[k] == edits[k]);
        }
        assert forall|k: int, l: int| 0 <= k < l < before.len() implies (#[trigger] before[k]).end
            <= (#[trigger] before[l]).start by {
            assert(before[k] == edits[k]);
            assert(before[l] == edits[l]);
        }
        lemma_apply(session, before);
        if before.len() > 0 {
            assert(before.last() == edits[edits.len() - 2]);
        }
    }
}

/// What a session has written after edits made in order does not depend on
/// the text behind the last edit.
proof fn lemma_written_prefix(a: Seq<char>, b: Seq<char>, edits: Seq<Edit>, upto: int)
    requires
        0 <= upto <= a.len(),
        upto <= b.len(),
        a.take(upto) == b.take(upto),
        in_order(edits, 0, upto),
    ensures
        Session::new(a).apply(edits).rewritten == Session::new(b).apply(edits).rewritten,
        Session::new(a).apply(edits).consumed == Session::new(b).apply(edits).consumed,
    decreases edits.len(),
{
    if edits.len() > 0 {
        let before = edits.drop_last();
        let last = edits.last();
        assert forall|k: int| 0 <= k < before.len() implies 0 <= (#[trigger] before[k]).start
            <= before[k].end <= upto by {
            assert(before[k] == edits[k]);
        }
        assert forall|k: int, l: int| 0 <= k < l < before.len() implies (#[trigger] before[k]).end
            <= (#[trigger] before[l]).start by {
            assert(before[k] == edits[k]);
            assert(before[l] == edits[l]);
        }
        lemma_written_prefix(a, b, before, upto);
        lemma_apply(Session::new(a), before);
        lemma_apply(Session::new(b), before);
        let consumed = Session::new(a).apply(before).consumed;
        if before.len() > 0 {
            assert(before.last() == edits[edits.len() - 2]);
        }
        assert(last == edits[edits.len() - 1]);
        assert(a.subrange(consumed, last.start) =~= b.subrange(consumed, last.start)) by {
            assert forall|i: int| consumed <= i < last.start implies a[i] == b[i] by {
                assert(a.take(upto)[i] == a[i]);
                assert(b.take(upto)[i] == b[i]);
            }
        }
    }
}

/// Edits made in order, whatever their number, give the text with each edit
/// made at its own place.
pub proof fn lemma_edits_in_order(text: Seq<char>, edits: Seq<Edit>)
    requires
        in_order(edits, 0, text.len() as int),
    ensures
        Session::new(text).apply(edits).contents() == with_edits(text, edits),
    decreases edits.len(),
{
    if edits.len() == 0 {
        lemma_no_edit(text);
    } else {
        let before = edits.drop_last();
        let last = edits.last();
        let changed = text.take(last.start) + last.replacement + text.skip(last.end);
        assert forall|k: int| 0 <= k < before.len() implies 0 <= (#[trigger] before[k]).start
            <= before[k].end <= last.start by {
            assert(before[k] == edits[k]);
        }
        assert forall|k: int, l: int| 0 <= k < l < before.len() implies (#[trigger] before[k]).end
            <= (#[trigger] before[l]).start by {
            assert(before[k] == edits[k]);
            assert(before[l] == edits[l]);
        }
        assert(changed.take(last.start) =~= text.take(last.start));
        lemma_written_prefix(text, changed, before, last.start);
        lemma_apply(Session::new(text), before);
        lemma_apply(Session::new(changed), before);
        lemma_edits_in_order(changed, before);
        let done = Session::new(changed).apply(before);
        assert(done.contents() =~= done.rewritten + text.subrange(done.consumed, last.start)
            + last.replacement + text.skip(last.end));
        assert(Session::new(text).apply(edits).contents() =~= done.contents());
    }
}

} // verus!
