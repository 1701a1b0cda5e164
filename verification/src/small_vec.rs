//! The span index: the core of the replicated sequence. It keeps the ordered
//! span list beside the element container and provides the two lookups
//! (by document index, by stable identifier) and the two state transitions
//! (insert after an identifier, delete at an identifier).

use vstd::prelude::*;
use vstd::pervasive::unreached;

use crate::spans::{
    Span, StableId, author_max_lt, covers, covers_live, delete_pre, delete_target, docs_chain,
    lemma_document_index_is_live_prefix, lemma_id_unique, lemma_live_len_last,
    lemma_live_len_mono, lemma_live_len_take_full, lemma_live_len_take_step,
    lemma_merge_collapse_covers, lemma_merge_collapse_wf, lemma_merge_covers, lemma_merge_wf,
    lemma_position_unique, lemma_span_within_live_len, lemma_tomb_collapse_covers,
    lemma_tomb_collapse_wf, lemma_tomb_covers, lemma_tomb_wf, live_len, merge_collapse_shape,
    merge_pre, merge_shape, shifted_down, shifted_up, solo_shape, span_covers, span_live,
    spans_wf, stable_at, tomb_collapse_shape, tomb_shape,
};
use crate::spans::{
    anchor_at, extend_shape, lemma_doc_order, lemma_extend_positions,
    lemma_merge_collapse_positions, lemma_merge_positions, lemma_position_of_id_at,
    lemma_solo_covers, lemma_solo_positions, lemma_solo_wf, lemma_tomb_collapse_positions,
    lemma_tomb_positions, position_of_id,
};
use crate::structure::CrdtCollection;

verus! {

/// A resolved cursor for one identifier in the current span list: the span's
/// position in the list, the identifier's offset inside the span, and a
/// snapshot of the span itself.
///
/// For a tombstoned span the offset is forced to 0: the span's recorded
/// position stands for its whole run.
#[derive(Clone, Copy, PartialEq, Eq, Structural, Debug)]
pub struct LocalId {
    pub span_index: usize,
    pub offset: u32,
    pub span: Span,
}

/// The cursor matches the span list: its snapshot is the span at its index
/// and its offset lies inside the span.
pub open spec fn valid_local(s: Seq<Span>, loc: LocalId) -> bool {
    &&& loc.span_index < s.len()
    &&& s[loc.span_index as int] == loc.span
    &&& if loc.span.deleted {
        loc.offset == 0
    } else {
        loc.offset < loc.span.length
    }
}

/// The cursor is what looking up the identifier `id` in `s` yields.
pub open spec fn resolved(s: Seq<Span>, loc: LocalId, id: StableId) -> bool {
    &&& valid_local(s, loc)
    &&& span_covers(loc.span, id)
    &&& if loc.span.deleted {
        loc.offset == 0
    } else {
        loc.offset == id.id - loc.span.start_id
    }
}

/// The identifier a cursor names.
pub open spec fn stable_of(loc: LocalId) -> StableId {
    StableId { author: loc.span.author, id: (loc.span.start_id + loc.offset) as u32 }
}

/// The prepend-merge opportunity of a delete: the deleted identifier is the
/// last of its span and the next span is the same author's tombstone
/// starting right after it. On this path the delete absorbs the identifier
/// into that tombstone and creates no span.
pub open spec fn merge_ready(s: Seq<Span>, loc: LocalId) -> bool {
    &&& loc.span_index + 1 < s.len()
    &&& s[loc.span_index + 1].deleted
    &&& s[loc.span_index + 1].author == loc.span.author
    &&& s[loc.span_index + 1].start_id == loc.span.start_id + loc.offset + 1
    &&& loc.offset + 1 == loc.span.length
}

/// The fold opportunity at a collapse: the span before the deleted one is
/// the same author's tombstone ending right where the deleted identifier
/// starts, so the tombstone that stands in for the emptied span folds into
/// it and the span list does not grow.
pub open spec fn fold_ready(s: Seq<Span>, loc: LocalId) -> bool {
    &&& loc.offset == 0
    &&& 1 <= loc.span_index
    &&& s[loc.span_index - 1].deleted
    &&& s[loc.span_index - 1].author == loc.span.author
    &&& s[loc.span_index - 1].start_id + s[loc.span_index - 1].length == loc.span.start_id
}

/// The 1-based document position at which an insert after `previous` lands:
/// directly after the anchor when the anchor is live, and at the tombstone's
/// recorded live-neighbour position when it is not.
pub open spec fn insert_position(previous: LocalId) -> int {
    if previous.span.deleted {
        previous.span.document_index as int
    } else {
        previous.span.document_index + previous.offset + 1
    }
}

impl LocalId {
    /// The identifier this cursor names.
    pub fn stable(self) -> (r: StableId)
        requires
            self.span.start_id + self.offset <= u32::MAX,
        ensures
            r == stable_of(self),
    {
        StableId { author: self.span.author, id: self.span.start_id + self.offset }
    }

    /// The author-local counter value of the identifier.
    pub fn id(self) -> (r: u32)
        requires
            self.span.start_id + self.offset <= u32::MAX,
        ensures
            r == self.span.start_id + self.offset,
    {
        self.span.start_id + self.offset
    }

    /// The 1-based document position of the identifier when live, and of its
    /// next live neighbour when tombstoned.
    pub fn position(self) -> (r: usize)
        requires
            self.span.document_index + self.offset <= u32::MAX,
        ensures
            !self.span.deleted ==> r == self.span.document_index + self.offset,
            self.span.deleted ==> r == self.span.document_index,
    {
        if !self.span.deleted {
            (self.span.document_index + self.offset) as usize
        } else {
            self.span.document_index as usize
        }
    }

    pub fn author(self) -> (r: u16)
        ensures
            r == self.span.author,
    {
        self.span.author
    }

    pub fn span_length(self) -> (r: u32)
        ensures
            r == self.span.length,
    {
        self.span.length
    }

    pub fn span_start_id(self) -> (r: u32)
        ensures
            r == self.span.start_id,
    {
        self.span.start_id
    }

    /// One past the last identifier of the span.
    pub fn span_end_id(self) -> (r: u32)
        requires
            self.span.start_id + self.span.length <= u32::MAX,
        ensures
            r == self.span.start_id + self.span.length,
    {
        self.span.start_id + self.span.length
    }

    pub fn span_start_position(self) -> (r: u32)
        ensures
            r == self.span.document_index,
    {
        self.span.document_index
    }

    /// One past the last position the span covers when live.
    pub fn span_end_position(self) -> (r: u32)
        requires
            self.span.document_index + self.span.length <= u32::MAX,
        ensures
            r == self.span.document_index + self.span.length,
    {
        self.span.document_index + self.span.length
    }

    pub fn span_index(self) -> (r: usize)
        ensures
            r == self.span_index,
    {
        self.span_index
    }

    pub fn offset(self) -> (r: u32)
        ensures
            r == self.offset,
    {
        self.offset
    }
}

/// Push every span from `from` on one document position to the right: the
/// suffix of the span list behind a freshly inserted element.
fn shift_up(spans: &mut Vec<Span>, from: usize)
    requires
        forall|i: int|
            from <= i < old(spans)@.len() ==> (#[trigger] old(spans)@[i]).document_index + 1
                <= u32::MAX,
    ensures
        final (spans)@.len() == old(spans)@.len(),
        forall|i: int|
            0 <= i < old(spans)@.len() && i < from ==> final (spans)@[i] == old(spans)@[i],
        forall|i: int|
            from <= i < old(spans)@.len() ==> {
                let sp = #[trigger] final (spans)@[i];
                &&& sp.document_index == old(spans)@[i].document_index + 1
                &&& sp.length == old(spans)@[i].length
                &&& sp.start_id == old(spans)@[i].start_id
                &&& sp.author == old(spans)@[i].author
                &&& sp.deleted == old(spans)@[i].deleted
            },
{
    let n = spans.len();
    let mut i: usize = from;
    while i < n
        invariant
            n == spans@.len(),
            n == old(spans)@.len(),
            from <= i,
            i <= n || i == from,
            forall|j: int|
                from <= j < old(spans)@.len() ==> (#[trigger] old(spans)@[j]).document_index + 1
                    <= u32::MAX,
            forall|j: int|
                0 <= j < n && (j < from || i <= j) ==> spans@[j] == old(spans)@[j],
            forall|j: int|
                from <= j < i && j < n ==> {
                    let sp = #[trigger] spans@[j];
                    &&& sp.document_index == old(spans)@[j].document_index + 1
                    &&& sp.length == old(spans)@[j].length
                    &&& sp.start_id == old(spans)@[j].start_id
                    &&& sp.author == old(spans)@[j].author
                    &&& sp.deleted == old(spans)@[j].deleted
                },
        decreases n - i,
    {
        let mut sp = spans[i];
        sp.document_index = sp.document_index + 1;
        spans[i] = sp;
        i += 1;
    }
}

/// Pull every span from `from` on one document position to the left: the
/// suffix of the span list behind a freshly removed element.
fn shift_down(spans: &mut Vec<Span>, from: usize)
    requires
        forall|i: int|
            from <= i < old(spans)@.len() ==> (#[trigger] old(spans)@[i]).document_index >= 1,
    ensures
        final (spans)@.len() == old(spans)@.len(),
        forall|i: int|
            0 <= i < old(spans)@.len() && i < from ==> final (spans)@[i] == old(spans)@[i],
        forall|i: int|
            from <= i < old(spans)@.len() ==> {
                let sp = #[trigger] final (spans)@[i];
                &&& sp.document_index == old(spans)@[i].document_index - 1
                &&& sp.length == old(spans)@[i].length
                &&& sp.start_id == old(spans)@[i].start_id
                &&& sp.author == old(spans)@[i].author
                &&& sp.deleted == old(spans)@[i].deleted
            },
{
    let n = spans.len();
    let mut i: usize = from;
    while i < n
        invariant
            n == spans@.len(),
            n == old(spans)@.len(),
            from <= i,
            i <= n || i == from,
            forall|j: int|
                from <= j < old(spans)@.len() ==> (#[trigger] old(spans)@[j]).document_index >= 1,
            forall|j: int|
                0 <= j < n && (j < from || i <= j) ==> spans@[j] == old(spans)@[j],
            forall|j: int|
                from <= j < i && j < n ==> {
                    let sp = #[trigger] spans@[j];
                    &&& sp.document_index == old(spans)@[j].document_index - 1
                    &&& sp.length == old(spans)@[j].length
                    &&& sp.start_id == old(spans)@[j].start_id
                    &&& sp.author == old(spans)@[j].author
                    &&& sp.deleted == old(spans)@[j].deleted
                },
        decreases n - i,
    {
        let mut sp = spans[i];
        sp.document_index = sp.document_index - 1;
        spans[i] = sp;
        i += 1;
    }
}

/// Place one fresh live span of length 1 directly after span `k` and push
/// every later span one position to the right. The new identifier lies above
/// every identifier its author has produced, and it does not extend span `k`
/// in place (that case keeps the list length and is handled by the caller).
#[verifier::rlimit(100)]
#[verifier::spinoff_prover]
fn insert_solo_span(spans: &mut Vec<Span>, k: usize, new_span: Span)
    requires
        spans_wf(old(spans)@),
        k < old(spans)@.len(),
        live_len(old(spans)@) < u32::MAX,
        new_span.length == 1,
        !new_span.deleted,
        new_span.author != 0,
        new_span.start_id < u32::MAX,
        new_span.document_index == old(spans)@[k as int].document_index + span_live(
            old(spans)@[k as int],
        ),
        author_max_lt(old(spans)@, new_span.author, new_span.start_id),
        (!old(spans)@[k as int].deleted && old(spans)@[k as int].author == new_span.author)
            ==> old(spans)@[k as int].start_id + old(spans)@[k as int].length
            != new_span.start_id,
    ensures
        spans_wf(final (spans)@),
        final (spans)@.len() == old(spans)@.len() + 1,
        live_len(final (spans)@) == live_len(old(spans)@) + 1,
        forall|x: StableId|
            covers(final (spans)@, x) <==> covers(old(spans)@, x) || span_covers(new_span, x),
        forall|x: StableId|
            covers_live(final (spans)@, x) <==> covers_live(old(spans)@, x) || span_covers(
                new_span,
                x,
            ),
        anchor_at(final (spans)@, new_span.document_index as int) == (StableId {
            author: new_span.author,
            id: new_span.start_id,
        }),
        position_of_id(
            final (spans)@,
            StableId { author: new_span.author, id: new_span.start_id },
        ) == new_span.document_index - 1,
        forall|x: StableId|
            covers_live(old(spans)@, x) ==> position_of_id(final (spans)@, x) == (
            if position_of_id(old(spans)@, x) >= new_span.document_index - 1 {
                position_of_id(old(spans)@, x) + 1
            } else {
                position_of_id(old(spans)@, x)
            }),
{
    let ghost s0 = spans@;
    let ghost ki = k as int;
    let n = spans.len();
    spans.insert(k + 1, new_span);
    proof {
        s0.insert_ensures(ki + 1, new_span);
    }
    let n1 = spans.len();
    let ghost s1 = spans@;
    proof {
        assert(k + 2 <= n1);
        assert forall|i: int| k + 2 <= i < s1.len() implies (#[trigger] s1[i]).document_index + 1
            <= u32::MAX by {
            assert(s1[i] == s0[i - 1]);
            lemma_span_within_live_len(s0, i - 1);
        }
    }
    shift_up(spans, k + 2);
    let ghost s4 = spans@;
    proof {
        let n4 = s4.len() as int;
        assert forall|i: int| 0 <= i <= ki implies s4[i] == s0[i] by {
            assert(s1[i] == s0[i]);
        }
        assert(s1[ki + 1] == new_span);
        assert(s4[ki + 1] == new_span);
        assert forall|i: int| ki + 2 <= i < n4 implies shifted_up(#[trigger] s4[i], s0[i - 1]) by {
            assert(s1[i] == s0[i - 1]);
        }
        assert(solo_shape(s0, s4, ki, new_span));
        lemma_solo_wf(s0, s4, ki, new_span);
        lemma_solo_covers(s0, s4, ki, new_span);
        lemma_solo_positions(s0, s4, ki, new_span);
    }
}

/// Extend the live span `k` in place by one identifier: the fast-append path
/// taken while one author types continuously. The appended identifier is
/// `start_id + length` of the span, the next one its author will produce.
#[verifier::rlimit(100)]
#[verifier::spinoff_prover]
fn extend_span(spans: &mut Vec<Span>, k: usize)
    requires
        spans_wf(old(spans)@),
        k < old(spans)@.len(),
        !old(spans)@[k as int].deleted,
        live_len(old(spans)@) < u32::MAX,
        old(spans)@[k as int].start_id + old(spans)@[k as int].length < u32::MAX,
        author_max_lt(
            old(spans)@,
            old(spans)@[k as int].author,
            (old(spans)@[k as int].start_id + old(spans)@[k as int].length) as u32,
        ),
    ensures
        spans_wf(final (spans)@),
        final (spans)@.len() == old(spans)@.len(),
        live_len(final (spans)@) == live_len(old(spans)@) + 1,
        forall|x: StableId|
            covers(final (spans)@, x) <==> covers(old(spans)@, x) || x == (StableId {
                author: old(spans)@[k as int].author,
                id: (old(spans)@[k as int].start_id + old(spans)@[k as int].length) as u32,
            }),
        forall|x: StableId|
            covers_live(final (spans)@, x) <==> covers_live(old(spans)@, x) || x == (StableId {
                author: old(spans)@[k as int].author,
                id: (old(spans)@[k as int].start_id + old(spans)@[k as int].length) as u32,
            }),
        anchor_at(
            final (spans)@,
            old(spans)@[k as int].document_index + old(spans)@[k as int].length,
        ) == (StableId {
            author: old(spans)@[k as int].author,
            id: (old(spans)@[k as int].start_id + old(spans)@[k as int].length) as u32,
        }),
        position_of_id(
            final (spans)@,
            StableId {
                author: old(spans)@[k as int].author,
                id: (old(spans)@[k as int].start_id + old(spans)@[k as int].length) as u32,
            },
        ) == old(spans)@[k as int].document_index + old(spans)@[k as int].length - 1,
        forall|x: StableId|
            covers_live(old(spans)@, x) ==> position_of_id(final (spans)@, x) == (
            if position_of_id(old(spans)@, x) >= old(spans)@[k as int].document_index + old(
                spans,
            )@[k as int].length - 1 {
                position_of_id(old(spans)@, x) + 1
            } else {
                position_of_id(old(spans)@, x)
            }),
{
    let n = spans.len();
    let ghost s0 = spans@;
    let ghost ki = k as int;
    let ghost c = StableId {
        author: s0[ki].author,
        id: (s0[ki].start_id + s0[ki].length) as u32,
    };
    let mut sp = spans[k];
    sp.length = sp.length + 1;
    spans[k] = sp;
    proof {
        assert forall|i: int| k + 1 <= i < n implies (#[trigger] spans@[i]).document_index + 1
            <= u32::MAX by {
            assert(spans@[i] == s0[i]);
            lemma_span_within_live_len(s0, i);
        }
    }
    shift_up(spans, k + 1);
    let ghost s4 = spans@;
    proof {
        let n4 = s4.len() as int;
        assert forall|i: int| 0 <= i < ki implies s4[i] == s0[i] by {}
        assert(s4[ki] == sp);
        assert forall|i: int| ki + 1 <= i < n4 implies {
            &&& (#[trigger] s4[i]).document_index == s0[i].document_index + 1
            &&& s4[i].length == s0[i].length
            &&& s4[i].start_id == s0[i].start_id
            &&& s4[i].author == s0[i].author
            &&& s4[i].deleted == s0[i].deleted
        } by {}
        assert forall|i: int| 0 <= i < n4 - 1 implies (#[trigger] s4[i + 1]).document_index
            == s4[i].document_index + span_live(s4[i]) by {
            if i < ki {
                assert(s0[i + 1].document_index == s0[i].document_index + span_live(s0[i]));
            } else {
                assert(s0[i + 1].document_index == s0[i].document_index + span_live(s0[i]));
            }
        }
        assert(docs_chain(s4));
        lemma_live_len_last(s0);
        lemma_live_len_last(s4);
        assert(live_len(s4) == live_len(s0) + 1);
        assert forall|i: int, j: int|
            0 <= i < j < n4 && (s4[i]).author == (s4[j]).author implies (s4[i].start_id
            + s4[i].length <= s4[j].start_id || s4[j].start_id + s4[j].length
            <= s4[i].start_id) by {
            assert(s0[i].author == s0[j].author ==> (s0[i].start_id + s0[i].length
                <= s0[j].start_id || s0[j].start_id + s0[j].length <= s0[i].start_id));
            if i == ki {
                assert(s0[j].start_id + s0[j].length <= c.id);
                assert(1 <= s0[j].length);
            }
            if j == ki {
                assert(s0[i].start_id + s0[i].length <= c.id);
                assert(1 <= s0[i].length);
            }
        }
        assert forall|i: int|
            0 <= i && i + 1 < n4 && !(s4[i]).deleted && !s4[i + 1].deleted && s4[i].author == s4[i
                + 1].author implies s4[i].start_id + s4[i].length != s4[i + 1].start_id by {
            if i == ki {
                assert(s0[ki + 1].start_id + s0[ki + 1].length <= c.id);
                assert(1 <= s0[ki + 1].length);
            } else {
                assert(!s0[i].deleted && !s0[i + 1].deleted && s0[i].author == s0[i + 1].author
                    ==> s0[i].start_id + s0[i].length != s0[i + 1].start_id);
            }
        }
        assert(spans_wf(s4));
        assert forall|x: StableId| covers(s4, x) <==> covers(s0, x) || x == c by {
            if covers(s4, x) {
                let w = choose|w: int| 0 <= w < s4.len() && span_covers(s4[w], x);
                if w == ki {
                    if x.id < s0[ki].start_id + s0[ki].length {
                        assert(span_covers(s0[ki], x));
                    } else {
                        assert(x == c);
                    }
                } else {
                    assert(span_covers(s0[w], x));
                }
            }
            if covers(s0, x) {
                let w = choose|w: int| 0 <= w < s0.len() && span_covers(s0[w], x);
                assert(span_covers(s4[w], x));
                assert(covers(s4, x));
            }
            if x == c {
                assert(span_covers(s4[ki], x));
                assert(covers(s4, x));
            }
        }
        assert forall|x: StableId| covers_live(s4, x) <==> covers_live(s0, x) || x == c by {
            if covers_live(s4, x) {
                let w = choose|w: int| 0 <= w < s4.len() && span_covers(s4[w], x) && !s4[w].deleted;
                if w == ki {
                    if x.id < s0[ki].start_id + s0[ki].length {
                        assert(span_covers(s0[ki], x) && !s0[ki].deleted);
                    } else {
                        assert(x == c);
                    }
                } else {
                    assert(span_covers(s0[w], x) && !s0[w].deleted);
                }
            }
            if covers_live(s0, x) {
                let w = choose|w: int|
                    0 <= w < s0.len() && span_covers(s0[w], x) && !s0[w].deleted;
                assert(span_covers(s4[w], x) && !s4[w].deleted);
                assert(covers_live(s4, x));
            }
            if x == c {
                assert(span_covers(s4[ki], x) && !s4[ki].deleted);
                assert(covers_live(s4, x));
            }
        }
        let d = s0[ki].document_index + s0[ki].length;
        assert(!s4[ki].deleted && s4[ki].document_index <= d < s4[ki].document_index
            + s4[ki].length);
        let j = choose|j: int|
            0 <= j < s4.len() && !s4[j].deleted && s4[j].document_index <= d
                < s4[j].document_index + s4[j].length;
        lemma_position_unique(s4, ki, j, d);
        assert(extend_shape(s0, s4, ki));
        lemma_extend_positions(s0, s4, ki);
    }
}

/// The pointwise relation between a span list and the result of splitting its
/// span `ki` around a fresh span: head of length `new_length`, the fresh
/// span, the trailing rest, and the old suffix moved one position right.
spec fn split_shape(s0: Seq<Span>, s4: Seq<Span>, ki: int, new_span: Span, new_length: int) -> bool {
    &&& 0 <= ki < s0.len()
    &&& s4.len() == s0.len() + 2
    &&& forall|i: int| 0 <= i < ki ==> s4[i] == s0[i]
    &&& s4[ki].document_index == s0[ki].document_index
    &&& s4[ki].length == new_length
    &&& s4[ki].start_id == s0[ki].start_id
    &&& s4[ki].author == s0[ki].author
    &&& s4[ki].deleted == s0[ki].deleted
    &&& s4[ki + 1] == new_span
    &&& s4[ki + 2].document_index == new_span.document_index + 1
    &&& s4[ki + 2].length == s0[ki].length - new_length
    &&& s4[ki + 2].start_id == s0[ki].start_id + new_length
    &&& s4[ki + 2].author == s0[ki].author
    &&& !s4[ki + 2].deleted
    &&& forall|i: int|
        ki + 3 <= i < s4.len() ==> {
            &&& (#[trigger] s4[i]).document_index == s0[i - 2].document_index + 1
            &&& s4[i].length == s0[i - 2].length
            &&& s4[i].start_id == s0[i - 2].start_id
            &&& s4[i].author == s0[i - 2].author
            &&& s4[i].deleted == s0[i - 2].deleted
        }
}

/// The preconditions a split starts from.
spec fn split_pre(s0: Seq<Span>, ki: int, new_span: Span, new_length: int) -> bool {
    &&& spans_wf(s0)
    &&& 0 <= ki < s0.len()
    &&& live_len(s0) < u32::MAX
    &&& !s0[ki].deleted
    &&& 1 <= new_length < s0[ki].length
    &&& new_span.length == 1
    &&& !new_span.deleted
    &&& new_span.start_id < u32::MAX
    &&& new_span.document_index == s0[ki].document_index + new_length
    &&& author_max_lt(s0, new_span.author, new_span.start_id)
}

/// A split preserves the span-list invariants and adds one live position.
#[verifier::rlimit(100)]
#[verifier::spinoff_prover]
proof fn lemma_split_wf(s0: Seq<Span>, s4: Seq<Span>, ki: int, new_span: Span, new_length: int)
    requires
        split_pre(s0, ki, new_span, new_length),
        split_shape(s0, s4, ki, new_span, new_length),
    ensures
        spans_wf(s4),
        live_len(s4) == live_len(s0) + 1,
{
    let n4 = s4.len() as int;
    assert forall|i: int| 0 <= i < n4 - 1 implies (#[trigger] s4[i + 1]).document_index
        == s4[i].document_index + span_live(s4[i]) by {
        if i < ki {
            assert(s0[i + 1].document_index == s0[i].document_index + span_live(s0[i]));
        } else if i == ki + 2 {
            assert(s0[ki + 1].document_index == s0[ki].document_index + span_live(s0[ki]));
        } else if i > ki + 2 {
            assert(s0[i - 1].document_index == s0[i - 2].document_index + span_live(s0[i - 2]));
        }
    }
    assert(docs_chain(s4));
    lemma_live_len_last(s0);
    lemma_live_len_last(s4);
    assert(live_len(s4) == live_len(s0) + 1);
    assert forall|i: int, j: int|
        0 <= i < j < n4 && (s4[i]).author == (s4[j]).author implies (s4[i].start_id + s4[i].length
        <= s4[j].start_id || s4[j].start_id + s4[j].length <= s4[i].start_id) by {
        let i0: int = if i <= ki {
            i
        } else if i == ki + 1 {
            -1
        } else if i == ki + 2 {
            ki
        } else {
            i - 2
        };
        let j0: int = if j <= ki {
            j
        } else if j == ki + 1 {
            -1
        } else if j == ki + 2 {
            ki
        } else {
            j - 2
        };
        if i0 == -1 {
            assert(s0[j0].author == new_span.author);
            assert(s0[j0].start_id + s0[j0].length <= new_span.start_id);
            assert(1 <= s0[j0].length);
        } else if j0 == -1 {
            assert(s0[i0].author == new_span.author);
            assert(s0[i0].start_id + s0[i0].length <= new_span.start_id);
            assert(1 <= s0[i0].length);
        } else if i0 == j0 {
            assert(i == ki && j == ki + 2);
        } else {
            assert(0 <= i0 < s0.len() && 0 <= j0 < s0.len() && i0 != j0);
            assert(s0[i0].author == s0[j0].author);
            if i0 < j0 {
                assert(s0[i0].start_id + s0[i0].length <= s0[j0].start_id || s0[j0].start_id
                    + s0[j0].length <= s0[i0].start_id);
            } else {
                assert(s0[j0].start_id + s0[j0].length <= s0[i0].start_id || s0[i0].start_id
                    + s0[i0].length <= s0[j0].start_id);
            }
        }
    }
    assert forall|i: int|
        0 <= i && i + 1 < n4 && !(s4[i]).deleted && !s4[i + 1].deleted && s4[i].author == s4[i
            + 1].author implies s4[i].start_id + s4[i].length != s4[i + 1].start_id by {
        if i + 1 <= ki {
            assert(!s0[i].deleted && !s0[i + 1].deleted && s0[i].author == s0[i + 1].author
                ==> s0[i].start_id + s0[i].length != s0[i + 1].start_id);
        } else if i == ki || i == ki + 1 {
            // neither half of the split can abut the fresh span: the fresh
            // id lies above the whole original range
            assert(s0[ki].start_id + s0[ki].length <= new_span.start_id);
        } else if i == ki + 2 {
            assert(!s0[ki].deleted && !s0[ki + 1].deleted && s0[ki].author == s0[ki + 1].author
                ==> s0[ki].start_id + s0[ki].length != s0[ki + 1].start_id);
        } else {
            assert(!s0[i - 2].deleted && !s0[i - 1].deleted && s0[i - 2].author == s0[i - 1].author
                ==> s0[i - 2].start_id + s0[i - 2].length != s0[i - 1].start_id);
        }
    }
    assert(spans_wf(s4));
}

/// A split adds exactly the fresh span's identifier, live; every identifier
/// range of the original list is only partitioned, never rewritten.
#[verifier::rlimit(100)]
#[verifier::spinoff_prover]
proof fn lemma_split_covers(s0: Seq<Span>, s4: Seq<Span>, ki: int, new_span: Span, new_length: int)
    requires
        split_pre(s0, ki, new_span, new_length),
        split_shape(s0, s4, ki, new_span, new_length),
    ensures
        forall|x: StableId| covers(s4, x) <==> covers(s0, x) || span_covers(new_span, x),
        forall|x: StableId|
            covers_live(s4, x) <==> covers_live(s0, x) || span_covers(new_span, x),
{
    assert forall|x: StableId| covers(s4, x) <==> covers(s0, x) || span_covers(new_span, x) by {
        if covers(s4, x) {
            let w = choose|w: int| 0 <= w < s4.len() && span_covers(s4[w], x);
            if w < ki {
                assert(span_covers(s0[w], x));
            } else if w == ki || w == ki + 2 {
                assert(span_covers(s0[ki], x));
            } else if w == ki + 1 {
                assert(span_covers(new_span, x));
            } else {
                assert(span_covers(s0[w - 2], x));
            }
        }
        if covers(s0, x) {
            let w = choose|w: int| 0 <= w < s0.len() && span_covers(s0[w], x);
            if w < ki {
                assert(span_covers(s4[w], x));
            } else if w == ki {
                if x.id < s0[ki].start_id + new_length {
                    assert(span_covers(s4[ki], x));
                } else {
                    assert(span_covers(s4[ki + 2], x));
                }
            } else {
                assert(span_covers(s4[w + 2], x));
            }
            assert(covers(s4, x));
        }
        if span_covers(new_span, x) {
            assert(span_covers(s4[ki + 1], x));
            assert(covers(s4, x));
        }
    }
    assert forall|x: StableId|
        covers_live(s4, x) <==> covers_live(s0, x) || span_covers(new_span, x) by {
        if covers_live(s4, x) {
            let w = choose|w: int| 0 <= w < s4.len() && span_covers(s4[w], x) && !s4[w].deleted;
            if w < ki {
                assert(span_covers(s0[w], x) && !s0[w].deleted);
            } else if w == ki || w == ki + 2 {
                assert(span_covers(s0[ki], x) && !s0[ki].deleted);
            } else if w == ki + 1 {
                assert(span_covers(new_span, x));
            } else {
                assert(span_covers(s0[w - 2], x) && !s0[w - 2].deleted);
            }
        }
        if covers_live(s0, x) {
            let w = choose|w: int| 0 <= w < s0.len() && span_covers(s0[w], x) && !s0[w].deleted;
            if w < ki {
                assert(span_covers(s4[w], x) && !s4[w].deleted);
            } else if w == ki {
                if x.id < s0[ki].start_id + new_length {
                    assert(span_covers(s4[ki], x) && !s4[ki].deleted);
                } else {
                    assert(span_covers(s4[ki + 2], x) && !s4[ki + 2].deleted);
                }
            } else {
                assert(span_covers(s4[w + 2], x) && !s4[w + 2].deleted);
            }
            assert(covers_live(s4, x));
        }
        if span_covers(new_span, x) {
            assert(span_covers(s4[ki + 1], x) && !s4[ki + 1].deleted);
            assert(covers_live(s4, x));
        }
    }
}

/// A split moves every live identifier at or past the landing position one
/// place right, leaves the others in place, and puts the fresh identifier
/// exactly at the landing position.
#[verifier::rlimit(100)]
#[verifier::spinoff_prover]
proof fn lemma_split_positions(
    s0: Seq<Span>,
    s4: Seq<Span>,
    ki: int,
    new_span: Span,
    new_length: int,
)
    requires
        split_pre(s0, ki, new_span, new_length),
        split_shape(s0, s4, ki, new_span, new_length),
    ensures
        position_of_id(
            s4,
            StableId { author: new_span.author, id: new_span.start_id },
        ) == new_span.document_index - 1,
        forall|x: StableId|
            covers_live(s0, x) ==> position_of_id(s4, x) == (if position_of_id(s0, x)
                >= new_span.document_index - 1 {
                position_of_id(s0, x) + 1
            } else {
                position_of_id(s0, x)
            }),
{
    lemma_split_wf(s0, s4, ki, new_span, new_length);
    let ld = new_span.document_index - 1;
    assert(span_covers(s4[ki + 1], StableId { author: new_span.author, id: new_span.start_id }));
    lemma_position_of_id_at(
        s4,
        ki + 1,
        StableId { author: new_span.author, id: new_span.start_id },
    );
    assert forall|x: StableId| covers_live(s0, x) implies position_of_id(s4, x) == (
    if position_of_id(s0, x) >= ld {
        position_of_id(s0, x) + 1
    } else {
        position_of_id(s0, x)
    }) by {
        let w = choose|w: int| 0 <= w < s0.len() && span_covers(s0[w], x) && !s0[w].deleted;
        lemma_position_of_id_at(s0, w, x);
        if w < ki {
            assert(s4[w] == s0[w]);
            lemma_position_of_id_at(s4, w, x);
            lemma_doc_order(s0, w, ki);
            assert(position_of_id(s0, x) < ld);
        } else if w == ki {
            if x.id < s0[ki].start_id + new_length {
                assert(span_covers(s4[ki], x) && !s4[ki].deleted);
                lemma_position_of_id_at(s4, ki, x);
                assert(position_of_id(s0, x) < ld);
            } else {
                assert(span_covers(s4[ki + 2], x) && !s4[ki + 2].deleted);
                lemma_position_of_id_at(s4, ki + 2, x);
                assert(position_of_id(s0, x) >= ld);
            }
        } else {
            assert(span_covers(s4[w + 2], x) && !s4[w + 2].deleted);
            lemma_position_of_id_at(s4, w + 2, x);
            lemma_doc_order(s0, ki, w);
            assert(position_of_id(s0, x) >= ld);
        }
    }
}

/// Split the live span `k` around a fresh element: the span keeps its first
/// `new_length` identifiers, the fresh length-1 span takes the next
/// position, and a trailing span keeps the rest of the original's
/// identifiers. Identifier ranges are only partitioned, never rewritten.
#[verifier::rlimit(100)]
#[verifier::spinoff_prover]
fn split_span(spans: &mut Vec<Span>, k: usize, new_span: Span, new_length: u32)
    requires
        spans_wf(old(spans)@),
        k < old(spans)@.len(),
        live_len(old(spans)@) < u32::MAX,
        !old(spans)@[k as int].deleted,
        1 <= new_length < old(spans)@[k as int].length,
        new_span.length == 1,
        !new_span.deleted,
        new_span.start_id < u32::MAX,
        new_span.document_index == old(spans)@[k as int].document_index + new_length,
        author_max_lt(old(spans)@, new_span.author, new_span.start_id),
    ensures
        spans_wf(final (spans)@),
        final (spans)@.len() == old(spans)@.len() + 2,
        live_len(final (spans)@) == live_len(old(spans)@) + 1,
        forall|x: StableId|
            covers(final (spans)@, x) <==> covers(old(spans)@, x) || span_covers(new_span, x),
        forall|x: StableId|
            covers_live(final (spans)@, x) <==> covers_live(old(spans)@, x) || span_covers(
                new_span,
                x,
            ),
        anchor_at(final (spans)@, new_span.document_index as int) == (StableId {
            author: new_span.author,
            id: new_span.start_id,
        }),
        position_of_id(
            final (spans)@,
            StableId { author: new_span.author, id: new_span.start_id },
        ) == new_span.document_index - 1,
        forall|x: StableId|
            covers_live(old(spans)@, x) ==> position_of_id(final (spans)@, x) == (
            if position_of_id(old(spans)@, x) >= new_span.document_index - 1 {
                position_of_id(old(spans)@, x) + 1
            } else {
                position_of_id(old(spans)@, x)
            }),
{
    let n = spans.len();
    let ghost s0 = spans@;
    let ghost ki = k as int;
    let osp = spans[k];
    proof {
        lemma_span_within_live_len(s0, ki);
    }
    spans.insert(k + 1, new_span);
    proof {
        s0.insert_ensures(ki + 1, new_span);
    }
    let ghost s1 = spans@;
    let trailing = Span {
        document_index: new_span.document_index + 1,
        length: osp.length - new_length,
        start_id: osp.start_id + new_length,
        author: osp.author,
        deleted: false,
    };
    let n1 = spans.len();
    spans.insert(k + 2, trailing);
    proof {
        s1.insert_ensures(ki + 2, trailing);
    }
    let ghost s2 = spans@;
    let mut sp = spans[k];
    sp.length = new_length;
    spans[k] = sp;
    let n2 = spans.len();
    proof {
        assert forall|i: int| k + 3 <= i < spans@.len() implies (#[trigger] spans@[i]).document_index
            + 1 <= u32::MAX by {
            assert(s2[i] == s1[i - 1]);
            assert(s1[i - 1] == s0[i - 2]);
            lemma_span_within_live_len(s0, i - 2);
        }
    }
    shift_up(spans, k + 3);
    let ghost s4 = spans@;
    proof {
        let n4 = s4.len() as int;
        assert forall|i: int| 0 <= i < ki implies s4[i] == s0[i] by {
            assert(s2[i] == s1[i]);
            assert(s1[i] == s0[i]);
        }
        assert(s4[ki] == sp);
        assert(s4[ki + 1] == new_span);
        assert(s2[ki + 1] == s1[ki + 1]);
        assert(s1[ki + 1] == new_span);
        assert(s4[ki + 2] == trailing);
        assert(s2[ki + 2] == trailing);
        assert forall|i: int| ki + 3 <= i < n4 implies {
            &&& (#[trigger] s4[i]).document_index == s0[i - 2].document_index + 1
            &&& s4[i].length == s0[i - 2].length
            &&& s4[i].start_id == s0[i - 2].start_id
            &&& s4[i].author == s0[i - 2].author
            &&& s4[i].deleted == s0[i - 2].deleted
        } by {
            assert(s2[i] == s1[i - 1]);
            assert(s1[i - 1] == s0[i - 2]);
        }
        assert(split_shape(s0, s4, ki, new_span, new_length as int));
        lemma_split_wf(s0, s4, ki, new_span, new_length as int);
        lemma_split_covers(s0, s4, ki, new_span, new_length as int);
        lemma_split_positions(s0, s4, ki, new_span, new_length as int);
        let d = new_span.document_index as int;
        assert(!s4[ki + 1].deleted && s4[ki + 1].document_index <= d < s4[ki + 1].document_index
            + s4[ki + 1].length);
        let j = choose|j: int|
            0 <= j < s4.len() && !s4[j].deleted && s4[j].document_index <= d
                < s4[j].document_index + s4[j].length;
        lemma_position_unique(s4, ki + 1, j, d);
    }
}

/// Folding two adjacent tombstones moves nothing: every live identifier
/// keeps its position.
#[verifier::rlimit(100)]
#[verifier::spinoff_prover]
proof fn lemma_coalesce_positions(s0: Seq<Span>, s4: Seq<Span>, ki: int)
    requires
        spans_wf(s0),
        spans_wf(s4),
        1 <= ki < s0.len(),
        s0[ki - 1].deleted,
        s0[ki].deleted,
        s4.len() == s0.len() - 1,
        forall|i: int| 0 <= i < ki - 1 ==> s4[i] == s0[i],
        s4[ki - 1].deleted,
        forall|i: int| ki <= i < s4.len() ==> #[trigger] s4[i] == s0[i + 1],
    ensures
        forall|x: StableId| covers_live(s0, x) ==> position_of_id(s4, x) == position_of_id(s0, x),
{
    assert forall|x: StableId| covers_live(s0, x) implies position_of_id(s4, x) == position_of_id(
        s0,
        x,
    ) by {
        let w = choose|w: int| 0 <= w < s0.len() && span_covers(s0[w], x) && !s0[w].deleted;
        lemma_position_of_id_at(s0, w, x);
        if w < ki - 1 {
            assert(s4[w] == s0[w]);
            lemma_position_of_id_at(s4, w, x);
        } else {
            assert(w > ki);
            assert(s4[w - 1] == s0[w]);
            lemma_position_of_id_at(s4, w - 1, x);
        }
    }
}

/// After a span collapses, its predecessor and the tombstone standing in its
/// place may be a mergeable same-author pair; fold them into one tombstone.
/// A live predecessor never qualifies: had it abutted the collapsed span's
/// first identifier, the list would not have been well formed before the
/// delete, which the last precondition records.
#[verifier::rlimit(100)]
#[verifier::spinoff_prover]
fn coalesce_tombstones(spans: &mut Vec<Span>, k: usize)
    requires
        spans_wf(old(spans)@),
        1 <= k < old(spans)@.len(),
        old(spans)@[k as int].deleted,
        (!old(spans)@[k - 1].deleted && old(spans)@[k - 1].author == old(spans)@[k as int].author)
            ==> old(spans)@[k - 1].start_id + old(spans)@[k - 1].length != old(
            spans,
        )@[k as int].start_id,
    ensures
        spans_wf(final (spans)@),
        live_len(final (spans)@) == live_len(old(spans)@),
        forall|x: StableId| covers(final (spans)@, x) <==> covers(old(spans)@, x),
        forall|x: StableId| covers_live(final (spans)@, x) <==> covers_live(old(spans)@, x),
        final (spans)@.len() <= old(spans)@.len(),
        (old(spans)@[k - 1].start_id + old(spans)@[k - 1].length == old(
            spans,
        )@[k as int].start_id && old(spans)@[k - 1].author == old(spans)@[k as int].author)
            ==> final (spans)@.len() == old(spans)@.len() - 1,
        forall|x: StableId|
            covers_live(old(spans)@, x) ==> position_of_id(final (spans)@, x) == position_of_id(
                old(spans)@,
                x,
            ),
{
    let ghost s0 = spans@;
    let ghost ki = k as int;
    let prev = spans[k - 1];
    let next = spans[k];
    if prev.start_id + prev.length == next.start_id && prev.author == next.author {
        proof {
            assert(prev.deleted);
        }
        let mut p = prev;
        p.length = p.length + next.length;
        spans[k - 1] = p;
        let ghost s2 = spans@;
        spans.remove(k);
        proof {
            s2.remove_ensures(ki);
        }
        let ghost s4 = spans@;
        proof {
            let n4 = s4.len() as int;
            assert forall|i: int| 0 <= i < ki - 1 implies s4[i] == s0[i] by {
                assert(s4[i] == s2[i]);
                assert(s2[i] == s0[i]);
            }
            assert(s4[ki - 1] == p);
            assert forall|i: int| ki <= i < n4 implies s4[i] == s0[i + 1] by {
                assert(s4[i] == s2[i + 1]);
                assert(s2[i + 1] == s0[i + 1]);
            }
            assert forall|i: int| 0 <= i < n4 - 1 implies (#[trigger] s4[i + 1]).document_index
                == s4[i].document_index + span_live(s4[i]) by {
                if i < ki - 1 {
                    assert(s0[i + 1].document_index == s0[i].document_index + span_live(s0[i]));
                } else if i == ki - 1 {
                    assert(s0[ki].document_index == s0[ki - 1].document_index + span_live(
                        s0[ki - 1],
                    ));
                    assert(s0[ki + 1].document_index == s0[ki].document_index + span_live(
                        s0[ki],
                    ));
                } else {
                    assert(s0[i + 2].document_index == s0[i + 1].document_index + span_live(
                        s0[i + 1],
                    ));
                }
            }
            assert(docs_chain(s4));
            lemma_live_len_last(s0);
            lemma_live_len_last(s4);
            let m = ki - 1;
            assert(s0[m + 1].document_index == s0[m].document_index + span_live(s0[m]));
            assert(live_len(s4) == live_len(s0));
            assert forall|i: int, j: int|
                0 <= i < j < n4 && (s4[i]).author == (s4[j]).author implies (s4[i].start_id
                + s4[i].length <= s4[j].start_id || s4[j].start_id + s4[j].length
                <= s4[i].start_id) by {
                if i == ki - 1 {
                    let j0 = j + 1;
                    assert(s4[j] == s0[j0]);
                    assert(s0[ki - 1].author == s0[j0].author ==> (s0[ki - 1].start_id + s0[ki
                        - 1].length <= s0[j0].start_id || s0[j0].start_id + s0[j0].length <= s0[ki
                        - 1].start_id));
                    assert(s0[ki].author == s0[j0].author ==> (s0[ki].start_id + s0[ki].length
                        <= s0[j0].start_id || s0[j0].start_id + s0[j0].length
                        <= s0[ki].start_id));
                    assert(1 <= s0[j0].length);
                } else if j == ki - 1 {
                    assert(s4[i] == s0[i]);
                    assert(s0[i].author == s0[ki - 1].author ==> (s0[i].start_id + s0[i].length
                        <= s0[ki - 1].start_id || s0[ki - 1].start_id + s0[ki - 1].length
                        <= s0[i].start_id));
                    assert(s0[i].author == s0[ki].author ==> (s0[i].start_id + s0[i].length
                        <= s0[ki].start_id || s0[ki].start_id + s0[ki].length <= s0[i].start_id));
                    assert(1 <= s0[i].length);
                } else {
                    let i0: int = if i < ki - 1 {
                        i
                    } else {
                        i + 1
                    };
                    let j0: int = if j < ki - 1 {
                        j
                    } else {
                        j + 1
                    };
                    assert(s4[i] == s0[i0] && s4[j] == s0[j0]);
                    assert(0 <= i0 < j0 < s0.len());
                    assert(s0[i0].author == s0[j0].author ==> (s0[i0].start_id + s0[i0].length
                        <= s0[j0].start_id || s0[j0].start_id + s0[j0].length
                        <= s0[i0].start_id));
                }
            }
            assert forall|i: int|
                0 <= i && i + 1 < n4 && !(s4[i]).deleted && !s4[i + 1].deleted && s4[i].author
                    == s4[i + 1].author implies s4[i].start_id + s4[i].length != s4[i
                + 1].start_id by {
                if i + 1 < ki - 1 {
                    assert(!s0[i].deleted && !s0[i + 1].deleted && s0[i].author == s0[i + 1].author
                        ==> s0[i].start_id + s0[i].length != s0[i + 1].start_id);
                } else if i > ki - 1 {
                    assert(!s0[i + 1].deleted && !s0[i + 2].deleted && s0[i + 1].author == s0[i
                        + 2].author ==> s0[i + 1].start_id + s0[i + 1].length != s0[i
                        + 2].start_id);
                }
            }
            assert(spans_wf(s4));
            assert forall|x: StableId| covers(s4, x) <==> covers(s0, x) by {
                if covers(s4, x) {
                    let w = choose|w: int| 0 <= w < s4.len() && span_covers(s4[w], x);
                    if w < ki - 1 {
                        assert(span_covers(s0[w], x));
                    } else if w == ki - 1 {
                        if x.id < s0[ki - 1].start_id + s0[ki - 1].length {
                            assert(span_covers(s0[ki - 1], x));
                        } else {
                            assert(span_covers(s0[ki], x));
                        }
                    } else {
                        assert(span_covers(s0[w + 1], x));
                    }
                }
                if covers(s0, x) {
                    let w = choose|w: int| 0 <= w < s0.len() && span_covers(s0[w], x);
                    if w < ki - 1 {
                        assert(span_covers(s4[w], x));
                    } else if w == ki - 1 || w == ki {
                        assert(span_covers(s4[ki - 1], x));
                    } else {
                        assert(span_covers(s4[w - 1], x));
                    }
                    assert(covers(s4, x));
                }
            }
            assert forall|x: StableId| covers_live(s4, x) <==> covers_live(s0, x) by {
                if covers_live(s4, x) {
                    let w = choose|w: int|
                        0 <= w < s4.len() && span_covers(s4[w], x) && !s4[w].deleted;
                    if w < ki - 1 {
                        assert(span_covers(s0[w], x) && !s0[w].deleted);
                    } else if w == ki - 1 {
                        assert(false);
                    } else {
                        assert(span_covers(s0[w + 1], x) && !s0[w + 1].deleted);
                    }
                }
                if covers_live(s0, x) {
                    let w = choose|w: int|
                        0 <= w < s0.len() && span_covers(s0[w], x) && !s0[w].deleted;
                    if w < ki - 1 {
                        assert(span_covers(s4[w], x) && !s4[w].deleted);
                    } else if w == ki - 1 || w == ki {
                        assert(false);
                    } else {
                        assert(span_covers(s4[w - 1], x) && !s4[w - 1].deleted);
                    }
                    assert(covers_live(s4, x));
                }
            }
            assert(s4[ki - 1].deleted);
            lemma_coalesce_positions(s0, s4, ki);
        }
    }
}

/// The prepend-merge delete on a span of length at least 2: the span loses
/// its last identifier and the same-author tombstone after it absorbs it.
#[verifier::rlimit(100)]
#[verifier::spinoff_prover]
fn delete_merge_shrink(spans: &mut Vec<Span>, k: usize)
    requires
        merge_pre(old(spans)@, k as int),
        k < old(spans)@.len(),
        old(spans)@[k as int].length >= 2,
    ensures
        spans_wf(final (spans)@),
        live_len(final (spans)@) == live_len(old(spans)@) - 1,
        forall|x: StableId| covers(final (spans)@, x) <==> covers(old(spans)@, x),
        forall|x: StableId|
            covers_live(final (spans)@, x) <==> covers_live(old(spans)@, x) && x != delete_target(
                old(spans)@,
                k as int,
                old(spans)@[k as int].length - 1,
            ),
        final (spans)@.len() == old(spans)@.len(),
        forall|x: StableId|
            covers_live(old(spans)@, x) && x != delete_target(
                old(spans)@,
                k as int,
                old(spans)@[k as int].length - 1,
            ) ==> position_of_id(final (spans)@, x) == (if position_of_id(old(spans)@, x) > old(
                spans,
            )@[k as int].document_index + old(spans)@[k as int].length - 2 {
                position_of_id(old(spans)@, x) - 1
            } else {
                position_of_id(old(spans)@, x)
            }),
{
    let ghost s0 = spans@;
    let ghost ki = k as int;
    let n = spans.len();
    proof {
        lemma_document_index_is_live_prefix(s0, ki);
        assert(s0[ki + 1].document_index == s0[ki].document_index + span_live(s0[ki]));
    }
    let mut t = spans[k + 1];
    t.document_index = t.document_index - 1;
    t.start_id = t.start_id - 1;
    t.length = t.length + 1;
    spans[k + 1] = t;
    let mut s = spans[k];
    s.length = s.length - 1;
    spans[k] = s;
    proof {
        assert forall|i: int| k + 2 <= i < spans@.len() implies (#[trigger] spans@[i]).document_index
            >= 1 by {
            assert(spans@[i] == s0[i]);
            lemma_document_index_is_live_prefix(s0, i);
            lemma_live_len_take_step(s0, ki);
            lemma_live_len_mono(s0, ki + 1, i);
        }
    }
    shift_down(spans, k + 2);
    let ghost s4 = spans@;
    proof {
        assert(merge_shape(s0, s4, ki));
        lemma_merge_wf(s0, s4, ki);
        lemma_merge_covers(s0, s4, ki);
        lemma_merge_positions(s0, s4, ki);
    }
}

/// The prepend-merge delete on a span of length 1: the span is removed, the
/// same-author tombstone after it absorbs its identifier, and the two
/// tombstones now adjacent are folded if mergeable.
#[verifier::rlimit(100)]
#[verifier::spinoff_prover]
fn delete_merge_collapse(spans: &mut Vec<Span>, k: usize)
    requires
        merge_pre(old(spans)@, k as int),
        k < old(spans)@.len(),
        old(spans)@[k as int].length == 1,
        old(spans)@[k as int].document_index >= 1,
    ensures
        spans_wf(final (spans)@),
        live_len(final (spans)@) == live_len(old(spans)@) - 1,
        forall|x: StableId| covers(final (spans)@, x) <==> covers(old(spans)@, x),
        forall|x: StableId|
            covers_live(final (spans)@, x) <==> covers_live(old(spans)@, x) && x != delete_target(
                old(spans)@,
                k as int,
                0,
            ),
        final (spans)@.len() <= old(spans)@.len() - 1,
        forall|x: StableId|
            covers_live(old(spans)@, x) && x != delete_target(old(spans)@, k as int, 0)
                ==> position_of_id(final (spans)@, x) == (if position_of_id(old(spans)@, x) > old(
                spans,
            )@[k as int].document_index - 1 {
                position_of_id(old(spans)@, x) - 1
            } else {
                position_of_id(old(spans)@, x)
            }),
{
    let ghost s0 = spans@;
    let ghost ki = k as int;
    let n = spans.len();
    proof {
        assert(ki >= 1) by {
            if ki == 0 {
                assert(s0[0].document_index == 0);
            }
        }
        lemma_document_index_is_live_prefix(s0, ki);
        assert(s0[ki + 1].document_index == s0[ki].document_index + span_live(s0[ki]));
    }
    let mut t = spans[k + 1];
    t.document_index = t.document_index - 1;
    t.start_id = t.start_id - 1;
    t.length = t.length + 1;
    spans[k + 1] = t;
    let ghost s2 = spans@;
    spans.remove(k);
    let ghost s3 = spans@;
    proof {
        s2.remove_ensures(ki);
        assert forall|i: int| k + 1 <= i < s3.len() implies (#[trigger] s3[i]).document_index
            >= 1 by {
            assert(s3[i] == s2[i + 1]);
            assert(s2[i + 1] == s0[i + 1]);
            lemma_document_index_is_live_prefix(s0, i + 1);
            lemma_live_len_take_step(s0, ki);
            lemma_live_len_mono(s0, ki + 1, i + 1);
        }
    }
    shift_down(spans, k + 1);
    let ghost s4 = spans@;
    proof {
        assert forall|i: int| 0 <= i < ki implies s4[i] == s0[i] by {
            assert(s3[i] == s2[i]);
            assert(s2[i] == s0[i]);
        }
        assert(s4[ki] == t) by {
            assert(s3[ki] == s2[ki + 1]);
        }
        assert forall|i: int| ki + 1 <= i < s4.len() implies shifted_down(
            #[trigger] s4[i],
            s0[i + 1],
        ) by {
            assert(s3[i] == s2[i + 1]);
            assert(s2[i + 1] == s0[i + 1]);
        }
        assert(merge_collapse_shape(s0, s4, ki));
        lemma_merge_collapse_wf(s0, s4, ki);
        lemma_merge_collapse_covers(s0, s4, ki);
        lemma_merge_collapse_positions(s0, s4, ki);
        assert(s4[ki - 1] == s0[ki - 1]);
        assert(s4[ki].start_id == s0[ki].start_id && s4[ki].author == s0[ki].author);
        assert(!s0[ki - 1].deleted && !s0[ki].deleted && s0[ki - 1].author == s0[ki].author
            ==> s0[ki - 1].start_id + s0[ki - 1].length != s0[ki].start_id);
    }
    let ghost s5 = spans@;
    coalesce_tombstones(spans, k);
    proof {
        assert forall|x: StableId| covers(spans@, x) <==> covers(s0, x) by {
            assert(covers(spans@, x) <==> covers(s5, x));
            assert(covers(s5, x) <==> covers(s0, x));
        }
        assert forall|x: StableId|
            covers_live(spans@, x) <==> covers_live(s0, x) && x != delete_target(s0, ki, 0) by {
            assert(covers_live(spans@, x) <==> covers_live(s5, x));
            assert(covers_live(s5, x) <==> covers_live(s0, x) && x != delete_target(s0, ki, 0));
        }
        assert forall|x: StableId|
            covers_live(s0, x) && x != delete_target(s0, ki, 0) implies position_of_id(spans@, x)
            == (if position_of_id(s0, x) > s0[ki].document_index - 1 {
            position_of_id(s0, x) - 1
        } else {
            position_of_id(s0, x)
        }) by {
            assert(covers_live(s5, x));
            assert(position_of_id(spans@, x) == position_of_id(s5, x));
            assert(position_of_id(s5, x) == (if position_of_id(s0, x) > s0[ki].document_index
                - 1 {
                position_of_id(s0, x) - 1
            } else {
                position_of_id(s0, x)
            }));
        }
    }
}

/// The tombstoning delete inside a span, at an offset past its first
/// identifier: the span keeps its head, a fresh tombstone takes the deleted
/// identifier, and a trailing live span keeps the rest if any.
#[verifier::rlimit(100)]
#[verifier::spinoff_prover]
fn delete_tomb_shrink(spans: &mut Vec<Span>, k: usize, off: u32)
    requires
        delete_pre(old(spans)@, k as int, off as int),
        1 <= off,
    ensures
        spans_wf(final (spans)@),
        live_len(final (spans)@) == live_len(old(spans)@) - 1,
        forall|x: StableId| covers(final (spans)@, x) <==> covers(old(spans)@, x),
        forall|x: StableId|
            covers_live(final (spans)@, x) <==> covers_live(old(spans)@, x) && x != delete_target(
                old(spans)@,
                k as int,
                off as int,
            ),
        forall|x: StableId|
            covers_live(old(spans)@, x) && x != delete_target(old(spans)@, k as int, off as int)
                ==> position_of_id(final (spans)@, x) == (if position_of_id(old(spans)@, x) > old(
                spans,
            )@[k as int].document_index + off - 1 {
                position_of_id(old(spans)@, x) - 1
            } else {
                position_of_id(old(spans)@, x)
            }),
{
    let ghost s0 = spans@;
    let ghost ki = k as int;
    let n = spans.len();
    let sp = spans[k];
    proof {
        lemma_document_index_is_live_prefix(s0, ki);
        lemma_span_within_live_len(s0, ki);
    }
    let t = Span {
        document_index: sp.document_index + off,
        length: 1,
        start_id: sp.start_id + off,
        author: sp.author,
        deleted: true,
    };
    spans.insert(k + 1, t);
    proof {
        s0.insert_ensures(ki + 1, t);
    }
    let ghost s1 = spans@;
    let n1 = spans.len();
    let has_trail = off + 1 < sp.length;
    let ghost tr: int = if has_trail {
        1
    } else {
        0
    };
    if has_trail {
        let trail = Span {
            document_index: sp.document_index + off,
            length: sp.length - off - 1,
            start_id: sp.start_id + off + 1,
            author: sp.author,
            deleted: false,
        };
        spans.insert(k + 2, trail);
        proof {
            s1.insert_ensures(ki + 2, trail);
        }
        let n2 = spans.len();
        proof {
            assert(n2 == n + 2);
        }
    }
    let ghost s2 = spans@;
    let mut s = spans[k];
    s.length = off;
    spans[k] = s;
    let ghost s3 = spans@;
    proof {
        assert forall|i: int| 0 <= i < ki implies s3[i] == s0[i] by {
            assert(s2[i] == s1[i]);
            assert(s1[i] == s0[i]);
        }
        assert(s3[ki + 1] == t) by {
            assert(s2[ki + 1] == s1[ki + 1]);
        }
        assert forall|i: int| ki + 2 + tr <= i < s3.len() implies #[trigger] s3[i] == s0[i - 1
            - tr] by {
            assert(s3[i] == s2[i]);
            assert(s2[i] == s1[i - tr]);
            assert(s1[i - tr] == s0[i - 1 - tr]);
        }
        assert forall|i: int| k + 2 + tr <= i < s3.len() implies (#[trigger] s3[i]).document_index
            >= 1 by {
            assert(s3[i] == s0[i - 1 - tr]);
            lemma_document_index_is_live_prefix(s0, i - 1 - tr);
            lemma_live_len_take_step(s0, ki);
            lemma_live_len_mono(s0, ki + 1, i - 1 - tr);
        }
    }
    let from = if has_trail {
        k + 3
    } else {
        k + 2
    };
    shift_down(spans, from);
    let ghost s4 = spans@;
    proof {
        assert(s4[ki + 1] == t) by {
            assert(s3[ki + 1] == t);
        }
        if has_trail {
            assert(s4[ki + 2] == s3[ki + 2]);
        }
        assert forall|i: int| ki + 2 + tr <= i < s4.len() implies shifted_down(
            #[trigger] s4[i],
            s0[i - 1 - tr],
        ) by {
            assert(s3[i] == s0[i - 1 - tr]);
        }
        assert(tomb_shape(s0, s4, ki, off as int));
        lemma_tomb_wf(s0, s4, ki, off as int);
        lemma_tomb_covers(s0, s4, ki, off as int);
        lemma_tomb_positions(s0, s4, ki, off as int);
    }
}

/// The tombstoning delete of a span's first identifier: the head is gone, a
/// fresh tombstone stands in its place, a trailing live span keeps the rest
/// if any, and an adjacent same-author tombstone pair is folded.
#[verifier::rlimit(100)]
#[verifier::spinoff_prover]
fn delete_tomb_collapse(spans: &mut Vec<Span>, k: usize)
    requires
        delete_pre(old(spans)@, k as int, 0),
    ensures
        spans_wf(final (spans)@),
        live_len(final (spans)@) == live_len(old(spans)@) - 1,
        forall|x: StableId| covers(final (spans)@, x) <==> covers(old(spans)@, x),
        forall|x: StableId|
            covers_live(final (spans)@, x) <==> covers_live(old(spans)@, x) && x != delete_target(
                old(spans)@,
                k as int,
                0,
            ),
        (old(spans)@[k - 1].author == old(spans)@[k as int].author && old(spans)@[k - 1].start_id
            + old(spans)@[k - 1].length == old(spans)@[k as int].start_id) ==> final (spans)@.len()
            <= old(spans)@.len(),
        forall|x: StableId|
            covers_live(old(spans)@, x) && x != delete_target(old(spans)@, k as int, 0)
                ==> position_of_id(final (spans)@, x) == (if position_of_id(old(spans)@, x) > old(
                spans,
            )@[k as int].document_index - 1 {
                position_of_id(old(spans)@, x) - 1
            } else {
                position_of_id(old(spans)@, x)
            }),
{
    let ghost s0 = spans@;
    let ghost ki = k as int;
    let n = spans.len();
    let sp = spans[k];
    proof {
        assert(ki >= 1) by {
            if ki == 0 {
                assert(s0[0].document_index == 0);
            }
        }
        lemma_document_index_is_live_prefix(s0, ki);
        lemma_span_within_live_len(s0, ki);
    }
    let t = Span {
        document_index: sp.document_index,
        length: 1,
        start_id: sp.start_id,
        author: sp.author,
        deleted: true,
    };
    spans.insert(k + 1, t);
    proof {
        s0.insert_ensures(ki + 1, t);
    }
    let ghost s1 = spans@;
    let n1 = spans.len();
    let has_trail = sp.length > 1;
    let ghost tr: int = if has_trail {
        1
    } else {
        0
    };
    if has_trail {
        let trail = Span {
            document_index: sp.document_index,
            length: sp.length - 1,
            start_id: sp.start_id + 1,
            author: sp.author,
            deleted: false,
        };
        spans.insert(k + 2, trail);
        proof {
            s1.insert_ensures(ki + 2, trail);
        }
        let n2 = spans.len();
        proof {
            assert(n2 == n + 2);
        }
    }
    let ghost s2 = spans@;
    proof {
        assert forall|i: int| 0 <= i < ki implies s2[i] == s0[i] by {
            assert(s1[i] == s0[i]);
        }
        assert(s2[ki] == s0[ki]) by {
            assert(s1[ki] == s0[ki]);
        }
        assert(s2[ki + 1] == t) by {
            assert(s1[ki + 1] == t);
        }
        assert forall|i: int| ki + 2 + tr <= i < s2.len() implies #[trigger] s2[i] == s0[i - 1
            - tr] by {
            assert(s2[i] == s1[i - tr]);
            assert(s1[i - tr] == s0[i - 1 - tr]);
        }
    }
    spans.remove(k);
    let ghost s3 = spans@;
    proof {
        s2.remove_ensures(ki);
        assert forall|i: int| k + 1 + tr <= i < s3.len() implies (#[trigger] s3[i]).document_index
            >= 1 by {
            assert(s3[i] == s2[i + 1]);
            assert(s2[i + 1] == s0[i - tr]);
            lemma_document_index_is_live_prefix(s0, i - tr);
            lemma_live_len_take_step(s0, ki);
            lemma_live_len_mono(s0, ki + 1, i - tr);
        }
    }
    let from = if has_trail {
        k + 2
    } else {
        k + 1
    };
    shift_down(spans, from);
    let ghost s4 = spans@;
    proof {
        assert forall|i: int| 0 <= i < ki implies s4[i] == s0[i] by {
            assert(s3[i] == s2[i]);
        }
        assert(s4[ki] == t) by {
            assert(s3[ki] == s2[ki + 1]);
        }
        if has_trail {
            assert(s4[ki + 1] == s3[ki + 1]) by {}
            assert(s3[ki + 1] == s2[ki + 2]);
        }
        assert forall|i: int| ki + 1 + tr <= i < s4.len() implies shifted_down(
            #[trigger] s4[i],
            s0[i - tr],
        ) by {
            assert(s3[i] == s2[i + 1]);
            assert(s2[i + 1] == s0[i - tr]);
        }
        assert(tomb_collapse_shape(s0, s4, ki));
        lemma_tomb_collapse_wf(s0, s4, ki);
        lemma_tomb_collapse_covers(s0, s4, ki);
        lemma_tomb_collapse_positions(s0, s4, ki);
        assert(s4[ki - 1] == s0[ki - 1]);
        assert(s4[ki].start_id == s0[ki].start_id && s4[ki].author == s0[ki].author);
        assert(!s0[ki - 1].deleted && !s0[ki].deleted && s0[ki - 1].author == s0[ki].author
            ==> s0[ki - 1].start_id + s0[ki - 1].length != s0[ki].start_id);
    }
    let ghost s5 = spans@;
    coalesce_tombstones(spans, k);
    proof {
        assert forall|x: StableId| covers(spans@, x) <==> covers(s0, x) by {
            assert(covers(spans@, x) <==> covers(s5, x));
            assert(covers(s5, x) <==> covers(s0, x));
        }
        assert forall|x: StableId|
            covers_live(spans@, x) <==> covers_live(s0, x) && x != delete_target(s0, ki, 0) by {
            assert(covers_live(spans@, x) <==> covers_live(s5, x));
            assert(covers_live(s5, x) <==> covers_live(s0, x) && x != delete_target(s0, ki, 0));
        }
        assert forall|x: StableId|
            covers_live(s0, x) && x != delete_target(s0, ki, 0) implies position_of_id(spans@, x)
            == (if position_of_id(s0, x) > s0[ki].document_index - 1 {
            position_of_id(s0, x) - 1
        } else {
            position_of_id(s0, x)
        }) by {
            assert(covers_live(s5, x));
            assert(position_of_id(spans@, x) == position_of_id(s5, x));
            assert(position_of_id(s5, x) == (if position_of_id(s0, x) > s0[ki].document_index
                - 1 {
                position_of_id(s0, x) - 1
            } else {
                position_of_id(s0, x)
            }));
        }
    }
}

/// The span index of one replica: the span list, the element container it
/// indexes, the replica's author and its counter of locally assigned
/// identifiers.
#[derive(Clone)]
pub struct SmallVectorImpl<V> {
    pub next_local_id: u32,
    pub local_author: u16,
    pub spans: Vec<Span>,
    pub document: V,
}

impl<V: CrdtCollection> SmallVectorImpl<V> {
    /// The span list is well formed and covers exactly the document's
    /// elements plus the sentinel's virtual slot.
    pub open spec fn wf(&self) -> bool {
        &&& spans_wf(self.spans@)
        &&& live_len(self.spans@) == self.document.contents().len() + 1
    }

    pub open spec fn doc(&self) -> Seq<V::Element> {
        self.document.contents()
    }

    /// A fresh, empty replica. Author 0 is reserved for the sentinel.
    pub fn new(local_author: u16) -> (r: Self)
        requires
            local_author != 0,
        ensures
            r.wf(),
            r.doc() == Seq::<V::Element>::empty(),
            r.local_author == local_author,
            r.next_local_id == 0,
            r.spans@.len() == 1,
            r.spans@[0] == (Span {
                document_index: 0,
                length: 1,
                start_id: 0,
                author: 0,
                deleted: false,
            }),
            forall|x: StableId| covers(r.spans@, x) <==> (x.author == 0 && x.id == 0),
            forall|x: StableId| covers_live(r.spans@, x) <==> (x.author == 0 && x.id == 0),
    {
        Self::with_data(V::new(), local_author)
    }

    /// A replica over existing data. The sentinel covers one virtual slot
    /// plus one identifier per existing element, all under author 0.
    pub fn with_data(data: V, local_author: u16) -> (r: Self)
        requires
            local_author != 0,
            data.contents().len() + 1 <= u32::MAX,
        ensures
            r.wf(),
            r.doc() == data.contents(),
            r.local_author == local_author,
            r.next_local_id == 0,
            r.spans@.len() == 1,
            r.spans@[0] == (Span {
                document_index: 0,
                length: (data.contents().len() + 1) as u32,
                start_id: 0,
                author: 0,
                deleted: false,
            }),
            forall|x: StableId|
                covers(r.spans@, x) <==> (x.author == 0 && x.id <= data.contents().len()),
            forall|x: StableId|
                covers_live(r.spans@, x) <==> (x.author == 0 && x.id <= data.contents().len()),
    {
        let len = data.length();
        let sentinel = Span {
            document_index: 0,
            length: (len as u32) + 1,
            start_id: 0,
            author: 0,
            deleted: false,
        };
        let mut spans: Vec<Span> = Vec::new();
        spans.push(sentinel);
        let r = Self { next_local_id: 0, local_author, spans, document: data };
        proof {
            assert(r.spans@ =~= seq![sentinel]);
            assert(r.spans@.drop_last() =~= Seq::<Span>::empty());
            assert(live_len(Seq::<Span>::empty()) == 0);
            assert(live_len(r.spans@) == sentinel.length as int);
            assert forall|x: StableId| covers(r.spans@, x) implies (x.author == 0 && x.id
                <= data.contents().len()) by {
                let i = choose|i: int| 0 <= i < r.spans@.len() && span_covers(r.spans@[i], x);
            }
            assert forall|x: StableId| (x.author == 0 && x.id <= data.contents().len()) implies covers_live(
                r.spans@,
                x,
            ) by {
                assert(span_covers(r.spans@[0], x) && !r.spans@[0].deleted);
            }
        }
        r
    }

    /// Hand out the next locally assigned identifier and advance the counter.
    pub fn next_local_id(&mut self) -> (r: u32)
        requires
            old(self).next_local_id < u32::MAX,
        ensures
            r == old(self).next_local_id,
            *final (self) == (Self { next_local_id: (old(self).next_local_id + 1) as u32, ..*old(self) }),
    {
        let id = self.next_local_id;
        self.next_local_id = self.next_local_id + 1;
        id
    }

    pub fn author(&self) -> (r: u16)
        ensures
            r == self.local_author,
    {
        self.local_author
    }

    /// Resolve the live span covering the 1-based position `target`.
    /// Position 0 is the sentinel's virtual slot, so every target up to the
    /// document length resolves.
    pub(crate) fn locate(&self, target: u32) -> (r: LocalId)
        requires
            self.wf(),
            target < live_len(self.spans@),
        ensures
            valid_local(self.spans@, r),
            !r.span.deleted,
            r.span.document_index + r.offset == target,
            stable_of(r) == anchor_at(self.spans@, target as int),
    {
        let s_len = self.spans.len();
        proof {
            assert(self.spans@.take(0) =~= Seq::<Span>::empty());
        }
        let mut i: usize = 0;
        while i < s_len
            invariant
                self.wf(),
                target < live_len(self.spans@),
                s_len == self.spans@.len(),
                i <= s_len,
                live_len(self.spans@.take(i as int)) <= target,
            decreases s_len - i,
        {
            let sp = self.spans[i];
            proof {
                lemma_document_index_is_live_prefix(self.spans@, i as int);
                lemma_live_len_take_step(self.spans@, i as int);
                lemma_span_within_live_len(self.spans@, i as int);
            }
            if !sp.deleted && sp.document_index <= target && target < sp.document_index
                + sp.length {
                proof {
                    let t = target as int;
                    let j = choose|j: int|
                        0 <= j < self.spans@.len() && !self.spans@[j].deleted
                            && self.spans@[j].document_index <= t < self.spans@[j].document_index
                            + self.spans@[j].length;
                    lemma_position_unique(self.spans@, i as int, j, t);
                }
                return LocalId { span_index: i, offset: target - sp.document_index, span: sp };
            }
            i += 1;
        }
        proof {
            lemma_live_len_take_full(self.spans@);
        }
        unreached()
    }

    /// Resolve the element at the 0-based document index `index`: the unique
    /// live span covering position `index + 1`.
    pub fn position(&self, index: usize) -> (r: LocalId)
        requires
            self.wf(),
            index < self.doc().len(),
        ensures
            valid_local(self.spans@, r),
            !r.span.deleted,
            r.span.document_index + r.offset == index + 1,
            stable_of(r) == stable_at(self.spans@, index as int),
    {
        self.locate((index as u32) + 1)
    }

    /// Resolve a stable identifier to its cursor. The identifier must be
    /// known to this replica; `try_stable_position` reports the ones that
    /// are not.
    pub fn stable_position(&self, id: StableId) -> (r: LocalId)
        requires
            self.wf(),
            covers(self.spans@, id),
        ensures
            resolved(self.spans@, r, id),
    {
        match self.try_stable_position(id) {
            Some(r) => r,
            None => unreached(),
        }
    }

    /// Resolve a stable identifier to its cursor, or report that no span of
    /// this replica covers it (the update that carries it has not arrived).
    pub fn try_stable_position(&self, id: StableId) -> (r: Option<LocalId>)
        requires
            self.wf(),
        ensures
            match r {
                Some(loc) => resolved(self.spans@, loc, id),
                None => !covers(self.spans@, id),
            },
            r is Some <==> covers(self.spans@, id),
    {
        let s_len = self.spans.len();
        let mut i: usize = 0;
        while i < s_len
            invariant
                self.wf(),
                s_len == self.spans@.len(),
                i <= s_len,
                forall|j: int| 0 <= j < i ==> !span_covers(self.spans@[j], id),
            decreases s_len - i,
        {
            let sp = self.spans[i];
            if sp.author == id.author && sp.start_id <= id.id && id.id < sp.start_id + sp.length {
                let offset = if sp.deleted {
                    0
                } else {
                    id.id - sp.start_id
                };
                return Some(LocalId { span_index: i, offset, span: sp });
            }
            i += 1;
        }
        proof {
            if covers(self.spans@, id) {
                let j = choose|j: int| 0 <= j < self.spans@.len() && span_covers(
                    self.spans@[j],
                    id,
                );
                assert(false);
            }
        }
        None
    }

    /// Insert `value` immediately after the identifier resolved by
    /// `previous`, under the fresh stable identifier `current`.
    ///
    /// `current` must lie strictly above every identifier its author has
    /// produced on this replica: one author's inserts are applied in their
    /// emission order. Anchoring on a tombstoned identifier is allowed and
    /// places the element at the tombstone's recorded live-neighbour
    /// position: a deliberate convergence choice, so an insert after a
    /// concurrently deleted element is not an error.
    ///
    /// Afterwards the document holds `value` at the landing position, every
    /// identifier known before is still known with its liveness unchanged,
    /// and `current` is known and live: identifier ranges are only
    /// partitioned, never rewritten. When `current` extends the anchor's own
    /// span (continuous typing), the span list does not grow.
    #[verifier::rlimit(60)]
    pub fn insert(&mut self, previous: LocalId, current: StableId, value: V::Element)
        requires
            old(self).wf(),
            valid_local(old(self).spans@, previous),
            author_max_lt(old(self).spans@, current.author, current.id),
            current.author != 0,
            current.id < u32::MAX,
            live_len(old(self).spans@) < u32::MAX,
        ensures
            final (self).wf(),
            final (self).local_author == old(self).local_author,
            final (self).next_local_id == old(self).next_local_id,
            final (self).doc() == old(self).doc().insert(insert_position(previous) - 1, value),
            final (self).doc().len() == old(self).doc().len() + 1,
            forall|x: StableId|
                covers(final (self).spans@, x) <==> covers(old(self).spans@, x) || x == current,
            forall|x: StableId|
                covers_live(final (self).spans@, x) <==> covers_live(old(self).spans@, x) || x
                    == current,
            (!previous.span.deleted && previous.span.start_id + previous.span.length == current.id
                && previous.offset + 1 == previous.span.length && previous.span.author
                == current.author) ==> final (self).spans@.len() == old(self).spans@.len(),
            anchor_at(final (self).spans@, insert_position(previous)) == current,
            position_of_id(final (self).spans@, current) == insert_position(previous) - 1,
            forall|x: StableId|
                covers_live(old(self).spans@, x) ==> position_of_id(final (self).spans@, x) == (
                if position_of_id(old(self).spans@, x) >= insert_position(previous) - 1 {
                    position_of_id(old(self).spans@, x) + 1
                } else {
                    position_of_id(old(self).spans@, x)
                }),
    {
        let ghost s0 = self.spans@;
        let ghost ki = previous.span_index as int;
        let k = previous.span_index;
        proof {
            assert(s0[ki] == previous.span);
            lemma_document_index_is_live_prefix(s0, ki);
            lemma_span_within_live_len(s0, ki);
            lemma_live_len_take_full(s0);
            lemma_live_len_mono(s0, ki, s0.len() as int);
        }
        if previous.span.deleted {
            proof {
                // the tombstone sits behind the live sentinel, so its
                // recorded position is at least 1
                assert(ki != 0);
                assert(s0.take(0) =~= Seq::<Span>::empty());
                assert(live_len(Seq::<Span>::empty()) == 0);
                lemma_live_len_take_step(s0, 0);
                lemma_live_len_mono(s0, 1, ki);
                assert(previous.span.document_index >= 1);
            }
            let new_span = Span {
                document_index: previous.span.document_index,
                length: 1,
                start_id: current.id,
                author: current.author,
                deleted: false,
            };
            insert_solo_span(&mut self.spans, k, new_span);
            self.document.insert((previous.span.document_index - 1) as usize, value);
            proof {
                assert forall|x: StableId|
                    covers(self.spans@, x) <==> covers(s0, x) || x == current by {
                    assert(span_covers(new_span, x) <==> x == current);
                    assert(covers(self.spans@, x) <==> covers(s0, x) || span_covers(new_span, x));
                }
                assert forall|x: StableId|
                    covers_live(self.spans@, x) <==> covers_live(s0, x) || x == current by {
                    assert(span_covers(new_span, x) <==> x == current);
                    assert(covers_live(self.spans@, x) <==> covers_live(s0, x) || span_covers(
                        new_span,
                        x,
                    ));
                }
                assert(new_span.document_index == insert_position(previous));
                assert forall|x: StableId| covers_live(s0, x) implies position_of_id(
                    self.spans@,
                    x,
                ) == (
                if position_of_id(s0, x) >= insert_position(previous) - 1 {
                    position_of_id(s0, x) + 1
                } else {
                    position_of_id(s0, x)
                }) by {
                    assert(position_of_id(self.spans@, x) == (if position_of_id(s0, x)
                        >= new_span.document_index - 1 {
                        position_of_id(s0, x) + 1
                    } else {
                        position_of_id(s0, x)
                    }));
                }
            }
        } else {
            let doc_slot = previous.span.document_index + previous.offset + 1;
            self.document.insert((doc_slot - 1) as usize, value);
            if previous.span.start_id + previous.span.length == current.id && previous.offset + 1
                == previous.span.length && previous.span.author == current.author {
                extend_span(&mut self.spans, k);
                proof {
                    let c = StableId {
                        author: s0[ki].author,
                        id: (s0[ki].start_id + s0[ki].length) as u32,
                    };
                    assert(c == current);
                    assert forall|x: StableId|
                        covers(self.spans@, x) <==> covers(s0, x) || x == current by {
                        assert(covers(self.spans@, x) <==> covers(s0, x) || x == c);
                    }
                    assert forall|x: StableId|
                        covers_live(self.spans@, x) <==> covers_live(s0, x) || x == current by {
                        assert(covers_live(self.spans@, x) <==> covers_live(s0, x) || x == c);
                    }
                    assert(s0[ki].document_index + s0[ki].length == insert_position(previous));
                    assert(position_of_id(self.spans@, current) == insert_position(previous) - 1);
                    assert forall|x: StableId| covers_live(s0, x) implies position_of_id(
                        self.spans@,
                        x,
                    ) == (
                    if position_of_id(s0, x) >= insert_position(previous) - 1 {
                        position_of_id(s0, x) + 1
                    } else {
                        position_of_id(s0, x)
                    }) by {
                        assert(position_of_id(self.spans@, x) == (if position_of_id(s0, x)
                            >= s0[ki].document_index + s0[ki].length - 1 {
                            position_of_id(s0, x) + 1
                        } else {
                            position_of_id(s0, x)
                        }));
                    }
                }
            } else {
                let new_span = Span {
                    document_index: doc_slot,
                    length: 1,
                    start_id: current.id,
                    author: current.author,
                    deleted: false,
                };
                let new_length = previous.offset + 1;
                if new_length < previous.span.length {
                    split_span(&mut self.spans, k, new_span, new_length);
                } else {
                    proof {
                        assert(previous.offset + 1 == previous.span.length);
                        assert(new_span.document_index == s0[ki].document_index + span_live(
                            s0[ki],
                        ));
                    }
                    insert_solo_span(&mut self.spans, k, new_span);
                }
                proof {
                    assert forall|x: StableId|
                        covers(self.spans@, x) <==> covers(s0, x) || x == current by {
                        assert(span_covers(new_span, x) <==> x == current);
                        assert(covers(self.spans@, x) <==> covers(s0, x) || span_covers(
                            new_span,
                            x,
                        ));
                    }
                    assert forall|x: StableId|
                        covers_live(self.spans@, x) <==> covers_live(s0, x) || x == current by {
                        assert(span_covers(new_span, x) <==> x == current);
                        assert(covers_live(self.spans@, x) <==> covers_live(s0, x) || span_covers(
                            new_span,
                            x,
                        ));
                    }
                    assert(new_span.document_index == insert_position(previous));
                    assert forall|x: StableId| covers_live(s0, x) implies position_of_id(
                        self.spans@,
                        x,
                    ) == (
                    if position_of_id(s0, x) >= insert_position(previous) - 1 {
                        position_of_id(s0, x) + 1
                    } else {
                        position_of_id(s0, x)
                    }) by {
                        assert(position_of_id(self.spans@, x) == (if position_of_id(s0, x)
                            >= new_span.document_index - 1 {
                            position_of_id(s0, x) + 1
                        } else {
                            position_of_id(s0, x)
                        }));
                    }
                }
            }
        }
    }

    /// Delete the element named by the cursor `loc`. A tombstoned target
    /// makes the delete a no-op (a duplicate or concurrent delete left the
    /// state unchanged), so applying the same delete twice equals applying
    /// it once. Otherwise the element leaves the document, its identifier
    /// stays known forever as a tombstone, and every other identifier keeps
    /// its liveness: ranges are only partitioned or folded into adjacent
    /// tombstones, never rewritten.
    #[verifier::rlimit(100)]
    #[verifier::spinoff_prover]
    pub fn delete(&mut self, loc: LocalId)
        requires
            old(self).wf(),
            valid_local(old(self).spans@, loc),
            !loc.span.deleted ==> loc.span.document_index + loc.offset >= 1,
        ensures
            final (self).wf(),
            final (self).local_author == old(self).local_author,
            final (self).next_local_id == old(self).next_local_id,
            loc.span.deleted ==> *final (self) == *old(self),
            !loc.span.deleted ==> final (self).doc() == old(self).doc().remove(
                loc.span.document_index + loc.offset - 1,
            ),
            forall|x: StableId| covers(final (self).spans@, x) <==> covers(old(self).spans@, x),
            forall|x: StableId|
                covers_live(final (self).spans@, x) <==> covers_live(old(self).spans@, x) && x
                    != stable_of(loc),
            (!loc.span.deleted && merge_ready(old(self).spans@, loc)) ==> final (self).spans@.len()
                <= old(self).spans@.len(),
            (!loc.span.deleted && merge_ready(old(self).spans@, loc) && loc.span.length == 1)
                ==> final (self).spans@.len() < old(self).spans@.len(),
            (!loc.span.deleted && !merge_ready(old(self).spans@, loc) && fold_ready(
                old(self).spans@,
                loc,
            )) ==> final (self).spans@.len() <= old(self).spans@.len(),
            !loc.span.deleted ==> (forall|x: StableId|
                covers_live(old(self).spans@, x) && x != stable_of(loc) ==> position_of_id(
                    final (self).spans@,
                    x,
                ) == (if position_of_id(old(self).spans@, x) > loc.span.document_index
                    + loc.offset - 1 {
                    position_of_id(old(self).spans@, x) - 1
                } else {
                    position_of_id(old(self).spans@, x)
                })),
    {
        let ghost s0 = self.spans@;
        let ghost ki = loc.span_index as int;
        let ghost target = stable_of(loc);
        if loc.span.deleted {
            proof {
                assert forall|x: StableId|
                    covers_live(self.spans@, x) <==> covers_live(s0, x) && x != target by {
                    if covers_live(s0, x) && x == target {
                        let w = choose|w: int|
                            0 <= w < s0.len() && span_covers(s0[w], x) && !s0[w].deleted;
                        assert(span_covers(s0[ki], x));
                        lemma_id_unique(s0, w, ki, x);
                        assert(false);
                    }
                }
            }
            return ;
        }
        let k = loc.span_index;
        let sp = loc.span;
        proof {
            assert(s0[ki] == sp);
            lemma_document_index_is_live_prefix(s0, ki);
            lemma_span_within_live_len(s0, ki);
            lemma_live_len_take_full(s0);
            assert(delete_pre(s0, ki, loc.offset as int));
            assert(delete_target(s0, ki, loc.offset as int) == target);
        }
        let pos = sp.document_index + loc.offset;
        self.document.remove((pos - 1) as usize);
        let n = self.spans.len();
        let id = sp.start_id + loc.offset;
        let merge = if k + 1 < n {
            let next = self.spans[k + 1];
            next.start_id == id + 1 && next.author == sp.author && next.deleted && loc.offset + 1
                == sp.length
        } else {
            false
        };
        proof {
            assert(merge == merge_ready(s0, loc));
        }
        if merge {
            proof {
                assert(merge_pre(s0, ki));
            }
            if sp.length == 1 {
                delete_merge_collapse(&mut self.spans, k);
            } else {
                delete_merge_shrink(&mut self.spans, k);
            }
            proof {
                assert(delete_target(s0, ki, sp.length - 1) == target);
                assert forall|x: StableId|
                    covers_live(self.spans@, x) <==> covers_live(s0, x) && x != target by {
                    assert(covers_live(self.spans@, x) <==> covers_live(s0, x) && x
                        != delete_target(s0, ki, sp.length - 1));
                }
                assert forall|x: StableId|
                    covers_live(s0, x) && x != target implies position_of_id(self.spans@, x) == (
                if position_of_id(s0, x) > loc.span.document_index + loc.offset - 1 {
                    position_of_id(s0, x) - 1
                } else {
                    position_of_id(s0, x)
                }) by {
                    if sp.length == 1 {
                        assert(position_of_id(self.spans@, x) == (if position_of_id(s0, x)
                            > s0[ki].document_index - 1 {
                            position_of_id(s0, x) - 1
                        } else {
                            position_of_id(s0, x)
                        }));
                    } else {
                        assert(position_of_id(self.spans@, x) == (if position_of_id(s0, x)
                            > s0[ki].document_index + s0[ki].length - 2 {
                            position_of_id(s0, x) - 1
                        } else {
                            position_of_id(s0, x)
                        }));
                    }
                }
            }
        } else {
            if loc.offset == 0 {
                delete_tomb_collapse(&mut self.spans, k);
            } else {
                delete_tomb_shrink(&mut self.spans, k, loc.offset);
            }
            proof {
                assert forall|x: StableId|
                    covers_live(self.spans@, x) <==> covers_live(s0, x) && x != target by {
                    assert(covers_live(self.spans@, x) <==> covers_live(s0, x) && x
                        != delete_target(s0, ki, loc.offset as int));
                }
                assert forall|x: StableId|
                    covers_live(s0, x) && x != target implies position_of_id(self.spans@, x) == (
                if position_of_id(s0, x) > loc.span.document_index + loc.offset - 1 {
                    position_of_id(s0, x) - 1
                } else {
                    position_of_id(s0, x)
                }) by {
                    if loc.offset == 0 {
                        assert(position_of_id(self.spans@, x) == (if position_of_id(s0, x)
                            > s0[ki].document_index - 1 {
                            position_of_id(s0, x) - 1
                        } else {
                            position_of_id(s0, x)
                        }));
                    } else {
                        assert(position_of_id(self.spans@, x) == (if position_of_id(s0, x)
                            > s0[ki].document_index + loc.offset - 1 {
                            position_of_id(s0, x) - 1
                        } else {
                            position_of_id(s0, x)
                        }));
                    }
                }
            }
        }
    }

    /// The underlying document. The replica keeps no history there: it holds
    /// exactly the live elements.
    pub fn document(&self) -> (r: &V)
        ensures
            *r == self.document,
    {
        &self.document
    }
}

/// Container parity: in every well-formed replica the live spans cover
/// exactly the document's elements plus the sentinel's one virtual slot, so
/// the document length always equals the live coverage less one.
pub proof fn lemma_container_parity<V: CrdtCollection>(r: &SmallVectorImpl<V>)
    requires
        r.wf(),
    ensures
        live_len(r.spans@) == r.doc().len() + 1,
{
}

/// Emission and application resolve the same cursor: looking up the stable
/// identifier named by a live cursor returns that cursor. So a local insert,
/// which anchors on a cursor and emits its stable identifier, and the remote
/// application of that update, which resolves the identifier again, hand the
/// span index the same arguments and make the same change.
pub proof fn lemma_anchor_round_trip(s: Seq<Span>, loc1: LocalId, loc2: LocalId)
    requires
        spans_wf(s),
        valid_local(s, loc1),
        !loc1.span.deleted,
        resolved(s, loc2, stable_of(loc1)),
    ensures
        loc2 == loc1,
{
    let x = stable_of(loc1);
    assert(loc1.span.start_id + loc1.span.length <= u32::MAX);
    assert(span_covers(loc1.span, x));
    lemma_id_unique(s, loc1.span_index as int, loc2.span_index as int, x);
}

} // verus!
