//! The span model: the ordered list of identifier runs that a replica keeps,
//! and the invariants that hold of it in every reachable state.
//!
//! Positions are 1-based: position 0 is the virtual slot before the first
//! element, owned by the sentinel span. A live span whose `document_index` is
//! `d` covers positions `d .. d + length`; a tombstone covers no position and
//! records the position at which its next live neighbour starts.

use vstd::prelude::*;

verus! {

/// A globally unique, immortal identifier of an inserted element: the pair of
/// the author that produced it and that author's local counter value.
#[derive(Clone, Copy, PartialEq, Eq, Structural, Debug)]
pub struct StableId {
    pub author: u16,
    pub id: u32,
}

impl StableId {
    pub fn new(author: u16, id: u32) -> (r: Self)
        ensures
            r == (StableId { author, id }),
    {
        Self { author, id }
    }
}

/// One contiguous run of identifiers produced by a single author, mapped to a
/// contiguous run of document positions, or tombstoned.
#[derive(Clone, Copy, PartialEq, Eq, Structural, Debug)]
pub struct Span {
    /// 1-based position of the span's first element; for a tombstone, the
    /// position at which its next live neighbour starts.
    pub document_index: u32,
    /// Number of consecutive identifiers the span covers.
    pub length: u32,
    /// First identifier of the run: ids `start_id .. start_id + length`.
    pub start_id: u32,
    /// Author of every identifier in the run.
    pub author: u16,
    /// A tombstone contributes identifiers but no document elements.
    pub deleted: bool,
}

/// Number of live (element-bearing) positions a span contributes.
pub open spec fn span_live(sp: Span) -> int {
    if sp.deleted {
        0
    } else {
        sp.length as int
    }
}

/// Total number of live positions covered by a span list. This counts the
/// sentinel's virtual slot, so it exceeds the document length by one.
pub open spec fn live_len(s: Seq<Span>) -> int
    decreases s.len(),
{
    if s.len() == 0 {
        0
    } else {
        live_len(s.drop_last()) + span_live(s.last())
    }
}

/// Does `sp` cover the identifier `id`?
pub open spec fn span_covers(sp: Span, id: StableId) -> bool {
    sp.author == id.author && sp.start_id <= id.id < sp.start_id + sp.length
}

/// Is the identifier `id` covered by some span of `s`?
pub open spec fn covers(s: Seq<Span>, id: StableId) -> bool {
    exists|i: int| 0 <= i < s.len() && span_covers(#[trigger] s[i], id)
}

/// Is the identifier `id` covered by a live span of `s`?
pub open spec fn covers_live(s: Seq<Span>, id: StableId) -> bool {
    exists|i: int| 0 <= i < s.len() && span_covers(#[trigger] s[i], id) && !s[i].deleted
}

/// Every identifier of `author` present in `s` is strictly below `id`. A
/// replica applies the inserts of one author in emission order, so this holds
/// of each insert's own identifier when it arrives.
pub open spec fn author_max_lt(s: Seq<Span>, author: u16, id: u32) -> bool {
    forall|i: int|
        0 <= i < s.len() && (#[trigger] s[i]).author == author ==> s[i].start_id + s[i].length
            <= id
}

/// Positions chain: each span's `document_index` is its predecessor's plus
/// the live positions the predecessor covers. Equivalently, a span's
/// `document_index` is the count of live positions strictly before it, and
/// tombstones inherit the position of their next live neighbour.
pub open spec fn docs_chain(s: Seq<Span>) -> bool {
    &&& s.len() >= 1
    &&& s[0].document_index == 0
    &&& forall|i: int|
        0 <= i < s.len() - 1 ==> (#[trigger] s[i + 1]).document_index == s[i].document_index
            + span_live(s[i])
}

/// Well-formedness of a span list: the invariants that hold in every
/// reachable state.
///
/// - The list starts with the live sentinel: author 0, first id 0, position 0.
/// - Every span covers at least one identifier, and its id range fits in u32.
/// - Positions chain (`docs_chain`), and the total of live positions fits.
/// - The id ranges of one author are pairwise disjoint.
/// - No two adjacent live spans of one author abut in id space: such a pair
///   is always represented as a single span.
pub open spec fn spans_wf(s: Seq<Span>) -> bool {
    &&& s.len() >= 1
    &&& s[0].author == 0
    &&& s[0].start_id == 0
    &&& !s[0].deleted
    &&& docs_chain(s)
    &&& live_len(s) <= u32::MAX
    &&& forall|i: int| 0 <= i < s.len() ==> 1 <= (#[trigger] s[i]).length
    &&& forall|i: int| 0 <= i < s.len() ==> (#[trigger] s[i]).start_id + s[i].length <= u32::MAX
    &&& forall|i: int, j: int|
        0 <= i < j < s.len() && (#[trigger] s[i]).author == (#[trigger] s[j]).author ==> (s[i].start_id
            + s[i].length <= s[j].start_id || s[j].start_id + s[j].length <= s[i].start_id)
    &&& forall|i: int|
        0 <= i && i + 1 < s.len() && !(#[trigger] s[i]).deleted && !s[i + 1].deleted && s[i].author
            == s[i + 1].author ==> s[i].start_id + s[i].length != s[i + 1].start_id
}

/// Unfolding step for `live_len` over a prefix.
pub proof fn lemma_live_len_take_step(s: Seq<Span>, i: int)
    requires
        0 <= i < s.len(),
    ensures
        live_len(s.take(i + 1)) == live_len(s.take(i)) + span_live(s[i]),
{
    assert(s.take(i + 1).drop_last() =~= s.take(i));
    assert(s.take(i + 1).last() == s[i]);
}

/// `live_len` of a prefix grows with the prefix.
pub proof fn lemma_live_len_mono(s: Seq<Span>, i: int, j: int)
    requires
        0 <= i <= j <= s.len(),
    ensures
        live_len(s.take(i)) <= live_len(s.take(j)),
    decreases j - i,
{
    if i < j {
        lemma_live_len_mono(s, i, j - 1);
        lemma_live_len_take_step(s, j - 1);
    }
}

/// The whole list is its own prefix.
pub proof fn lemma_live_len_take_full(s: Seq<Span>)
    ensures
        live_len(s.take(s.len() as int)) == live_len(s),
{
    assert(s.take(s.len() as int) =~= s);
}

/// In a well-formed list, a span's `document_index` is the number of live
/// positions strictly before it.
pub proof fn lemma_document_index_is_live_prefix(s: Seq<Span>, i: int)
    requires
        docs_chain(s),
        0 <= i < s.len(),
    ensures
        s[i].document_index == live_len(s.take(i)),
    decreases i,
{
    if i == 0 {
        assert(s.take(0) =~= Seq::<Span>::empty());
    } else {
        lemma_document_index_is_live_prefix(s, i - 1);
        lemma_live_len_take_step(s, i - 1);
    }
}

/// In a well-formed list, every span's live range lies below the total.
pub proof fn lemma_span_within_live_len(s: Seq<Span>, i: int)
    requires
        docs_chain(s),
        0 <= i < s.len(),
    ensures
        s[i].document_index + span_live(s[i]) <= live_len(s),
{
    lemma_document_index_is_live_prefix(s, i);
    lemma_live_len_take_step(s, i);
    lemma_live_len_mono(s, i + 1, s.len() as int);
    lemma_live_len_take_full(s);
}

/// The total of live positions, read off the last span.
pub proof fn lemma_live_len_last(s: Seq<Span>)
    requires
        docs_chain(s),
    ensures
        live_len(s) == s[s.len() - 1].document_index + span_live(s[s.len() - 1]),
{
    lemma_document_index_is_live_prefix(s, s.len() - 1);
    lemma_live_len_take_step(s, s.len() - 1);
    lemma_live_len_take_full(s);
}

/// At most one live span covers a given position.
pub proof fn lemma_position_unique(s: Seq<Span>, i: int, j: int, target: int)
    requires
        docs_chain(s),
        0 <= i < s.len(),
        !s[i].deleted,
        s[i].document_index <= target < s[i].document_index + s[i].length,
        0 <= j < s.len(),
        !s[j].deleted,
        s[j].document_index <= target < s[j].document_index + s[j].length,
    ensures
        i == j,
{
    if i < j {
        lemma_document_index_is_live_prefix(s, i);
        lemma_document_index_is_live_prefix(s, j);
        lemma_live_len_take_step(s, i);
        lemma_live_len_mono(s, i + 1, j);
        assert(false);
    }
    if j < i {
        lemma_document_index_is_live_prefix(s, i);
        lemma_document_index_is_live_prefix(s, j);
        lemma_live_len_take_step(s, j);
        lemma_live_len_mono(s, j + 1, i);
        assert(false);
    }
}

/// The stable identifier at the 1-based position `target`: the unique live
/// span covering `target` names it. Position 0 is the sentinel's virtual
/// anchor, before the first element.
pub open spec fn anchor_at(s: Seq<Span>, target: int) -> StableId {
    let i = choose|i: int|
        0 <= i < s.len() && !s[i].deleted && s[i].document_index <= target
            < s[i].document_index + s[i].length;
    StableId { author: s[i].author, id: (s[i].start_id + (target - s[i].document_index)) as u32 }
}

/// The stable identifier of the element at the 0-based document index.
pub open spec fn stable_at(s: Seq<Span>, index: int) -> StableId {
    anchor_at(s, index + 1)
}

/// The 0-based document index an identifier stands at: its own index while
/// live, and the index where its next live neighbour starts once deleted.
pub open spec fn position_of_id(s: Seq<Span>, id: StableId) -> int {
    let i = choose|i: int| 0 <= i < s.len() && span_covers(s[i], id);
    if s[i].deleted {
        s[i].document_index - 1
    } else {
        s[i].document_index + (id.id - s[i].start_id) - 1
    }
}

/// The 0-based document index at which an insert anchored on `previous`
/// lands: directly after the anchor while it is live, and at the recorded
/// live-neighbour position once it is deleted.
pub open spec fn apply_insert_pos(s: Seq<Span>, previous: StableId) -> int {
    let i = choose|i: int| 0 <= i < s.len() && span_covers(s[i], previous);
    if s[i].deleted {
        s[i].document_index - 1
    } else {
        s[i].document_index + (previous.id - s[i].start_id)
    }
}

/// Every position below the live total is covered by a live span: the live
/// spans tile the positions without gaps.
pub proof fn lemma_position_exists(s: Seq<Span>, p: int)
    requires
        docs_chain(s),
        0 <= p < live_len(s),
    ensures
        exists|i: int|
            0 <= i < s.len() && !(#[trigger] s[i]).deleted && s[i].document_index <= p
                < s[i].document_index + s[i].length,
    decreases s.len(),
{
    lemma_live_len_last(s);
    let last = s.len() - 1;
    if !s[last].deleted && s[last].document_index <= p {
        assert(0 <= last < s.len() && !s[last].deleted && s[last].document_index <= p
            < s[last].document_index + s[last].length);
    } else {
        let s1 = s.drop_last();
        assert(s.len() >= 2) by {
            if s.len() == 1 {
                assert(s[0].document_index == 0);
            }
        }
        assert(docs_chain(s1)) by {
            assert(s1[0] == s[0]);
            assert forall|i: int| 0 <= i < s1.len() - 1 implies (#[trigger] s1[i
                + 1]).document_index == s1[i].document_index + span_live(s1[i]) by {
                assert(s1[i + 1] == s[i + 1] && s1[i] == s[i]);
                assert(s[i + 1].document_index == s[i].document_index + span_live(s[i]));
            }
        }
        lemma_live_len_last(s1);
        assert(s1[s1.len() - 1] == s[last - 1]);
        assert(s[last].document_index == s[last - 1].document_index + span_live(s[last - 1]));
        assert(p < live_len(s1));
        lemma_position_exists(s1, p);
        let i = choose|i: int|
            0 <= i < s1.len() && !(#[trigger] s1[i]).deleted && s1[i].document_index <= p
                < s1[i].document_index + s1[i].length;
        assert(s[i] == s1[i]);
        assert(0 <= i < s.len() && !s[i].deleted && s[i].document_index <= p
            < s[i].document_index + s[i].length);
    }
}

/// Freshness at the identifier level implies freshness at the span level:
/// if every covered identifier of an author lies below `id`, every span of
/// that author ends at or below `id`.
pub proof fn lemma_author_max_from_covers(s: Seq<Span>, author: u16, id: u32)
    requires
        forall|x: StableId| #[trigger] covers(s, x) && x.author == author ==> x.id < id,
        forall|i: int| 0 <= i < s.len() ==> 1 <= (#[trigger] s[i]).length,
        forall|i: int| 0 <= i < s.len() ==> (#[trigger] s[i]).start_id + s[i].length <= u32::MAX,
    ensures
        author_max_lt(s, author, id),
{
    assert forall|i: int|
        0 <= i < s.len() && (#[trigger] s[i]).author == author implies s[i].start_id + s[i].length
        <= id by {
        let x = StableId { author, id: (s[i].start_id + s[i].length - 1) as u32 };
        assert(span_covers(s[i], x));
        assert(covers(s, x));
    }
}

/// Index round-trip: the stable identifier of the element at a valid index
/// is live, and resolving it yields the same index back.
pub proof fn lemma_index_round_trip(s: Seq<Span>, index: int)
    requires
        spans_wf(s),
        0 <= index,
        index + 1 < live_len(s),
    ensures
        covers_live(s, stable_at(s, index)),
        position_of_id(s, stable_at(s, index)) == index,
{
    lemma_position_exists(s, index + 1);
    let i = choose|i: int|
        0 <= i < s.len() && !s[i].deleted && s[i].document_index <= index + 1
            < s[i].document_index + s[i].length;
    let x = stable_at(s, index);
    assert(span_covers(s[i], x));
    assert(covers_live(s, x));
    let j = choose|j: int| 0 <= j < s.len() && span_covers(s[j], x);
    lemma_id_unique(s, i, j, x);
}
pub open spec fn shifted_down(a: Span, b: Span) -> bool {
    &&& a.document_index == b.document_index - 1
    &&& a.length == b.length
    &&& a.start_id == b.start_id
    &&& a.author == b.author
    &&& a.deleted == b.deleted
}

/// `a` is `b` moved one document position to the right.
pub open spec fn shifted_up(a: Span, b: Span) -> bool {
    &&& a.document_index == b.document_index + 1
    &&& a.length == b.length
    &&& a.start_id == b.start_id
    &&& a.author == b.author
    &&& a.deleted == b.deleted
}

/// What inserting one fresh live span starts from: a well-formed list, the
/// fresh identifier above everything its author has produced, the span
/// placed where the anchor span's live part ends, and no in-place extension
/// of the anchor span (that case keeps the list length and is separate).
pub open spec fn solo_pre(s0: Seq<Span>, ki: int, new_span: Span) -> bool {
    &&& spans_wf(s0)
    &&& 0 <= ki < s0.len()
    &&& live_len(s0) < u32::MAX
    &&& new_span.length == 1
    &&& !new_span.deleted
    &&& new_span.author != 0
    &&& new_span.start_id < u32::MAX
    &&& new_span.document_index == s0[ki].document_index + span_live(s0[ki])
    &&& author_max_lt(s0, new_span.author, new_span.start_id)
    &&& ((!s0[ki].deleted && s0[ki].author == new_span.author) ==> s0[ki].start_id + s0[ki].length
        != new_span.start_id)
}

/// Shape after placing one fresh live span directly after span `ki`: the
/// prefix is unchanged, the fresh span follows it, and the suffix moves one
/// document position right.
pub open spec fn solo_shape(s0: Seq<Span>, s4: Seq<Span>, ki: int, new_span: Span) -> bool {
    &&& s4.len() == s0.len() + 1
    &&& forall|i: int| 0 <= i <= ki ==> s4[i] == s0[i]
    &&& s4[ki + 1] == new_span
    &&& forall|i: int| ki + 2 <= i < s4.len() ==> shifted_up(#[trigger] s4[i], s0[i - 1])
}

/// Placing one fresh live span preserves the invariants and adds one live
/// position.
#[verifier::rlimit(100)]
#[verifier::spinoff_prover]
pub proof fn lemma_solo_wf(s0: Seq<Span>, s4: Seq<Span>, ki: int, new_span: Span)
    requires
        solo_pre(s0, ki, new_span),
        solo_shape(s0, s4, ki, new_span),
    ensures
        spans_wf(s4),
        live_len(s4) == live_len(s0) + 1,
{
    let n4 = s4.len() as int;
    assert forall|i: int| 0 <= i < n4 - 1 implies (#[trigger] s4[i + 1]).document_index
        == s4[i].document_index + span_live(s4[i]) by {
        if i < ki {
            assert(s0[i + 1].document_index == s0[i].document_index + span_live(s0[i]));
        } else if i == ki {
        } else if i == ki + 1 {
            assert(s0[ki + 1].document_index == s0[ki].document_index + span_live(s0[ki]));
        } else {
            assert(s0[i].document_index == s0[i - 1].document_index + span_live(s0[i - 1]));
        }
    }
    assert(docs_chain(s4));
    lemma_live_len_last(s0);
    lemma_live_len_last(s4);
    assert(live_len(s4) == live_len(s0) + 1);
    assert forall|i: int, j: int|
        0 <= i < j < n4 && (s4[i]).author == (s4[j]).author implies (s4[i].start_id + s4[i].length
        <= s4[j].start_id || s4[j].start_id + s4[j].length <= s4[i].start_id) by {
        if j == ki + 1 {
            assert(s4[i] == s0[i]);
            assert(s0[i].author == new_span.author);
            assert(s0[i].start_id + s0[i].length <= new_span.start_id);
        } else if i == ki + 1 {
            let j0 = j - 1;
            assert(s0[j0].author == new_span.author);
            assert(s0[j0].start_id + s0[j0].length <= new_span.start_id);
            assert(1 <= s0[j0].length);
        } else {
            let i0: int = if i <= ki {
                i
            } else {
                i - 1
            };
            let j0: int = if j <= ki {
                j
            } else {
                j - 1
            };
            assert(s4[i].author == s0[i0].author && s4[i].start_id == s0[i0].start_id && s4[i].length
                == s0[i0].length);
            assert(s4[j].author == s0[j0].author && s4[j].start_id == s0[j0].start_id && s4[j].length
                == s0[j0].length);
            assert(0 <= i0 < j0 < s0.len());
            assert(s0[i0].start_id + s0[i0].length <= s0[j0].start_id || s0[j0].start_id
                + s0[j0].length <= s0[i0].start_id);
        }
    }
    assert forall|i: int|
        0 <= i && i + 1 < n4 && !(s4[i]).deleted && !s4[i + 1].deleted && s4[i].author == s4[i
            + 1].author implies s4[i].start_id + s4[i].length != s4[i + 1].start_id by {
        if i + 1 < ki + 1 {
            assert(s4[i] == s0[i] && s4[i + 1] == s0[i + 1]);
        } else if i + 1 == ki + 1 {
            assert(s4[i] == s0[i]);
        } else if i == ki + 1 {
            assert(s0[ki + 1].start_id + s0[ki + 1].length <= new_span.start_id);
            assert(1 <= s0[ki + 1].length);
        } else {
            assert(!s0[i - 1].deleted && !s0[i].deleted && s0[i - 1].author == s0[i].author
                ==> s0[i - 1].start_id + s0[i - 1].length != s0[i].start_id);
        }
    }
    assert(spans_wf(s4));
}

/// Placing one fresh live span adds exactly its identifier, live, at the
/// position where the anchor span's live part ends.
#[verifier::rlimit(100)]
#[verifier::spinoff_prover]
pub proof fn lemma_solo_covers(s0: Seq<Span>, s4: Seq<Span>, ki: int, new_span: Span)
    requires
        solo_pre(s0, ki, new_span),
        solo_shape(s0, s4, ki, new_span),
    ensures
        forall|x: StableId| covers(s4, x) <==> covers(s0, x) || span_covers(new_span, x),
        forall|x: StableId|
            covers_live(s4, x) <==> covers_live(s0, x) || span_covers(new_span, x),
        anchor_at(s4, new_span.document_index as int) == (StableId {
            author: new_span.author,
            id: new_span.start_id,
        }),
{
    lemma_solo_wf(s0, s4, ki, new_span);
    assert forall|x: StableId| covers(s4, x) <==> covers(s0, x) || span_covers(new_span, x) by {
        if covers(s4, x) {
            let w = choose|w: int| 0 <= w < s4.len() && span_covers(s4[w], x);
            if w <= ki {
                assert(span_covers(s0[w], x));
            } else if w == ki + 1 {
                assert(span_covers(new_span, x));
            } else {
                assert(span_covers(s0[w - 1], x));
            }
        }
        if covers(s0, x) {
            let w = choose|w: int| 0 <= w < s0.len() && span_covers(s0[w], x);
            if w <= ki {
                assert(span_covers(s4[w], x));
            } else {
                assert(span_covers(s4[w + 1], x));
            }
            assert(covers(s4, x));
        }
        if span_covers(new_span, x) {
            assert(span_covers(s4[ki + 1], x));
            assert(covers(s4, x));
        }
    }
    assert forall|x: StableId|
        covers_live(s4, x) <==> covers_live(s0, x) || span_covers(new_span, x) by {
        if covers_live(s4, x) {
            let w = choose|w: int| 0 <= w < s4.len() && span_covers(s4[w], x) && !s4[w].deleted;
            if w <= ki {
                assert(span_covers(s0[w], x) && !s0[w].deleted);
            } else if w == ki + 1 {
                assert(span_covers(new_span, x));
            } else {
                assert(span_covers(s0[w - 1], x) && !s0[w - 1].deleted);
            }
        }
        if covers_live(s0, x) {
            let w = choose|w: int| 0 <= w < s0.len() && span_covers(s0[w], x) && !s0[w].deleted;
            if w <= ki {
                assert(span_covers(s4[w], x) && !s4[w].deleted);
            } else {
                assert(span_covers(s4[w + 1], x) && !s4[w + 1].deleted);
            }
            assert(covers_live(s4, x));
        }
        if span_covers(new_span, x) {
            assert(span_covers(s4[ki + 1], x) && !s4[ki + 1].deleted);
            assert(covers_live(s4, x));
        }
    }
    let d = new_span.document_index as int;
    assert(!s4[ki + 1].deleted && s4[ki + 1].document_index <= d < s4[ki + 1].document_index
        + s4[ki + 1].length);
    let j = choose|j: int|
        0 <= j < s4.len() && !s4[j].deleted && s4[j].document_index <= d < s4[j].document_index
            + s4[j].length;
    lemma_position_unique(s4, ki + 1, j, d);
}

/// `position_of_id`, read off any covering span: the covering span is unique,
/// so the one at hand decides the position.
pub proof fn lemma_position_of_id_at(s: Seq<Span>, w: int, x: StableId)
    requires
        spans_wf(s),
        0 <= w < s.len(),
        span_covers(s[w], x),
    ensures
        position_of_id(s, x) == (if s[w].deleted {
            s[w].document_index - 1
        } else {
            s[w].document_index + (x.id - s[w].start_id) - 1
        }),
{
    let j = choose|j: int| 0 <= j < s.len() && span_covers(s[j], x);
    lemma_id_unique(s, w, j, x);
}

/// Where an insert anchored on a known identifier lands, in terms of that
/// identifier's own position: one past it while the identifier is live, and
/// exactly its recorded neighbour position once it is tombstoned.
pub proof fn lemma_apply_insert_pos_of_id(s: Seq<Span>, id: StableId)
    requires
        spans_wf(s),
        covers(s, id),
    ensures
        covers_live(s, id) ==> apply_insert_pos(s, id) == position_of_id(s, id) + 1,
        !covers_live(s, id) ==> apply_insert_pos(s, id) == position_of_id(s, id),
{
    let i = choose|i: int| 0 <= i < s.len() && span_covers(s[i], id);
    if covers_live(s, id) {
        let w = choose|w: int| 0 <= w < s.len() && span_covers(s[w], id) && !s[w].deleted;
        lemma_id_unique(s, w, i, id);
    }
}

/// Positions are ordered as the span list is: an earlier span's live range
/// ends at or before a later span's start.
pub proof fn lemma_doc_order(s: Seq<Span>, i: int, j: int)
    requires
        docs_chain(s),
        0 <= i < j < s.len(),
    ensures
        s[i].document_index + span_live(s[i]) <= s[j].document_index,
{
    lemma_document_index_is_live_prefix(s, i);
    lemma_document_index_is_live_prefix(s, j);
    lemma_live_len_take_step(s, i);
    lemma_live_len_mono(s, i + 1, j);
}

/// The identifier at offset `off` of span `ki`.
pub open spec fn delete_target(s0: Seq<Span>, ki: int, off: int) -> StableId {
    StableId { author: s0[ki].author, id: (s0[ki].start_id + off) as u32 }
}

/// What every delete starts from: a live span and an offset inside it, not
/// naming the sentinel's virtual slot.
pub open spec fn delete_pre(s0: Seq<Span>, ki: int, off: int) -> bool {
    &&& spans_wf(s0)
    &&& 0 <= ki < s0.len()
    &&& !s0[ki].deleted
    &&& 0 <= off < s0[ki].length
    &&& s0[ki].document_index + off >= 1
}

/// Shape after deleting at offset `off >= 1` of span `ki`: the span keeps its
/// first `off` identifiers, a length-1 tombstone takes the deleted one, a
/// trailing live span keeps the rest if any, and the suffix moves one
/// document position left.
pub open spec fn tomb_shape(s0: Seq<Span>, s4: Seq<Span>, ki: int, off: int) -> bool {
    let len = s0[ki].length as int;
    let trail: int = if off + 1 < len {
        1
    } else {
        0
    };
    &&& s4.len() == s0.len() + 1 + trail
    &&& forall|i: int| 0 <= i < ki ==> s4[i] == s0[i]
    &&& s4[ki].document_index == s0[ki].document_index
    &&& s4[ki].length == off
    &&& s4[ki].start_id == s0[ki].start_id
    &&& s4[ki].author == s0[ki].author
    &&& !s4[ki].deleted
    &&& s4[ki + 1].document_index == s0[ki].document_index + off
    &&& s4[ki + 1].length == 1
    &&& s4[ki + 1].start_id == s0[ki].start_id + off
    &&& s4[ki + 1].author == s0[ki].author
    &&& s4[ki + 1].deleted
    &&& (trail == 1 ==> {
        &&& s4[ki + 2].document_index == s0[ki].document_index + off
        &&& s4[ki + 2].length == len - off - 1
        &&& s4[ki + 2].start_id == s0[ki].start_id + off + 1
        &&& s4[ki + 2].author == s0[ki].author
        &&& !s4[ki + 2].deleted
    })
    &&& forall|i: int|
        ki + 2 + trail <= i < s4.len() ==> shifted_down(#[trigger] s4[i], s0[i - 1 - trail])
}

/// Shape after deleting the first identifier of span `ki`: the span's head is
/// gone, the tombstone stands in its place, a trailing live span keeps the
/// rest if any, and the suffix moves one document position left.
pub open spec fn tomb_collapse_shape(s0: Seq<Span>, s4: Seq<Span>, ki: int) -> bool {
    let len = s0[ki].length as int;
    let trail: int = if len > 1 {
        1
    } else {
        0
    };
    &&& s4.len() == s0.len() + trail
    &&& forall|i: int| 0 <= i < ki ==> s4[i] == s0[i]
    &&& s4[ki].document_index == s0[ki].document_index
    &&& s4[ki].length == 1
    &&& s4[ki].start_id == s0[ki].start_id
    &&& s4[ki].author == s0[ki].author
    &&& s4[ki].deleted
    &&& (trail == 1 ==> {
        &&& s4[ki + 1].document_index == s0[ki].document_index
        &&& s4[ki + 1].length == len - 1
        &&& s4[ki + 1].start_id == s0[ki].start_id + 1
        &&& s4[ki + 1].author == s0[ki].author
        &&& !s4[ki + 1].deleted
    })
    &&& forall|i: int|
        ki + 1 + trail <= i < s4.len() ==> shifted_down(#[trigger] s4[i], s0[i - trail])
}

/// The preconditions of the prepend-merge path: the deleted identifier is the
/// last of its span and the next span is the same author's tombstone starting
/// right after it.
pub open spec fn merge_pre(s0: Seq<Span>, ki: int) -> bool {
    &&& spans_wf(s0)
    &&& 0 <= ki
    &&& ki + 1 < s0.len()
    &&& !s0[ki].deleted
    &&& s0[ki + 1].deleted
    &&& s0[ki + 1].author == s0[ki].author
    &&& s0[ki + 1].start_id == s0[ki].start_id + s0[ki].length
    &&& s0[ki].document_index + s0[ki].length >= 2
}

/// Shape after a prepend-merge delete on a span of length at least 2: the
/// span loses its last identifier, the following tombstone absorbs it, and
/// the suffix moves one document position left.
pub open spec fn merge_shape(s0: Seq<Span>, s4: Seq<Span>, ki: int) -> bool {
    &&& s4.len() == s0.len()
    &&& forall|i: int| 0 <= i < ki ==> s4[i] == s0[i]
    &&& s4[ki].document_index == s0[ki].document_index
    &&& s4[ki].length == s0[ki].length - 1
    &&& s4[ki].start_id == s0[ki].start_id
    &&& s4[ki].author == s0[ki].author
    &&& !s4[ki].deleted
    &&& s4[ki + 1].document_index == s0[ki + 1].document_index - 1
    &&& s4[ki + 1].length == s0[ki + 1].length + 1
    &&& s4[ki + 1].start_id == s0[ki + 1].start_id - 1
    &&& s4[ki + 1].author == s0[ki + 1].author
    &&& s4[ki + 1].deleted
    &&& forall|i: int| ki + 2 <= i < s4.len() ==> shifted_down(#[trigger] s4[i], s0[i])
}

/// Shape after a prepend-merge delete on a span of length 1: the span is
/// gone, the following tombstone absorbed its only identifier, and the
/// suffix moves one document position left.
pub open spec fn merge_collapse_shape(s0: Seq<Span>, s4: Seq<Span>, ki: int) -> bool {
    &&& s4.len() == s0.len() - 1
    &&& forall|i: int| 0 <= i < ki ==> s4[i] == s0[i]
    &&& s4[ki].document_index == s0[ki + 1].document_index - 1
    &&& s4[ki].length == s0[ki + 1].length + 1
    &&& s4[ki].start_id == s0[ki + 1].start_id - 1
    &&& s4[ki].author == s0[ki + 1].author
    &&& s4[ki].deleted
    &&& forall|i: int| ki + 1 <= i < s4.len() ==> shifted_down(#[trigger] s4[i], s0[i + 1])
}

/// At most one span covers a given identifier.
pub proof fn lemma_id_unique(s: Seq<Span>, i: int, j: int, id: StableId)
    requires
        spans_wf(s),
        0 <= i < s.len(),
        span_covers(s[i], id),
        0 <= j < s.len(),
        span_covers(s[j], id),
    ensures
        i == j,
{
}

/// A tombstoning delete inside a span preserves the invariants and removes
/// one live position.
#[verifier::rlimit(100)]
#[verifier::spinoff_prover]
pub proof fn lemma_tomb_wf(s0: Seq<Span>, s4: Seq<Span>, ki: int, off: int)
    requires
        delete_pre(s0, ki, off),
        1 <= off,
        tomb_shape(s0, s4, ki, off),
    ensures
        spans_wf(s4),
        live_len(s4) == live_len(s0) - 1,
{
    let n4 = s4.len() as int;
    let trail: int = if off + 1 < s0[ki].length {
        1
    } else {
        0
    };
    assert forall|i: int| 0 <= i < n4 - 1 implies (#[trigger] s4[i + 1]).document_index
        == s4[i].document_index + span_live(s4[i]) by {
        if i < ki {
            assert(s0[i + 1].document_index == s0[i].document_index + span_live(s0[i]));
        } else if i == ki + 1 + trail {
            assert(ki + 1 < s0.len());
            assert(s0[ki + 1].document_index == s0[ki].document_index + span_live(s0[ki]));
        } else if i > ki + 1 + trail {
            let m = i - 1 - trail;
            assert(0 <= m < s0.len() - 1);
            assert(s0[m + 1].document_index == s0[m].document_index + span_live(s0[m]));
        }
    }
    assert(docs_chain(s4));
    lemma_live_len_last(s0);
    lemma_live_len_last(s4);
    if ki + 2 + trail < n4 {
        assert(s0[ki + 1].document_index == s0[ki].document_index + span_live(s0[ki]));
        lemma_document_index_is_live_prefix(s0, s0.len() - 1);
        lemma_document_index_is_live_prefix(s4, n4 - 1);
    }
    assert(live_len(s4) == live_len(s0) - 1);
    assert forall|i: int, j: int|
        0 <= i < j < n4 && (s4[i]).author == (s4[j]).author implies (s4[i].start_id + s4[i].length
        <= s4[j].start_id || s4[j].start_id + s4[j].length <= s4[i].start_id) by {
        let i0: int = if i <= ki + 1 + trail {
            if i < ki {
                i
            } else {
                ki
            }
        } else {
            i - 1 - trail
        };
        let j0: int = if j <= ki + 1 + trail {
            if j < ki {
                j
            } else {
                ki
            }
        } else {
            j - 1 - trail
        };
        if i0 == j0 {
        } else {
            assert(0 <= i0 < s0.len() && 0 <= j0 < s0.len() && i0 != j0);
            assert(s4[i].author == s0[i0].author && s4[j].author == s0[j0].author);
            if i0 < j0 {
                assert(s0[i0].author == s0[j0].author ==> (s0[i0].start_id + s0[i0].length
                    <= s0[j0].start_id || s0[j0].start_id + s0[j0].length <= s0[i0].start_id));
            } else {
                assert(s0[j0].author == s0[i0].author ==> (s0[j0].start_id + s0[j0].length
                    <= s0[i0].start_id || s0[i0].start_id + s0[i0].length <= s0[j0].start_id));
            }
        }
    }
    assert forall|i: int|
        0 <= i && i + 1 < n4 && !(s4[i]).deleted && !s4[i + 1].deleted && s4[i].author == s4[i
            + 1].author implies s4[i].start_id + s4[i].length != s4[i + 1].start_id by {
        if i + 1 < ki {
            assert(!s0[i].deleted && !s0[i + 1].deleted && s0[i].author == s0[i + 1].author
                ==> s0[i].start_id + s0[i].length != s0[i + 1].start_id);
        } else if i + 1 == ki {
            assert(!s0[i].deleted && !s0[i + 1].deleted && s0[i].author == s0[i + 1].author
                ==> s0[i].start_id + s0[i].length != s0[i + 1].start_id);
        } else if i == ki + 1 + trail {
            // a trailing split (or the tombstone) ends where the original
            // span ended, so the old invariant answers for the next span
            assert(ki + 1 < s0.len());
            assert(!s0[ki].deleted && !s0[ki + 1].deleted && s0[ki].author == s0[ki + 1].author
                ==> s0[ki].start_id + s0[ki].length != s0[ki + 1].start_id);
        } else if i > ki + 1 + trail {
            if trail == 1 {
                assert(!s0[i - 2].deleted && !s0[i - 1].deleted && s0[i - 2].author == s0[i
                    - 1].author ==> s0[i - 2].start_id + s0[i - 2].length != s0[i - 1].start_id);
            } else {
                assert(!s0[i - 1].deleted && !s0[i].deleted && s0[i - 1].author == s0[i].author
                    ==> s0[i - 1].start_id + s0[i - 1].length != s0[i].start_id);
            }
        }
    }
    assert(spans_wf(s4));
}

/// A tombstoning delete keeps every identifier known and kills exactly the
/// target: identifier ranges are only partitioned, never rewritten.
#[verifier::rlimit(100)]
#[verifier::spinoff_prover]
pub proof fn lemma_tomb_covers(s0: Seq<Span>, s4: Seq<Span>, ki: int, off: int)
    requires
        delete_pre(s0, ki, off),
        1 <= off,
        tomb_shape(s0, s4, ki, off),
    ensures
        forall|x: StableId| covers(s4, x) <==> covers(s0, x),
        forall|x: StableId|
            covers_live(s4, x) <==> covers_live(s0, x) && x != delete_target(s0, ki, off),
{
    let trail: int = if off + 1 < s0[ki].length {
        1
    } else {
        0
    };
    let tgt = delete_target(s0, ki, off);
    assert forall|x: StableId| covers(s4, x) <==> covers(s0, x) by {
        if covers(s4, x) {
            let w = choose|w: int| 0 <= w < s4.len() && span_covers(s4[w], x);
            if w < ki {
                assert(span_covers(s0[w], x));
            } else if w <= ki + 1 + trail {
                assert(span_covers(s0[ki], x));
            } else {
                assert(span_covers(s0[w - 1 - trail], x));
            }
        }
        if covers(s0, x) {
            let w = choose|w: int| 0 <= w < s0.len() && span_covers(s0[w], x);
            if w < ki {
                assert(span_covers(s4[w], x));
            } else if w == ki {
                if x.id < s0[ki].start_id + off {
                    assert(span_covers(s4[ki], x));
                } else if x.id == s0[ki].start_id + off {
                    assert(span_covers(s4[ki + 1], x));
                } else {
                    assert(trail == 1);
                    assert(span_covers(s4[ki + 2], x));
                }
            } else {
                assert(span_covers(s4[w + 1 + trail], x));
            }
            assert(covers(s4, x));
        }
    }
    assert forall|x: StableId| covers_live(s4, x) <==> covers_live(s0, x) && x != tgt by {
        if covers_live(s4, x) {
            let w = choose|w: int| 0 <= w < s4.len() && span_covers(s4[w], x) && !s4[w].deleted;
            if w < ki {
                assert(span_covers(s0[w], x) && !s0[w].deleted);
                if x == tgt {
                    lemma_id_unique(s0, w, ki, x);
                }
            } else if w == ki {
                assert(span_covers(s0[ki], x) && !s0[ki].deleted);
                assert(x.id < s0[ki].start_id + off);
            } else if w == ki + 1 {
                assert(false);
            } else if trail == 1 && w == ki + 2 {
                assert(span_covers(s0[ki], x) && !s0[ki].deleted);
                assert(x.id > s0[ki].start_id + off);
            } else {
                assert(span_covers(s0[w - 1 - trail], x) && !s0[w - 1 - trail].deleted);
                if x == tgt {
                    lemma_id_unique(s0, w - 1 - trail, ki, x);
                }
            }
        }
        if covers_live(s0, x) && x != tgt {
            let w = choose|w: int| 0 <= w < s0.len() && span_covers(s0[w], x) && !s0[w].deleted;
            if w < ki {
                assert(span_covers(s4[w], x) && !s4[w].deleted);
            } else if w == ki {
                if x.id < s0[ki].start_id + off {
                    assert(span_covers(s4[ki], x) && !s4[ki].deleted);
                } else {
                    assert(x.id != s0[ki].start_id + off);
                    assert(trail == 1);
                    assert(span_covers(s4[ki + 2], x) && !s4[ki + 2].deleted);
                }
            } else {
                assert(span_covers(s4[w + 1 + trail], x) && !s4[w + 1 + trail].deleted);
            }
            assert(covers_live(s4, x));
        }
    }
}

/// Deleting the first identifier of a span preserves the invariants and
/// removes one live position.
#[verifier::rlimit(100)]
#[verifier::spinoff_prover]
pub proof fn lemma_tomb_collapse_wf(s0: Seq<Span>, s4: Seq<Span>, ki: int)
    requires
        delete_pre(s0, ki, 0),
        tomb_collapse_shape(s0, s4, ki),
    ensures
        spans_wf(s4),
        live_len(s4) == live_len(s0) - 1,
{
    let n4 = s4.len() as int;
    let trail: int = if s0[ki].length > 1 {
        1
    } else {
        0
    };
    assert(ki >= 1) by {
        if ki == 0 {
            assert(s0[0].document_index == 0);
        }
    }
    assert forall|i: int| 0 <= i < n4 - 1 implies (#[trigger] s4[i + 1]).document_index
        == s4[i].document_index + span_live(s4[i]) by {
        if i < ki {
            assert(s0[i + 1].document_index == s0[i].document_index + span_live(s0[i]));
        } else if i == ki + trail {
            assert(ki + 1 < s0.len());
            assert(s0[ki + 1].document_index == s0[ki].document_index + span_live(s0[ki]));
        } else if i > ki + trail {
            let m = i - trail;
            assert(0 <= m < s0.len() - 1);
            assert(s0[m + 1].document_index == s0[m].document_index + span_live(s0[m]));
        }
    }
    assert(docs_chain(s4));
    lemma_live_len_last(s0);
    lemma_live_len_last(s4);
    if ki + 1 + trail <= n4 - 1 {
        assert(s0[ki + 1].document_index == s0[ki].document_index + span_live(s0[ki]));
    }
    assert(live_len(s4) == live_len(s0) - 1);
    assert forall|i: int, j: int|
        0 <= i < j < n4 && (s4[i]).author == (s4[j]).author implies (s4[i].start_id + s4[i].length
        <= s4[j].start_id || s4[j].start_id + s4[j].length <= s4[i].start_id) by {
        let i0: int = if i <= ki + trail {
            if i < ki {
                i
            } else {
                ki
            }
        } else {
            i - trail
        };
        let j0: int = if j <= ki + trail {
            if j < ki {
                j
            } else {
                ki
            }
        } else {
            j - trail
        };
        if i0 == j0 {
        } else {
            assert(0 <= i0 < s0.len() && 0 <= j0 < s0.len() && i0 != j0);
            assert(s4[i].author == s0[i0].author && s4[j].author == s0[j0].author);
            if i0 < j0 {
                assert(s0[i0].author == s0[j0].author ==> (s0[i0].start_id + s0[i0].length
                    <= s0[j0].start_id || s0[j0].start_id + s0[j0].length <= s0[i0].start_id));
            } else {
                assert(s0[j0].author == s0[i0].author ==> (s0[j0].start_id + s0[j0].length
                    <= s0[i0].start_id || s0[i0].start_id + s0[i0].length <= s0[j0].start_id));
            }
        }
    }
    assert forall|i: int|
        0 <= i && i + 1 < n4 && !(s4[i]).deleted && !s4[i + 1].deleted && s4[i].author == s4[i
            + 1].author implies s4[i].start_id + s4[i].length != s4[i + 1].start_id by {
        if i + 1 < ki {
            assert(!s0[i].deleted && !s0[i + 1].deleted && s0[i].author == s0[i + 1].author
                ==> s0[i].start_id + s0[i].length != s0[i + 1].start_id);
        } else if i == ki + trail {
            assert(ki + 1 < s0.len());
            assert(!s0[ki].deleted && !s0[ki + 1].deleted && s0[ki].author == s0[ki + 1].author
                ==> s0[ki].start_id + s0[ki].length != s0[ki + 1].start_id);
        } else if i > ki + trail {
            if trail == 1 {
                assert(!s0[i - 1].deleted && !s0[i].deleted && s0[i - 1].author == s0[i].author
                    ==> s0[i - 1].start_id + s0[i - 1].length != s0[i].start_id);
            } else {
                assert(!s0[i].deleted && !s0[i + 1].deleted && s0[i].author == s0[i + 1].author
                    ==> s0[i].start_id + s0[i].length != s0[i + 1].start_id);
            }
        }
    }
    assert(spans_wf(s4));
}

/// Deleting the first identifier of a span keeps every identifier known and
/// kills exactly the target.
#[verifier::rlimit(100)]
#[verifier::spinoff_prover]
pub proof fn lemma_tomb_collapse_covers(s0: Seq<Span>, s4: Seq<Span>, ki: int)
    requires
        delete_pre(s0, ki, 0),
        tomb_collapse_shape(s0, s4, ki),
    ensures
        forall|x: StableId| covers(s4, x) <==> covers(s0, x),
        forall|x: StableId|
            covers_live(s4, x) <==> covers_live(s0, x) && x != delete_target(s0, ki, 0),
{
    let trail: int = if s0[ki].length > 1 {
        1
    } else {
        0
    };
    let tgt = delete_target(s0, ki, 0);
    assert forall|x: StableId| covers(s4, x) <==> covers(s0, x) by {
        if covers(s4, x) {
            let w = choose|w: int| 0 <= w < s4.len() && span_covers(s4[w], x);
            if w < ki {
                assert(span_covers(s0[w], x));
            } else if w <= ki + trail {
                assert(span_covers(s0[ki], x));
            } else {
                assert(span_covers(s0[w - trail], x));
            }
        }
        if covers(s0, x) {
            let w = choose|w: int| 0 <= w < s0.len() && span_covers(s0[w], x);
            if w < ki {
                assert(span_covers(s4[w], x));
            } else if w == ki {
                if x.id == s0[ki].start_id {
                    assert(span_covers(s4[ki], x));
                } else {
                    assert(trail == 1);
                    assert(span_covers(s4[ki + 1], x));
                }
            } else {
                assert(span_covers(s4[w + trail], x));
            }
            assert(covers(s4, x));
        }
    }
    assert forall|x: StableId| covers_live(s4, x) <==> covers_live(s0, x) && x != tgt by {
        if covers_live(s4, x) {
            let w = choose|w: int| 0 <= w < s4.len() && span_covers(s4[w], x) && !s4[w].deleted;
            if w < ki {
                assert(span_covers(s0[w], x) && !s0[w].deleted);
                if x == tgt {
                    lemma_id_unique(s0, w, ki, x);
                }
            } else if w == ki {
                assert(false);
            } else if trail == 1 && w == ki + 1 {
                assert(span_covers(s0[ki], x) && !s0[ki].deleted);
                assert(x.id > s0[ki].start_id);
            } else {
                assert(span_covers(s0[w - trail], x) && !s0[w - trail].deleted);
                if x == tgt {
                    lemma_id_unique(s0, w - trail, ki, x);
                }
            }
        }
        if covers_live(s0, x) && x != tgt {
            let w = choose|w: int| 0 <= w < s0.len() && span_covers(s0[w], x) && !s0[w].deleted;
            if w < ki {
                assert(span_covers(s4[w], x) && !s4[w].deleted);
            } else if w == ki {
                assert(x.id != s0[ki].start_id);
                assert(trail == 1);
                assert(span_covers(s4[ki + 1], x) && !s4[ki + 1].deleted);
            } else {
                assert(span_covers(s4[w + trail], x) && !s4[w + trail].deleted);
            }
            assert(covers_live(s4, x));
        }
    }
}

/// A prepend-merge delete preserves the invariants and removes one live
/// position; no new span is created.
#[verifier::rlimit(100)]
#[verifier::spinoff_prover]
pub proof fn lemma_merge_wf(s0: Seq<Span>, s4: Seq<Span>, ki: int)
    requires
        merge_pre(s0, ki),
        s0[ki].length >= 2,
        merge_shape(s0, s4, ki),
    ensures
        spans_wf(s4),
        live_len(s4) == live_len(s0) - 1,
{
    let n4 = s4.len() as int;
    assert forall|i: int| 0 <= i < n4 - 1 implies (#[trigger] s4[i + 1]).document_index
        == s4[i].document_index + span_live(s4[i]) by {
        if i < ki {
            assert(s0[i + 1].document_index == s0[i].document_index + span_live(s0[i]));
        } else if i == ki {
            assert(s0[ki + 1].document_index == s0[ki].document_index + span_live(s0[ki]));
        } else if i == ki + 1 {
            assert(s0[ki + 2].document_index == s0[ki + 1].document_index + span_live(
                s0[ki + 1],
            ));
        } else {
            assert(s0[i + 1].document_index == s0[i].document_index + span_live(s0[i]));
        }
    }
    assert(docs_chain(s4));
    lemma_live_len_last(s0);
    lemma_live_len_last(s4);
    assert(live_len(s4) == live_len(s0) - 1);
    assert forall|i: int, j: int|
        0 <= i < j < n4 && (s4[i]).author == (s4[j]).author implies (s4[i].start_id + s4[i].length
        <= s4[j].start_id || s4[j].start_id + s4[j].length <= s4[i].start_id) by {
        let i0: int = if i == ki + 1 {
            ki
        } else {
            i
        };
        let j0: int = if j == ki + 1 {
            ki
        } else {
            j
        };
        if i == ki && j == ki + 1 {
        } else if j == ki + 1 {
            // others are disjoint from both merged ranges
            assert(s0[i].author == s0[ki].author ==> (s0[i].start_id + s0[i].length
                <= s0[ki].start_id || s0[ki].start_id + s0[ki].length <= s0[i].start_id));
            assert(s0[i].author == s0[ki + 1].author ==> (s0[i].start_id + s0[i].length <= s0[ki
                + 1].start_id || s0[ki + 1].start_id + s0[ki + 1].length <= s0[i].start_id));
            assert(1 <= s0[i].length);
        } else if i == ki + 1 {
            assert(s0[j].author == s0[ki].author ==> (s0[j].start_id + s0[j].length
                <= s0[ki].start_id || s0[ki].start_id + s0[ki].length <= s0[j].start_id));
            assert(s0[j].author == s0[ki + 1].author ==> (s0[j].start_id + s0[j].length <= s0[ki
                + 1].start_id || s0[ki + 1].start_id + s0[ki + 1].length <= s0[j].start_id));
            assert(1 <= s0[j].length);
        } else {
            assert(s0[i].author == s0[j].author ==> (s0[i].start_id + s0[i].length
                <= s0[j].start_id || s0[j].start_id + s0[j].length <= s0[i].start_id));
        }
    }
    assert forall|i: int|
        0 <= i && i + 1 < n4 && !(s4[i]).deleted && !s4[i + 1].deleted && s4[i].author == s4[i
            + 1].author implies s4[i].start_id + s4[i].length != s4[i + 1].start_id by {
        if i + 1 <= ki {
            assert(!s0[i].deleted && !s0[i + 1].deleted && s0[i].author == s0[i + 1].author
                ==> s0[i].start_id + s0[i].length != s0[i + 1].start_id);
        } else if i > ki + 1 {
            assert(!s0[i].deleted && !s0[i + 1].deleted && s0[i].author == s0[i + 1].author
                ==> s0[i].start_id + s0[i].length != s0[i + 1].start_id);
        }
    }
    assert(spans_wf(s4));
}

/// A prepend-merge delete keeps every identifier known and kills exactly the
/// target.
#[verifier::rlimit(100)]
#[verifier::spinoff_prover]
pub proof fn lemma_merge_covers(s0: Seq<Span>, s4: Seq<Span>, ki: int)
    requires
        merge_pre(s0, ki),
        s0[ki].length >= 2,
        merge_shape(s0, s4, ki),
    ensures
        forall|x: StableId| covers(s4, x) <==> covers(s0, x),
        forall|x: StableId|
            covers_live(s4, x) <==> covers_live(s0, x) && x != delete_target(
                s0,
                ki,
                s0[ki].length - 1,
            ),
{
    let tgt = delete_target(s0, ki, s0[ki].length - 1);
    assert forall|x: StableId| covers(s4, x) <==> covers(s0, x) by {
        if covers(s4, x) {
            let w = choose|w: int| 0 <= w < s4.len() && span_covers(s4[w], x);
            if w == ki {
                assert(span_covers(s0[ki], x));
            } else if w == ki + 1 {
                if x.id == tgt.id {
                    assert(span_covers(s0[ki], x));
                } else {
                    assert(span_covers(s0[ki + 1], x));
                }
            } else {
                assert(span_covers(s0[w], x));
            }
        }
        if covers(s0, x) {
            let w = choose|w: int| 0 <= w < s0.len() && span_covers(s0[w], x);
            if w == ki {
                if x.id < tgt.id {
                    assert(span_covers(s4[ki], x));
                } else {
                    assert(span_covers(s4[ki + 1], x));
                }
            } else {
                assert(span_covers(s4[w], x));
            }
            assert(covers(s4, x));
        }
    }
    assert forall|x: StableId| covers_live(s4, x) <==> covers_live(s0, x) && x != tgt by {
        if covers_live(s4, x) {
            let w = choose|w: int| 0 <= w < s4.len() && span_covers(s4[w], x) && !s4[w].deleted;
            if w == ki {
                assert(span_covers(s0[ki], x) && !s0[ki].deleted);
                assert(x.id < tgt.id);
            } else if w == ki + 1 {
                assert(false);
            } else {
                assert(span_covers(s0[w], x) && !s0[w].deleted);
                if x == tgt {
                    lemma_id_unique(s0, w, ki, x);
                }
            }
        }
        if covers_live(s0, x) && x != tgt {
            let w = choose|w: int| 0 <= w < s0.len() && span_covers(s0[w], x) && !s0[w].deleted;
            if w == ki {
                assert(x.id != tgt.id);
                assert(span_covers(s4[ki], x) && !s4[ki].deleted);
            } else {
                assert(span_covers(s4[w], x) && !s4[w].deleted);
            }
            assert(covers_live(s4, x));
        }
    }
}

/// A prepend-merge delete of a length-1 span preserves the invariants and
/// removes one live position; the span list shrinks by one.
#[verifier::rlimit(100)]
#[verifier::spinoff_prover]
pub proof fn lemma_merge_collapse_wf(s0: Seq<Span>, s4: Seq<Span>, ki: int)
    requires
        merge_pre(s0, ki),
        s0[ki].length == 1,
        merge_collapse_shape(s0, s4, ki),
    ensures
        spans_wf(s4),
        live_len(s4) == live_len(s0) - 1,
{
    let n4 = s4.len() as int;
    assert(ki >= 1) by {
        if ki == 0 {
            assert(s0[0].document_index == 0);
        }
    }
    assert forall|i: int| 0 <= i < n4 - 1 implies (#[trigger] s4[i + 1]).document_index
        == s4[i].document_index + span_live(s4[i]) by {
        if i < ki - 1 {
            assert(s0[i + 1].document_index == s0[i].document_index + span_live(s0[i]));
        } else if i == ki - 1 {
            assert(s0[ki].document_index == s0[ki - 1].document_index + span_live(s0[ki - 1]));
            assert(s0[ki + 1].document_index == s0[ki].document_index + span_live(s0[ki]));
        } else if i == ki {
            assert(s0[ki + 2].document_index == s0[ki + 1].document_index + span_live(
                s0[ki + 1],
            ));
        } else {
            assert(s0[i + 2].document_index == s0[i + 1].document_index + span_live(s0[i + 1]));
        }
    }
    assert(docs_chain(s4));
    lemma_live_len_last(s0);
    lemma_live_len_last(s4);
    assert(live_len(s4) == live_len(s0) - 1);
    assert forall|i: int, j: int|
        0 <= i < j < n4 && (s4[i]).author == (s4[j]).author implies (s4[i].start_id + s4[i].length
        <= s4[j].start_id || s4[j].start_id + s4[j].length <= s4[i].start_id) by {
        if j == ki {
            assert(s0[i].author == s0[ki].author ==> (s0[i].start_id + s0[i].length
                <= s0[ki].start_id || s0[ki].start_id + s0[ki].length <= s0[i].start_id));
            assert(s0[i].author == s0[ki + 1].author ==> (s0[i].start_id + s0[i].length <= s0[ki
                + 1].start_id || s0[ki + 1].start_id + s0[ki + 1].length <= s0[i].start_id));
            assert(1 <= s0[i].length);
        } else if i == ki {
            assert(s0[j + 1].author == s0[ki].author ==> (s0[j + 1].start_id + s0[j + 1].length
                <= s0[ki].start_id || s0[ki].start_id + s0[ki].length <= s0[j + 1].start_id));
            assert(s0[j + 1].author == s0[ki + 1].author ==> (s0[j + 1].start_id + s0[j
                + 1].length <= s0[ki + 1].start_id || s0[ki + 1].start_id + s0[ki + 1].length
                <= s0[j + 1].start_id));
            assert(1 <= s0[j + 1].length);
        } else {
            let i0: int = if i < ki {
                i
            } else {
                i + 1
            };
            let j0: int = if j < ki {
                j
            } else {
                j + 1
            };
            assert(s4[i].author == s0[i0].author && s4[j].author == s0[j0].author);
            assert(0 <= i0 < j0 < s0.len());
            assert(s0[i0].author == s0[j0].author ==> (s0[i0].start_id + s0[i0].length
                <= s0[j0].start_id || s0[j0].start_id + s0[j0].length <= s0[i0].start_id));
        }
    }
    assert forall|i: int|
        0 <= i && i + 1 < n4 && !(s4[i]).deleted && !s4[i + 1].deleted && s4[i].author == s4[i
            + 1].author implies s4[i].start_id + s4[i].length != s4[i + 1].start_id by {
        if i + 1 < ki {
            assert(!s0[i].deleted && !s0[i + 1].deleted && s0[i].author == s0[i + 1].author
                ==> s0[i].start_id + s0[i].length != s0[i + 1].start_id);
        } else if i > ki {
            assert(!s0[i + 1].deleted && !s0[i + 2].deleted && s0[i + 1].author == s0[i
                + 2].author ==> s0[i + 1].start_id + s0[i + 1].length != s0[i + 2].start_id);
        }
    }
    assert(spans_wf(s4));
}

/// A prepend-merge delete of a length-1 span keeps every identifier known
/// and kills exactly the target.
#[verifier::rlimit(100)]
#[verifier::spinoff_prover]
pub proof fn lemma_merge_collapse_covers(s0: Seq<Span>, s4: Seq<Span>, ki: int)
    requires
        merge_pre(s0, ki),
        s0[ki].length == 1,
        merge_collapse_shape(s0, s4, ki),
    ensures
        forall|x: StableId| covers(s4, x) <==> covers(s0, x),
        forall|x: StableId|
            covers_live(s4, x) <==> covers_live(s0, x) && x != delete_target(s0, ki, 0),
{
    let tgt = delete_target(s0, ki, 0);
    assert forall|x: StableId| covers(s4, x) <==> covers(s0, x) by {
        if covers(s4, x) {
            let w = choose|w: int| 0 <= w < s4.len() && span_covers(s4[w], x);
            if w < ki {
                assert(span_covers(s0[w], x));
            } else if w == ki {
                if x.id == tgt.id {
                    assert(span_covers(s0[ki], x));
                } else {
                    assert(span_covers(s0[ki + 1], x));
                }
            } else {
                assert(span_covers(s0[w + 1], x));
            }
        }
        if covers(s0, x) {
            let w = choose|w: int| 0 <= w < s0.len() && span_covers(s0[w], x);
            if w < ki {
                assert(span_covers(s4[w], x));
            } else if w == ki || w == ki + 1 {
                assert(span_covers(s4[ki], x));
            } else {
                assert(span_covers(s4[w - 1], x));
            }
            assert(covers(s4, x));
        }
    }
    assert forall|x: StableId| covers_live(s4, x) <==> covers_live(s0, x) && x != tgt by {
        if covers_live(s4, x) {
            let w = choose|w: int| 0 <= w < s4.len() && span_covers(s4[w], x) && !s4[w].deleted;
            if w < ki {
                assert(span_covers(s0[w], x) && !s0[w].deleted);
                if x == tgt {
                    lemma_id_unique(s0, w, ki, x);
                }
            } else if w == ki {
                assert(false);
            } else {
                assert(span_covers(s0[w + 1], x) && !s0[w + 1].deleted);
                if x == tgt {
                    lemma_id_unique(s0, w + 1, ki, x);
                }
            }
        }
        if covers_live(s0, x) && x != tgt {
            let w = choose|w: int| 0 <= w < s0.len() && span_covers(s0[w], x) && !s0[w].deleted;
            if w < ki {
                assert(span_covers(s4[w], x) && !s4[w].deleted);
            } else if w == ki {
                assert(x.id == tgt.id && x.author == tgt.author);
                assert(false);
            } else {
                assert(span_covers(s4[w - 1], x) && !s4[w - 1].deleted);
            }
            assert(covers_live(s4, x));
        }
    }
}

/// Placing one fresh live span moves every live identifier at or past the
/// landing position one place right, leaves the others in place, and puts
/// the fresh identifier exactly at the landing position.
#[verifier::rlimit(100)]
#[verifier::spinoff_prover]
pub proof fn lemma_solo_positions(s0: Seq<Span>, s4: Seq<Span>, ki: int, new_span: Span)
    requires
        solo_pre(s0, ki, new_span),
        solo_shape(s0, s4, ki, new_span),
    ensures
        position_of_id(
            s4,
            StableId { author: new_span.author, id: new_span.start_id },
        ) == new_span.document_index - 1,
        forall|x: StableId|
            covers_live(s0, x) ==> position_of_id(s4, x) == (if position_of_id(s0, x)
                >= new_span.document_index - 1 {
                position_of_id(s0, x) + 1
            } else {
                position_of_id(s0, x)
            }),
{
    lemma_solo_wf(s0, s4, ki, new_span);
    let ld = new_span.document_index - 1;
    assert(span_covers(s4[ki + 1], StableId { author: new_span.author, id: new_span.start_id }));
    lemma_position_of_id_at(s4, ki + 1, StableId { author: new_span.author, id: new_span.start_id });
    assert forall|x: StableId| covers_live(s0, x) implies position_of_id(s4, x) == (
    if position_of_id(s0, x) >= ld {
        position_of_id(s0, x) + 1
    } else {
        position_of_id(s0, x)
    }) by {
        let w = choose|w: int| 0 <= w < s0.len() && span_covers(s0[w], x) && !s0[w].deleted;
        lemma_position_of_id_at(s0, w, x);
        if w <= ki {
            assert(s4[w] == s0[w]);
            lemma_position_of_id_at(s4, w, x);
            if w < ki {
                lemma_doc_order(s0, w, ki);
            }
            assert(position_of_id(s0, x) < ld);
        } else {
            assert(span_covers(s4[w + 1], x) && !s4[w + 1].deleted);
            lemma_position_of_id_at(s4, w + 1, x);
            lemma_doc_order(s0, ki, w);
            assert(position_of_id(s0, x) >= ld);
        }
    }
}

/// A tombstoning delete inside a span moves every surviving live identifier
/// past the removed position one place left and leaves the others in place.
#[verifier::rlimit(100)]
#[verifier::spinoff_prover]
pub proof fn lemma_tomb_positions(s0: Seq<Span>, s4: Seq<Span>, ki: int, off: int)
    requires
        delete_pre(s0, ki, off),
        1 <= off,
        tomb_shape(s0, s4, ki, off),
    ensures
        forall|x: StableId|
            covers_live(s0, x) && x != delete_target(s0, ki, off) ==> position_of_id(s4, x) == (
            if position_of_id(s0, x) > s0[ki].document_index + off - 1 {
                position_of_id(s0, x) - 1
            } else {
                position_of_id(s0, x)
            }),
{
    lemma_tomb_wf(s0, s4, ki, off);
    let dd = s0[ki].document_index + off - 1;
    let trail: int = if off + 1 < s0[ki].length {
        1
    } else {
        0
    };
    assert forall|x: StableId|
        covers_live(s0, x) && x != delete_target(s0, ki, off) implies position_of_id(s4, x) == (
    if position_of_id(s0, x) > dd {
        position_of_id(s0, x) - 1
    } else {
        position_of_id(s0, x)
    }) by {
        let w = choose|w: int| 0 <= w < s0.len() && span_covers(s0[w], x) && !s0[w].deleted;
        lemma_position_of_id_at(s0, w, x);
        if w < ki {
            assert(s4[w] == s0[w]);
            lemma_position_of_id_at(s4, w, x);
            lemma_doc_order(s0, w, ki);
            assert(position_of_id(s0, x) <= dd);
        } else if w == ki {
            if x.id < s0[ki].start_id + off {
                assert(span_covers(s4[ki], x) && !s4[ki].deleted);
                lemma_position_of_id_at(s4, ki, x);
                assert(position_of_id(s0, x) <= dd);
            } else {
                assert(x.id > s0[ki].start_id + off);
                assert(trail == 1);
                assert(span_covers(s4[ki + 2], x) && !s4[ki + 2].deleted);
                lemma_position_of_id_at(s4, ki + 2, x);
                assert(position_of_id(s0, x) > dd);
            }
        } else {
            assert(span_covers(s4[w + 1 + trail], x) && !s4[w + 1 + trail].deleted);
            lemma_position_of_id_at(s4, w + 1 + trail, x);
            lemma_doc_order(s0, ki, w);
            assert(position_of_id(s0, x) > dd);
        }
    }
}

/// Deleting the first identifier of a span moves every surviving live
/// identifier past the removed position one place left and leaves the
/// others in place.
#[verifier::rlimit(100)]
#[verifier::spinoff_prover]
pub proof fn lemma_tomb_collapse_positions(s0: Seq<Span>, s4: Seq<Span>, ki: int)
    requires
        delete_pre(s0, ki, 0),
        tomb_collapse_shape(s0, s4, ki),
    ensures
        forall|x: StableId|
            covers_live(s0, x) && x != delete_target(s0, ki, 0) ==> position_of_id(s4, x) == (
            if position_of_id(s0, x) > s0[ki].document_index - 1 {
                position_of_id(s0, x) - 1
            } else {
                position_of_id(s0, x)
            }),
{
    lemma_tomb_collapse_wf(s0, s4, ki);
    let dd = s0[ki].document_index - 1;
    let trail: int = if s0[ki].length > 1 {
        1
    } else {
        0
    };
    assert forall|x: StableId|
        covers_live(s0, x) && x != delete_target(s0, ki, 0) implies position_of_id(s4, x) == (
    if position_of_id(s0, x) > dd {
        position_of_id(s0, x) - 1
    } else {
        position_of_id(s0, x)
    }) by {
        let w = choose|w: int| 0 <= w < s0.len() && span_covers(s0[w], x) && !s0[w].deleted;
        lemma_position_of_id_at(s0, w, x);
        if w < ki {
            assert(s4[w] == s0[w]);
            lemma_position_of_id_at(s4, w, x);
            lemma_doc_order(s0, w, ki);
            assert(position_of_id(s0, x) <= dd);
        } else if w == ki {
            assert(x.id > s0[ki].start_id);
            assert(trail == 1);
            assert(span_covers(s4[ki + 1], x) && !s4[ki + 1].deleted);
            lemma_position_of_id_at(s4, ki + 1, x);
            assert(position_of_id(s0, x) > dd);
        } else {
            assert(span_covers(s4[w + trail], x) && !s4[w + trail].deleted);
            lemma_position_of_id_at(s4, w + trail, x);
            lemma_doc_order(s0, ki, w);
            assert(position_of_id(s0, x) > dd);
        }
    }
}

/// A prepend-merge delete moves every surviving live identifier past the
/// removed position one place left and leaves the others in place.
#[verifier::rlimit(100)]
#[verifier::spinoff_prover]
pub proof fn lemma_merge_positions(s0: Seq<Span>, s4: Seq<Span>, ki: int)
    requires
        merge_pre(s0, ki),
        s0[ki].length >= 2,
        merge_shape(s0, s4, ki),
    ensures
        forall|x: StableId|
            covers_live(s0, x) && x != delete_target(s0, ki, s0[ki].length - 1)
                ==> position_of_id(s4, x) == (if position_of_id(s0, x) > s0[ki].document_index
                + s0[ki].length - 2 {
                position_of_id(s0, x) - 1
            } else {
                position_of_id(s0, x)
            }),
{
    lemma_merge_wf(s0, s4, ki);
    let dd = s0[ki].document_index + s0[ki].length - 2;
    assert forall|x: StableId|
        covers_live(s0, x) && x != delete_target(s0, ki, s0[ki].length - 1) implies position_of_id(
        s4,
        x,
    ) == (
    if position_of_id(s0, x) > dd {
        position_of_id(s0, x) - 1
    } else {
        position_of_id(s0, x)
    }) by {
        let w = choose|w: int| 0 <= w < s0.len() && span_covers(s0[w], x) && !s0[w].deleted;
        lemma_position_of_id_at(s0, w, x);
        if w < ki {
            assert(s4[w] == s0[w]);
            lemma_position_of_id_at(s4, w, x);
            lemma_doc_order(s0, w, ki);
            assert(position_of_id(s0, x) <= dd);
        } else if w == ki {
            assert(x.id < s0[ki].start_id + s0[ki].length - 1);
            assert(span_covers(s4[ki], x) && !s4[ki].deleted);
            lemma_position_of_id_at(s4, ki, x);
            assert(position_of_id(s0, x) <= dd);
        } else {
            assert(w >= ki + 2);
            assert(shifted_down(s4[w], s0[w]));
            assert(span_covers(s4[w], x) && !s4[w].deleted);
            lemma_position_of_id_at(s4, w, x);
            assert(s0[ki + 1].document_index == s0[ki].document_index + span_live(s0[ki]));
            lemma_doc_order(s0, ki + 1, w);
            assert(position_of_id(s0, x) > dd);
        }
    }
}

/// A prepend-merge delete of a length-1 span moves every surviving live
/// identifier past the removed position one place left and leaves the
/// others in place.
#[verifier::rlimit(100)]
#[verifier::spinoff_prover]
pub proof fn lemma_merge_collapse_positions(s0: Seq<Span>, s4: Seq<Span>, ki: int)
    requires
        merge_pre(s0, ki),
        s0[ki].length == 1,
        merge_collapse_shape(s0, s4, ki),
    ensures
        forall|x: StableId|
            covers_live(s0, x) && x != delete_target(s0, ki, 0) ==> position_of_id(s4, x) == (
            if position_of_id(s0, x) > s0[ki].document_index - 1 {
                position_of_id(s0, x) - 1
            } else {
                position_of_id(s0, x)
            }),
{
    lemma_merge_collapse_wf(s0, s4, ki);
    let dd = s0[ki].document_index - 1;
    assert forall|x: StableId|
        covers_live(s0, x) && x != delete_target(s0, ki, 0) implies position_of_id(s4, x) == (
    if position_of_id(s0, x) > dd {
        position_of_id(s0, x) - 1
    } else {
        position_of_id(s0, x)
    }) by {
        let w = choose|w: int| 0 <= w < s0.len() && span_covers(s0[w], x) && !s0[w].deleted;
        lemma_position_of_id_at(s0, w, x);
        if w < ki {
            assert(s4[w] == s0[w]);
            lemma_position_of_id_at(s4, w, x);
            lemma_doc_order(s0, w, ki);
            assert(position_of_id(s0, x) <= dd);
        } else if w == ki {
            assert(x == delete_target(s0, ki, 0));
            assert(false);
        } else {
            assert(w >= ki + 2);
            assert(shifted_down(s4[w - 1], s0[w]));
            assert(span_covers(s4[w - 1], x) && !s4[w - 1].deleted);
            lemma_position_of_id_at(s4, w - 1, x);
            assert(s0[ki + 1].document_index == s0[ki].document_index + span_live(s0[ki]));
            lemma_doc_order(s0, ki + 1, w);
            assert(position_of_id(s0, x) > dd);
        }
    }
}

/// The shape of the fast-append path: span `ki` grew by one identifier in
/// place and every later span moved one document position right.
pub open spec fn extend_shape(s0: Seq<Span>, s4: Seq<Span>, ki: int) -> bool {
    &&& 0 <= ki < s0.len()
    &&& s4.len() == s0.len()
    &&& forall|i: int| 0 <= i < ki ==> s4[i] == s0[i]
    &&& s4[ki].document_index == s0[ki].document_index
    &&& s4[ki].length == s0[ki].length + 1
    &&& s4[ki].start_id == s0[ki].start_id
    &&& s4[ki].author == s0[ki].author
    &&& !s4[ki].deleted
    &&& forall|i: int| ki + 1 <= i < s4.len() ==> shifted_up(#[trigger] s4[i], s0[i])
}

/// The fast-append path moves every live identifier at or past the landing
/// position one place right, leaves the others in place, and puts the fresh
/// identifier exactly at the landing position.
#[verifier::rlimit(100)]
#[verifier::spinoff_prover]
pub proof fn lemma_extend_positions(s0: Seq<Span>, s4: Seq<Span>, ki: int)
    requires
        spans_wf(s0),
        spans_wf(s4),
        extend_shape(s0, s4, ki),
        !s0[ki].deleted,
        s0[ki].start_id + s0[ki].length < u32::MAX,
    ensures
        position_of_id(
            s4,
            StableId {
                author: s0[ki].author,
                id: (s0[ki].start_id + s0[ki].length) as u32,
            },
        ) == s0[ki].document_index + s0[ki].length - 1,
        forall|x: StableId|
            covers_live(s0, x) ==> position_of_id(s4, x) == (if position_of_id(s0, x)
                >= s0[ki].document_index + s0[ki].length - 1 {
                position_of_id(s0, x) + 1
            } else {
                position_of_id(s0, x)
            }),
{
    let ld = s0[ki].document_index + s0[ki].length - 1;
    let c = StableId { author: s0[ki].author, id: (s0[ki].start_id + s0[ki].length) as u32 };
    assert(span_covers(s4[ki], c));
    lemma_position_of_id_at(s4, ki, c);
    assert forall|x: StableId| covers_live(s0, x) implies position_of_id(s4, x) == (
    if position_of_id(s0, x) >= ld {
        position_of_id(s0, x) + 1
    } else {
        position_of_id(s0, x)
    }) by {
        let w = choose|w: int| 0 <= w < s0.len() && span_covers(s0[w], x) && !s0[w].deleted;
        lemma_position_of_id_at(s0, w, x);
        if w < ki {
            assert(s4[w] == s0[w]);
            lemma_position_of_id_at(s4, w, x);
            lemma_doc_order(s0, w, ki);
            assert(position_of_id(s0, x) < ld);
        } else if w == ki {
            assert(span_covers(s4[ki], x) && !s4[ki].deleted);
            lemma_position_of_id_at(s4, ki, x);
            assert(position_of_id(s0, x) < ld);
        } else {
            assert(shifted_up(s4[w], s0[w]));
            assert(span_covers(s4[w], x) && !s4[w].deleted);
            lemma_position_of_id_at(s4, w, x);
            lemma_doc_order(s0, ki, w);
            assert(position_of_id(s0, x) >= ld);
        }
    }
}

} // verus!
