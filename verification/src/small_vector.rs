//! The apply-only flavour of the replicated vector: it takes update records
//! whose identifiers travel as plain fields, as they come off a wire.

use vstd::prelude::*;

use crate::cvrdt::{CvRDT, UpdateError};
use crate::small_vec::{SmallVectorImpl, insert_position, stable_of};
use crate::spans::{
    Span, StableId, apply_insert_pos, covers, covers_live, lemma_author_max_from_covers,
    lemma_document_index_is_live_prefix, lemma_id_unique, lemma_live_len_mono,
    lemma_live_len_take_step, lemma_position_of_id_at, live_len, position_of_id, span_covers,
};
use crate::structure::CrdtCollection;

verus! {

/// An update record with the identifiers spelled out as plain fields.
#[derive(Clone, Copy, Debug)]
pub enum VectorUpdate<T> {
    Insert { previous_author: u16, previous_id: u32, this_author: u16, this_id: u32, element: T },
    Delete { author: u16, id: u32 },
}

/// A replica of the replicated vector that only applies updates; the
/// editing, emitting flavour lives in `SmallVector`.
#[derive(Clone)]
pub struct Vector<V> {
    pub inner: SmallVectorImpl<V>,
}

impl<V: CrdtCollection> Vector<V> {
    pub open spec fn wf(&self) -> bool {
        self.inner.wf()
    }

    pub open spec fn doc(&self) -> Seq<V::Element> {
        self.inner.doc()
    }

    /// A fresh, empty replica: the span list holds exactly the sentinel,
    /// covering only the virtual anchor identifier, and the counter is 0.
    pub fn new(local_author: u16) -> (r: Self)
        requires
            local_author != 0,
        ensures
            r.wf(),
            r.doc() == Seq::<V::Element>::empty(),
            r.inner.local_author == local_author,
            r.inner.next_local_id == 0,
            r.inner.spans@.len() == 1,
            r.inner.spans@[0] == (Span {
                document_index: 0,
                length: 1,
                start_id: 0,
                author: 0,
                deleted: false,
            }),
            forall|x: StableId| covers(r.inner.spans@, x) <==> (x.author == 0 && x.id == 0),
            forall|x: StableId| covers_live(r.inner.spans@, x) <==> (x.author == 0 && x.id == 0),
    {
        Vector { inner: SmallVectorImpl::new(local_author) }
    }

    /// A replica over existing data: the span list holds exactly the
    /// sentinel, which covers the virtual anchor plus one identifier per
    /// existing element, all live under author 0, and the counter is 0.
    pub fn with_data(data: V, local_author: u16) -> (r: Self)
        requires
            local_author != 0,
            data.contents().len() + 1 <= u32::MAX,
        ensures
            r.wf(),
            r.doc() == data.contents(),
            r.inner.local_author == local_author,
            r.inner.next_local_id == 0,
            r.inner.spans@.len() == 1,
            r.inner.spans@[0] == (Span {
                document_index: 0,
                length: (data.contents().len() + 1) as u32,
                start_id: 0,
                author: 0,
                deleted: false,
            }),
            forall|x: StableId|
                covers(r.inner.spans@, x) <==> (x.author == 0 && x.id <= data.contents().len()),
            forall|x: StableId|
                covers_live(r.inner.spans@, x) <==> (x.author == 0 && x.id
                    <= data.contents().len()),
    {
        Vector { inner: SmallVectorImpl::with_data(data, local_author) }
    }

    /// The position in the span list of the span covering `(author, id)`.
    pub(crate) fn span_index(&self, author: u16, id: u32) -> (r: usize)
        requires
            self.wf(),
            covers(self.inner.spans@, StableId { author, id }),
        ensures
            r < self.inner.spans@.len(),
            span_covers(self.inner.spans@[r as int], StableId { author, id }),
    {
        let loc = self.inner.stable_position(StableId::new(author, id));
        loc.span_index()
    }

    /// The underlying document. The replica keeps no history there: it holds
    /// exactly the live elements.
    pub fn document(&self) -> (r: &V)
        ensures
            *r == self.inner.document,
    {
        self.inner.document()
    }
}

impl<V: CrdtCollection> CvRDT for Vector<V> {
    type Update = VectorUpdate<V::Element>;

    open spec fn inv(&self) -> bool {
        self.wf()
    }

    /// What the transport owes: an insert's identifier is above everything
    /// its author has contributed here (per-author emission order) and there
    /// is room for one more element; a delete may name any identifier but
    /// the sentinel's virtual anchor.
    open spec fn update_req(&self, u: VectorUpdate<V::Element>) -> bool {
        match u {
            VectorUpdate::Insert { previous_author, previous_id, this_author, this_id, element } => {
                &&& this_author != 0
                &&& this_id < u32::MAX
                &&& self.doc().len() + 2 <= u32::MAX
                &&& forall|x: StableId|
                    #[trigger] covers(self.inner.spans@, x) && x.author == this_author ==> x.id
                        < this_id
            },
            VectorUpdate::Delete { author, id } => !(author == 0 && id == 0),
        }
    }

    /// What applying an update did: an unknown anchor is reported and the
    /// replica is unchanged; a known one changes the document at the
    /// position the span index assigns, adds or kills exactly the named
    /// identifier, and touches no other. A delete of an already tombstoned
    /// identifier is the identity.
    open spec fn update_ens(
        &self,
        post: Self,
        u: VectorUpdate<V::Element>,
        r: Result<(), UpdateError>,
    ) -> bool {
        match u {
            VectorUpdate::Insert { previous_author, previous_id, this_author, this_id, element } => {
                let previous = StableId { author: previous_author, id: previous_id };
                let current = StableId { author: this_author, id: this_id };
                &&& (r is Ok <==> covers(self.inner.spans@, previous))
                &&& (r is Err ==> post == *self && r == Err::<(), UpdateError>(
                    UpdateError::UnknownAnchor,
                ))
                &&& (r is Ok ==> {
                    &&& post.doc() == self.doc().insert(
                        apply_insert_pos(self.inner.spans@, previous),
                        element,
                    )
                    &&& position_of_id(post.inner.spans@, current) == apply_insert_pos(
                        self.inner.spans@,
                        previous,
                    )
                    &&& forall|x: StableId|
                        covers_live(self.inner.spans@, x) ==> position_of_id(post.inner.spans@, x)
                            == (if position_of_id(self.inner.spans@, x) >= apply_insert_pos(
                            self.inner.spans@,
                            previous,
                        ) {
                            position_of_id(self.inner.spans@, x) + 1
                        } else {
                            position_of_id(self.inner.spans@, x)
                        })
                    &&& forall|x: StableId|
                        covers(post.inner.spans@, x) <==> covers(self.inner.spans@, x) || x
                            == current
                    &&& forall|x: StableId|
                        covers_live(post.inner.spans@, x) <==> covers_live(self.inner.spans@, x)
                            || x == current
                })
            },
            VectorUpdate::Delete { author, id } => {
                let target = StableId { author, id };
                &&& (r is Ok <==> covers(self.inner.spans@, target))
                &&& (r is Err ==> post == *self && r == Err::<(), UpdateError>(
                    UpdateError::UnknownAnchor,
                ))
                &&& (r is Ok ==> {
                    &&& (!covers_live(self.inner.spans@, target) ==> post == *self)
                    &&& (covers_live(self.inner.spans@, target) ==> post.doc()
                        == self.doc().remove(position_of_id(self.inner.spans@, target)))
                    &&& (covers_live(self.inner.spans@, target) ==> (forall|x: StableId|
                        covers_live(self.inner.spans@, x) && x != target ==> position_of_id(
                            post.inner.spans@,
                            x,
                        ) == (if position_of_id(self.inner.spans@, x) > position_of_id(
                            self.inner.spans@,
                            target,
                        ) {
                            position_of_id(self.inner.spans@, x) - 1
                        } else {
                            position_of_id(self.inner.spans@, x)
                        })))
                    &&& forall|x: StableId|
                        covers(post.inner.spans@, x) <==> covers(self.inner.spans@, x)
                    &&& forall|x: StableId|
                        covers_live(post.inner.spans@, x) <==> covers_live(self.inner.spans@, x)
                            && x != target
                })
            },
        }
    }

    fn update(&mut self, u: VectorUpdate<V::Element>) -> (r: Result<(), UpdateError>) {
        let ghost s0 = self.inner.spans@;
        match u {
            VectorUpdate::Insert { previous_author, previous_id, this_author, this_id, element } => {
                let previous = StableId::new(previous_author, previous_id);
                let current = StableId::new(this_author, this_id);
                match self.inner.try_stable_position(previous) {
                    None => Err(UpdateError::UnknownAnchor),
                    Some(loc) => {
                        proof {
                            lemma_author_max_from_covers(s0, current.author, current.id);
                            let j = choose|j: int|
                                0 <= j < s0.len() && span_covers(s0[j], previous);
                            lemma_id_unique(s0, loc.span_index as int, j, previous);
                            assert(apply_insert_pos(s0, previous) == insert_position(loc) - 1);
                        }
                        self.inner.insert(loc, current, element);
                        proof {
                            assert forall|x: StableId| covers_live(s0, x) implies position_of_id(
                                self.inner.spans@,
                                x,
                            ) == (
                            if position_of_id(s0, x) >= apply_insert_pos(s0, previous) {
                                position_of_id(s0, x) + 1
                            } else {
                                position_of_id(s0, x)
                            }) by {
                                assert(position_of_id(self.inner.spans@, x) == (
                                if position_of_id(s0, x) >= insert_position(loc) - 1 {
                                    position_of_id(s0, x) + 1
                                } else {
                                    position_of_id(s0, x)
                                }));
                            }
                        }
                        Ok(())
                    },
                }
            },
            VectorUpdate::Delete { author, id } => {
                let target = StableId::new(author, id);
                match self.inner.try_stable_position(target) {
                    None => Err(UpdateError::UnknownAnchor),
                    Some(loc) => {
                        proof {
                            let j = choose|j: int| 0 <= j < s0.len() && span_covers(s0[j], target);
                            lemma_id_unique(s0, loc.span_index as int, j, target);
                            lemma_document_index_is_live_prefix(s0, loc.span_index as int);
                            if loc.span_index >= 1 {
                                assert(s0.take(0) =~= Seq::<Span>::empty());
                                assert(live_len(Seq::<Span>::empty()) == 0);
                                lemma_live_len_take_step(s0, 0);
                                lemma_live_len_mono(s0, 1, loc.span_index as int);
                            }
                            if !loc.span.deleted && loc.span.document_index + loc.offset == 0 {
                                assert(loc.span_index == 0);
                                assert(false);
                            }
                            if !loc.span.deleted {
                                assert(stable_of(loc) == target);
                            } else {
                                if covers_live(s0, target) {
                                    let w = choose|w: int|
                                        0 <= w < s0.len() && span_covers(s0[w], target)
                                            && !s0[w].deleted;
                                    lemma_id_unique(s0, w, loc.span_index as int, target);
                                    assert(false);
                                }
                            }
                        }
                        proof {
                            if !loc.span.deleted {
                                lemma_position_of_id_at(s0, loc.span_index as int, target);
                            }
                        }
                        self.inner.delete(loc);
                        proof {
                            if !loc.span.deleted {
                                assert(position_of_id(s0, target) == loc.span.document_index
                                    + loc.offset - 1);
                                assert forall|x: StableId|
                                    covers_live(s0, x) && x != target implies position_of_id(
                                    self.inner.spans@,
                                    x,
                                ) == (
                                if position_of_id(s0, x) > position_of_id(s0, target) {
                                    position_of_id(s0, x) - 1
                                } else {
                                    position_of_id(s0, x)
                                }) by {
                                    assert(position_of_id(self.inner.spans@, x) == (
                                    if position_of_id(s0, x) > loc.span.document_index + loc.offset
                                        - 1 {
                                        position_of_id(s0, x) - 1
                                    } else {
                                        position_of_id(s0, x)
                                    }));
                                }
                            }
                            if !loc.span.deleted {
                                assert forall|x: StableId|
                                    covers_live(self.inner.spans@, x) <==> covers_live(s0, x) && x
                                        != target by {
                                    assert(covers_live(self.inner.spans@, x) <==> covers_live(
                                        s0,
                                        x,
                                    ) && x != stable_of(loc));
                                }
                            } else {
                                assert forall|x: StableId|
                                    covers_live(self.inner.spans@, x) <==> covers_live(s0, x) && x
                                        != target by {
                                    if covers_live(s0, x) && x == target {
                                        let w = choose|w: int|
                                            0 <= w < s0.len() && span_covers(s0[w], x)
                                                && !s0[w].deleted;
                                        lemma_id_unique(s0, w, loc.span_index as int, x);
                                        assert(false);
                                    }
                                }
                            }
                        }
                        Ok(())
                    },
                }
            },
        }
    }
}

} // verus!
