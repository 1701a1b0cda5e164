//! The replication envelope: update records, the operation-based replicated
//! type, the user-facing replica and the buffer of locally produced updates.

use vstd::prelude::*;

use crate::small_vec::{SmallVectorImpl, insert_position, stable_of};
use crate::spans::{
    Span, StableId, anchor_at, apply_insert_pos, covers, covers_live,
    lemma_author_max_from_covers, lemma_document_index_is_live_prefix, lemma_id_unique,
    lemma_live_len_mono, lemma_live_len_take_step, lemma_position_exists,
    lemma_position_of_id_at, live_len, position_of_id, span_covers, stable_at,
};
use crate::structure::CrdtCollection;

verus! {

/// Why an operation was refused. The replica is unchanged in every case.
#[derive(Clone, Copy, PartialEq, Eq, Structural, Debug)]
pub enum UpdateError {
    /// A local edit named an index outside the document.
    IndexOutOfRange,
    /// A remote update named an identifier this replica has never seen: a
    /// causal-delivery violation. Retry the update after its dependencies
    /// have arrived.
    UnknownAnchor,
}

/// A self-sufficient update record: everything a peer that has observed the
/// causally preceding updates needs in order to apply the edit.
#[derive(Clone, Copy, Debug)]
pub enum VectorUpdate<T> {
    Insert { previous: StableId, current: StableId, element: T },
    Delete { id: StableId },
}

/// An operation-based replicated type: a value with an invariant, a
/// precondition on the updates it accepts, and a relation that pins what
/// applying an update did. Replicas that apply the same updates, each
/// author's in emission order, converge.
pub trait CvRDT: Sized {
    type Update: Copy;

    /// The type's invariant.
    spec fn inv(&self) -> bool;

    /// What the transport owes before `u` may be applied here.
    spec fn update_req(&self, u: Self::Update) -> bool;

    /// What applying `u` did: relates the state before, the state after and
    /// the outcome.
    spec fn update_ens(&self, post: Self, u: Self::Update, r: Result<(), UpdateError>) -> bool;

    fn update(&mut self, u: Self::Update) -> (r: Result<(), UpdateError>)
        requires
            old(self).inv(),
            old(self).update_req(u),
        ensures
            final (self).inv(),
            old(self).update_ens(*final (self), u, r),
    ;
}

/// One replica of the replicated sequence: the span index together with the
/// index-based local API and the remote-update entry point.
#[derive(Clone)]
pub struct SmallVector<V> {
    pub inner: SmallVectorImpl<V>,
}

impl<V: CrdtCollection> SmallVector<V> {
    /// The span index is well formed, the local author is real (author 0 is
    /// the sentinel's), and every identifier the local author has produced
    /// lies below its counter, so the counter's next value is fresh.
    pub open spec fn wf(&self) -> bool {
        &&& self.inner.wf()
        &&& self.inner.local_author != 0
        &&& forall|x: StableId|
            #[trigger] covers(self.inner.spans@, x) && x.author == self.inner.local_author
                ==> x.id < self.inner.next_local_id
    }

    pub open spec fn doc(&self) -> Seq<V::Element> {
        self.inner.doc()
    }

    /// A fresh, empty replica: the span list holds exactly the sentinel,
    /// covering only the virtual anchor identifier, and the counter is 0.
    pub fn new(local_author: u16) -> (r: Self)
        requires
            local_author != 0,
        ensures
            r.wf(),
            r.doc() == Seq::<V::Element>::empty(),
            r.inner.local_author == local_author,
            r.inner.next_local_id == 0,
            r.inner.spans@.len() == 1,
            r.inner.spans@[0] == (Span {
                document_index: 0,
                length: 1,
                start_id: 0,
                author: 0,
                deleted: false,
            }),
            forall|x: StableId| covers(r.inner.spans@, x) <==> (x.author == 0 && x.id == 0),
            forall|x: StableId| covers_live(r.inner.spans@, x) <==> (x.author == 0 && x.id == 0),
    {
        let inner = SmallVectorImpl::new(local_author);
        SmallVector { inner }
    }

    /// A replica over existing data: the span list holds exactly the
    /// sentinel, which covers the virtual anchor plus one identifier per
    /// existing element, all live under author 0, and the counter is 0.
    pub fn with_data(data: V, local_author: u16) -> (r: Self)
        requires
            local_author != 0,
            data.contents().len() + 1 <= u32::MAX,
        ensures
            r.wf(),
            r.doc() == data.contents(),
            r.inner.local_author == local_author,
            r.inner.next_local_id == 0,
            r.inner.spans@.len() == 1,
            r.inner.spans@[0] == (Span {
                document_index: 0,
                length: (data.contents().len() + 1) as u32,
                start_id: 0,
                author: 0,
                deleted: false,
            }),
            forall|x: StableId|
                covers(r.inner.spans@, x) <==> (x.author == 0 && x.id <= data.contents().len()),
            forall|x: StableId|
                covers_live(r.inner.spans@, x) <==> (x.author == 0 && x.id
                    <= data.contents().len()),
    {
        let inner = SmallVectorImpl::with_data(data, local_author);
        SmallVector { inner }
    }

    pub fn document(&self) -> (r: &V)
        ensures
            *r == self.inner.document,
    {
        self.inner.document()
    }

    /// Insert `element` at `index` and emit the update that tells peers
    /// about it. `Err(IndexOutOfRange)` for an index beyond the document,
    /// with the replica unchanged. The two arithmetic bounds are machine
    /// limits: the counter and the positions live in 32 bits.
    pub fn insert(&mut self, index: usize, element: V::Element) -> (r: Result<
        VectorUpdate<V::Element>,
        UpdateError,
    >)
        requires
            old(self).wf(),
            old(self).inner.next_local_id < u32::MAX,
            old(self).doc().len() + 2 <= u32::MAX,
        ensures
            final (self).wf(),
            final (self).inner.local_author == old(self).inner.local_author,
            r is Ok <==> index <= old(self).doc().len(),
            r is Err ==> *final (self) == *old(self) && r == Err::<
                VectorUpdate<V::Element>,
                UpdateError,
            >(UpdateError::IndexOutOfRange),
            r is Ok ==> {
                &&& r == Ok::<VectorUpdate<V::Element>, UpdateError>(
                    VectorUpdate::Insert {
                        previous: anchor_at(old(self).inner.spans@, index as int),
                        current: StableId {
                            author: old(self).inner.local_author,
                            id: old(self).inner.next_local_id,
                        },
                        element,
                    },
                )
                &&& final (self).doc() == old(self).doc().insert(index as int, element)
                &&& final (self).inner.next_local_id == old(self).inner.next_local_id + 1
                &&& stable_at(final (self).inner.spans@, index as int) == (StableId {
                    author: old(self).inner.local_author,
                    id: old(self).inner.next_local_id,
                })
                &&& position_of_id(
                    final (self).inner.spans@,
                    StableId {
                        author: old(self).inner.local_author,
                        id: old(self).inner.next_local_id,
                    },
                ) == index as int
                &&& forall|x: StableId|
                    covers_live(old(self).inner.spans@, x) ==> position_of_id(
                        final (self).inner.spans@,
                        x,
                    ) == (if position_of_id(old(self).inner.spans@, x) >= index as int {
                        position_of_id(old(self).inner.spans@, x) + 1
                    } else {
                        position_of_id(old(self).inner.spans@, x)
                    })
                &&& forall|x: StableId|
                    covers(final (self).inner.spans@, x) <==> covers(old(self).inner.spans@, x)
                        || x == (StableId {
                        author: old(self).inner.local_author,
                        id: old(self).inner.next_local_id,
                    })
                &&& forall|x: StableId|
                    covers_live(final (self).inner.spans@, x) <==> covers_live(
                        old(self).inner.spans@,
                        x,
                    ) || x == (StableId {
                        author: old(self).inner.local_author,
                        id: old(self).inner.next_local_id,
                    })
            },
    {
        let len = self.inner.document.length();
        if index > len {
            return Err(UpdateError::IndexOutOfRange);
        }
        let ghost s0 = self.inner.spans@;
        let previous = self.inner.locate(index as u32);
        let current = StableId { author: self.inner.local_author, id: self.inner.next_local_id() };
        proof {
            lemma_author_max_from_covers(s0, current.author, current.id);
        }
        self.inner.insert(previous, current, element);
        let u = VectorUpdate::Insert { previous: previous.stable(), current, element };
        proof {
            assert(insert_position(previous) - 1 == index as int);
            assert forall|x: StableId| covers_live(s0, x) implies position_of_id(
                self.inner.spans@,
                x,
            ) == (
            if position_of_id(s0, x) >= index as int {
                position_of_id(s0, x) + 1
            } else {
                position_of_id(s0, x)
            }) by {
                assert(position_of_id(self.inner.spans@, x) == (if position_of_id(s0, x)
                    >= insert_position(previous) - 1 {
                    position_of_id(s0, x) + 1
                } else {
                    position_of_id(s0, x)
                }));
            }
            assert forall|x: StableId|
                #[trigger] covers(self.inner.spans@, x) && x.author == self.inner.local_author
                    implies x.id < self.inner.next_local_id by {
                assert(covers(s0, x) || x == current);
            }
        }
        Ok(u)
    }

    /// Delete the element at `index` and emit the update that tells peers
    /// about it. `Err(IndexOutOfRange)` for an index at or beyond the
    /// document length, with the replica unchanged.
    pub fn delete(&mut self, index: usize) -> (r: Result<VectorUpdate<V::Element>, UpdateError>)
        requires
            old(self).wf(),
        ensures
            final (self).wf(),
            final (self).inner.local_author == old(self).inner.local_author,
            final (self).inner.next_local_id == old(self).inner.next_local_id,
            r is Ok <==> index < old(self).doc().len(),
            r is Err ==> *final (self) == *old(self) && r == Err::<
                VectorUpdate<V::Element>,
                UpdateError,
            >(UpdateError::IndexOutOfRange),
            r is Ok ==> {
                &&& r == Ok::<VectorUpdate<V::Element>, UpdateError>(
                    VectorUpdate::Delete { id: stable_at(old(self).inner.spans@, index as int) },
                )
                &&& final (self).doc() == old(self).doc().remove(index as int)
                &&& forall|x: StableId|
                    covers(final (self).inner.spans@, x) <==> covers(old(self).inner.spans@, x)
                &&& forall|x: StableId|
                    covers_live(final (self).inner.spans@, x) <==> covers_live(
                        old(self).inner.spans@,
                    x) && x != stable_at(old(self).inner.spans@, index as int)
                &&& forall|x: StableId|
                    covers_live(old(self).inner.spans@, x) && x != stable_at(
                        old(self).inner.spans@,
                        index as int,
                    ) ==> position_of_id(final (self).inner.spans@, x) == (if position_of_id(
                        old(self).inner.spans@,
                        x,
                    ) > index as int {
                        position_of_id(old(self).inner.spans@, x) - 1
                    } else {
                        position_of_id(old(self).inner.spans@, x)
                    })
            },
    {
        let len = self.inner.document.length();
        if index >= len {
            return Err(UpdateError::IndexOutOfRange);
        }
        let ghost s0 = self.inner.spans@;
        let position = self.inner.position(index);
        self.inner.delete(position);
        let u = VectorUpdate::Delete { id: position.stable() };
        proof {
            assert forall|x: StableId|
                covers_live(s0, x) && x != stable_at(s0, index as int) implies position_of_id(
                self.inner.spans@,
                x,
            ) == (
            if position_of_id(s0, x) > index as int {
                position_of_id(s0, x) - 1
            } else {
                position_of_id(s0, x)
            }) by {
                assert(x != stable_of(position));
                assert(position_of_id(self.inner.spans@, x) == (if position_of_id(s0, x)
                    > position.span.document_index + position.offset - 1 {
                    position_of_id(s0, x) - 1
                } else {
                    position_of_id(s0, x)
                }));
            }
            assert forall|x: StableId|
                #[trigger] covers(self.inner.spans@, x) && x.author == self.inner.local_author
                    implies x.id < self.inner.next_local_id by {
                assert(covers(s0, x));
            }
        }
        Ok(u)
    }

    /// The stable identifier of the element at `index`. It survives every
    /// future edit, so peers and later calls can address the element by it.
    pub fn stable_id(&self, index: usize) -> (r: StableId)
        requires
            self.wf(),
            index < self.doc().len(),
        ensures
            r == stable_at(self.inner.spans@, index as int),
            covers_live(self.inner.spans@, r),
    {
        let loc = self.inner.position(index);
        proof {
            assert(span_covers(loc.span, stable_of(loc)));
        }
        loc.stable()
    }

    /// The 0-based index an identifier stands at: its element's index while
    /// the element is live, and the index where its next live neighbour
    /// starts once it is deleted. The sentinel's virtual anchor stands
    /// before the first element and has no index.
    pub fn index(&self, id: StableId) -> (r: usize)
        requires
            self.wf(),
            covers(self.inner.spans@, id),
            !(id.author == 0 && id.id == 0),
        ensures
            r == position_of_id(self.inner.spans@, id),
    {
        let ghost s = self.inner.spans@;
        let loc = self.inner.stable_position(id);
        proof {
            let j = choose|j: int| 0 <= j < s.len() && span_covers(s[j], id);
            lemma_id_unique(s, loc.span_index as int, j, id);
            lemma_document_index_is_live_prefix(s, loc.span_index as int);
            if loc.span_index >= 1 {
                assert(s.take(0) =~= Seq::<Span>::empty());
                assert(live_len(Seq::<Span>::empty()) == 0);
                lemma_live_len_take_step(s, 0);
                lemma_live_len_mono(s, 1, loc.span_index as int);
            }
            if !loc.span.deleted && loc.span.document_index + loc.offset == 0 {
                assert(loc.span_index == 0);
                assert(false);
            }
        }
        let p = loc.position();
        p - 1
    }

    /// What the transport owes before a remote update may be applied here:
    /// an insert's identifier is fresh and above everything its author has
    /// produced here (per-author emission order), and there is room for one
    /// more element. An update of this replica's own author is allowed (a
    /// clone replaying what its original emitted); the counter then advances
    /// past the applied identifier. A delete may arrive at any time, for any
    /// identifier but the sentinel's anchor.
    pub open spec fn apply_req(&self, u: VectorUpdate<V::Element>) -> bool {
        match u {
            VectorUpdate::Insert { previous, current, element } => {
                &&& current.author != 0
                &&& current.id < u32::MAX
                &&& self.doc().len() + 2 <= u32::MAX
                &&& forall|x: StableId|
                    #[trigger] covers(self.inner.spans@, x) && x.author == current.author
                        ==> x.id < current.id
            },
            VectorUpdate::Delete { id } => !(id.author == 0 && id.id == 0),
        }
    }

    /// What applying a remote update did. An unknown anchor leaves the
    /// replica unchanged and is reported; a known one changes the document
    /// at the position the span index assigns, adds the inserted identifier
    /// or kills the deleted one, and touches no other identifier. Deleting
    /// an already tombstoned identifier is the identity: the same delete
    /// applied twice equals it applied once.
    pub open spec fn apply_ens(
        &self,
        post: Self,
        u: VectorUpdate<V::Element>,
        r: Result<(), UpdateError>,
    ) -> bool {
        match u {
            VectorUpdate::Insert { previous, current, element } => {
                &&& (r is Ok <==> covers(self.inner.spans@, previous))
                &&& (r is Err ==> post == *self && r == Err::<(), UpdateError>(
                    UpdateError::UnknownAnchor,
                ))
                &&& (r is Ok ==> {
                    &&& post.doc() == self.doc().insert(
                        apply_insert_pos(self.inner.spans@, previous),
                        element,
                    )
                    &&& position_of_id(post.inner.spans@, current) == apply_insert_pos(
                        self.inner.spans@,
                        previous,
                    )
                    &&& forall|x: StableId|
                        covers_live(self.inner.spans@, x) ==> position_of_id(post.inner.spans@, x)
                            == (if position_of_id(self.inner.spans@, x) >= apply_insert_pos(
                            self.inner.spans@,
                            previous,
                        ) {
                            position_of_id(self.inner.spans@, x) + 1
                        } else {
                            position_of_id(self.inner.spans@, x)
                        })
                    &&& post.inner.local_author == self.inner.local_author
                    &&& post.inner.next_local_id == (if current.author == self.inner.local_author
                        && current.id + 1 > self.inner.next_local_id {
                        (current.id + 1) as u32
                    } else {
                        self.inner.next_local_id
                    })
                    &&& forall|x: StableId|
                        covers(post.inner.spans@, x) <==> covers(self.inner.spans@, x) || x
                            == current
                    &&& forall|x: StableId|
                        covers_live(post.inner.spans@, x) <==> covers_live(self.inner.spans@, x)
                            || x == current
                })
            },
            VectorUpdate::Delete { id } => {
                &&& (r is Ok <==> covers(self.inner.spans@, id))
                &&& (r is Err ==> post == *self && r == Err::<(), UpdateError>(
                    UpdateError::UnknownAnchor,
                ))
                &&& (r is Ok ==> {
                    &&& post.inner.local_author == self.inner.local_author
                    &&& post.inner.next_local_id == self.inner.next_local_id
                    &&& (!covers_live(self.inner.spans@, id) ==> post == *self)
                    &&& (covers_live(self.inner.spans@, id) ==> post.doc() == self.doc().remove(
                        position_of_id(self.inner.spans@, id),
                    ))
                    &&& (covers_live(self.inner.spans@, id) ==> (forall|x: StableId|
                        covers_live(self.inner.spans@, x) && x != id ==> position_of_id(
                            post.inner.spans@,
                            x,
                        ) == (if position_of_id(self.inner.spans@, x) > position_of_id(
                            self.inner.spans@,
                            id,
                        ) {
                            position_of_id(self.inner.spans@, x) - 1
                        } else {
                            position_of_id(self.inner.spans@, x)
                        })))
                    &&& forall|x: StableId|
                        covers(post.inner.spans@, x) <==> covers(self.inner.spans@, x)
                    &&& forall|x: StableId|
                        covers_live(post.inner.spans@, x) <==> covers_live(self.inner.spans@, x)
                            && x != id
                })
            },
        }
    }

    /// Apply a remote update.
    pub fn apply(&mut self, u: VectorUpdate<V::Element>) -> (r: Result<(), UpdateError>)
        requires
            old(self).wf(),
            old(self).apply_req(u),
        ensures
            final (self).wf(),
            old(self).apply_ens(*final (self), u, r),
    {
        let ghost s0 = self.inner.spans@;
        match u {
            VectorUpdate::Insert { previous, current, element } => {
                match self.inner.try_stable_position(previous) {
                    None => Err(UpdateError::UnknownAnchor),
                    Some(loc) => {
                        proof {
                            lemma_author_max_from_covers(s0, current.author, current.id);
                            let j = choose|j: int| 0 <= j < s0.len() && span_covers(s0[j], previous);
                            lemma_id_unique(s0, loc.span_index as int, j, previous);
                            assert(apply_insert_pos(s0, previous) == insert_position(loc) - 1);
                        }
                        self.inner.insert(loc, current, element);
                        if current.author == self.inner.local_author && current.id
                            >= self.inner.next_local_id {
                            self.inner.next_local_id = current.id + 1;
                        }
                        proof {
                            assert forall|x: StableId|
                                #[trigger] covers(self.inner.spans@, x) && x.author
                                    == self.inner.local_author implies x.id
                                < self.inner.next_local_id by {
                                assert(covers(s0, x) || x == current);
                            }
                            assert forall|x: StableId| covers_live(s0, x) implies position_of_id(
                                self.inner.spans@,
                                x,
                            ) == (
                            if position_of_id(s0, x) >= apply_insert_pos(s0, previous) {
                                position_of_id(s0, x) + 1
                            } else {
                                position_of_id(s0, x)
                            }) by {
                                assert(position_of_id(self.inner.spans@, x) == (
                                if position_of_id(s0, x) >= insert_position(loc) - 1 {
                                    position_of_id(s0, x) + 1
                                } else {
                                    position_of_id(s0, x)
                                }));
                            }
                        }
                        Ok(())
                    },
                }
            },
            VectorUpdate::Delete { id } => {
                match self.inner.try_stable_position(id) {
                    None => Err(UpdateError::UnknownAnchor),
                    Some(loc) => {
                        proof {
                            let j = choose|j: int| 0 <= j < s0.len() && span_covers(s0[j], id);
                            lemma_id_unique(s0, loc.span_index as int, j, id);
                            lemma_document_index_is_live_prefix(s0, loc.span_index as int);
                            if loc.span_index >= 1 {
                                assert(s0.take(0) =~= Seq::<Span>::empty());
                                assert(live_len(Seq::<Span>::empty()) == 0);
                                lemma_live_len_take_step(s0, 0);
                                lemma_live_len_mono(s0, 1, loc.span_index as int);
                            }
                            if !loc.span.deleted && loc.span.document_index + loc.offset == 0 {
                                assert(loc.span_index == 0);
                                assert(false);
                            }
                            if !loc.span.deleted {
                                assert(stable_of(loc) == id);
                            } else {
                                if covers_live(s0, id) {
                                    let w = choose|w: int|
                                        0 <= w < s0.len() && span_covers(s0[w], id)
                                            && !s0[w].deleted;
                                    lemma_id_unique(s0, w, loc.span_index as int, id);
                                    assert(false);
                                }
                            }
                        }
                        proof {
                            if !loc.span.deleted {
                                lemma_position_of_id_at(s0, loc.span_index as int, id);
                            }
                        }
                        self.inner.delete(loc);
                        proof {
                            assert forall|x: StableId|
                                #[trigger] covers(self.inner.spans@, x) && x.author
                                    == self.inner.local_author implies x.id
                                < self.inner.next_local_id by {
                                assert(covers(s0, x));
                            }
                            if !loc.span.deleted {
                                assert(position_of_id(s0, id) == loc.span.document_index
                                    + loc.offset - 1);
                                assert forall|x: StableId|
                                    covers_live(s0, x) && x != id implies position_of_id(
                                    self.inner.spans@,
                                    x,
                                ) == (
                                if position_of_id(s0, x) > position_of_id(s0, id) {
                                    position_of_id(s0, x) - 1
                                } else {
                                    position_of_id(s0, x)
                                }) by {
                                    assert(position_of_id(self.inner.spans@, x) == (
                                    if position_of_id(s0, x) > loc.span.document_index + loc.offset
                                        - 1 {
                                        position_of_id(s0, x) - 1
                                    } else {
                                        position_of_id(s0, x)
                                    }));
                                }
                            }
                            if !loc.span.deleted {
                                assert forall|x: StableId|
                                    covers_live(self.inner.spans@, x) <==> covers_live(s0, x) && x
                                        != id by {
                                    assert(covers_live(self.inner.spans@, x) <==> covers_live(
                                        s0,
                                        x,
                                    ) && x != stable_of(loc));
                                }
                            } else {
                                assert forall|x: StableId|
                                    covers_live(self.inner.spans@, x) <==> covers_live(s0, x) && x
                                        != id by {
                                    if covers_live(s0, x) && x == id {
                                        let w = choose|w: int|
                                            0 <= w < s0.len() && span_covers(s0[w], x)
                                                && !s0[w].deleted;
                                        lemma_id_unique(s0, w, loc.span_index as int, x);
                                        assert(false);
                                    }
                                }
                            }
                        }
                        Ok(())
                    },
                }
            },
        }
    }
}

impl<V: CrdtCollection> CvRDT for SmallVector<V> {
    type Update = VectorUpdate<V::Element>;

    open spec fn inv(&self) -> bool {
        self.wf()
    }

    open spec fn update_req(&self, u: VectorUpdate<V::Element>) -> bool {
        self.apply_req(u)
    }

    open spec fn update_ens(
        &self,
        post: Self,
        u: VectorUpdate<V::Element>,
        r: Result<(), UpdateError>,
    ) -> bool {
        self.apply_ens(post, u, r)
    }

    fn update(&mut self, u: VectorUpdate<V::Element>) -> (r: Result<(), UpdateError>) {
        self.apply(u)
    }
}

/// Delete idempotence: applying the same delete twice equals applying it
/// once. If one application of a delete took `pre` to `mid`, a second
/// application of the same delete succeeds and leaves `mid` unchanged.
pub proof fn lemma_delete_idempotent<V: CrdtCollection>(
    pre: SmallVector<V>,
    mid: SmallVector<V>,
    post: SmallVector<V>,
    id: StableId,
    r1: Result<(), UpdateError>,
    r2: Result<(), UpdateError>,
)
    requires
        pre.apply_ens(mid, VectorUpdate::Delete { id }, r1),
        r1 is Ok,
        mid.apply_ens(post, VectorUpdate::Delete { id }, r2),
    ensures
        r2 is Ok,
        post == mid,
{
}

/// Local–remote equivalence for inserts: the update a local insert at
/// `index` emits carries the anchor at that index, and a replica still in
/// the starting state that applies it lands the element at the same index,
/// so emission and application produce the same document.
pub proof fn lemma_local_remote_insert<V: CrdtCollection>(
    pre: SmallVector<V>,
    post: SmallVector<V>,
    index: int,
    element: V::Element,
    current: StableId,
    r: Result<(), UpdateError>,
)
    requires
        pre.wf(),
        0 <= index <= pre.doc().len(),
        pre.apply_ens(
            post,
            VectorUpdate::Insert {
                previous: anchor_at(pre.inner.spans@, index),
                current,
                element,
            },
            r,
        ),
    ensures
        r is Ok,
        post.doc() == pre.doc().insert(index, element),
        position_of_id(post.inner.spans@, current) == index,
{
    let s = pre.inner.spans@;
    lemma_position_exists(s, index);
    let i = choose|i: int|
        0 <= i < s.len() && !s[i].deleted && s[i].document_index <= index < s[i].document_index
            + s[i].length;
    let previous = anchor_at(s, index);
    assert(span_covers(s[i], previous));
    assert(covers(s, previous));
    let j = choose|j: int| 0 <= j < s.len() && span_covers(s[j], previous);
    lemma_id_unique(s, i, j, previous);
    assert(apply_insert_pos(s, previous) == index);
}

/// A replicated value beside the first-in-first-out buffer of the updates it
/// has produced or applied since the last drain, kept in order for peers.
#[derive(Clone)]
pub struct CrdtBox<T: CvRDT> {
    pub data: T,
    pub update: Vec<T::Update>,
}

impl<T: CvRDT> CrdtBox<T> {
    pub fn new(data: T) -> (r: Self)
        ensures
            r.data == data,
            r.update@ == Seq::<T::Update>::empty(),
    {
        Self { data, update: Vec::new() }
    }

    /// Apply an update to the value and append it to the buffer.
    pub fn update(&mut self, u: T::Update) -> (r: Result<(), UpdateError>)
        requires
            old(self).data.inv(),
            old(self).data.update_req(u),
        ensures
            final (self).data.inv(),
            old(self).data.update_ens(final (self).data, u, r),
            final (self).update@ == old(self).update@.push(u),
    {
        let r = self.data.update(u);
        self.update.push(u);
        r
    }

    /// Swap the buffer for an empty one and hand out the old contents, in
    /// the order they were produced: one author's inserts must travel in
    /// emission order.
    pub fn drain_update(&mut self) -> (r: Vec<T::Update>)
        ensures
            r@ == old(self).update@,
            final (self).update@ == Seq::<T::Update>::empty(),
            final (self).data == old(self).data,
    {
        let mut drained: Vec<T::Update> = Vec::new();
        core::mem::swap(&mut drained, &mut self.update);
        drained
    }
}

impl<V: CrdtCollection> CrdtBox<SmallVector<V>> {
    /// Insert locally and buffer the emitted update for transport.
    pub fn insert(&mut self, index: usize, value: V::Element) -> (r: Result<(), UpdateError>)
        requires
            old(self).data.wf(),
            old(self).data.inner.next_local_id < u32::MAX,
            old(self).data.doc().len() + 2 <= u32::MAX,
        ensures
            final (self).data.wf(),
            r is Ok <==> index <= old(self).data.doc().len(),
            r is Ok ==> final (self).data.doc() == old(self).data.doc().insert(
                index as int,
                value,
            ) && final (self).update@ == old(self).update@.push(
                VectorUpdate::Insert {
                    previous: anchor_at(old(self).data.inner.spans@, index as int),
                    current: StableId {
                        author: old(self).data.inner.local_author,
                        id: old(self).data.inner.next_local_id,
                    },
                    element: value,
                },
            ),
            r is Err ==> final (self).data == old(self).data && final (self).update@ == old(
                self,
            ).update@,
    {
        match self.data.insert(index, value) {
            Ok(u) => {
                self.update.push(u);
                Ok(())
            },
            Err(e) => Err(e),
        }
    }

    /// Delete locally and buffer the emitted update for transport.
    pub fn delete(&mut self, index: usize) -> (r: Result<(), UpdateError>)
        requires
            old(self).data.wf(),
        ensures
            final (self).data.wf(),
            r is Ok <==> index < old(self).data.doc().len(),
            r is Ok ==> final (self).data.doc() == old(self).data.doc().remove(index as int)
                && final (self).update@ == old(self).update@.push(
                VectorUpdate::Delete { id: stable_at(old(self).data.inner.spans@, index as int) },
            ),
            r is Err ==> final (self).data == old(self).data && final (self).update@ == old(
                self,
            ).update@,
    {
        match self.data.delete(index) {
            Ok(u) => {
                self.update.push(u);
                Ok(())
            },
            Err(e) => Err(e),
        }
    }
}

} // verus!
