use small_vector::cvrdt::{CrdtBox, SmallVector, UpdateError, VectorUpdate};
use small_vector::spans::{Span, StableId};
use small_vector::structure::{CrdtCollection, Text};

type Replica = CrdtBox<SmallVector<Vec<i32>>>;

fn new_replica(author: u16) -> Replica {
    CrdtBox::new(SmallVector::new(author))
}

/// Ship every buffered update of `from` to `to`, in emission order.
fn ship(from: &mut Replica, to: &mut Replica) {
    for u in from.drain_update() {
        to.data.apply(u).unwrap();
    }
}

/// The invariants of the span list, checked on concrete states: sentinel,
/// position chaining, id-range disjointness per author, no mergeable live
/// neighbours, and parity with the document (the sentinel holds the one
/// virtual slot, so live positions exceed elements by one).
fn check_invariants(spans: &Vec<Span>, doc_len: usize) {
    assert!(!spans.is_empty());
    assert_eq!(spans[0].author, 0);
    assert_eq!(spans[0].start_id, 0);
    assert_eq!(spans[0].document_index, 0);
    assert!(!spans[0].deleted);
    let mut live: u64 = 0;
    for (i, s) in spans.iter().enumerate() {
        assert!(s.length >= 1);
        let s_live = if s.deleted { 0 } else { s.length as u64 };
        assert_eq!(s.document_index as u64, live, "span {} out of position", i);
        live += s_live;
        for (j, t) in spans.iter().enumerate() {
            if i < j && s.author == t.author {
                assert!(
                    s.start_id + s.length <= t.start_id || t.start_id + t.length <= s.start_id,
                    "overlapping id ranges at {} and {}",
                    i,
                    j
                );
            }
        }
        if i + 1 < spans.len() {
            let n = &spans[i + 1];
            if !s.deleted && !n.deleted && s.author == n.author {
                assert_ne!(s.start_id + s.length, n.start_id, "mergeable pair at {}", i);
            }
        }
    }
    assert_eq!(live, doc_len as u64 + 1);
}

#[test]
fn continuous_typing_compacts() {
    let mut a = new_replica(1);
    for i in 0..8usize {
        a.insert(i, (i as i32) * 10).unwrap();
    }
    assert_eq!(a.data.document(), &vec![0, 10, 20, 30, 40, 50, 60, 70]);
    let spans = &a.data.inner.spans;
    assert_eq!(spans.len(), 2);
    assert_eq!(spans[1].length, 8);
    assert_eq!(spans[1].author, 1);
    assert_eq!(spans[1].start_id, 0);
    assert!(!spans[1].deleted);
    check_invariants(spans, 8);
}

#[test]
fn interleaved_insert_splits() {
    let mut a = new_replica(1);
    for i in 0..8usize {
        a.insert(i, (i as i32) * 10).unwrap();
    }
    let mut b = new_replica(2);
    ship(&mut a, &mut b);
    b.insert(4, 99).unwrap();
    ship(&mut b, &mut a);
    assert_eq!(a.data.document(), &vec![0, 10, 20, 30, 99, 40, 50, 60, 70]);
    let spans = &a.data.inner.spans;
    assert_eq!(spans.len(), 4);
    assert_eq!(spans[0].author, 0);
    assert_eq!((spans[1].author, spans[1].start_id, spans[1].length), (1, 0, 4));
    assert_eq!((spans[2].author, spans[2].length), (2, 1));
    assert_eq!((spans[3].author, spans[3].start_id, spans[3].length), (1, 4, 4));
    check_invariants(spans, 9);
}

#[test]
fn concurrent_inserts_on_one_anchor() {
    let mut a = new_replica(1);
    a.insert(0, 4).unwrap();
    let init = a.drain_update();
    let mut b = new_replica(2);
    for u in &init {
        b.data.apply(*u).unwrap();
    }
    a.insert(1, 7).unwrap();
    a.insert(2, 10).unwrap();
    b.insert(1, 20).unwrap();
    b.insert(2, 30).unwrap();
    let a_ups = a.drain_update();
    let b_ups = b.drain_update();
    for u in &b_ups {
        a.data.apply(*u).unwrap();
    }
    for u in &a_ups {
        b.data.apply(*u).unwrap();
    }
    // two runs anchored on the same identifier are ordered by arrival: each
    // replica keeps its own run first, so peers must agree on a delivery
    // order for runs that share an anchor
    assert_eq!(a.data.document(), &vec![4, 20, 30, 7, 10]);
    assert_eq!(b.data.document(), &vec![4, 7, 10, 20, 30]);
    // replicas that see the updates in the same order agree exactly
    let mut c = new_replica(3);
    let mut d = new_replica(4);
    for u in init.iter().chain(a_ups.iter()).chain(b_ups.iter()) {
        c.data.apply(*u).unwrap();
        d.data.apply(*u).unwrap();
    }
    assert_eq!(c.data.document(), d.data.document());
    assert_eq!(c.data.document(), a.data.document());
    check_invariants(&a.data.inner.spans, a.data.document().len());
    check_invariants(&b.data.inner.spans, b.data.document().len());
    check_invariants(&c.data.inner.spans, c.data.document().len());
}

#[test]
fn delete_then_insert_on_deleted_anchor() {
    let mut a = new_replica(1);
    a.insert(0, 1).unwrap();
    a.insert(1, 2).unwrap();
    a.insert(2, 3).unwrap();
    let mut b = new_replica(2);
    ship(&mut a, &mut b);
    let s = a.data.stable_id(1);
    a.delete(1).unwrap();
    assert_eq!(a.data.document(), &vec![1, 3]);
    // b, unaware of the delete, anchors its insert on the deleted identifier
    b.insert(2, 9).unwrap();
    assert_eq!(b.data.stable_id(1), s);
    ship(&mut b, &mut a);
    assert_eq!(a.data.document(), &vec![1, 9, 3]);
    ship(&mut a, &mut b);
    assert_eq!(b.data.document(), &vec![1, 9, 3]);
    check_invariants(&a.data.inner.spans, 3);
    check_invariants(&b.data.inner.spans, 3);
}

#[test]
fn delete_is_idempotent() {
    let mut a = new_replica(1);
    a.insert(0, 1).unwrap();
    a.insert(1, 2).unwrap();
    a.insert(2, 3).unwrap();
    let mut b = new_replica(2);
    ship(&mut a, &mut b);
    let del = b.data.delete(1).unwrap();
    a.data.apply(del).unwrap();
    let doc_once = a.data.document().clone();
    let spans_once = a.data.inner.spans.clone();
    a.data.apply(del).unwrap();
    assert_eq!(a.data.document(), &doc_once);
    assert_eq!(a.data.inner.spans, spans_once);
    assert_eq!(doc_once, vec![1, 3]);
}

#[test]
fn local_and_remote_insert_agree() {
    let mut a = new_replica(1);
    a.insert(0, 5).unwrap();
    a.insert(1, 6).unwrap();
    let mut prior = a.data.clone();
    let u = a.data.insert(1, 7).unwrap();
    prior.apply(u).unwrap();
    assert_eq!(a.data.document(), prior.document());
    assert_eq!(a.data.inner.spans, prior.inner.spans);
    // applying its own emitted update advanced the clone's counter too
    assert_eq!(a.data.inner.next_local_id, prior.inner.next_local_id);
    assert_eq!(a.data.document(), &vec![5, 7, 6]);
}

#[test]
fn index_round_trip() {
    let mut a = new_replica(1);
    for i in 0..5usize {
        a.insert(i, (i as i32) + 10).unwrap();
    }
    a.delete(2).unwrap();
    for i in 0..4usize {
        let s = a.data.stable_id(i);
        assert_eq!(a.data.index(s), i);
    }
}

#[test]
fn local_errors_leave_the_replica_unchanged() {
    let mut a = new_replica(1);
    a.insert(0, 8).unwrap();
    let doc = a.data.document().clone();
    assert_eq!(a.data.insert(5, 1).unwrap_err(), UpdateError::IndexOutOfRange);
    assert_eq!(a.data.delete(1).unwrap_err(), UpdateError::IndexOutOfRange);
    assert_eq!(a.data.document(), &doc);
}

#[test]
fn unknown_anchor_is_reported() {
    let mut a = new_replica(1);
    a.insert(0, 8).unwrap();
    let doc = a.data.document().clone();
    let spans = a.data.inner.spans.clone();
    let r = a.data.apply(VectorUpdate::Insert {
        previous: StableId::new(7, 3),
        current: StableId::new(2, 0),
        element: 1,
    });
    assert_eq!(r.unwrap_err(), UpdateError::UnknownAnchor);
    let r = a.data.apply(VectorUpdate::<i32>::Delete { id: StableId::new(9, 9) });
    assert_eq!(r.unwrap_err(), UpdateError::UnknownAnchor);
    assert_eq!(a.data.document(), &doc);
    assert_eq!(a.data.inner.spans, spans);
}

#[test]
fn backspace_merges_tombstones() {
    let mut a = new_replica(1);
    for i in 0..6usize {
        a.insert(i, i as i32).unwrap();
    }
    // deleting backwards from the end folds into one tombstone run
    a.delete(5).unwrap();
    a.delete(4).unwrap();
    a.delete(3).unwrap();
    assert_eq!(a.data.document(), &vec![0, 1, 2]);
    let spans = &a.data.inner.spans;
    assert_eq!(spans.len(), 3);
    assert!(!spans[1].deleted);
    assert_eq!(spans[1].length, 3);
    assert!(spans[2].deleted);
    assert_eq!((spans[2].start_id, spans[2].length), (3, 3));
    check_invariants(spans, 3);
}

#[test]
fn cursor_getters() {
    let mut a = new_replica(1);
    for i in 0..3usize {
        a.insert(i, i as i32).unwrap();
    }
    let loc = a.data.inner.position(1);
    assert_eq!(loc.author(), 1);
    assert_eq!(loc.id(), 1);
    assert_eq!(loc.position(), 2);
    assert_eq!(loc.span_index(), 1);
    assert_eq!(loc.offset(), 1);
    assert_eq!(loc.span_length(), 3);
    assert_eq!(loc.span_start_id(), 0);
    assert_eq!(loc.span_end_id(), 3);
    assert_eq!(loc.span_start_position(), 1);
    assert_eq!(loc.span_end_position(), 4);
    assert_eq!(loc.stable(), StableId::new(1, 1));
    let loc2 = a.data.inner.stable_position(StableId::new(1, 1));
    assert_eq!(loc2, loc);
}

#[test]
fn emitted_updates_carry_the_anchor() {
    let mut a = SmallVector::<Vec<i32>>::new(1);
    let u0 = a.insert(0, 5).unwrap();
    match u0 {
        VectorUpdate::Insert { previous, current, element } => {
            assert_eq!(previous, StableId::new(0, 0));
            assert_eq!(current, StableId::new(1, 0));
            assert_eq!(element, 5);
        },
        _ => panic!("expected an insert update"),
    }
    let u1 = a.delete(0).unwrap();
    match u1 {
        VectorUpdate::Delete { id } => assert_eq!(id, StableId::new(1, 0)),
        _ => panic!("expected a delete update"),
    }
}

#[test]
fn text_rope_replica() {
    let mut a = CrdtBox::new(SmallVector::<Text>::new(1));
    a.insert(0, 'h').unwrap();
    a.insert(1, 'y').unwrap();
    a.insert(2, '!').unwrap();
    a.delete(1).unwrap();
    a.insert(1, 'i').unwrap();
    let t = a.data.document();
    assert_eq!(t.length(), 3);
    assert_eq!(t.get(0), 'h');
    assert_eq!(t.get(1), 'i');
    assert_eq!(t.get(2), '!');
    assert_eq!(t.rope.to_string(), "hi!");
    let mut b = CrdtBox::new(SmallVector::<Text>::new(2));
    ship_text(&mut a, &mut b);
    assert_eq!(b.data.document().rope.to_string(), "hi!");
}

/// Ship every buffered update between text replicas.
fn ship_text(from: &mut CrdtBox<SmallVector<Text>>, to: &mut CrdtBox<SmallVector<Text>>) {
    for u in from.drain_update() {
        to.data.apply(u).unwrap();
    }
}
