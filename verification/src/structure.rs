//! The element container capability: the narrow interface through which a
//! replica owns its ordered sequence of elements. The replica needs nothing
//! beyond point insert, point remove, point read and the length.

use vstd::prelude::*;

verus! {

/// An ordered container of small elements, as a replica consumes it.
///
/// `contents` is the container's mathematical value; every operation is
/// specified against it. Elements are `Copy`: the data type targets small
/// values such as characters or numbers, and an update record carries its
/// element by value.
pub trait CrdtCollection: Sized {
    type Element: Copy;

    /// The sequence of elements the container currently holds.
    spec fn contents(&self) -> Seq<Self::Element>;

    fn new() -> (r: Self)
        ensures
            r.contents() == Seq::<Self::Element>::empty(),
    ;

    fn length(&self) -> (r: usize)
        ensures
            r == self.contents().len(),
    ;

    fn get(&self, index: usize) -> (r: Self::Element)
        requires
            index < self.contents().len(),
        ensures
            r == self.contents()[index as int],
    ;

    /// Insert `value` at `index`, shifting the tail right.
    fn insert(&mut self, index: usize, value: Self::Element)
        requires
            index <= old(self).contents().len(),
        ensures
            final (self).contents() == old(self).contents().insert(index as int, value),
    ;

    /// Remove the element at `index`, shifting the tail left.
    fn remove(&mut self, index: usize)
        requires
            index < old(self).contents().len(),
        ensures
            final (self).contents() == old(self).contents().remove(index as int),
    ;
}

#[verifier::external_type_specification]
#[verifier::external_body]
pub struct ExRope(ropey::Rope);

/// The characters a rope holds, in order. Ropey maintains the text itself;
/// the library touches it only through the wrappers below, whose contracts
/// say how this sequence changes.
pub uninterp spec fn rope_chars(r: ropey::Rope) -> Seq<char>;

/// Relies on ropey::Rope::new: creates an empty rope.
#[verifier::external_body]
fn rope_new() -> (r: ropey::Rope)
    ensures
        rope_chars(r) == Seq::<char>::empty(),
{
    ropey::Rope::new()
}

/// Relies on ropey::Rope::len_chars: the total number of chars in the rope.
#[verifier::external_body]
fn rope_len_chars(r: &ropey::Rope) -> (n: usize)
    ensures
        n == rope_chars(*r).len(),
{
    r.len_chars()
}

/// Relies on ropey::Rope::char: the char at a char index. It panics past the
/// end, which the precondition rules out.
#[verifier::external_body]
fn rope_char_at(r: &ropey::Rope, index: usize) -> (c: char)
    requires
        index < rope_chars(*r).len(),
    ensures
        c == rope_chars(*r)[index as int],
{
    r.char(index)
}

/// Relies on ropey::Rope::insert_char: inserts one char at a char index,
/// shifting the tail right. It panics past the end, which the precondition
/// rules out.
#[verifier::external_body]
fn rope_insert_char(r: &mut ropey::Rope, index: usize, c: char)
    requires
        index <= rope_chars(*old(r)).len(),
    ensures
        rope_chars(*final (r)) == rope_chars(*old(r)).insert(index as int, c),
{
    r.insert_char(index, c)
}

/// Relies on ropey::Rope::remove: removes a char range, here a single char,
/// shifting the tail left. It panics out of bounds, which the precondition
/// rules out.
#[verifier::external_body]
fn rope_remove_char(r: &mut ropey::Rope, index: usize)
    requires
        index < rope_chars(*old(r)).len(),
    ensures
        rope_chars(*final (r)) == rope_chars(*old(r)).remove(index as int),
{
    r.remove(index..=index)
}

/// A text document held in a rope: the container capability with `char`
/// elements, for replicated text editing.
pub struct Text {
    pub rope: ropey::Rope,
}

impl CrdtCollection for Text {
    type Element = char;

    open spec fn contents(&self) -> Seq<char> {
        rope_chars(self.rope)
    }

    fn new() -> (r: Self) {
        Text { rope: rope_new() }
    }

    fn length(&self) -> (r: usize) {
        rope_len_chars(&self.rope)
    }

    fn get(&self, index: usize) -> (r: char) {
        rope_char_at(&self.rope, index)
    }

    fn insert(&mut self, index: usize, value: char) {
        rope_insert_char(&mut self.rope, index, value);
    }

    fn remove(&mut self, index: usize) {
        rope_remove_char(&mut self.rope, index);
    }
}

impl<T: Copy> CrdtCollection for Vec<T> {
    type Element = T;

    open spec fn contents(&self) -> Seq<T> {
        self@
    }

    fn new() -> (r: Self) {
        Vec::new()
    }

    fn length(&self) -> (r: usize) {
        self.len()
    }

    fn get(&self, index: usize) -> (r: T) {
        self[index]
    }

    fn insert(&mut self, index: usize, value: T) {
        self.insert(index, value);
    }

    fn remove(&mut self, index: usize) {
        self.remove(index);
    }
}

} // verus!
