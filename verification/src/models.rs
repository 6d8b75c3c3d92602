//! The two record types the store holds, and the library's error type.

use vstd::prelude::*;

verus! {

/// A stored entity: a numeric key and a numeric, mutable payload.
#[derive(Clone, Copy, PartialEq, Eq, Structural, Debug)]
pub struct World {
    pub id: i32,
    pub random_number: i32,
}

/// A stored message: a numeric key and a text payload.
#[derive(Debug)]
pub struct Fortune {
    pub id: i32,
    pub message: String,
}

/// The mathematical value of a `Fortune`: its key and the characters of its
/// text, so that two fortunes are the same exactly when key and text agree.
pub ghost struct FortuneView {
    pub id: int,
    pub message: Seq<char>,
}

impl View for Fortune {
    type V = FortuneView;

    open spec fn view(&self) -> FortuneView {
        FortuneView { id: self.id as int, message: self.message@ }
    }
}

/// The values of a sequence of fortunes, element by element.
pub open spec fn fortune_views(s: Seq<Fortune>) -> Seq<FortuneView> {
    s.map_values(|f: Fortune| f@)
}

/// The errors an operation can report: a missing key, a transport-level
/// failure, or a failure reported by the store itself. The text of the two
/// failure variants carries the underlying driver's message.
#[derive(Debug)]
pub enum MongoError {
    NotFound,
    Io(String),
    Mongo(String),
}

} // verus!
