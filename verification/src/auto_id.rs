//! Nodes whose ids come from a generator.

use crate::node::Node;
use sequential_gen::prelude::{EpochBasedGenerator, Generator};
use vstd::prelude::*;
use vstd::std_specs::convert::FromSpec;

verus! {

/// The type of an id that the generator makes.
pub type AutomatedId = u128;

/// Calls `EpochBasedGenerator::generate` of `sequential_gen`, which waits
/// ten microseconds and returns the nanoseconds that have passed since the
/// start of 1970 on the system's clock. Nothing is claimed of the number:
/// it depends on the clock alone. (On a clock that stands before 1970 the
/// call does not return.)
#[verifier::external_body]
fn next_generated() -> (raw: u128) {
    EpochBasedGenerator.generate()
}

impl<Q, T> Node<Q, T> where Q: PartialEq + Eq + Clone + From<u128>, T: PartialEq + Eq + Clone {
    /// Create a new node with the given value, without children and
    /// without a parent, whose id is made from the number `raw`.
    pub fn new_with_id_from(raw: u128, value: Option<T>) -> (node: Self)
        ensures
            node@.value == value,
            node@.children == Seq::<Q>::empty(),
            node@.parent is None,
            call_ensures(Q::from, (raw,), node@.node_id),
            Q::obeys_from_spec() ==> node@.node_id == Q::from_spec(raw),
    {
        Node::new(Q::from(raw), value)
    }

    /// Create a new node with the given value, without children and
    /// without a parent, whose id is made from the next number of the
    /// generator.
    pub fn new_with_auto_id(value: Option<T>) -> (node: Self)
        ensures
            node@.value == value,
            node@.children == Seq::<Q>::empty(),
            node@.parent is None,
            exists|raw: u128| #[trigger] call_ensures(Q::from, (raw,), node@.node_id),
    {
        Node::new_with_id_from(next_generated(), value)
    }
}

} // verus!
