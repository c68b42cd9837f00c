//! An example storable object: an integer payload with an optional edge
//! to a successor object.

use crate::gc::GcObject;
use crate::gc::GcRef;
use vstd::prelude::*;

verus! {

/// A storable object holding one integer and at most one outgoing edge.
pub struct Value {
    pub value: i32,
    pub next: Option<GcRef>,
}

impl GcObject for Value {
    open spec fn edges(&self) -> Seq<usize> {
        match self.next {
            Some(h) => seq![h.id],
            None => Seq::empty(),
        }
    }

    fn trace(&self) -> (r: Vec<usize>) {
        let mut r: Vec<usize> = Vec::new();
        match &self.next {
            Some(h) => {
                r.push(h.id());
                proof {
                    assert(r@ =~= seq![h.id]);
                }
            },
            None => {
                proof {
                    assert(r@ =~= Seq::<usize>::empty());
                }
            },
        }
        r
    }
}

} // verus!
