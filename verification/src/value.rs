//! The values reactive nodes carry.
//!
//! A node holds either a single machine word or a sequence of words.
//! Sequences are what the list-diff engine maps over; richer caller
//! values are represented by word-sized identifiers that the caller
//! owns. Change detection defaults to structural equality over these
//! values; a node can opt out with the always-notify policy.

use vstd::prelude::*;

verus! {

/// A value stored in a signal or cached by a memo.
#[derive(Clone, PartialEq, Eq, Debug)]
pub enum Value {
    /// A single machine word.
    Int(u64),
    /// A sequence of machine words, as diffed by the list engine.
    List(Vec<u64>),
}

/// The mathematical shape of a [`Value`].
pub enum ValueView {
    Int(u64),
    List(Seq<u64>),
}

impl View for Value {
    type V = ValueView;

    closed spec fn view(&self) -> ValueView {
        match self {
            Value::Int(w) => ValueView::Int(*w),
            Value::List(items) => ValueView::List(items@),
        }
    }
}

impl Value {
    /// Structural equality, the default change-detection policy.
    pub fn equal_to(&self, other: &Value) -> (r: bool)
        ensures
            r == (self@ == other@),
    {
        match (self, other) {
            (Value::Int(a), Value::Int(b)) => a == b,
            (Value::List(a), Value::List(b)) => {
                if a.len() != b.len() {
                    assert(a@ != b@) by {
                        assert(a@.len() != b@.len());
                    }
                    false
                } else {
                    let mut i: usize = 0;
                    while i < a.len()
                        invariant
                            i <= a.len(),
                            a.len() == b.len(),
                            self@ == ValueView::List(a@),
                            other@ == ValueView::List(b@),
                            forall|k: int| 0 <= k < i ==> a@[k] == b@[k],
                        decreases a.len() - i,
                    {
                        if a[i] != b[i] {
                            proof {
                                if self@ == other@ {
                                    assert(a@ == b@);
                                    assert(a@[i as int] == b@[i as int]);
                                }
                            }
                            return false;
                        }
                        i = i + 1;
                    }
                    proof {
                        assert(a@ =~= b@);
                    }
                    true
                }
            },
            _ => {
                assert(self@ != other@);
                false
            },
        }
    }

    /// An identical copy of the value.
    pub fn duplicate(&self) -> (r: Value)
        ensures
            r@ == self@,
    {
        match self {
            Value::Int(w) => Value::Int(*w),
            Value::List(items) => {
                let mut copy: Vec<u64> = Vec::new();
                let mut i: usize = 0;
                while i < items.len()
                    invariant
                        i <= items.len(),
                        copy@ == items@.subrange(0, i as int),
                    decreases items.len() - i,
                {
                    proof {
                        assert(items@.subrange(0, i + 1) == items@.subrange(0, i as int).push(
                            items@[i as int],
                        ));
                    }
                    copy.push(items[i]);
                    i = i + 1;
                }
                proof {
                    assert(items@.subrange(0, items@.len() as int) =~= items@);
                }
                Value::List(copy)
            },
        }
    }
}

} // verus!
