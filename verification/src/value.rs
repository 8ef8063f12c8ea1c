//! The wildcard-aware value type that allowed and preferred entries use.

use vstd::prelude::*;

verus! {

/// A constraint entry: either a concrete number or the wildcard `Any`,
/// which stands for "every number matches".
#[derive(Clone, Copy, PartialEq, Eq, Structural, Debug)]
pub enum Value {
    Number(i32),
    Any,
}

/// The number carried by a `Number` entry.
pub open spec fn number_of(v: Value) -> i32
    recommends
        v is Number,
{
    match v {
        Value::Number(n) => n,
        Value::Any => 0,
    }
}

/// Whether the sequence holds the wildcard anywhere.
pub open spec fn has_any(s: Seq<Value>) -> bool {
    exists|i: int| 0 <= i < s.len() && s[i] is Any
}

/// The numbers carried by the entries, in order. Meaningful when every
/// entry is a `Number`, as is the case once `has_any` is ruled out.
pub open spec fn numbers_of(s: Seq<Value>) -> Seq<i32> {
    Seq::new(s.len(), |i: int| number_of(s[i]))
}

/// Ascending order on the numbers of the `Number` entries.
pub open spec fn values_sorted(s: Seq<Value>) -> bool {
    forall|i: int, j: int|
        0 <= i < j < s.len() && s[i] is Number && s[j] is Number ==> number_of(s[i])
            <= number_of(s[j])
}

impl Value {
    /// Returns the number contained in `Number`, consuming `self`.
    /// The wildcard carries no number, so callers must rule it out first.
    pub fn assume_number(self) -> (n: i32)
        requires
            self is Number,
        ensures
            n == number_of(self),
    {
        match self {
            Value::Number(n) => n,
            Value::Any => {
                proof {
                    assert(false);
                }
                0
            },
        }
    }
}

/// Whether the vector holds the wildcard anywhere.
pub(crate) fn vec_has_any(values: &Vec<Value>) -> (r: bool)
    ensures
        r == has_any(values@),
{
    let mut i: usize = 0;
    while i < values.len()
        invariant
            i <= values@.len(),
            forall|j: int| 0 <= j < i ==> !(values@[j] is Any),
        decreases values@.len() - i,
    {
        match values[i] {
            Value::Any => {
                return true;
            },
            Value::Number(_) => {},
        }
        i += 1;
    }
    false
}

} // verus!
