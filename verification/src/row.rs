use crate::value::{SpecValue, Value};
use vstd::prelude::*;

verus! {

/// One record: the values of its columns, in schema order.
#[derive(Debug, PartialEq, Eq)]
pub struct Row {
    values: Vec<Value>,
}

/// The contents of a sequence of values.
pub open spec fn values_view(values: Seq<Value>) -> Seq<SpecValue> {
    values.map_values(|v: Value| v@)
}

impl View for Row {
    type V = Seq<SpecValue>;

    closed spec fn view(&self) -> Seq<SpecValue> {
        values_view(self.values@)
    }
}

/// Copies a slice of values, value by value.
pub fn clone_values(values: &[Value]) -> (r: Vec<Value>)
    ensures
        values_view(r@) == values_view(values@),
{
    let mut out: Vec<Value> = Vec::new();
    let mut i: usize = 0;
    while i < values.len()
        invariant
            i <= values@.len(),
            out@.len() == i,
            forall|j: int| 0 <= j < i ==> out@[j]@ == values@[j]@,
        decreases values@.len() - i,
    {
        out.push(values[i].clone());
        i += 1;
    }
    assert(values_view(out@) =~= values_view(values@));
    out
}

impl Clone for Row {
    fn clone(&self) -> (r: Self)
        ensures
            r@ == self@,
    {
        Row { values: clone_values(self.values.as_slice()) }
    }
}

impl Row {
    pub fn new(values: Vec<Value>) -> (r: Self)
        ensures
            r@ == values_view(values@),
    {
        Row { values }
    }

    pub fn values(&self) -> (r: &[Value])
        ensures
            values_view(r@) == self@,
    {
        self.values.as_slice()
    }

    pub fn len(&self) -> (r: usize)
        ensures
            r == self@.len(),
    {
        self.values.len()
    }

    pub fn is_empty(&self) -> (r: bool)
        ensures
            r == (self@.len() == 0),
    {
        self.values.len() == 0
    }

    pub fn get(&self, index: usize) -> (r: Option<&Value>)
        ensures
            index < self@.len() ==> (r matches Some(v) && v@ == self@[index as int]),
            index >= self@.len() ==> r is None,
    {
        if index < self.values.len() {
            Some(&self.values[index])
        } else {
            None
        }
    }

    pub fn get_mut(&mut self, index: usize) -> (r: Option<&mut Value>)
        ensures
            index < old(self)@.len() ==> (r matches Some(v) && v@ == old(self)@[index as int]
                && final(self)@ == old(self)@.update(index as int, final(v)@)),
            index >= old(self)@.len() ==> r is None && final(self)@ == old(self)@,
    {
        if index < self.values.len() {
            Some(&mut self.values[index])
        } else {
            None
        }
    }

    /// Replaces the value at `index`, if the row has such a column; returns whether it did.
    pub fn set(&mut self, index: usize, value: Value) -> (r: bool)
        ensures
            r == (index < old(self)@.len()),
            r ==> final(self)@ == old(self)@.update(index as int, value@),
            !r ==> final(self)@ == old(self)@,
    {
        if index < self.values.len() {
            self.values.set(index, value);
            true
        } else {
            false
        }
    }

    /// Whether two rows hold equal values in every column.
    pub fn same_as(&self, other: &Row) -> (r: bool)
        ensures
            r == (self@ == other@),
    {
        if self.values.len() != other.values.len() {
            return false;
        }
        let mut i: usize = 0;
        while i < self.values.len()
            invariant
                i <= self@.len(),
                self@.len() == other@.len(),
                forall|j: int| 0 <= j < i ==> self@[j] == other@[j],
            decreases self@.len() - i,
        {
            if !self.values[i].same_as(&other.values[i]) {
                assert(self@[i as int] != other@[i as int]);
                return false;
            }
            i += 1;
        }
        assert(self@ =~= other@);
        true
    }
}

} // verus!
