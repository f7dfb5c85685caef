//! Copies that keep a value's model.

use vstd::prelude::*;

verus! {

/// Values that can be copied so that the copy has the model of the value it
/// was made from.
pub trait Duplicate: DeepView + Sized {
    fn duplicate(&self) -> (copy: Self)
        ensures
            copy.deep_view() == self.deep_view(),
    ;
}

/// All of `v` as a slice.
pub fn slice_of<T: DeepView>(v: &Vec<T>) -> (s: &[T])
    ensures
        s@ == v@,
        s.deep_view() == v.deep_view(),
{
    let s = v.as_slice();
    assert(s.deep_view() =~= v.deep_view());
    s
}

impl Duplicate for String {
    fn duplicate(&self) -> (copy: Self) {
        self.clone()
    }
}

impl Duplicate for bool {
    fn duplicate(&self) -> (copy: Self) {
        *self
    }
}

impl Duplicate for u16 {
    fn duplicate(&self) -> (copy: Self) {
        *self
    }
}

impl Duplicate for u32 {
    fn duplicate(&self) -> (copy: Self) {
        *self
    }
}

impl Duplicate for i32 {
    fn duplicate(&self) -> (copy: Self) {
        *self
    }
}

impl Duplicate for i64 {
    fn duplicate(&self) -> (copy: Self) {
        *self
    }
}

impl Duplicate for u128 {
    fn duplicate(&self) -> (copy: Self) {
        *self
    }
}

impl<T: Duplicate> Duplicate for Option<T> {
    fn duplicate(&self) -> (copy: Self) {
        match self {
            Some(value) => Some(value.duplicate()),
            None => None,
        }
    }
}

impl<T: Duplicate> Duplicate for Vec<T> {
    fn duplicate(&self) -> (copy: Self) {
        let mut copy: Vec<T> = Vec::new();
        let mut i: usize = 0;
        while i < self.len()
            invariant
                i <= self@.len(),
                copy@.len() == i,
                forall|j: int| 0 <= j < i ==> copy@[j].deep_view() == self@[j].deep_view(),
            decreases self@.len() - i,
        {
            copy.push(self[i].duplicate());
            i += 1;
        }
        assert(copy.deep_view() =~= self.deep_view());
        copy
    }
}

} // verus!
