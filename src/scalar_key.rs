//! A value paired with an integer key.
use vstd::prelude::*;

verus! {

#[derive(Copy, Clone, Debug, PartialEq, Eq)]
pub struct ScalarKey {
    key: i64,
    value: usize,
}

impl ScalarKey {
    pub closed spec fn spec_key(&self) -> i64 {
        self.key
    }

    pub closed spec fn spec_value(&self) -> usize {
        self.value
    }

    pub fn new(key: i64, value: usize) -> (r: Self)
        ensures
            r.spec_key() == key,
            r.spec_value() == value,
    {
        ScalarKey { key, value }
    }

    pub fn key(&self) -> (r: &i64)
        ensures
            *r == self.spec_key(),
    {
        &self.key
    }

    pub fn value(&self) -> (r: &usize)
        ensures
            *r == self.spec_value(),
    {
        &self.value
    }

    /// Orders by key first and by value among equal keys.
    pub fn precedes(&self, other: &Self) -> (r: bool)
        ensures
            r == (self.spec_key() < other.spec_key() || (self.spec_key() == other.spec_key() && self.spec_value() < other.spec_value())),
    {
        self.key < other.key || (self.key == other.key && self.value < other.value)
    }
}

} // verus!
