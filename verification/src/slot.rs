//! Single-value slots: one typed value under one fixed key.

use vstd::prelude::*;
use crate::error::ContractError;

verus! {

/// One value of type `T` kept under a fixed key. A slot starts empty.
pub struct Slot<T> {
    namespace: String,
    value: Option<T>,
}

impl<T> Slot<T> {
    /// The key under which the slot is kept.
    pub closed spec fn key(&self) -> Seq<char> {
        self.namespace@
    }

    /// What the slot holds.
    pub closed spec fn value(&self) -> Option<T> {
        self.value
    }

    /// An empty slot under `namespace`.
    pub fn new(namespace: &str) -> (slot: Self)
        ensures
            slot.key() == namespace@,
            slot.value() is None,
    {
        Slot { namespace: namespace.to_owned(), value: None }
    }

    /// The key under which the slot is kept.
    pub fn namespace(&self) -> (key: &str)
        ensures
            key@ == self.key(),
    {
        self.namespace.as_str()
    }

    /// The value of the slot; `NotFound` where it holds none.
    pub fn load(&self) -> (found: Result<&T, ContractError>)
        ensures
            match self.value() {
                Some(v) => found == Ok::<&T, ContractError>(&v),
                None => found == Err::<&T, ContractError>(ContractError::NotFound {}),
            },
    {
        match &self.value {
            Some(v) => Ok(v),
            None => Err(ContractError::NotFound {}),
        }
    }

    /// The value of the slot, or `None` where it holds none; never an error.
    pub fn may_load(&self) -> (found: Option<&T>)
        ensures
            match self.value() {
                Some(v) => found == Some(&v),
                None => found is None,
            },
    {
        match &self.value {
            Some(v) => Some(v),
            None => None,
        }
    }

    /// Puts `data` into the slot, in place of what it held.
    pub fn save(&mut self, data: T)
        ensures
            final(self).value() == Some(data),
            final(self).key() == old(self).key(),
    {
        self.value = Some(data);
    }
}

} // verus!
