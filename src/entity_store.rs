use vstd::prelude::*;
use vstd::std_specs::iter::IteratorSpec;

use std::collections::hash_map;
use std::collections::HashMap;

verus! {

broadcast use vstd::std_specs::hash::group_hash_axioms;

pub type EntityId = u64;

/// A pending change to one entity's data component.
#[derive(Debug, Clone, Copy)]
pub enum DataChangeType<T> {
    Insert(T),
    Remove,
}

/// A pending change to one entity's flag component.
#[derive(Debug, Clone, Copy, PartialEq, Eq, Structural)]
pub enum FlagChangeType {
    Insert,
    Remove,
}

/// The pending changes to a data component, at most one per entity.
#[derive(Debug)]
pub struct DataComponentChange<T>(HashMap<EntityId, DataChangeType<T>>);

/// The pending changes to a flag component, at most one per entity.
#[derive(Debug)]
pub struct FlagComponentChange(HashMap<EntityId, FlagChangeType>);

impl<T> DataComponentChange<T> {
    pub closed spec fn view(&self) -> Map<EntityId, DataChangeType<T>> {
        self.0@
    }

    /// No pending change.
    pub fn new() -> (r: Self)
        ensures
            r@ == Map::<EntityId, DataChangeType<T>>::empty(),
    {
        DataComponentChange(HashMap::new())
    }

    /// The change pending for `id`.
    pub fn get(&self, id: &EntityId) -> (r: Option<&DataChangeType<T>>)
        ensures
            match r {
                Some(c) => self@.contains_key(*id) && self@[*id] == *c,
                None => !self@.contains_key(*id),
            },
    {
        self.0.get(id)
    }

    /// Every pending change, in no particular order.
    pub fn iter(&self) -> (r: hash_map::Iter<'_, EntityId, DataChangeType<T>>)
        ensures
            r.remaining().len() == self@.dom().len(),
            r.remaining().unref().to_set() == self@.kv_pairs(),
    {
        self.0.iter()
    }

    /// Schedules `value` to be set for `id`, replacing any change pending.
    pub fn insert(&mut self, id: EntityId, value: T)
        ensures
            final(self)@ == old(self)@.insert(id, DataChangeType::Insert(value)),
    {
        self.0.insert(id, DataChangeType::Insert(value));
    }

    /// Schedules the component to be removed from `id`, replacing any change
    /// pending.
    pub fn remove(&mut self, id: EntityId)
        ensures
            final(self)@ == old(self)@.insert(id, DataChangeType::Remove),
    {
        self.0.insert(id, DataChangeType::Remove);
    }

    /// Drops the change pending for `id`, and returns it.
    pub fn cancel(&mut self, id: EntityId) -> (r: Option<DataChangeType<T>>)
        ensures
            final(self)@ == old(self)@.remove(id),
            match r {
                Some(c) => old(self)@.contains_key(id) && old(self)@[id] == c,
                None => !old(self)@.contains_key(id),
            },
    {
        self.0.remove(&id)
    }
}

impl FlagComponentChange {
    pub closed spec fn view(&self) -> Map<EntityId, FlagChangeType> {
        self.0@
    }

    /// No pending change.
    pub fn new() -> (r: Self)
        ensures
            r@ == Map::<EntityId, FlagChangeType>::empty(),
    {
        FlagComponentChange(HashMap::new())
    }

    /// Every pending change, in no particular order.
    pub fn iter(&self) -> (r: hash_map::Iter<'_, EntityId, FlagChangeType>)
        ensures
            r.remaining().len() == self@.dom().len(),
            r.remaining().unref().to_set() == self@.kv_pairs(),
    {
        self.0.iter()
    }

    /// Schedules the flag to be set on `id`, replacing any change pending.
    pub fn insert(&mut self, id: EntityId)
        ensures
            final(self)@ == old(self)@.insert(id, FlagChangeType::Insert),
    {
        self.0.insert(id, FlagChangeType::Insert);
    }

    /// Schedules the flag to be cleared on `id`, replacing any change
    /// pending.
    pub fn remove(&mut self, id: EntityId)
        ensures
            final(self)@ == old(self)@.insert(id, FlagChangeType::Remove),
    {
        self.0.insert(id, FlagChangeType::Remove);
    }

    /// Drops the change pending for `id`, and returns it.
    pub fn cancel(&mut self, id: EntityId) -> (r: Option<FlagChangeType>)
        ensures
            final(self)@ == old(self)@.remove(id),
            match r {
                Some(c) => old(self)@.contains_key(id) && old(self)@[id] == c,
                None => !old(self)@.contains_key(id),
            },
    {
        self.0.remove(&id)
    }
}

} // verus!
