//! The key-value stores of a window.

use crate::dom::attributes::{in_order, Attributes};
use vstd::prelude::*;

verus! {

/// A local or session storage. Its keys are in the order of their characters.
#[derive(Debug)]
pub struct Storage {
    items: Attributes,
}

impl View for Storage {
    type V = Map<Seq<char>, Seq<char>>;

    closed spec fn view(&self) -> Map<Seq<char>, Seq<char>> {
        self.items@
    }
}

impl Storage {
    /// An empty storage.
    pub fn new() -> (res: Self)
        ensures
            res@ == Map::<Seq<char>, Seq<char>>::empty(),
    {
        Storage { items: Attributes::new() }
    }

    /// The value of `key`.
    pub fn get_item(&self, key: &str) -> (res: Option<String>)
        ensures
            match res {
                Some(value) => self@.contains_key(key@) && value@ == self@[key@],
                None => !self@.contains_key(key@),
            },
    {
        match self.items.get(key) {
            Some(value) => Some(value.clone()),
            None => None,
        }
    }

    /// Gives `key` the value.
    pub fn set_item(&mut self, key: &str, value: &str)
        ensures
            final(self)@ == old(self)@.insert(key@, value@),
    {
        self.items.insert(key.to_string(), value.to_string());
    }

    /// Drops `key` and its value.
    pub fn remove_item(&mut self, key: &str)
        ensures
            final(self)@ == old(self)@.remove(key@),
    {
        self.items.remove(key);
    }

    /// Drops all keys.
    pub fn clear(&mut self)
        ensures
            final(self)@ == Map::<Seq<char>, Seq<char>>::empty(),
    {
        self.items = Attributes::new();
    }

    /// The key at `index`, in the order of the keys.
    pub fn key(&self, index: usize) -> (res: Option<String>)
        ensures
            match res {
                Some(k) => index < in_order(self@).len() && k@ == in_order(self@)[index as int].0,
                None => index >= in_order(self@).len(),
            },
    {
        let entries = self.items.entries();
        let ghost pairs = entries@.map_values(|e: (String, String)| (e.0@, e.1@));
        if index < entries.len() {
            assert(pairs[index as int].0 == entries@[index as int].0@);
            Some(entries[index].0.clone())
        } else {
            None
        }
    }
}

} // verus!
