//! Hash tables whose keys are characters.

use std::collections::{HashMap, HashSet};
use vstd::prelude::*;

verus! {

/// The number of every character lies in this range.
pub open spec fn is_code_point(c: char) -> bool {
    0 <= c as int <= 0x10FFFF
}

/// A hash map from characters to values.
pub struct CharMap<V> {
    map: HashMap<u32, V>,
}

impl<V> View for CharMap<V> {
    type V = Map<char, V>;

    closed spec fn view(&self) -> Map<char, V> {
        Map::new(
            |c: char| is_code_point(c) && self.map@.contains_key(c as u32),
            |c: char| self.map@[c as u32],
        )
    }
}

impl<V> CharMap<V> {
    /// A map without entries.
    pub fn new() -> (map: Self)
        ensures
            map@ == Map::<char, V>::empty(),
    {
        CharMap { map: HashMap::new() }
    }

    /// Maps `key` to `value`, whatever it was mapped to before.
    pub fn insert(&mut self, key: char, value: V)
        ensures
            final(self)@ == old(self)@.insert(key, value),
    {
        self.map.insert(key as u32, value);
        assert(self@ =~= old(self)@.insert(key, value));
    }
}

impl<V: Copy> CharMap<V> {
    /// The value that `key` is mapped to.
    pub fn get(&self, key: char) -> (value: Option<V>)
        ensures
            value == (if self@.contains_key(key) {
                Some(self@[key])
            } else {
                None
            }),
    {
        match self.map.get(&(key as u32)) {
            Some(value) => Some(*value),
            None => None,
        }
    }
}

/// A hash set of characters.
pub struct CharSet {
    set: HashSet<u32>,
}

impl View for CharSet {
    type V = Set<char>;

    closed spec fn view(&self) -> Set<char> {
        Set::new(|c: char| is_code_point(c) && self.set@.contains(c as u32))
    }
}

impl CharSet {
    /// A set without members.
    pub fn new() -> (set: Self)
        ensures
            set@ == Set::<char>::empty(),
    {
        CharSet { set: HashSet::new() }
    }

    /// Adds `member` to the set.
    pub fn insert(&mut self, member: char)
        ensures
            final(self)@ == old(self)@.insert(member),
    {
        self.set.insert(member as u32);
        assert(self@ =~= old(self)@.insert(member));
    }

    /// Removes every member.
    pub fn clear(&mut self)
        ensures
            final(self)@ == Set::<char>::empty(),
    {
        self.set.clear();
        assert(self@ =~= Set::<char>::empty());
    }

    /// Whether `member` is in the set.
    pub fn contains(&self, member: char) -> (found: bool)
        ensures
            found == self@.contains(member),
    {
        self.set.contains(&(member as u32))
    }
}

} // verus!
