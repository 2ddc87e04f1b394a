//! The in-memory index: the map from key to value that reads are served from.

use crate::command::{Command, CommandView};
use vstd::hash_map::StringHashMap;
use vstd::prelude::*;

verus! {

/// The effect of one command on a map: `Put` binds the key, replacing an
/// earlier binding; `Remove` drops the key and leaves a map without it as it
/// is.
pub open spec fn apply_spec(m: Map<Seq<char>, Seq<char>>, c: CommandView) -> Map<
    Seq<char>,
    Seq<char>,
> {
    match c {
        CommandView::Put { key, value } => m.insert(key, value),
        CommandView::Remove { key } => m.remove(key),
    }
}

/// The effect of a sequence of commands on a map, first command first.
pub open spec fn replay_spec(m: Map<Seq<char>, Seq<char>>, cmds: Seq<CommandView>) -> Map<
    Seq<char>,
    Seq<char>,
>
    decreases cmds.len(),
{
    if cmds.len() == 0 {
        m
    } else {
        apply_spec(replay_spec(m, cmds.drop_last()), cmds.last())
    }
}

/// A map from key to value with unique keys and no order.
pub struct Index {
    map: StringHashMap<String>,
}

impl View for Index {
    type V = Map<Seq<char>, Seq<char>>;

    closed spec fn view(&self) -> Map<Seq<char>, Seq<char>> {
        Map::new(|k: Seq<char>| self.map@.contains_key(k), |k: Seq<char>| self.map@[k]@)
    }
}

impl Index {
    /// An index without keys.
    pub fn new() -> (r: Index)
        ensures
            r@ == Map::<Seq<char>, Seq<char>>::empty(),
    {
        let r = Index { map: StringHashMap::new() };
        assert(r@ =~= Map::<Seq<char>, Seq<char>>::empty());
        r
    }

    /// The value bound to `key`, if any.
    pub fn get(&self, key: &str) -> (r: Option<String>)
        ensures
            match r {
                Some(value) => self@.contains_key(key@) && value@ == self@[key@],
                None => !self@.contains_key(key@),
            },
    {
        match self.map.get(key) {
            Some(value) => Some(value.clone()),
            None => None,
        }
    }

    /// Binds `key` to `value`, replacing any earlier binding.
    pub fn set(&mut self, key: String, value: String)
        ensures
            final(self)@ == old(self)@.insert(key@, value@),
    {
        let ghost k = key@;
        let ghost v = value@;
        self.map.insert(key, value);
        assert(self@ =~= old(self)@.insert(k, v));
    }

    /// Drops the binding of `key` and reports whether there was one.
    pub fn remove(&mut self, key: &str) -> (r: bool)
        ensures
            r == old(self)@.contains_key(key@),
            final(self)@ == old(self)@.remove(key@),
    {
        let present = self.map.contains_key(key);
        self.map.remove(key);
        assert(self@ =~= old(self)@.remove(key@));
        present
    }

    /// Applies one command: `Put` as `set`, `Remove` as `remove`, where a
    /// missing key is no fault.
    pub fn apply(&mut self, command: &Command)
        ensures
            final(self)@ == apply_spec(old(self)@, command@),
    {
        match command {
            Command::Put { key, value } => {
                self.set(key.clone(), value.clone());
            },
            Command::Remove { key } => {
                self.remove(key.as_str());
            },
        }
    }
}

} // verus!
