//! The storage interface: what code needs from a store, whether it keeps
//! its data on disk or in memory.

use vstd::prelude::*;

verus! {

/// A mapping from keys to values that can be read, written and closed.
pub trait Store {
    /// The mapping that the store holds.
    spec fn contents(&self) -> Map<Seq<char>, Seq<char>>;

    /// The value that was last set for `key`, or `None` for a key that was
    /// never set.
    fn get(&self, key: &String) -> (value: Option<&String>)
        ensures
            match value {
                Some(text) => self.contents().contains_key(key@) && self.contents()[key@]
                    == text@,
                None => !self.contents().contains_key(key@),
            },
    ;

    /// Sets `key` to `value`, in place of whatever it was set to.
    fn set(&mut self, key: String, value: String)
        ensures
            final(self).contents() == old(self).contents().insert(key@, value@),
    ;

    /// Closes the store and tells whether that went well.
    fn close(&self) -> (closed: bool);
}

/// Last write wins: after two writes to one key the store holds the second
/// value for it, and holds what it would hold had the first write never
/// been made.
pub proof fn law_last_set_wins(
    contents: Map<Seq<char>, Seq<char>>,
    key: Seq<char>,
    first: Seq<char>,
    second: Seq<char>,
)
    ensures
        contents.insert(key, first).insert(key, second)[key] == second,
        contents.insert(key, first).insert(key, second) == contents.insert(key, second),
{
    assert(contents.insert(key, first).insert(key, second) =~= contents.insert(key, second));
}

} // verus!
