//! What is asked of the database: one entry put into a map of it, or one looked up.

use vstd::prelude::*;

verus! {

/// A database: maps by name, each from keys to values.
pub type Database = Map<Seq<char>, Map<Seq<u8>, Seq<u8>>>;

/// The entries of a map of the database; there are none where the map is missing.
pub open spec fn entries_of(db: Database, map: Seq<char>) -> Map<Seq<u8>, Seq<u8>> {
    if db.contains_key(map) {
        db[map]
    } else {
        Map::empty()
    }
}

/// An entry to put into the database.
#[verifier::ext_equal]
pub struct Write {
    /// The name of the map.
    pub map: Seq<char>,
    /// The key.
    pub key: Seq<u8>,
    /// The value.
    pub value: Seq<u8>,
}

impl Write {
    /// The database once the entry is in it, in the place of an earlier one with that key.
    pub open spec fn applied(self, db: Database) -> Database {
        db.insert(self.map, entries_of(db, self.map).insert(self.key, self.value))
    }
}

/// A key to look up in the database.
#[verifier::ext_equal]
pub struct Read {
    /// The name of the map.
    pub map: Seq<char>,
    /// The key.
    pub key: Seq<u8>,
}

impl Read {
    /// What the database holds under the key.
    pub open spec fn answer(self, db: Database) -> Option<Seq<u8>> {
        if entries_of(db, self.map).contains_key(self.key) {
            Some(entries_of(db, self.map)[self.key])
        } else {
            None
        }
    }
}

/// An order to put an entry into a map of the database.
#[must_use]
pub struct Insert<'m, 'v> {
    /// The name of the map.
    pub map: &'m str,
    /// The key.
    pub key: Vec<u8>,
    /// The value.
    pub value: &'v [u8],
}

impl<'m, 'v> View for Insert<'m, 'v> {
    type V = Write;

    open spec fn view(&self) -> Write {
        Write { map: self.map@, key: self.key@, value: self.value@ }
    }
}

/// An order to look a key up in a map of the database.
#[must_use]
pub struct Query<'m> {
    /// The name of the map.
    pub map: &'m str,
    /// The key.
    pub key: Vec<u8>,
}

impl<'m> View for Query<'m> {
    type V = Read;

    open spec fn view(&self) -> Read {
        Read { map: self.map@, key: self.key@ }
    }
}

} // verus!
