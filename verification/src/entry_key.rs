//! The cache key: an owner name and a type.

use vstd::prelude::*;
use crate::name::Name;
use crate::rrset::RRType;
use crate::message::Question;

verus! {

/// A key into the message cache. Keys compare by the (case-normalised)
/// name and the type.
#[derive(PartialEq, Eq, Hash, Debug)]
pub struct EntryKey {
    pub name: Name,
    pub typ: RRType,
}

pub ghost struct EntryKeyV {
    pub name: Seq<Seq<u8>>,
    pub typ: RRType,
}

impl View for EntryKey {
    type V = EntryKeyV;

    open spec fn view(&self) -> EntryKeyV {
        EntryKeyV { name: self.name@, typ: self.typ }
    }
}

impl EntryKey {
    /// A key owning its name.
    pub fn new(name: Name, typ: RRType) -> (r: EntryKey)
        ensures
            r@.name == name@,
            r@.typ == typ,
    {
        EntryKey { name, typ }
    }

    /// The key of a question.
    pub fn from_question(q: &Question) -> (r: EntryKey)
        ensures
            r@.name == q@.name,
            r@.typ == q@.typ,
    {
        EntryKey { name: q.name.clone(), typ: q.typ }
    }
}

} // verus!
