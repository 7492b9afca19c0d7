//! The single entity of the system: a name record with a caller-supplied
//! integer key, a text name, an integer count and three real-valued
//! fractions.
//!
//! The real-valued fields are never computed with here: they are stored as
//! given and handed back unchanged.  The crate therefore carries each of
//! them as the 64-bit pattern of its IEEE-754 value, a plain integer that
//! round-trips exactly; the surrounding binary converts to and from the
//! machine's floating-point type at the store boundary.

use vstd::prelude::*;

verus! {

/// One row of the table, as the store keeps it.
#[derive(Debug, Clone, PartialEq)]
pub struct NameRecord {
    /// Primary key, caller-supplied, unique within a store.
    pub id: i32,
    /// Non-null text.
    pub name: String,
    /// A count; stored as given.
    pub total: i32,
    /// Bit pattern of a real-valued fraction; stored as given.
    pub male_share: u64,
    /// Bit pattern of a real-valued fraction; stored as given.
    pub female_share: u64,
    /// Bit pattern of a derived real quantity; stored as given, not recomputed.
    pub gap: u64,
}

/// The mathematical value of a record: unbounded integers for the integer
/// columns, a character sequence for the name, and the bit patterns as
/// they stand.
pub ghost struct RecModel {
    pub id: int,
    pub name: Seq<char>,
    pub total: int,
    pub male_share: u64,
    pub female_share: u64,
    pub gap: u64,
}

impl View for NameRecord {
    type V = RecModel;

    open spec fn view(&self) -> RecModel {
        RecModel {
            id: self.id as int,
            name: self.name@,
            total: self.total as int,
            male_share: self.male_share,
            female_share: self.female_share,
            gap: self.gap,
        }
    }
}

impl NameRecord {
    /// A fresh record with the same value.
    pub fn duplicate(&self) -> (r: NameRecord)
        ensures
            r@ == self@,
    {
        NameRecord {
            id: self.id,
            name: self.name.clone(),
            total: self.total,
            male_share: self.male_share,
            female_share: self.female_share,
            gap: self.gap,
        }
    }
}

} // verus!
