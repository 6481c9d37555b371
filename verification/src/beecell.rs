//! A growable cell of bytes that can be sealed, with identifiers derived
//! from its contents.

use vstd::prelude::*;
use std::collections::hash_map::DefaultHasher;
use std::hash::Hasher;
use vstd::std_specs::hash::DefaultHasherAdditionalSpecFns;
use crate::numfmt::{decimal_chars, u64_to_decimal};

verus! {

/// The hasher state fed by a cell: its data as one write, then one byte
/// recording whether it is sealed.
pub open spec fn cell_hash_writes(data: Seq<u8>, sealed: bool) -> Seq<Seq<u8>> {
    seq![data, seq![if sealed { 1u8 } else { 0u8 }]]
}

/// The identifier derived from a cell's contents: the decimal rendering of
/// the standard hasher's digest over `cell_hash_writes`.
pub open spec fn cell_id_chars(data: Seq<u8>, sealed: bool) -> Seq<char> {
    decimal_chars(DefaultHasher::spec_finish(cell_hash_writes(data, sealed)))
}

pub struct BeeCell {
    data: Vec<u8>,
    sealed: bool,
}

impl BeeCell {
    /// The bytes the cell holds.
    pub closed spec fn spec_data(&self) -> Seq<u8> {
        self.data@
    }

    /// Whether the cell has been sealed against further writes.
    pub closed spec fn spec_sealed(&self) -> bool {
        self.sealed
    }

    /// Creates an empty, unsealed cell.
    pub fn new() -> (r: BeeCell)
        ensures
            r.spec_data() == Seq::<u8>::empty(),
            !r.spec_sealed(),
    {
        BeeCell { data: Vec::new(), sealed: false }
    }

    /// Appends bytes to an unsealed cell.
    pub fn add_data(&mut self, data: Vec<u8>)
        requires
            !old(self).spec_sealed(),
        ensures
            final(self).spec_data() == old(self).spec_data() + data@,
            final(self).spec_sealed() == old(self).spec_sealed(),
    {
        self.data.extend_from_slice(data.as_slice());
        proof {
            assert(self.data@ =~= old(self).spec_data() + data@);
        }
    }

    /// Seals the cell; its data can no longer change.
    pub fn seal(&mut self)
        ensures
            final(self).spec_data() == old(self).spec_data(),
            final(self).spec_sealed(),
    {
        self.sealed = true;
    }

    /// Whether the cell is sealed.
    pub fn is_sealed(&self) -> (r: bool)
        ensures
            r == self.spec_sealed(),
    {
        self.sealed
    }

    /// The cell's bytes.
    pub fn get_data(&self) -> (r: &[u8])
        ensures
            r@ == self.spec_data(),
    {
        self.data.as_slice()
    }

    /// The cell's identifier, derived from its data and sealed flag.
    pub fn beecell_id(&self) -> (r: String)
        ensures
            r@ == cell_id_chars(self.spec_data(), self.spec_sealed()),
    {
        let mut hasher = DefaultHasher::new();
        hasher.write(self.data.as_slice());
        let tail: [u8; 1] = [if self.sealed {
            1u8
        } else {
            0u8
        }];
        hasher.write(tail.as_slice());
        proof {
            assert(hasher@ =~~= cell_hash_writes(self.spec_data(), self.spec_sealed()));
        }
        u64_to_decimal(hasher.finish())
    }

    /// The identifier this cell advertises for its predecessor; derived from
    /// the same contents as `beecell_id`.
    pub fn previous_beecell_id(&self) -> (r: String)
        ensures
            r@ == cell_id_chars(self.spec_data(), self.spec_sealed()),
    {
        self.beecell_id()
    }

    /// The identifier this cell advertises for its successor; derived from
    /// the same contents as `beecell_id`.
    pub fn next_beecell_id(&self) -> (r: String)
        ensures
            r@ == cell_id_chars(self.spec_data(), self.spec_sealed()),
    {
        self.beecell_id()
    }
}

} // verus!
