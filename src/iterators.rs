//! The iterator capability shared by every sorted source of entries.

pub mod two_merge_iterator;

use vstd::prelude::*;

use crate::block::Entry;

verus! {

/// The error that a source reports when it cannot advance.
#[verifier::external_type_specification]
#[verifier::external_body]
pub struct ExAnyhowError(anyhow::Error);

/// A cursor over a sequence of entries.
pub trait StorageIterator {
    /// The cursor's internal state is consistent.
    spec fn well_formed(&self) -> bool;

    /// The entries from the cursor on; empty when the cursor is invalid.
    spec fn remaining(&self) -> Seq<Entry>;

    /// The key of the current entry.
    fn key(&self) -> (r: &[u8])
        requires
            self.well_formed(),
            self.remaining().len() > 0,
        ensures
            r@ == self.remaining()[0].0,
    ;

    /// The value of the current entry.
    fn value(&self) -> (r: &[u8])
        requires
            self.well_formed(),
            self.remaining().len() > 0,
        ensures
            r@ == self.remaining()[0].1,
    ;

    /// Whether the cursor is on an entry.
    fn is_valid(&self) -> (r: bool)
        requires
            self.well_formed(),
        ensures
            r == (self.remaining().len() > 0),
    ;

    /// Moves to the next entry. On an error nothing is promised of the state.
    fn next(&mut self) -> (r: Result<(), anyhow::Error>)
        requires
            old(self).well_formed(),
            old(self).remaining().len() > 0,
        ensures
            r is Ok ==> final(self).well_formed() && final(self).remaining() == old(
                self,
            ).remaining().drop_first(),
    ;
}

} // verus!
