use vstd::prelude::*;

use crate::query::constant::{ConstVal, Constant};
use crate::record::RID;
use crate::tx::Transaction;

verus! {

/// The operations of an index: position before the records of a search key,
/// step through them reading their data record ids, and insert and delete
/// index records.
pub trait IndexScan {
    /// Whether the index's files in `tx` are well formed for a scan.
    spec fn scan_ok(&self, tx: &Transaction) -> bool;

    /// Whether `key` is a value of the indexed kind.
    spec fn key_ok(&self, key: ConstVal) -> bool;

    /// Whether the scan can take another step.
    spec fn can_step(&self, tx: &Transaction) -> bool;

    /// Whether the scan stands on a record whose data record id can be read.
    spec fn at_record(&self, tx: &Transaction) -> bool;

    /// Whether the index's files can grow by a record.
    spec fn has_room(&self, tx: &Transaction) -> bool;

    /// Positions the index before the first record of `searchkey`; an index
    /// may create the file it is to scan.
    fn before_first(&mut self, tx: &mut Transaction, searchkey: &Constant)
        requires
            old(self).scan_ok(old(tx)),
            old(self).key_ok(searchkey@),
        ensures
            final(self).scan_ok(final(tx)),
    ;

    /// Moves to the next record of the search key; false when there is none.
    fn next(&mut self, tx: &Transaction) -> (r: bool)
        requires
            old(self).scan_ok(tx),
            old(self).can_step(tx),
        ensures
            final(self).scan_ok(tx),
    ;

    /// The data record id of the current index record.
    fn get_data_rid(&self, tx: &Transaction) -> (r: RID)
        requires
            self.scan_ok(tx),
            self.at_record(tx),
    ;

    /// Inserts the index record of `dataval` and `datarid`.
    fn insert(&mut self, tx: &mut Transaction, dataval: &Constant, datarid: &RID)
        requires
            old(self).scan_ok(old(tx)),
            old(self).key_ok(dataval@),
            old(self).has_room(old(tx)),
        ensures
            final(self).scan_ok(final(tx)),
    ;

    /// Deletes the index record of `dataval` and `datarid`.
    fn delete(&mut self, tx: &mut Transaction, dataval: &Constant, datarid: &RID)
        requires
            old(self).scan_ok(old(tx)),
            old(self).key_ok(dataval@),
        ensures
            final(self).scan_ok(final(tx)),
    ;

    /// Closes the index.
    fn close(&mut self)
        ensures
            forall|tx: &Transaction| old(self).scan_ok(tx) ==> #[trigger] final(self).scan_ok(tx),
    ;
}

} // verus!
