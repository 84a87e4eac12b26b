//! Backup and import of the whole persisted store as a unit: the store's
//! rows go out as owned values, and come back in only after structural
//! validation; a failed import leaves the live store untouched.

use crate::entry::TimeEntry;
use crate::store::EntryStore;
use crate::store::abs_inv;
use crate::store::entry_views;
use vstd::prelude::*;

verus! {

/// Why a transfer failed. `Io` is reported by the surrounding
/// application when reading or writing the transfer file fails;
/// `IncompatibleFormat` when the rows do not form a valid store.
#[derive(Clone, Copy, PartialEq, Eq, Structural, Debug)]
pub enum TransferError {
    Io,
    IncompatibleFormat,
}

/// Back up the live store: its rows, in store order, as owned values for
/// the surrounding application to persist.
pub fn backup_rows(store: &EntryStore) -> (r: Vec<TimeEntry>)
    ensures
        entry_views(r@) == store@,
{
    store.export_all()
}

/// Import a store from rows: exactly the row lists that satisfy the
/// store's invariants are accepted; anything else is refused as an
/// incompatible format, and no store is produced, so the live store is
/// left untouched.
pub fn import_rows(rows: &Vec<TimeEntry>) -> (r: Result<EntryStore, TransferError>)
    ensures
        r is Ok <==> (abs_inv(entry_views(rows@)) && forall|i: int|
            0 <= i < rows@.len() ==> #[trigger] entry_views(rows@)[i].id < u64::MAX),
        r matches Ok(s) ==> s.inv() && s@ == entry_views(rows@),
        r matches Err(e) ==> e == TransferError::IncompatibleFormat,
{
    match EntryStore::from_entries(rows) {
        Some(s) => Ok(s),
        None => Err(TransferError::IncompatibleFormat),
    }
}

/// Law: backup round trip. The rows backed up from any valid store are
/// accepted by import, and the imported store holds exactly the entries
/// of the store they were backed up from.
pub proof fn lemma_backup_import_round_trip(store: EntryStore, rows: Seq<TimeEntry>)
    requires
        store.inv(),
        entry_views(rows) == store@,
    ensures
        abs_inv(entry_views(rows)),
        forall|i: int| 0 <= i < rows.len() ==> #[trigger] entry_views(rows)[i].id < u64::MAX,
{
    crate::store::lemma_store_abs_inv(store);
    crate::store::lemma_store_ids_bounded(store);
}

} // verus!
