//! The CRDT operations the identifier mirrors its catalog writes into, as
//! values handed to the synchronization transport.

use vstd::prelude::*;

verus! {

/// Which shared model a CRDT operation addresses.
#[derive(Clone, Copy, PartialEq, Eq, Structural, Debug)]
pub enum SyncModel {
    FilePath,
    Object,
}

/// A field value carried by a shared update.
#[derive(Clone, PartialEq, Eq, Debug)]
pub enum CrdtValue {
    Text(String),
    Number(i64),
    Id(u128),
}

/// One CRDT operation: the creation of a shared record, or an update of
/// one field of a shared record. Records are addressed by model and public
/// id (the sixteen bytes of a uuid, as one integer).
#[derive(Clone, PartialEq, Eq, Debug)]
pub enum CrdtOp {
    SharedCreate { model: SyncModel, record_pub_id: u128 },
    SharedUpdate { model: SyncModel, record_pub_id: u128, field: String, value: CrdtValue },
}

} // verus!
