//! Request, event and record types exchanged with the key-value service.
use vstd::prelude::*;

verus! {

/// Order in which a range query returns its keys.
#[derive(Clone, Copy, Debug, PartialEq, Eq, Structural)]
pub enum SortOrder {
    /// Natural key order.
    Unsorted,
    /// Ascending by the sort target.
    Ascend,
    /// Descending by the sort target.
    Descend,
}

/// Field that a range query sorts by.
#[derive(Clone, Copy, Debug, PartialEq, Eq, Structural)]
pub enum SortTarget {
    /// The key.
    Key,
    /// The version of the key.
    Version,
    /// The creation revision.
    Create,
    /// The last modification revision.
    Mod,
    /// The value.
    Value,
}

/// Stores a value under a key.
#[derive(Clone, Debug)]
pub struct PutRequest {
    /// Key to write.
    pub key: Vec<u8>,
    /// Value to write.
    pub value: Vec<u8>,
    /// Lease to attach, `0` for none.
    pub lease: i64,
    /// Whether to return the previous record.
    pub prev_kv: bool,
    /// Keep the current value, write only the lease.
    pub ignore_value: bool,
    /// Keep the current lease, write only the value.
    pub ignore_lease: bool,
}

/// Reads the keys of a range.
#[derive(Clone, Debug)]
pub struct RangeRequest {
    /// First key.
    pub key: Vec<u8>,
    /// End marker of the range.
    pub range_end: Vec<u8>,
    /// Largest number of keys to return, `0` for no limit.
    pub limit: i64,
    /// Revision to read at, `0` for the current one.
    pub revision: i64,
    /// Sort order.
    pub sort_order: SortOrder,
    /// Sort target.
    pub sort_target: SortTarget,
    /// Whether a local, possibly stale read is enough.
    pub serializable: bool,
    /// Return keys without values.
    pub keys_only: bool,
    /// Return the count of keys only.
    pub count_only: bool,
    /// Lower bound on the modification revision, `0` for none.
    pub min_mod_revision: i64,
    /// Upper bound on the modification revision, `0` for none.
    pub max_mod_revision: i64,
    /// Lower bound on the creation revision, `0` for none.
    pub min_create_revision: i64,
    /// Upper bound on the creation revision, `0` for none.
    pub max_create_revision: i64,
}

/// Deletes the keys of a range.
#[derive(Clone, Debug)]
pub struct DeleteRangeRequest {
    /// First key.
    pub key: Vec<u8>,
    /// End marker of the range.
    pub range_end: Vec<u8>,
    /// Whether to return the deleted records.
    pub prev_kv: bool,
}

/// Relation that a comparison of a transaction tests.
#[derive(Clone, Copy, Debug, PartialEq, Eq, Structural)]
pub enum CompareResult {
    /// `=`
    Equal,
    /// `>`
    Greater,
    /// `<`
    Less,
    /// `!=`
    NotEqual,
}

/// Field that a comparison of a transaction reads.
#[derive(Clone, Copy, Debug, PartialEq, Eq, Structural)]
pub enum CompareTarget {
    /// The version.
    Version,
    /// The creation revision.
    Create,
    /// The modification revision.
    Mod,
    /// The value.
    Value,
    /// The lease.
    Lease,
}

/// Operand of a comparison.
#[derive(Clone, Debug)]
pub enum TargetUnion {
    /// A version.
    Version(i64),
    /// A creation revision.
    CreateRevision(i64),
    /// A modification revision.
    ModRevision(i64),
    /// A value.
    Value(Vec<u8>),
    /// A lease.
    Lease(i64),
}

/// One guard of a transaction.
#[derive(Clone, Debug)]
pub struct Compare {
    /// Relation tested.
    pub result: CompareResult,
    /// Field read.
    pub target: CompareTarget,
    /// First key.
    pub key: Vec<u8>,
    /// End marker of the range.
    pub range_end: Vec<u8>,
    /// Operand.
    pub target_union: Option<TargetUnion>,
}

/// One operation of a transaction branch.
#[derive(Clone, Debug)]
pub enum RequestOp {
    /// A range read.
    Range(RangeRequest),
    /// A put.
    Put(PutRequest),
    /// A range delete.
    DeleteRange(DeleteRangeRequest),
}

/// A transaction: guards, and the operations run when all hold or not.
#[derive(Clone, Debug)]
pub struct TxnRequest {
    /// Guards.
    pub compare: Vec<Compare>,
    /// Operations run when every guard holds.
    pub success: Vec<RequestOp>,
    /// Operations run otherwise.
    pub failure: Vec<RequestOp>,
}

/// Drops history below a revision.
#[derive(Clone, Copy, Debug, PartialEq, Eq, Structural)]
pub struct CompactionRequest {
    /// Revision to compact up to.
    pub revision: i64,
    /// Wait until the records are removed from storage.
    pub physical: bool,
}

/// Any request that the service accepts.
#[derive(Clone, Debug)]
pub enum RequestWrapper {
    /// A range read.
    RangeRequest(RangeRequest),
    /// A put.
    PutRequest(PutRequest),
    /// A range delete.
    DeleteRangeRequest(DeleteRangeRequest),
    /// A transaction.
    TxnRequest(TxnRequest),
    /// A compaction.
    CompactionRequest(CompactionRequest),
}

/// Kind of a change event.
#[derive(Clone, Copy, Debug, PartialEq, Eq, Structural)]
pub enum EventType {
    /// A key was written.
    Put,
    /// A key was deleted.
    Delete,
}

/// One record of the store.
#[derive(Clone, Debug)]
pub struct KeyValue {
    /// The key.
    pub key: Vec<u8>,
    /// Revision at which the key was created.
    pub create_revision: i64,
    /// Revision of the last modification.
    pub mod_revision: i64,
    /// Number of modifications since creation.
    pub version: i64,
    /// The value.
    pub value: Vec<u8>,
    /// Attached lease, `0` for none.
    pub lease: i64,
}

/// A change of one key.
#[derive(Clone, Debug)]
pub struct Event {
    /// Kind of the change.
    pub event_type: EventType,
    /// The record after the change.
    pub kv: KeyValue,
    /// The record before the change, when asked for.
    pub prev_kv: Option<KeyValue>,
}

} // verus!

verus! {

/// What a record holds, as byte strings.
pub struct KeyValueView {
    pub key: Seq<u8>,
    pub create_revision: i64,
    pub mod_revision: i64,
    pub version: i64,
    pub value: Seq<u8>,
    pub lease: i64,
}

impl View for KeyValue {
    type V = KeyValueView;

    open spec fn view(&self) -> KeyValueView {
        KeyValueView {
            key: self.key@,
            create_revision: self.create_revision,
            mod_revision: self.mod_revision,
            version: self.version,
            value: self.value@,
            lease: self.lease,
        }
    }
}

/// What an event holds, as byte strings.
pub struct EventView {
    pub event_type: EventType,
    pub kv: KeyValueView,
    pub prev_kv: Option<KeyValueView>,
}

impl View for Event {
    type V = EventView;

    open spec fn view(&self) -> EventView {
        EventView {
            event_type: self.event_type,
            kv: self.kv@,
            prev_kv: match self.prev_kv {
                Some(p) => Some(p@),
                None => None,
            },
        }
    }
}

/// The events of `evs` as views.
pub open spec fn events_view(evs: Seq<Event>) -> Seq<EventView> {
    evs.map_values(|e: Event| e@)
}

} // verus!
