use vstd::prelude::*;
use crate::messages::{SerializedPayload, SerializedPayloadView};

verus! {

/// Identity of a protocol-level endpoint: a 12-byte prefix naming the
/// participant and a 4-byte entity id within it.
#[derive(Clone, Copy, Debug)]
pub struct Guid {
    pub prefix: [u8; 12],
    pub entity_id: [u8; 4],
}

impl Guid {
    /// The all-zero GUID, standing for an unknown endpoint.
    pub fn guid_unknown() -> (g: Guid)
        ensures
            g.prefix@ =~= Seq::new(12, |i: int| 0u8),
            g.entity_id@ =~= Seq::new(4, |i: int| 0u8),
    {
        Guid { prefix: [0u8; 12], entity_id: [0u8; 4] }
    }
}

/// Per-writer 64-bit monotonic sample counter; unique within one writer.
#[derive(Clone, Copy, Debug, PartialEq, Eq, Structural)]
pub struct SequenceNumber {
    pub value: i64,
}

impl SequenceNumber {
    pub fn from(value: i64) -> (r: SequenceNumber)
        ensures
            r.value == value,
    {
        SequenceNumber { value }
    }
}

/// Lifecycle tag of a sample.
#[derive(Clone, Copy, Debug, PartialEq, Eq, Structural)]
pub enum ChangeKind {
    Alive,
    NotAliveDisposed,
    NotAliveUnregistered,
}

/// A reassembled sample: its serialized payload and its lifecycle tag.
#[derive(Debug)]
pub struct DDSData {
    pub change_kind: ChangeKind,
    pub payload: SerializedPayload,
}

/// The mathematical value of a [`DDSData`].
pub struct DDSDataView {
    pub change_kind: ChangeKind,
    pub payload: SerializedPayloadView,
}

impl View for DDSData {
    type V = DDSDataView;

    open spec fn view(&self) -> DDSDataView {
        DDSDataView { change_kind: self.change_kind, payload: self.payload@ }
    }
}

impl Clone for DDSData {
    fn clone(&self) -> (r: Self)
        ensures
            r@ == self@,
    {
        DDSData { change_kind: self.change_kind, payload: self.payload.clone() }
    }
}

impl DDSData {
    /// A normal data sample.
    pub fn new(payload: SerializedPayload) -> (r: DDSData)
        ensures
            r.change_kind == ChangeKind::Alive,
            r.payload == payload,
    {
        DDSData { change_kind: ChangeKind::Alive, payload }
    }

    /// A key-only sample carrying the given lifecycle tag (a dispose or
    /// unregister notice); `payload` holds the serialized key.
    pub fn new_disposed_by_key(change_kind: ChangeKind, payload: SerializedPayload) -> (r: DDSData)
        ensures
            r.change_kind == change_kind,
            r.payload == payload,
    {
        DDSData { change_kind, payload }
    }
}

/// The unit stored in the sample cache: the originating writer, its
/// sequence number, and the sample data (absent for gap-like changes).
#[derive(Debug)]
pub struct CacheChange {
    pub writer_guid: Guid,
    pub sequence_number: SequenceNumber,
    pub data: Option<DDSData>,
}

/// The mathematical value of a [`CacheChange`].
pub struct CacheChangeView {
    pub writer_guid: Guid,
    pub sequence_number: SequenceNumber,
    pub data: Option<DDSDataView>,
}

impl View for CacheChange {
    type V = CacheChangeView;

    open spec fn view(&self) -> CacheChangeView {
        CacheChangeView {
            writer_guid: self.writer_guid,
            sequence_number: self.sequence_number,
            data: match self.data {
                Some(d) => Some(d@),
                None => None,
            },
        }
    }
}

impl Clone for CacheChange {
    fn clone(&self) -> (r: Self)
        ensures
            r@ == self@,
    {
        let data = match &self.data {
            Some(d) => Some(d.clone()),
            None => None,
        };
        CacheChange { writer_guid: self.writer_guid, sequence_number: self.sequence_number, data }
    }
}

impl CacheChange {
    pub fn new(writer_guid: Guid, sequence_number: SequenceNumber, data: Option<DDSData>) -> (r:
        CacheChange)
        ensures
            r.writer_guid == writer_guid,
            r.sequence_number == sequence_number,
            r.data == data,
    {
        CacheChange { writer_guid, sequence_number, data }
    }
}

} // verus!
