//! The immutable unit of the synchronized log and its ghost-level view.
//!
//! A record is owned by the user account that uploaded it, carries an
//! author-assigned index that is monotonic per (host, tag) stream, and is
//! never mutated after insertion. Payload and content-encryption key are
//! opaque ciphertext to the server. Identifiers are held as 128-bit values.

use vstd::prelude::*;

verus! {

/// Identifier of the client device/session that authors records.
#[derive(Clone, Copy, PartialEq, Eq, Structural, Debug, Hash)]
pub struct HostId(pub u128);

/// Globally unique identifier of one record.
#[derive(Clone, Copy, PartialEq, Eq, Structural, Debug, Hash)]
pub struct RecordId(pub u128);

/// Author-assigned position within one (host, tag) stream.
pub type RecordIdx = u64;

/// Ciphertext plus its wrapped content-encryption key; both opaque here.
#[derive(Debug)]
pub struct EncryptedData {
    pub data: String,
    pub content_encryption_key: String,
}

/// Immutable unit of the synchronized log.
#[derive(Debug)]
pub struct Record {
    pub id: RecordId,
    pub host: HostId,
    pub idx: RecordIdx,
    pub timestamp: u64,
    pub version: String,
    pub tag: String,
    pub data: EncryptedData,
}

/// Mathematical image of `EncryptedData`: the two strings as char sequences.
pub struct EncryptedDataView {
    pub data: Seq<char>,
    pub content_encryption_key: Seq<char>,
}

/// Mathematical image of `Record`: plain values and char sequences.
pub struct RecordView {
    pub id: u128,
    pub host: u128,
    pub idx: u64,
    pub timestamp: u64,
    pub version: Seq<char>,
    pub tag: Seq<char>,
    pub data: EncryptedDataView,
}

impl View for EncryptedData {
    type V = EncryptedDataView;

    open spec fn view(&self) -> EncryptedDataView {
        EncryptedDataView {
            data: self.data@,
            content_encryption_key: self.content_encryption_key@,
        }
    }
}

impl View for Record {
    type V = RecordView;

    open spec fn view(&self) -> RecordView {
        RecordView {
            id: self.id.0 as u128,
            host: self.host.0 as u128,
            idx: self.idx,
            timestamp: self.timestamp,
            version: self.version@,
            tag: self.tag@,
            data: self.data@,
        }
    }
}

impl Clone for EncryptedData {
    fn clone(&self) -> (r: Self)
        ensures
            r@ == self@,
    {
        EncryptedData {
            data: self.data.clone(),
            content_encryption_key: self.content_encryption_key.clone(),
        }
    }
}

impl Clone for Record {
    fn clone(&self) -> (r: Self)
        ensures
            r@ == self@,
    {
        Record {
            id: self.id,
            host: self.host,
            idx: self.idx,
            timestamp: self.timestamp,
            version: self.version.clone(),
            tag: self.tag.clone(),
            data: self.data.clone(),
        }
    }
}

/// The view of a batch, record by record.
pub open spec fn batch_view(batch: Seq<Record>) -> Seq<RecordView> {
    batch.map_values(|r: Record| r@)
}

} // verus!
