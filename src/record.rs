//! The record: one key/value pair and its checksum.
use vstd::prelude::*;
use crate::checksum::{checksum, crc32_of};

verus! {

/// The largest key or value length a frame header can carry.
pub const MAX_FIELD_LEN: usize = 0xffff_ffff;

/// The abstract content of a record.
pub struct LogView {
    pub key: Seq<u8>,
    pub value: Seq<u8>,
}

impl LogView {
    /// Both fields fit the 32-bit lengths of a frame header.
    pub open spec fn valid(self) -> bool {
        self.key.len() <= MAX_FIELD_LEN && self.value.len() <= MAX_FIELD_LEN
    }

    /// The bytes the checksum is computed over: the key immediately followed by the value.
    pub open spec fn payload(self) -> Seq<u8> {
        self.key + self.value
    }

    /// The checksum stored with the record.
    pub open spec fn checksum(self) -> u32 {
        crc32_of(self.payload())
    }
}

/// Why a record could not be built.
#[derive(Debug, Clone, Copy, PartialEq, Eq, Structural)]
pub enum RecordError {
    KeyTooLong,
    ValueTooLong,
}

/// An immutable record. Its checksum always matches its key and value.
#[derive(Debug)]
pub struct Log {
    key: Vec<u8>,
    value: Vec<u8>,
    checksum: u32,
}

impl View for Log {
    type V = LogView;

    closed spec fn view(&self) -> LogView {
        LogView { key: self.key@, value: self.value@ }
    }
}

impl Log {
    #[verifier::type_invariant]
    spec fn consistent(self) -> bool {
        &&& self@.valid()
        &&& self.checksum == self@.checksum()
    }

    /// Builds a record, computing its checksum over `key` followed by `value`.
    pub fn new(key: Vec<u8>, value: Vec<u8>) -> (r: Result<Log, RecordError>)
        ensures
            key@.len() > MAX_FIELD_LEN ==> r == Err::<Log, RecordError>(RecordError::KeyTooLong),
            key@.len() <= MAX_FIELD_LEN && value@.len() > MAX_FIELD_LEN ==> r == Err::<Log, RecordError>(
                RecordError::ValueTooLong,
            ),
            (LogView { key: key@, value: value@ }).valid() ==> r is Ok && r->Ok_0@ == (LogView {
                key: key@,
                value: value@,
            }),
    {
        if key.len() > MAX_FIELD_LEN {
            return Err(RecordError::KeyTooLong);
        }
        if value.len() > MAX_FIELD_LEN {
            return Err(RecordError::ValueTooLong);
        }
        let mut payload: Vec<u8> = Vec::new();
        payload.extend_from_slice(key.as_slice());
        payload.extend_from_slice(value.as_slice());
        proof {
            assert(payload@ =~= key@ + value@);
        }
        let checksum = checksum(payload.as_slice());
        Ok(Log { key, value, checksum })
    }

    /// Builds a record whose checksum has already been checked.
    pub(crate) fn from_checked(key: Vec<u8>, value: Vec<u8>, checksum: u32) -> (r: Log)
        requires
            (LogView { key: key@, value: value@ }).valid(),
            checksum == (LogView { key: key@, value: value@ }).checksum(),
        ensures
            r@ == (LogView { key: key@, value: value@ }),
    {
        Log { key, value, checksum }
    }

    pub fn key(&self) -> (r: &[u8])
        ensures
            r@ == self@.key,
            self@.valid(),
    {
        proof {
            use_type_invariant(self);
        }
        self.key.as_slice()
    }

    pub fn value(&self) -> (r: &[u8])
        ensures
            r@ == self@.value,
    {
        self.value.as_slice()
    }

    /// The stored checksum: the CRC-32 of the key followed by the value.
    pub fn checksum(&self) -> (r: u32)
        ensures
            r == self@.checksum(),
            self@.valid(),
    {
        proof {
            use_type_invariant(self);
        }
        self.checksum
    }
}

} // verus!
