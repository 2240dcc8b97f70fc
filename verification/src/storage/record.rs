//! Records: what a version of an entity holds.

use vstd::prelude::*;

use crate::bytes::{copy_range, copy_slice, push_bytes};
use crate::error::{DbError, ErrorView};

verus! {

/// What a version of an entity holds: its data, or the mark that it is deleted.
#[derive(Debug)]
pub struct Record {
    /// The entity's data.
    pub data: Vec<u8>,
    /// Whether this version says that the entity is deleted.
    pub deleted: bool,
}

/// A record in mathematical terms.
pub ghost struct RecordView {
    /// The entity's data.
    pub data: Seq<u8>,
    /// Whether this version says that the entity is deleted.
    pub deleted: bool,
}

impl View for Record {
    type V = RecordView;

    open spec fn view(&self) -> RecordView {
        RecordView { data: self.data@, deleted: self.deleted }
    }
}

impl DeepView for Record {
    type V = RecordView;

    open spec fn deep_view(&self) -> RecordView {
        self@
    }
}

/// The record that marks an entity as deleted.
pub open spec fn tombstone() -> RecordView {
    RecordView { data: Seq::empty(), deleted: true }
}

/// The stored form of a record: a byte for the mark, then the data.
pub open spec fn record_bytes(r: RecordView) -> Seq<u8> {
    seq![if r.deleted { 1u8 } else { 0u8 }] + r.data
}

/// What a stored record stands for, where it has the form of one.
pub open spec fn parse_record(s: Seq<u8>) -> Option<RecordView> {
    if s.len() >= 1 && s[0] <= 1 {
        Some(RecordView { data: s.skip(1), deleted: s[0] == 1 })
    } else {
        None
    }
}

/// What is said of bytes that are no record.
pub open spec fn not_a_record() -> Seq<char> {
    "malformed record"@
}

/// The outcome of reading a record.
pub open spec fn record_outcome(s: Seq<u8>) -> Result<RecordView, ErrorView> {
    match parse_record(s) {
        Some(r) => Ok(r),
        None => Err(ErrorView::InvalidData(not_a_record())),
    }
}

/// Reading back a stored record gives the record.
pub proof fn law_record_round_trip(r: RecordView)
    ensures
        parse_record(record_bytes(r)) == Some(r),
{
    assert(record_bytes(r).skip(1) =~= r.data);
}

impl Record {
    /// A live record with the given data.
    pub fn new(data: Vec<u8>) -> (r: Record)
        ensures
            r@ == (RecordView { data: data@, deleted: false }),
    {
        Record { data, deleted: false }
    }

    /// The record that marks an entity as deleted.
    pub fn tombstone() -> (r: Record)
        ensures
            r@ == tombstone(),
    {
        let r = Record { data: Vec::new(), deleted: true };
        assert(r.data@ =~= Seq::<u8>::empty());
        r
    }

    /// A copy of the record.
    pub fn copy(&self) -> (r: Record)
        ensures
            r@ == self@,
    {
        Record { data: copy_slice(self.data.as_slice()), deleted: self.deleted }
    }

    /// The stored form.
    pub fn to_bytes(&self) -> (s: Vec<u8>)
        ensures
            s@ == record_bytes(self@),
    {
        let mut s: Vec<u8> = Vec::new();
        s.push(if self.deleted { 1u8 } else { 0u8 });
        push_bytes(&mut s, self.data.as_slice());
        assert(s@ =~= record_bytes(self@));
        s
    }

    /// Reads a stored record.
    pub fn from_bytes(s: &[u8]) -> (r: Result<Record, DbError>)
        ensures
            match r {
                Ok(record) => record_outcome(s@) == Ok::<RecordView, ErrorView>(record@),
                Err(e) => record_outcome(s@) == Err::<RecordView, ErrorView>(e@),
            },
    {
        if s.len() == 0 || s[0] > 1 {
            return Err(DbError::InvalidData("malformed record".to_owned()));
        }
        let data: Vec<u8> = copy_range(s, 1, s.len());
        assert(data@ =~= s@.skip(1));
        Ok(Record { data, deleted: s[0] == 1 })
    }
}

} // verus!
