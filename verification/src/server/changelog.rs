//! The log of changes, for those who follow the database.

use vstd::prelude::*;

use crate::bytes::{copy_slice, EntityId};
use crate::storage::engine::bytes_view;
use crate::text::{contains_text, copy_texts, texts};

verus! {

/// What happened to an entity.
#[derive(Debug, Clone, Copy, PartialEq, Eq, Structural)]
pub enum ChangeType {
    /// It was inserted.
    Insert,
    /// It was updated.
    Update,
    /// It was deleted.
    Delete,
}

/// A change of an entity.
#[derive(Debug)]
pub struct ChangeLogEntry {
    /// Its place in the log, from 1.
    pub lsn: u64,
    /// When it was made.
    pub timestamp: u64,
    /// The entity's type.
    pub entity_type: String,
    /// The entity.
    pub entity_id: EntityId,
    /// What happened.
    pub change_type: ChangeType,
    /// The entity's data before, where it was there.
    pub before_data: Option<Vec<u8>>,
    /// The entity's data after, where it is there.
    pub after_data: Option<Vec<u8>>,
    /// The fields that changed.
    pub changed_fields: Vec<String>,
    /// The version of the schema.
    pub schema_version: u64,
}

/// A change in mathematical terms.
pub ghost struct ChangeView {
    /// Its place in the log.
    pub lsn: u64,
    /// When it was made.
    pub timestamp: u64,
    /// The entity's type.
    pub entity_type: Seq<char>,
    /// The entity.
    pub entity_id: Seq<u8>,
    /// What happened.
    pub change_type: ChangeType,
    /// The entity's data before.
    pub before_data: Option<Seq<u8>>,
    /// The entity's data after.
    pub after_data: Option<Seq<u8>>,
    /// The fields that changed.
    pub changed_fields: Seq<Seq<char>>,
    /// The version of the schema.
    pub schema_version: u64,
}

impl View for ChangeLogEntry {
    type V = ChangeView;

    open spec fn view(&self) -> ChangeView {
        ChangeView {
            lsn: self.lsn,
            timestamp: self.timestamp,
            entity_type: self.entity_type@,
            entity_id: self.entity_id@,
            change_type: self.change_type,
            before_data: bytes_view(self.before_data),
            after_data: bytes_view(self.after_data),
            changed_fields: texts(self.changed_fields@),
            schema_version: self.schema_version,
        }
    }
}

/// Changes in mathematical terms.
pub open spec fn changes_view(entries: Seq<ChangeLogEntry>) -> Seq<ChangeView> {
    entries.map_values(|e: ChangeLogEntry| e@)
}

fn copy_bytes(b: &Option<Vec<u8>>) -> (r: Option<Vec<u8>>)
    ensures
        bytes_view(r) == bytes_view(*b),
{
    match b {
        Some(b) => Some(copy_slice(b.as_slice())),
        None => None,
    }
}

impl ChangeLogEntry {
    /// A copy of the change.
    pub fn copy(&self) -> (e: ChangeLogEntry)
        ensures
            e@ == self@,
    {
        ChangeLogEntry {
            lsn: self.lsn,
            timestamp: self.timestamp,
            entity_type: self.entity_type.clone(),
            entity_id: self.entity_id,
            change_type: self.change_type,
            before_data: copy_bytes(&self.before_data),
            after_data: copy_bytes(&self.after_data),
            changed_fields: copy_texts(self.changed_fields.as_slice()),
            schema_version: self.schema_version,
        }
    }
}

/// The log of changes.
pub struct ChangeLog {
    entries: Vec<ChangeLogEntry>,
}

/// The change as it stands in the log.
pub open spec fn logged(log: Seq<ChangeView>, change: ChangeView) -> Seq<ChangeView> {
    log.push(ChangeView { lsn: (log.len() + 1) as u64, ..change })
}

/// Whether a change is of one of the types that are asked for.
pub open spec fn of_types(change: ChangeView, types: Option<Seq<Seq<char>>>) -> bool {
    match types {
        Some(t) => t.contains(change.entity_type),
        None => true,
    }
}

/// The changes from a place on that are of the types asked for.
pub open spec fn changes_from(log: Seq<ChangeView>, from_lsn: u64, types: Option<Seq<Seq<char>>>) -> Seq<
    ChangeView,
> {
    log.filter(|c: ChangeView| c.lsn >= from_lsn && of_types(c, types))
}

/// The first changes of a sequence.
pub open spec fn first_changes(changes: Seq<ChangeView>, n: nat) -> Seq<ChangeView> {
    if changes.len() > n {
        changes.take(n as int)
    } else {
        changes
    }
}

impl View for ChangeLog {
    type V = Seq<ChangeView>;

    closed spec fn view(&self) -> Seq<ChangeView> {
        changes_view(self.entries@)
    }
}

impl ChangeLog {
    /// A log without changes.
    pub fn new() -> (l: ChangeLog)
        ensures
            l@ == Seq::<ChangeView>::empty(),
    {
        let l = ChangeLog { entries: Vec::new() };
        assert(l@ =~= Seq::<ChangeView>::empty());
        l
    }

    /// Adds a change. It gets the next place in the log.
    pub fn append(&mut self, entry: ChangeLogEntry)
        ensures
            final(self)@ == logged(old(self)@, entry@),
    {
        let ghost before = self@;
        let ghost change = entry@;
        let next: u64 = (self.entries.len() as u128 + 1) as u64;
        let mut entry: ChangeLogEntry = entry;
        entry.lsn = next;
        self.entries.push(entry);
        proof {
            assert(before.len() == self.entries@.len() - 1);
            assert(self@ =~= logged(before, change));
        }
    }

    /// The place of the last change; 0 where there is none.
    pub fn current_lsn(&self) -> (n: u64)
        ensures
            n == self@.len() as u64,
    {
        self.entries.len() as u64
    }

    /// The changes from a place on, up to a number of them, and whether there are
    /// more. Where entity types are given, only changes of these.
    pub fn scan_filtered(
        &self,
        from_lsn: u64,
        batch_size: usize,
        types: Option<&Vec<String>>,
    ) -> (r: (Vec<ChangeLogEntry>, bool))
        ensures
            ({
                let wanted = match types {
                    Some(t) => Some(texts(t@)),
                    None => None,
                };
                let all = changes_from(self@, from_lsn, wanted);
                changes_view(r.0@) == first_changes(all, batch_size as nat) && r.1 == (all.len()
                    > batch_size)
            }),
    {
        let ghost wanted = match types {
            Some(t) => Some(texts(t@)),
            None => None,
        };
        let ghost log = self@;
        let ghost keep = |c: ChangeView| c.lsn >= from_lsn && of_types(c, wanted);
        let mut out: Vec<ChangeLogEntry> = Vec::new();
        let mut more: bool = false;
        let mut i: usize = 0;
        proof {
            reveal(Seq::filter);
            assert(log.take(0) =~= Seq::<ChangeView>::empty());
            assert(changes_view(out@) =~= first_changes(
                log.take(0).filter(keep),
                batch_size as nat,
            ));
        }
        while i < self.entries.len()
            invariant
                i <= self.entries@.len(),
                log == changes_view(self.entries@),
                wanted == (match types {
                    Some(t) => Some(texts(t@)),
                    None => None,
                }),
                keep == (|c: ChangeView| c.lsn >= from_lsn && of_types(c, wanted)),
                changes_view(out@) == first_changes(
                    log.take(i as int).filter(keep),
                    batch_size as nat,
                ),
                more == (log.take(i as int).filter(keep).len() > batch_size),
            decreases self.entries@.len() - i,
        {
            let entry: &ChangeLogEntry = &self.entries[i];
            let ghost before = changes_view(out@);
            let ghost passed = log.take(i as int).filter(keep);
            proof {
                reveal(Seq::filter);
                assert(log.take(i + 1).drop_last() =~= log.take(i as int));
                assert(log.take(i + 1).last() == entry@);
                assert(before.len() == out@.len());
            }
            let typed: bool = match types {
                Some(t) => contains_text(t.as_slice(), entry.entity_type.as_str()),
                None => true,
            };
            if entry.lsn >= from_lsn && typed {
                if out.len() < batch_size {
                    out.push(entry.copy());
                    assert(changes_view(out@) =~= before.push(entry@));
                    assert(changes_view(out@) =~= first_changes(
                        passed.push(entry@),
                        batch_size as nat,
                    ));
                } else {
                    more = true;
                    assert(changes_view(out@) =~= first_changes(
                        passed.push(entry@),
                        batch_size as nat,
                    ));
                }
            }
            i = i + 1;
        }
        assert(log.take(log.len() as int) =~= log);
        (out, more)
    }

    /// The changes from a place on, up to a number of them, and whether there are
    /// more.
    pub fn scan_batch(&self, from_lsn: u64, batch_size: usize) -> (r: (Vec<ChangeLogEntry>, bool))
        ensures
            ({
                let all = changes_from(self@, from_lsn, None);
                changes_view(r.0@) == first_changes(all, batch_size as nat) && r.1 == (all.len()
                    > batch_size)
            }),
    {
        self.scan_filtered(from_lsn, batch_size, None)
    }
}

} // verus!
