//! The directory of an archive, and the spans that it assigns to entries.
//!
//! An archive opens with a directory of records, each a little-endian `u32`
//! offset followed by a NUL-terminated name. A record whose offset field is
//! zero stands for the end of the archive and closes the directory. Entry
//! `i` owns the archive bytes from its own offset up to the offset of record
//! `i + 1`; the last record marks an end only.
use vstd::prelude::*;
use crate::bytes::{
    le_u32_at,
    nul_index,
    after_cstring,
    utf8_lossy,
    lemma_nul_index_bounds,
    read_u32_le,
    read_cstring,
};

verus! {

/// Errors met while reading a directory or cutting an entry out of an archive.
#[derive(Debug, Clone, Copy, PartialEq, Eq, Structural)]
pub enum UnpakError {
    /// The directory ends with one to three bytes of a partial offset field.
    TruncatedDirectory,
    /// A record's offset lies before the offset of the record ahead of it.
    MalformedArchive,
    /// An entry's bytes run past the end of the archive.
    EntryOutOfBounds,
}

/// One directory record: the resolved offset and the decoded name.
pub struct PAKRawEntry(pub u64, pub String);

impl View for PAKRawEntry {
    type V = (nat, Seq<char>);

    open spec fn view(&self) -> (nat, Seq<char>) {
        (self.0 as nat, self.1@)
    }
}

/// The models of a list of records.
pub open spec fn entries_view(v: Seq<PAKRawEntry>) -> Seq<(nat, Seq<char>)> {
    v.map_values(|e: PAKRawEntry| e@)
}

/// The record whose offset field starts at `p`. A zero field resolves to the
/// length of the archive and carries an empty name, for reading moves to the
/// end of the archive before the name would be read.
pub open spec fn record_at(b: Seq<u8>, p: int) -> (nat, Seq<char>) {
    if le_u32_at(b, p) == 0 {
        (b.len(), Seq::empty())
    } else {
        (le_u32_at(b, p), utf8_lossy(b.subrange(p + 4, nul_index(b, p + 4))))
    }
}

/// Where the record after the one at `p` starts.
pub open spec fn next_record_pos(b: Seq<u8>, p: int) -> int {
    if le_u32_at(b, p) == 0 {
        b.len() as int
    } else {
        after_cstring(b, p + 4)
    }
}

/// Whether an offset field can be read at `p`.
pub open spec fn has_record(b: Seq<u8>, p: int) -> bool {
    0 <= p && p + 4 <= b.len()
}

/// The records read from `p` on, until fewer than four bytes remain.
pub open spec fn directory_from(b: Seq<u8>, p: int) -> Seq<(nat, Seq<char>)>
    decreases b.len() - p,
    via directory_from_decreases
{
    if has_record(b, p) {
        seq![record_at(b, p)] + directory_from(b, next_record_pos(b, p))
    } else {
        Seq::empty()
    }
}

#[via_fn]
proof fn directory_from_decreases(b: Seq<u8>, p: int) {
    if has_record(b, p) {
        lemma_nul_index_bounds(b, p + 4);
    }
}

/// Where reading the records from `p` on stops.
pub open spec fn directory_end(b: Seq<u8>, p: int) -> int
    decreases b.len() - p,
    via directory_end_decreases
{
    if has_record(b, p) {
        directory_end(b, next_record_pos(b, p))
    } else {
        p
    }
}

#[via_fn]
proof fn directory_end_decreases(b: Seq<u8>, p: int) {
    if has_record(b, p) {
        lemma_nul_index_bounds(b, p + 4);
    }
}

/// The directory of an archive.
pub open spec fn directory(b: Seq<u8>) -> Seq<(nat, Seq<char>)> {
    directory_from(b, 0)
}

/// Whether the directory ends cleanly, with no partial offset field left.
pub open spec fn directory_complete(b: Seq<u8>) -> bool {
    directory_end(b, 0) == b.len()
}

/// The record after the one at `p` starts past its offset field and no
/// later than the end.
pub proof fn lemma_next_record_pos(b: Seq<u8>, p: int)
    requires
        has_record(b, p),
    ensures
        p + 4 <= next_record_pos(b, p) <= b.len(),
{
    lemma_nul_index_bounds(b, p + 4);
}

/// A zero offset field resolves to the archive's length and closes the
/// directory: it is the last record read, and reading ends cleanly there.
pub proof fn lemma_terminator_closes_directory(b: Seq<u8>, p: int)
    requires
        has_record(b, p),
        le_u32_at(b, p) == 0,
    ensures
        record_at(b, p).0 == b.len(),
        directory_from(b, p) == seq![(b.len(), Seq::<char>::empty())],
        directory_end(b, p) == b.len(),
{
    assert(directory_from(b, b.len() as int) =~= Seq::empty());
    assert(directory_end(b, b.len() as int) == b.len());
    assert(directory_from(b, p) =~= seq![(b.len(), Seq::<char>::empty())]);
}

/// Reads directory records one at a time from the start of an archive.
pub struct PAKRawEntryReader<'a> {
    source: &'a [u8],
    pos: usize,
}

impl<'a> View for PAKRawEntryReader<'a> {
    /// The archive, and where the next record starts.
    type V = (Seq<u8>, int);

    closed spec fn view(&self) -> (Seq<u8>, int) {
        (self.source@, self.pos as int)
    }
}

impl<'a> PAKRawEntryReader<'a> {
    /// The read position lies inside the archive.
    pub closed spec fn wf(&self) -> bool {
        self.pos <= self.source@.len()
    }

    /// A reader placed on the first record of `source`.
    pub fn new(source: &'a [u8]) -> (r: PAKRawEntryReader<'a>)
        ensures
            r.wf(),
            r@ == (source@, 0int),
    {
        PAKRawEntryReader { source, pos: 0 }
    }

    /// Where the next record starts.
    pub fn position(&self) -> (r: usize)
        requires
            self.wf(),
        ensures
            r as int == self@.1,
            r <= self@.0.len(),
    {
        self.pos
    }

    /// The next record, or `None` once fewer than four bytes remain.
    pub fn next(&mut self) -> (r: Option<PAKRawEntry>)
        requires
            old(self).wf(),
        ensures
            final(self).wf(),
            final(self)@.0 == old(self)@.0,
            has_record(old(self)@.0, old(self)@.1) ==> {
                &&& r is Some
                &&& r->0@ == record_at(old(self)@.0, old(self)@.1)
                &&& final(self)@.1 == next_record_pos(old(self)@.0, old(self)@.1)
            },
            !has_record(old(self)@.0, old(self)@.1) ==> r is None && final(self)@ == old(self)@,
    {
        if self.source.len() - self.pos < 4 {
            return None;
        }
        let raw = read_u32_le(self.source, self.pos);
        if raw == 0 {
            self.pos = self.source.len();
            Some(PAKRawEntry(self.source.len() as u64, String::new()))
        } else {
            let (name, after) = read_cstring(self.source, self.pos + 4);
            self.pos = after;
            Some(PAKRawEntry(raw as u64, name))
        }
    }
}

/// Reads the whole directory of `archive`. Fails where the directory ends
/// in a partial offset field.
pub fn read_directory(archive: &[u8]) -> (r: Result<Vec<PAKRawEntry>, UnpakError>)
    ensures
        r is Ok <==> directory_complete(archive@),
        r matches Ok(v) ==> entries_view(v@) == directory(archive@),
        r matches Err(e) ==> e == UnpakError::TruncatedDirectory,
{
    let mut reader = PAKRawEntryReader::new(archive);
    let mut entries: Vec<PAKRawEntry> = Vec::new();
    loop
        invariant
            reader.wf(),
            reader@.0 == archive@,
            entries_view(entries@) + directory_from(archive@, reader@.1) == directory(archive@),
            directory_end(archive@, reader@.1) == directory_end(archive@, 0),
        ensures
            reader.wf(),
            reader@.0 == archive@,
            !has_record(archive@, reader@.1),
            entries_view(entries@) == directory(archive@),
            reader@.1 == directory_end(archive@, 0),
        decreases archive@.len() - reader@.1,
    {
        let ghost p = reader@.1;
        proof {
            if has_record(archive@, p) {
                lemma_next_record_pos(archive@, p);
            }
        }
        match reader.next() {
            Some(entry) => {
                let ghost before = entries@;
                entries.push(entry);
                assert(entries_view(entries@) =~= entries_view(before).push(record_at(archive@, p)));
                assert(directory_from(archive@, p) =~= seq![record_at(archive@, p)]
                    + directory_from(archive@, reader@.1));
            },
            None => {
                assert(directory_from(archive@, p) =~= Seq::empty());
                assert(entries_view(entries@) =~= directory(archive@));
                break;
            },
        }
    }
    if reader.position() == archive.len() {
        Ok(entries)
    } else {
        Err(UnpakError::TruncatedDirectory)
    }
}

} // verus!
