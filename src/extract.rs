//! Turning directory records into entry spans and cutting entries out of an
//! archive.
use vstd::prelude::*;
use crate::bytes::le_u32_at;
use crate::pak::{
    PAKRawEntry,
    UnpakError,
    entries_view,
    has_record,
    directory,
    directory_complete,
    lemma_terminator_closes_directory,
};

verus! {

/// A real entry: where its bytes start, how many there are, and its name.
pub struct Span {
    pub offset: u64,
    pub size: u64,
    pub name: String,
}

impl View for Span {
    type V = (nat, nat, Seq<char>);

    open spec fn view(&self) -> (nat, nat, Seq<char>) {
        (self.offset as nat, self.size as nat, self.name@)
    }
}

/// The models of a list of spans.
pub open spec fn spans_view(v: Seq<Span>) -> Seq<(nat, nat, Seq<char>)> {
    v.map_values(|s: Span| s@)
}

/// Whether no record's offset lies before that of the record ahead of it.
pub open spec fn offsets_nondecreasing(d: Seq<(nat, Seq<char>)>) -> bool {
    forall|i: int| 0 <= i < d.len() - 1 ==> #[trigger] d[i].0 <= d[i + 1].0
}

/// How many real entries a list of records holds: all records but the last.
pub open spec fn real_count(d: Seq<(nat, Seq<char>)>) -> nat {
    if d.len() == 0 {
        0
    } else {
        (d.len() - 1) as nat
    }
}

/// The spans of a list of records: record `i` with the size up to record
/// `i + 1`.
pub open spec fn spans_of(d: Seq<(nat, Seq<char>)>) -> Seq<(nat, nat, Seq<char>)> {
    Seq::new(real_count(d), |i: int| (d[i].0, (d[i + 1].0 - d[i].0) as nat, d[i].1))
}

/// Resolves the span of every record but the last. Fails where an offset
/// lies before that of the record ahead of it.
pub fn resolve_spans(entries: &Vec<PAKRawEntry>) -> (r: Result<Vec<Span>, UnpakError>)
    ensures
        r is Ok <==> offsets_nondecreasing(entries_view(entries@)),
        r matches Ok(s) ==> spans_view(s@) == spans_of(entries_view(entries@)),
        r matches Err(e) ==> e == UnpakError::MalformedArchive,
{
    let ghost d = entries_view(entries@);
    let mut spans: Vec<Span> = Vec::new();
    if entries.len() == 0 {
        assert(spans_view(spans@) =~= spans_of(d));
        return Ok(spans);
    }
    let mut i: usize = 0;
    while i < entries.len() - 1
        invariant
            d == entries_view(entries@),
            entries@.len() >= 1,
            i + 1 <= entries@.len(),
            spans_view(spans@) == spans_of(d).subrange(0, i as int),
            forall|j: int| 0 <= j < i ==> #[trigger] d[j].0 <= d[j + 1].0,
        decreases entries@.len() - i,
    {
        let this = &entries[i];
        let next = &entries[i + 1];
        if next.0 < this.0 {
            assert(d[i as int].0 > d[i + 1].0);
            return Err(UnpakError::MalformedArchive);
        }
        let ghost before = spans@;
        spans.push(Span { offset: this.0, size: next.0 - this.0, name: this.1.clone() });
        assert(spans_view(spans@) =~= spans_of(d).subrange(0, i + 1)) by {
            assert(spans_view(spans@) =~= spans_view(before).push(spans_of(d)[i as int]));
        }
        i = i + 1;
    }
    assert(spans_view(spans@) =~= spans_of(d));
    Ok(spans)
}

/// Whether a span lies inside an archive of `len` bytes.
pub open spec fn span_in_bounds(s: (nat, nat, Seq<char>), len: nat) -> bool {
    s.0 + s.1 <= len
}

/// The bytes that a span covers.
pub open spec fn span_bytes(b: Seq<u8>, s: (nat, nat, Seq<char>)) -> Seq<u8> {
    b.subrange(s.0 as int, (s.0 + s.1) as int)
}

/// Copies out the bytes of one entry. Fails where they run past the end of
/// the archive.
pub fn span_data(archive: &[u8], span: &Span) -> (r: Result<Vec<u8>, UnpakError>)
    ensures
        r is Ok <==> span_in_bounds(span@, archive@.len()),
        r matches Ok(data) ==> data@ == span_bytes(archive@, span@),
        r matches Err(e) ==> e == UnpakError::EntryOutOfBounds,
{
    let len = archive.len() as u64;
    if span.offset > len || span.size > len - span.offset {
        return Err(UnpakError::EntryOutOfBounds);
    }
    let start = span.offset as usize;
    let end = (span.offset + span.size) as usize;
    Ok(vstd::slice::slice_to_vec(vstd::slice::slice_subrange(archive, start, end)))
}

/// The bytes of each real entry, in directory order.
pub open spec fn extracted(b: Seq<u8>, d: Seq<(nat, Seq<char>)>) -> Seq<Seq<u8>> {
    spans_of(d).map_values(|s: (nat, nat, Seq<char>)| span_bytes(b, s))
}

/// Every record but the last yields exactly one entry.
pub proof fn lemma_one_entry_per_record_but_last(b: Seq<u8>)
    requires
        directory(b).len() >= 1,
    ensures
        spans_of(directory(b)).len() == directory(b).len() - 1,
{
}

/// Each entry's size is the distance from its offset to the next record's,
/// so the last entry runs up to the offset of the final record.
pub proof fn lemma_span_sizes(d: Seq<(nat, Seq<char>)>)
    requires
        offsets_nondecreasing(d),
    ensures
        forall|i: int|
            0 <= i < real_count(d) ==> {
                &&& #[trigger] spans_of(d)[i].1 == d[i + 1].0 - d[i].0
                &&& spans_of(d)[i].0 + spans_of(d)[i].1 == d[i + 1].0
            },
        d.len() >= 2 ==> spans_of(d).last().0 + spans_of(d).last().1 == d.last().0,
{
}

/// With offsets in order and the final one inside the archive, every entry
/// lies inside the archive, and the entries joined in directory order give
/// back the archive from the first offset to the final one, with no gap or
/// overlap.
pub proof fn lemma_round_trip(b: Seq<u8>, d: Seq<(nat, Seq<char>)>)
    requires
        d.len() >= 1,
        offsets_nondecreasing(d),
        d.last().0 <= b.len(),
    ensures
        forall|i: int| 0 <= i < real_count(d) ==> span_in_bounds(#[trigger] spans_of(d)[i], b.len()),
        d[0].0 <= d.last().0,
        extracted(b, d).flatten() == b.subrange(d[0].0 as int, d.last().0 as int),
    decreases d.len(),
{
    if d.len() == 1 {
        assert(extracted(b, d) =~= Seq::empty());
        assert(b.subrange(d[0].0 as int, d.last().0 as int) =~= Seq::empty());
    } else {
        let t = d.drop_first();
        assert forall|i: int| 0 <= i < t.len() - 1 implies #[trigger] t[i].0 <= t[i + 1].0 by {
            assert(d[i + 1].0 <= d[i + 2].0);
        }
        lemma_round_trip(b, t);
        assert(d[0].0 <= d[1].0);
        assert forall|i: int| 0 <= i < real_count(d) implies span_in_bounds(
            #[trigger] spans_of(d)[i],
            b.len(),
        ) by {
            if i > 0 {
                assert(spans_of(t)[i - 1] == spans_of(d)[i]);
            }
        }
        assert(extracted(b, d).drop_first() =~= extracted(b, t));
        assert(extracted(b, d).first() == b.subrange(d[0].0 as int, d[1].0 as int));
        assert(b.subrange(d[0].0 as int, d[1].0 as int) + b.subrange(d[1].0 as int, d.last().0 as int)
            =~= b.subrange(d[0].0 as int, d.last().0 as int));
    }
}

/// The round trip over a whole archive: the entries of a well-ordered
/// directory whose final record lies inside the archive all lie inside it,
/// and joined in order they give back the archive from the first offset to
/// the final record's.
pub proof fn lemma_archive_round_trip(b: Seq<u8>)
    requires
        directory_complete(b),
        directory(b).len() >= 1,
        offsets_nondecreasing(directory(b)),
        directory(b).last().0 <= b.len(),
    ensures
        forall|i: int|
            0 <= i < real_count(directory(b)) ==> span_in_bounds(
                #[trigger] spans_of(directory(b))[i],
                b.len(),
            ),
        extracted(b, directory(b)).flatten() == b.subrange(
            directory(b)[0].0 as int,
            directory(b).last().0 as int,
        ),
{
    lemma_round_trip(b, directory(b));
}

/// An archive whose first offset field is zero has a directory of that one
/// record, resolved to the archive's length, and no entries.
pub proof fn lemma_lone_terminator(b: Seq<u8>)
    requires
        has_record(b, 0),
        le_u32_at(b, 0) == 0,
    ensures
        directory(b) == seq![(b.len(), Seq::<char>::empty())],
        directory_complete(b),
        spans_of(directory(b)).len() == 0,
{
    lemma_terminator_closes_directory(b, 0);
}

/// The files in an output directory after `files` are written in order, each
/// creating the file of its name or replacing its contents.
pub open spec fn written(files: Seq<(Seq<char>, Seq<u8>)>) -> Map<Seq<char>, Seq<u8>>
    decreases files.len(),
{
    if files.len() == 0 {
        Map::empty()
    } else {
        written(files.drop_last()).insert(files.last().0, files.last().1)
    }
}

/// Writing entries in order leaves one file for each distinct name, and it
/// holds the bytes of the last entry of that name.
pub proof fn lemma_later_entries_overwrite(files: Seq<(Seq<char>, Seq<u8>)>)
    ensures
        forall|n: Seq<char>|
            written(files).dom().contains(n) <==> exists|k: int|
                0 <= k < files.len() && (#[trigger] files[k]).0 == n,
        forall|k: int|
            0 <= k < files.len() && (forall|j: int| k < j < files.len() ==> files[j].0 != files[k].0)
                ==> written(files)[#[trigger] files[k].0] == files[k].1,
    decreases files.len(),
{
    if files.len() > 0 {
        let front = files.drop_last();
        lemma_later_entries_overwrite(front);
        assert forall|k: int| 0 <= k < files.len() implies written(files).dom().contains(
            (#[trigger] files[k]).0,
        ) by {
            if k < files.len() - 1 {
                assert(front[k] == files[k]);
                assert(written(front).dom().contains(front[k].0));
            }
        }
        assert forall|n: Seq<char>|
            written(files).dom().contains(n) implies exists|k: int|
                0 <= k < files.len() && (#[trigger] files[k]).0 == n by {
            if n != files.last().0 {
                assert(written(front).dom().contains(n));
                let k = choose|k: int| 0 <= k < front.len() && (#[trigger] front[k]).0 == n;
                assert(files[k] == front[k]);
            } else {
                assert(files[files.len() - 1].0 == n);
            }
        }
        assert forall|k: int|
            0 <= k < files.len() && (forall|j: int| k < j < files.len() ==> files[j].0 != files[k].0)
                implies written(files)[#[trigger] files[k].0] == files[k].1 by {
            if k < files.len() - 1 {
                assert(files[files.len() - 1].0 != files[k].0);
                assert(front[k] == files[k]);
                assert forall|j: int| k < j < front.len() implies front[j].0 != front[k].0 by {
                    assert(files[j] == front[j]);
                }
            }
        }
    }
}

} // verus!
