//! Archival packaging: the selected frames' raw bytes stored
//! uncompressed, one entry per frame named by its timestamp.

use vstd::prelude::*;
use crate::decimal::{
    dec_int_str, i64_to_string, lemma_dec_int_str_injective, lemma_dec_int_str_len,
};
use crate::frames::{FrameCollection, FrameView};

verus! {

/// The zip crate's writer over an in-memory cursor, held opaquely:
/// Verus sees its contents only through `zip_entries`.
#[verifier::external_body]
pub struct ArchiveWriter {
    inner: zip::ZipWriter<std::io::Cursor<Vec<u8>>>,
}

/// What an in-memory archive writer holds: its completed entries, name
/// and bytes, in the order they were written.
pub uninterp spec fn zip_entries(w: ArchiveWriter) -> Seq<(Seq<char>, Seq<u8>)>;

/// The writer is in a clean serialization state: every operation on it
/// so far succeeded, so it holds exactly its completed entries and
/// accepts the next one.
pub uninterp spec fn zip_writer_ready(w: ArchiveWriter) -> bool;

/// The archive the zip crate serializes for these stored entries: with
/// the fixed default entry timestamp, a function of the entries alone.
pub uninterp spec fn zip_archive_bytes(entries: Seq<(Seq<char>, Seq<u8>)>) -> Seq<u8>;

/// Relies on zip::ZipWriter::new over an in-memory cursor: a fresh
/// writer holds no entries and is ready.
#[verifier::external_body]
fn zw_new() -> (w: ArchiveWriter)
    ensures
        zip_entries(w) == Seq::<(Seq<char>, Seq<u8>)>::empty(),
        zip_writer_ready(w),
{
    ArchiveWriter { inner: zip::ZipWriter::new(std::io::Cursor::new(Vec::new())) }
}

/// Relies on zip::ZipWriter::start_file with stored (uncompressed)
/// options, then Write::write_all: on success exactly one entry of this
/// name and these bytes is appended and the writer stays ready; any
/// refusal reports `false`. On a ready writer the only refusals are a
/// name already in the archive, a name over the two-byte length field,
/// and an entry over the four-byte size field; a fresh short name with
/// bytes under that bound is accepted.
#[verifier::external_body]
fn zw_add(w: &mut ArchiveWriter, name: &String, data: &Vec<u8>) -> (r: bool)
    ensures
        r ==> zip_writer_ready(*final(w)) && zip_entries(*final(w)) == zip_entries(*old(w)).push(
            (name@, data@),
        ),
        ({
            &&& zip_writer_ready(*old(w))
            &&& name@.len() <= 255
            &&& data@.len() <= 0xffff_ffff
            &&& forall|k: int|
                0 <= k < zip_entries(*old(w)).len() ==> (#[trigger] zip_entries(*old(w))[k]).0
                    != name@
        }) ==> r,
{
    let options = zip::write::SimpleFileOptions::default().compression_method(
        zip::CompressionMethod::Stored,
    );
    if w.inner.start_file(name.as_str(), options).is_err() {
        return false;
    }
    std::io::Write::write_all(&mut w.inner, data.as_slice()).is_ok()
}

/// Relies on zip::ZipWriter::finish: over an in-memory cursor every
/// write it makes succeeds, so on a ready writer it returns the
/// serialized archive of exactly the entries written.
#[verifier::external_body]
fn zw_finish(w: ArchiveWriter) -> (r: Option<Vec<u8>>)
    ensures
        zip_writer_ready(w) ==> r is Some,
        zip_writer_ready(w) ==> (r matches Some(b) ==> b@ == zip_archive_bytes(zip_entries(w))),
{
    match w.inner.finish() {
        Ok(c) => Some(c.into_inner()),
        Err(_) => None,
    }
}

/// Why archival packaging yielded no bytes.
#[derive(Debug)]
pub enum ArchiveError {
    /// The selection is empty: a not-found condition, no archive work.
    NoFrames,
    /// The archive writer refused an entry or the final serialization.
    Failed,
}

/// The entry name of a frame: its timestamp and the image suffix.
pub open spec fn entry_name(ts: int) -> Seq<char> {
    dec_int_str(ts) + ".jpg"@
}

/// The entries of a packaging: one per frame, in order, the frame's
/// bytes under its timestamp name.
pub open spec fn archive_entries(frames: Seq<FrameView>, contents: Seq<Seq<u8>>) -> Seq<
    (Seq<char>, Seq<u8>),
>
    recommends
        frames.len() == contents.len(),
    decreases frames.len(),
{
    if frames.len() == 0 {
        Seq::empty()
    } else {
        archive_entries(frames.drop_last(), contents.drop_last()).push(
            (entry_name(frames.last().timestamp), contents.last()),
        )
    }
}

/// A packaging has one entry per frame.
proof fn lemma_archive_entries_len(frames: Seq<FrameView>, contents: Seq<Seq<u8>>)
    requires
        frames.len() == contents.len(),
    ensures
        archive_entries(frames, contents).len() == frames.len(),
    decreases frames.len(),
{
    if frames.len() > 0 {
        lemma_archive_entries_len(frames.drop_last(), contents.drop_last());
    }
}

/// Entry `j` of a packaging: the `j`-th frame's name and bytes.
proof fn lemma_archive_entries_index(frames: Seq<FrameView>, contents: Seq<Seq<u8>>, j: int)
    requires
        frames.len() == contents.len(),
        0 <= j < frames.len(),
    ensures
        archive_entries(frames, contents)[j] == (entry_name(frames[j].timestamp), contents[j]),
    decreases frames.len(),
{
    lemma_archive_entries_len(frames, contents);
    if j < frames.len() - 1 {
        lemma_archive_entries_len(frames.drop_last(), contents.drop_last());
        lemma_archive_entries_index(frames.drop_last(), contents.drop_last(), j);
    }
}

/// Distinct timestamps name distinct entries.
proof fn lemma_entry_name_injective(a: int, b: int)
    requires
        entry_name(a) == entry_name(b),
    ensures
        a == b,
{
    let da = dec_int_str(a);
    let db = dec_int_str(b);
    assert(entry_name(a).len() == da.len() + ".jpg"@.len());
    assert(entry_name(b).len() == db.len() + ".jpg"@.len());
    assert(da.len() == db.len());
    assert forall|i: int| 0 <= i < da.len() implies da[i] == db[i] by {
        assert(entry_name(a)[i] == da[i]);
        assert(entry_name(b)[i] == db[i]);
    }
    assert(da =~= db);
    lemma_dec_int_str_injective(a, b);
}

impl FrameCollection {
    /// Package the selection: each frame's raw bytes as one stored
    /// entry named `<timestamp>.jpg`, in order. An empty selection is
    /// the not-found condition before any archive work; a non-empty
    /// selection whose timestamps are distinct and whose frames each
    /// fit the archive's four-byte size field is packaged, and the
    /// archive serializes exactly these entries.
    pub fn into_zip(self, contents: Vec<Vec<u8>>) -> (r: Result<Vec<u8>, ArchiveError>)
        requires
            contents@.len() == self@.len(),
        ensures
            r matches Err(e) && e == ArchiveError::NoFrames <==> self@.len() == 0,
            r matches Ok(b) ==> b@ == zip_archive_bytes(
                archive_entries(self@, contents@.map_values(|c: Vec<u8>| c@)),
            ),
            ({
                &&& self@.len() > 0
                &&& forall|i: int, j: int|
                    0 <= i < j < self@.len() ==> self@[i].timestamp != self@[j].timestamp
                &&& forall|i: int|
                    0 <= i < contents@.len() ==> (#[trigger] contents@[i])@.len() <= 0xffff_ffff
            }) ==> r is Ok,
    {
        if self.frames.len() == 0 {
            return Err(ArchiveError::NoFrames);
        }
        let ghost fv: Seq<FrameView> = self@;
        let ghost cv: Seq<Seq<u8>> = contents@.map_values(|c: Vec<u8>| c@);
        let mut w = zw_new();
        let mut i: usize = 0;
        proof {
            assert(archive_entries(fv.take(0), cv.take(0)) =~= Seq::<(Seq<char>, Seq<u8>)>::empty());
        }
        while i < self.frames.len()
            invariant
                i <= self.frames.len(),
                fv == self@,
                cv == contents@.map_values(|c: Vec<u8>| c@),
                fv.len() == self.frames@.len(),
                cv.len() == fv.len(),
                zip_entries(w) == archive_entries(fv.take(i as int), cv.take(i as int)),
                zip_writer_ready(w),
            decreases self.frames.len() - i,
        {
            let mut name: String = i64_to_string(self.frames[i].timestamp);
            proof {
                reveal_strlit(".jpg");
            }
            name.append(".jpg");
            proof {
                assert(name@ == entry_name(fv[i as int].timestamp));
                assert(fv.take(i + 1).drop_last() =~= fv.take(i as int));
                assert(cv.take(i + 1).drop_last() =~= cv.take(i as int));
                assert(fv.take(i + 1).last() == fv[i as int]);
                assert(cv.take(i + 1).last() == cv[i as int]);
            }
            let ghost pre: Seq<(Seq<char>, Seq<u8>)> = zip_entries(w);
            if !zw_add(&mut w, &name, &contents[i]) {
                proof {
                    let distinct = forall|a: int, b: int|
                        0 <= a < b < fv.len() ==> fv[a].timestamp != fv[b].timestamp;
                    let bounded = forall|a: int|
                        0 <= a < contents@.len() ==> (#[trigger] contents@[a])@.len()
                            <= 0xffff_ffff;
                    if distinct && bounded {
                        // the add cannot have been refused: the name is short,
                        // fresh among the entries written, and the bytes fit
                        assert(i64::MIN <= fv[i as int].timestamp <= i64::MAX);
                        lemma_dec_int_str_len(fv[i as int].timestamp);
                        assert(name@.len() <= 24);
                        lemma_archive_entries_len(fv.take(i as int), cv.take(i as int));
                        assert forall|k: int| 0 <= k < pre.len() implies (#[trigger] pre[k]).0
                            != name@ by {
                            lemma_archive_entries_index(fv.take(i as int), cv.take(i as int), k);
                            if pre[k].0 == name@ {
                                lemma_entry_name_injective(
                                    fv[k].timestamp,
                                    fv[i as int].timestamp,
                                );
                            }
                        }
                        assert(cv[i as int] == contents@[i as int]@);
                        assert(false);
                    }
                }
                return Err(ArchiveError::Failed);
            }
            i = i + 1;
        }
        proof {
            assert(fv.take(fv.len() as int) =~= fv);
            assert(cv.take(cv.len() as int) =~= cv);
        }
        match zw_finish(w) {
            Some(bytes) => Ok(bytes),
            None => Err(ArchiveError::Failed),
        }
    }
}

} // verus!
