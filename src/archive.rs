//! The zip container: reading an archive into plain entry records, and
//! writing records into a new archive. The codec itself is the `zip` crate.
use std::io::Cursor;
use std::io::Write;
use vstd::prelude::*;
use vstd::std_specs::iter::IteratorSpec;

verus! {

#[verifier::external_type_specification]
#[verifier::external_body]
#[verifier::reject_recursive_types(T)]
pub struct ExCursor<T>(std::io::Cursor<T>);

#[verifier::external_type_specification]
#[verifier::external_body]
#[verifier::reject_recursive_types(R)]
pub struct ExZipArchive<R>(zip::ZipArchive<R>);


#[verifier::external_type_specification]
#[verifier::external_body]
pub struct ExZipError(zip::result::ZipError);

/// An archive held in memory.
pub type MemArchive = zip::ZipArchive<Cursor<Vec<u8>>>;

/// An archive being written into memory: a `zip::ZipWriter`, whose
/// declaration Verus refuses for the bounds on its parameter.
#[verifier::external_body]
pub struct MemWriter {
    inner: zip::ZipWriter<Cursor<Vec<u8>>>,
}

/// What the logic reads of one archive entry: its enclosed (safe, relative)
/// name if it has one, whether it is a file, whether it is a directory, and
/// its full contents if they could be read.
pub struct ArchiveEntry {
    pub name: Option<String>,
    pub is_file: bool,
    pub is_dir: bool,
    pub bytes: Option<Vec<u8>>,
}

/// The mathematical value of an [`ArchiveEntry`].
pub type EntryModel = (Option<Seq<char>>, bool, bool, Option<Seq<u8>>);

pub open spec fn opt_chars(s: Option<String>) -> Option<Seq<char>> {
    match s {
        Some(t) => Some(t@),
        None => None,
    }
}

pub open spec fn opt_bytes(b: Option<Vec<u8>>) -> Option<Seq<u8>> {
    match b {
        Some(v) => Some(v@),
        None => None,
    }
}

impl ArchiveEntry {
    pub open spec fn model(&self) -> EntryModel {
        (opt_chars(self.name), self.is_file, self.is_dir, opt_bytes(self.bytes))
    }
}

/// One step of writing an archive.
pub enum WriteOp {
    /// A directory record under this name.
    Directory(Seq<char>),
    /// The start of a file record under this name.
    StartFile(Seq<char>),
    /// Bytes appended to the file record last started.
    Data(Seq<u8>),
}

/// The entries of an open archive, in the archive's order: each one as
/// `by_index` serves it, or none where `by_index` refuses it.
pub uninterp spec fn archive_entries(a: MemArchive) -> Seq<Option<EntryModel>>;

/// The entries that the codec finds in an archive's bytes, or none where it
/// refuses the container.
pub uninterp spec fn decoded_entries(data: Seq<u8>) -> Option<Seq<Option<EntryModel>>>;

/// The steps written so far into an archive writer.
pub uninterp spec fn written_ops(w: MemWriter) -> Seq<WriteOp>;

/// Whether the writer accepts the last of these steps, the others having
/// been accepted before it.
pub uninterp spec fn step_accepted(ops: Seq<WriteOp>) -> bool;

/// Whether the writer finishes an archive made of these steps.
pub uninterp spec fn archive_finishes(ops: Seq<WriteOp>) -> bool;

/// The bytes of the finished archive made by a sequence of steps.
pub uninterp spec fn encoded_archive(ops: Seq<WriteOp>) -> Seq<u8>;

/// Relies on `zip::ZipArchive::new`: reads the central directory of the
/// archive held in `data`; the entries that it then serves are those of `data`.
#[verifier::external_body]
pub(crate) fn open_archive(data: Vec<u8>) -> (r: Result<MemArchive, zip::result::ZipError>)
    ensures
        r is Ok <==> decoded_entries(data@) is Some,
        r matches Ok(a) ==> decoded_entries(data@) == Some(archive_entries(a)),
{
    zip::ZipArchive::new(Cursor::new(data))
}

/// Relies on `zip::ZipArchive::len`: the number of entries.
#[verifier::external_body]
pub(crate) fn archive_len(a: &MemArchive) -> (r: usize)
    ensures
        r == archive_entries(*a).len(),
{
    a.len()
}

/// Relies on `zip::ZipArchive::by_index` and the `ZipFile` accessors
/// `is_file`, `is_dir`, `enclosed_name` and its `Read` impl: the entry at
/// `i`, which reading leaves as it was.
#[verifier::external_body]
pub(crate) fn archive_entry(a: &mut MemArchive, i: usize) -> (r: Result<ArchiveEntry, zip::result::ZipError>)
    requires
        i < archive_entries(*old(a)).len(),
    ensures
        archive_entries(*final(a)) == archive_entries(*old(a)),
        r is Ok <==> archive_entries(*old(a))[i as int] is Some,
        r matches Ok(e) ==> archive_entries(*old(a))[i as int] == Some(e.model()),
{
    let mut file = a.by_index(i)?;
    let name = file.enclosed_name().map(|p| p.display().to_string());
    let mut buffer = Vec::new();
    let bytes = std::io::Read::read_to_end(&mut file, &mut buffer).ok().map(|_| buffer);
    Ok(ArchiveEntry { name, is_file: file.is_file(), is_dir: file.is_dir(), bytes })
}

/// Relies on `zip::ZipWriter::new`: a writer with nothing written.
#[verifier::external_body]
pub(crate) fn new_writer() -> (r: MemWriter)
    ensures
        written_ops(r) == Seq::<WriteOp>::empty(),
{
    MemWriter { inner: zip::ZipWriter::new(Cursor::new(Vec::new())) }
}

/// Relies on `zip::ZipWriter::add_directory` with default options: appends
/// a directory record.
#[verifier::external_body]
pub(crate) fn writer_add_directory(w: &mut MemWriter, name: &str) -> (r: Result<(), zip::result::ZipError>)
    ensures
        r is Ok <==> step_accepted(written_ops(*old(w)).push(WriteOp::Directory(name@))),
        r is Ok ==> written_ops(*final(w)) == written_ops(*old(w)).push(WriteOp::Directory(name@)),
{
    w.inner.add_directory(name, zip::write::SimpleFileOptions::default())
}

/// Relies on `zip::ZipWriter::start_file` with default options: starts a
/// file record.
#[verifier::external_body]
pub(crate) fn writer_start_file(w: &mut MemWriter, name: &str) -> (r: Result<(), zip::result::ZipError>)
    ensures
        r is Ok <==> step_accepted(written_ops(*old(w)).push(WriteOp::StartFile(name@))),
        r is Ok ==> written_ops(*final(w)) == written_ops(*old(w)).push(WriteOp::StartFile(name@)),
{
    w.inner.start_file(name, zip::write::SimpleFileOptions::default())
}

/// Relies on `Write::write_all` of `zip::ZipWriter`: appends bytes to the
/// file record last started.
#[verifier::external_body]
pub(crate) fn writer_write_all(w: &mut MemWriter, data: &[u8]) -> (r: Result<(), zip::result::ZipError>)
    ensures
        r is Ok <==> step_accepted(written_ops(*old(w)).push(WriteOp::Data(data@))),
        r is Ok ==> written_ops(*final(w)) == written_ops(*old(w)).push(WriteOp::Data(data@)),
{
    w.inner.write_all(data).map_err(zip::result::ZipError::Io)
}

/// Relies on `zip::ZipWriter::finish`: the bytes of the finished archive.
#[verifier::external_body]
pub(crate) fn writer_finish(w: MemWriter) -> (r: Result<Vec<u8>, zip::result::ZipError>)
    ensures
        r is Ok <==> archive_finishes(written_ops(w)),
        r matches Ok(b) ==> b@ == encoded_archive(written_ops(w)),
{
    w.inner.finish().map(|c| c.into_inner())
}

/// The characters of `s`.
pub(crate) fn chars_of(s: &str) -> (r: Vec<char>)
    ensures
        r@ == s@,
{
    let mut it = s.chars();
    let mut out: Vec<char> = Vec::new();
    loop
        invariant
            it.obeys_prophetic_iter_laws(),
            out@ + it.remaining() == s@,
        decreases s@.len() - out@.len(),
    {
        match it.next() {
            Some(c) => {
                out.push(c);
            },
            None => {
                assert(out@ + it.remaining() =~= out@);
                return out;
            },
        }
    }
}

/// Relies on `String`'s `FromIterator<char>`: the string of these characters.
#[verifier::external_body]
pub(crate) fn string_of(c: &[char]) -> (r: String)
    ensures
        r@ == c@,
{
    c.iter().collect()
}

/// The name of what `str::to_lowercase` returns.
pub uninterp spec fn lower_of(s: Seq<char>) -> Seq<char>;

/// Relies on `str::to_lowercase`: the result depends on the characters alone.
#[verifier::external_body]
pub(crate) fn lowercase(s: &str) -> (r: String)
    ensures
        r@ == lower_of(s@),
{
    s.to_lowercase()
}

} // verus!
