//! Reading a gzip-compressed tar archive as a stream of plain entries.
//!
//! Decompression and tar framing are done by outside code; what they yield
//! on given bytes is deterministic, so the sequence of entries is named by
//! an uninterpreted function of the archive bytes, and the stream wrappers
//! below are specified against that name.

use vstd::prelude::*;

verus! {

use crate::errors::ImportError;
use crate::errors::ImportError::MalformedArchive;

/// One tar entry, as plain values. `mode` is `None` where the header's
/// permission field could not be read.
pub struct RawEntry {
    pub path: Vec<u8>,
    pub mode: Option<u32>,
    pub link: Option<Vec<u8>>,
    pub is_dir: bool,
    pub content: Vec<u8>,
}

/// A tar entry at the specification level.
pub struct EntrySpec {
    pub path: Seq<u8>,
    pub mode: Option<u32>,
    pub link: Option<Seq<u8>>,
    pub is_dir: bool,
    pub content: Seq<u8>,
}

impl View for RawEntry {
    type V = EntrySpec;

    open spec fn view(&self) -> EntrySpec {
        EntrySpec {
            path: self.path@,
            mode: self.mode,
            link: match self.link {
                Some(l) => Some(l@),
                None => None,
            },
            is_dir: self.is_dir,
            content: self.content@,
        }
    }
}

/// The entries that decompressing `data` and reading it as a tar archive
/// yields, in order, up to (not including) the first read failure: a
/// function of the bytes alone.
pub uninterp spec fn archive_entries_of(data: Seq<u8>) -> Seq<EntrySpec>;

/// Whether the whole of `data` decompresses and reads to the end of the
/// archive without a failure.
pub uninterp spec fn archive_parses(data: Seq<u8>) -> bool;

/// A partially read archive: the decompressor and tar reader, driven
/// synchronously, over bytes owned by the stream.
#[verifier::external_body]
pub struct ArchiveStream {
    rt: tokio::runtime::Runtime,
    entries: tokio_tar::Entries<
        async_compression::tokio::bufread::GzipDecoder<std::io::Cursor<Vec<u8>>>,
    >,
}

/// The entries the stream has not yielded yet.
pub uninterp spec fn stream_rest(s: ArchiveStream) -> Seq<EntrySpec>;

/// Whether the stream will reach the end of its archive without a failure.
pub uninterp spec fn stream_ok(s: ArchiveStream) -> bool;

/// Relies on async_compression's `GzipDecoder` and tokio_tar's `Archive`:
/// a freshly opened stream stands before the first entry of its archive.
/// Opening fails only if no runtime to drive the reader could be built.
#[verifier::external_body]
pub fn open_archive(data: &Vec<u8>) -> (r: Result<ArchiveStream, ImportError>)
    ensures
        r matches Ok(s) ==> {
            &&& stream_rest(s) == archive_entries_of(data@)
            &&& stream_ok(s) == archive_parses(data@)
        },
{
    let rt = tokio::runtime::Builder::new_current_thread().build()
        .map_err(|_| MalformedArchive)?;
    let cur = std::io::Cursor::new(data.clone());
    let dec = async_compression::tokio::bufread::GzipDecoder::new(cur);
    let mut archive = tokio_tar::Archive::new(dec);
    let entries = archive.entries().map_err(|_| MalformedArchive)?;
    Ok(ArchiveStream { rt, entries })
}

/// Relies on tokio_tar: the stream yields each remaining entry in order,
/// then the end of the archive, or a failure where the archive does not
/// read to its end; header fields and content become plain values.
#[verifier::external_body]
pub fn next_entry(s: &mut ArchiveStream) -> (r: Result<Option<RawEntry>, ImportError>)
    ensures
        stream_rest(*old(s)).len() > 0 ==> {
            &&& r matches Ok(Some(e)) && e@ == stream_rest(*old(s))[0]
            &&& stream_rest(*final(s)) == stream_rest(*old(s)).skip(1)
            &&& stream_ok(*final(s)) == stream_ok(*old(s))
        },
        stream_rest(*old(s)).len() == 0 && stream_ok(*old(s)) ==> r matches Ok(None),
        stream_rest(*old(s)).len() == 0 && !stream_ok(*old(s)) ==> r is Err,
{
    match s.rt.block_on(futures::StreamExt::next(&mut s.entries)) {
        None => Ok(None),
        Some(Err(_)) => Err(MalformedArchive),
        Some(Ok(mut e)) => {
            let mut content = Vec::new();
            s.rt.block_on(tokio::io::AsyncReadExt::read_to_end(&mut e, &mut content))
                .map_err(|_| MalformedArchive)?;
            let (mode, link) = (e.header().mode().ok(), e.header().link_name_bytes());
            Ok(Some(RawEntry { path: e.path_bytes().to_vec(), mode,
                link: link.map(|b| b.to_vec()),
                is_dir: e.header().entry_type().is_dir(), content }))
        },
    }
}

} // verus!
