//! What the server reports of itself and how many threads it runs on.

use vstd::prelude::*;

use crate::archive::ArchiveMeta;

verus! {

/// Number of worker threads to allow for when the number of processors is not known.
pub const DEFAULT_THREADS: usize = 8;

/// What the status endpoint tells. Nothing of it changes while the server runs.
#[derive(Debug)]
pub struct StatusResponse {
    pub dataset_id: String,
    pub tile_count: usize,
    /// Location of the archive.
    pub s3_source: String,
    /// ETag of the archive.
    pub s3_etag: String,
}

/// A [`StatusResponse`] with its texts as characters.
pub struct StatusResponseView {
    pub dataset_id: Seq<char>,
    pub tile_count: nat,
    pub s3_source: Seq<char>,
    pub s3_etag: Seq<char>,
}

impl View for StatusResponse {
    type V = StatusResponseView;

    open spec fn view(&self) -> StatusResponseView {
        StatusResponseView {
            dataset_id: self.dataset_id@,
            tile_count: self.tile_count as nat,
            s3_source: self.s3_source@,
            s3_etag: self.s3_etag@,
        }
    }
}

/// What a server for the archive at `source` tells of it.
pub open spec fn status_view(
    source: Seq<char>,
    meta: crate::archive::ArchiveMetaView,
) -> StatusResponseView {
    StatusResponseView {
        dataset_id: meta.dataset_id,
        tile_count: meta.tile_count,
        s3_source: source,
        s3_etag: meta.etag,
    }
}

/// The status tells the archive's dataset id, the number of its tiles, where it is and its ETag, as
/// they were when it was opened.
pub proof fn law_status_tells_archive(source: Seq<char>, meta: crate::archive::ArchiveMetaView)
    ensures
        status_view(source, meta).dataset_id == meta.dataset_id,
        status_view(source, meta).tile_count == meta.tile_count,
        status_view(source, meta).s3_source == source,
        status_view(source, meta).s3_etag == meta.etag,
{
}

/// The status of a server for the archive at `source`.
pub fn status_of(source: &str, meta: &ArchiveMeta) -> (status: StatusResponse)
    ensures
        status@ == status_view(source@, meta@),
{
    StatusResponse {
        dataset_id: meta.dataset_id.clone(),
        tile_count: meta.tile_count,
        s3_source: source.to_owned(),
        s3_etag: meta.etag.clone(),
    }
}

/// The number of worker threads: one per processor, but at most `concurrency`.
pub open spec fn threads(processors: Option<usize>, concurrency: u16) -> usize {
    let wanted = match processors {
        Some(count) => count,
        None => DEFAULT_THREADS,
    };
    if wanted < concurrency {
        wanted
    } else {
        concurrency as usize
    }
}

/// There are no more worker threads than processors and no more than asked for, and as many as that
/// allows. Where the processors are not known, there count eight.
pub proof fn law_threads(processors: usize, concurrency: u16)
    ensures
        threads(Some(processors), concurrency) <= processors,
        threads(Some(processors), concurrency) <= concurrency,
        threads(Some(processors), concurrency) == processors || threads(
            Some(processors),
            concurrency,
        ) == concurrency,
        threads(None, concurrency) == threads(Some(8), concurrency),
{
}

/// The number of worker threads: one per processor, but at most `concurrency`.
pub fn worker_threads(processors: Option<usize>, concurrency: u16) -> (n: usize)
    ensures
        n == threads(processors, concurrency),
{
    let wanted: usize = match processors {
        Some(count) => count,
        None => DEFAULT_THREADS,
    };
    if wanted < concurrency as usize {
        wanted
    } else {
        concurrency as usize
    }
}

/// The status holds what its view says.
pub proof fn law_status_view(status: StatusResponse)
    ensures
        status@.dataset_id == status.dataset_id@,
        status@.tile_count == status.tile_count,
        status@.s3_source == status.s3_source@,
        status@.s3_etag == status.s3_etag@,
{
}

} // verus!
