//! Opening an archive.
//!
//! Opening is a conversation. [`S3Archive::open`] starts it; each step names the bytes to read
//! next and takes them as its reply, until the archive is ready or cannot be opened. Only a
//! handful of small ranges are read:
//!
//! 1. `HeadObject` for ETag, date and size.
//! 2. The first tar header, which should name `index.bin`. If it does not and a scan is asked
//!    for, the tar headers of the whole archive are scanned instead.
//! 3. The content of `index.bin`.
//! 4. The tar header of the first tile, whose name tells the compression.
//! 5. The header of the first tile, or the whole tile when it is compressed, for the dataset id.

use vstd::prelude::*;
use vstd::string::*;

use crate::archive::{
    detect_compression, detect_dataset_id, header_before, parse_s3_url, probe_dataset_id,
    ArchiveMeta, S3Archive,
};
use crate::date::http_date;
use crate::error::{S3Error, TarError};
use crate::index::{parse_index, read_index_header, TileIndex};
use crate::range::ByteRange;
use crate::scan::{add_note, to_block, ScanNote, ScanOutcome, TarScan};
use crate::tar::TAR_BLOCK_SIZE;
use crate::text::append_decimal;
use crate::tile::TileCompression;

verus! {

/// What `HeadObject` reports of the archive.
#[derive(Debug)]
pub struct HeadReply {
    pub etag: Option<String>,
    /// In seconds since the Unix epoch.
    pub last_modified: Option<i64>,
    pub content_length: Option<i64>,
}

/// What to open and how.
#[derive(Debug)]
pub struct OpenRequest {
    pub bucket: String,
    pub key: String,
    /// Whether to scan the tar headers of an archive without `index.bin`.
    pub scan_index: bool,
    /// A dataset id to use in place of the archive's own.
    pub dataset_id: Option<String>,
}

/// An [`OpenRequest`] with its texts as characters.
pub struct OpenRequestView {
    pub bucket: Seq<char>,
    pub key: Seq<char>,
    pub scan_index: bool,
    pub dataset_id: Option<Seq<char>>,
}

impl View for OpenRequest {
    type V = OpenRequestView;

    open spec fn view(&self) -> OpenRequestView {
        OpenRequestView {
            bucket: self.bucket@,
            key: self.key@,
            scan_index: self.scan_index,
            dataset_id: self.dataset_id.deep_view(),
        }
    }
}

/// The object that holds the archive.
#[derive(Debug)]
pub struct ObjectMeta {
    pub etag: String,
    pub last_modified: String,
    pub size: u64,
}

/// An [`ObjectMeta`] with its texts as characters.
pub struct ObjectMetaView {
    pub etag: Seq<char>,
    pub last_modified: Seq<char>,
    pub size: u64,
}

impl View for ObjectMeta {
    type V = ObjectMetaView;

    open spec fn view(&self) -> ObjectMetaView {
        ObjectMetaView {
            etag: self.etag@,
            last_modified: self.last_modified@,
            size: self.size,
        }
    }
}

/// What the bytes that are being read are for.
pub enum StageView {
    /// The first tar header of the archive.
    FirstHeader,
    /// The content of `index.bin`.
    Index,
    /// The tar header of the first tile.
    TileHeader(crate::index::TileIndexView),
    /// A chunk of an archive that is being scanned.
    Scan(crate::scan::ScanView),
    /// The first tile, which tells the dataset id.
    Tile(crate::index::TileIndexView, TileCompression),
}

#[derive(Debug)]
enum Stage {
    FirstHeader,
    Index,
    TileHeader(TileIndex),
    Scan(TarScan),
    Tile(TileIndex, TileCompression),
}

impl View for Stage {
    type V = StageView;

    closed spec fn view(&self) -> StageView {
        match *self {
            Stage::FirstHeader => StageView::FirstHeader,
            Stage::Index => StageView::Index,
            Stage::TileHeader(index) => StageView::TileHeader(index@),
            Stage::Scan(scan) => StageView::Scan(scan@),
            Stage::Tile(index, compression) => StageView::Tile(index@, compression),
        }
    }
}

/// A conversation that waits for the reply to `HeadObject`.
#[derive(Debug)]
pub struct AwaitHead {
    request: OpenRequest,
}

impl View for AwaitHead {
    type V = OpenRequestView;

    closed spec fn view(&self) -> OpenRequestView {
        self.request@
    }
}

/// A conversation that waits for bytes of the archive.
#[derive(Debug)]
pub struct AwaitBytes {
    request: OpenRequest,
    meta: ObjectMeta,
    stage: Stage,
}

/// An [`AwaitBytes`] with its parts taken by their views.
pub struct AwaitBytesView {
    pub request: OpenRequestView,
    pub meta: ObjectMetaView,
    pub stage: StageView,
}

impl View for AwaitBytes {
    type V = AwaitBytesView;

    closed spec fn view(&self) -> AwaitBytesView {
        AwaitBytesView { request: self.request@, meta: self.meta@, stage: self.stage@ }
    }
}

/// Where the dataset id of an opened archive comes from.
#[derive(Debug)]
pub enum DatasetIdSource {
    /// It was given when the archive was opened.
    Given,
    /// It stands in the header of a graph tile.
    Detected,
    /// No tile told one, for the reason given, so it is the ETag.
    Fallback(S3Error),
}

/// A [`DatasetIdSource`] with its error taken by its view.
pub enum DatasetIdSourceView {
    Given,
    Detected,
    Fallback(crate::error::S3ErrorView),
}

impl View for DatasetIdSource {
    type V = DatasetIdSourceView;

    open spec fn view(&self) -> DatasetIdSourceView {
        match *self {
            DatasetIdSource::Given => DatasetIdSourceView::Given,
            DatasetIdSource::Detected => DatasetIdSourceView::Detected,
            DatasetIdSource::Fallback(e) => DatasetIdSourceView::Fallback(e@),
        }
    }
}

/// The next step of opening an archive.
#[derive(Debug)]
pub enum OpenStep {
    /// Read this range and reply with it.
    Read(ByteRange, AwaitBytes),
    /// The archive is open.
    Ready(S3Archive, ArchiveMeta, DatasetIdSource),
    /// The archive cannot be opened.
    Failed(S3Error),
    /// A chunk ended before the header that it has to hold, or the first tile lies so close to the
    /// start of the archive that no header fits before it.
    OutOfBounds,
}

/// An [`OpenStep`] with its parts taken by their views.
pub enum OpenStepView {
    Read(ByteRange, AwaitBytesView),
    Ready(crate::archive::S3ArchiveView, crate::archive::ArchiveMetaView, DatasetIdSourceView),
    Failed(crate::error::S3ErrorView),
    OutOfBounds,
}

impl View for OpenStep {
    type V = OpenStepView;

    open spec fn view(&self) -> OpenStepView {
        match *self {
            OpenStep::Read(range, next) => OpenStepView::Read(range, next@),
            OpenStep::Ready(archive, meta, source) => OpenStepView::Ready(
                archive@,
                meta@,
                source@,
            ),
            OpenStep::Failed(e) => OpenStepView::Failed(e@),
            OpenStep::OutOfBounds => OpenStepView::OutOfBounds,
        }
    }
}

/// What opening an archive starts with: the location that the URL names, or that it names none.
pub open spec fn opened(
    url: Seq<char>,
    scan_index: bool,
    dataset_id: Option<Seq<char>>,
) -> Result<OpenRequestView, crate::error::S3ErrorView> {
    match crate::archive::s3_location(url) {
        Some((bucket, key)) => Ok(OpenRequestView { bucket, key, scan_index, dataset_id }),
        None => Err(crate::error::S3ErrorView::Protocol("expected s3:// URL, got: "@ + url)),
    }
}

/// The date that a `HeadObject` reply gives, where it gives one that can be written.
pub open spec fn date_of(last_modified: Option<i64>) -> Option<Seq<char>> {
    match last_modified {
        Some(seconds) => crate::date::http_date_text(seconds),
        None => None,
    }
}

/// The object that a `HeadObject` reply describes; every field must be there.
pub open spec fn object_of(
    etag: Option<Seq<char>>,
    last_modified: Option<Seq<char>>,
    content_length: Option<i64>,
) -> Result<ObjectMetaView, crate::error::S3ErrorView> {
    if etag is None {
        Err(crate::error::S3ErrorView::Protocol("S3 HeadObject returned no ETag"@))
    } else if last_modified is None {
        Err(crate::error::S3ErrorView::Protocol("S3 HeadObject returned no Last-Modified"@))
    } else if content_length is None {
        Err(crate::error::S3ErrorView::Protocol("S3 HeadObject returned no Content-Length"@))
    } else {
        Ok(
            ObjectMetaView {
                etag: etag->0,
                last_modified: last_modified->0,
                size: content_length->0 as u64,
            },
        )
    }
}

/// The step after `HeadObject`: read the first tar header.
pub open spec fn after_head(
    request: OpenRequestView,
    reply: Result<ObjectMetaView, crate::error::S3ErrorView>,
) -> OpenStepView {
    match reply {
        Err(e) => OpenStepView::Failed(e),
        Ok(meta) => OpenStepView::Read(
            ByteRange { offset: 0, length: TAR_BLOCK_SIZE as u64 },
            AwaitBytesView { request, meta, stage: StageView::FirstHeader },
        ),
    }
}

/// The step after `HeadObject` reported what it knows of the object.
pub open spec fn after_report(
    request: OpenRequestView,
    etag: Option<Seq<char>>,
    last_modified: Option<i64>,
    content_length: Option<i64>,
) -> OpenStepView {
    after_head(request, object_of(etag, date_of(last_modified), content_length))
}

/// The step after `HeadObject` failed.
pub open spec fn after_refusal(request: OpenRequestView, what: Seq<char>) -> OpenStepView {
    after_head(request, Err(crate::error::S3ErrorView::Request("HeadObject failed: "@ + what)))
}

/// The archive is open.
pub open spec fn ready(
    w: AwaitBytesView,
    index: crate::index::TileIndexView,
    compression: TileCompression,
    dataset_id: Seq<char>,
    source: DatasetIdSourceView,
) -> OpenStepView {
    OpenStepView::Ready(
        crate::archive::S3ArchiveView {
            bucket: w.request.bucket,
            key: w.request.key,
            index,
            compression,
        },
        crate::archive::ArchiveMetaView {
            etag: w.meta.etag,
            last_modified: w.meta.last_modified,
            dataset_id,
            tile_count: index.tiles.dom().len(),
        },
        source,
    )
}

/// The archive is open and its dataset id was detected, or else is the ETag.
pub open spec fn ready_detected(
    w: AwaitBytesView,
    index: crate::index::TileIndexView,
    compression: TileCompression,
    detected: Result<u64, crate::error::S3ErrorView>,
) -> OpenStepView {
    match detected {
        Ok(id) => ready(
            w,
            index,
            compression,
            crate::text::decimal(id as nat),
            DatasetIdSourceView::Detected,
        ),
        Err(e) => ready(w, index, compression, w.meta.etag, DatasetIdSourceView::Fallback(e)),
    }
}

/// The step when index and compression are known: a given dataset id is used as it is, else the
/// first tile is read to detect one.
pub open spec fn after_compression(
    w: AwaitBytesView,
    index: crate::index::TileIndexView,
    compression: TileCompression,
) -> OpenStepView {
    match w.request.dataset_id {
        Some(id) => ready(w, index, compression, id, DatasetIdSourceView::Given),
        None => match crate::archive::dataset_range(index.first_tile(), compression) {
            Ok(range) => OpenStepView::Read(
                range,
                AwaitBytesView { stage: StageView::Tile(index, compression), ..w },
            ),
            Err(e) => ready_detected(w, index, compression, Err(e)),
        },
    }
}

/// The step when `index.bin` has been read: the tar header of the first tile tells the
/// compression.
pub open spec fn after_index(
    w: AwaitBytesView,
    index: crate::index::TileIndexView,
) -> OpenStepView {
    match index.first_tile() {
        Some(e) => match crate::archive::header_range(e.offset) {
            Some(range) => OpenStepView::Read(
                range,
                AwaitBytesView { stage: StageView::TileHeader(index), ..w },
            ),
            None => OpenStepView::OutOfBounds,
        },
        None => after_compression(w, index, TileCompression::Plain),
    }
}

/// The step that follows what came of a scan.
pub open spec fn after_scan(
    w: AwaitBytesView,
    outcome: crate::scan::ScanOutcomeView,
) -> OpenStepView {
    match outcome {
        crate::scan::ScanOutcomeView::More(scan) => {
            let (offset, length) = crate::scan::chunk_range_of(scan.size, scan.taken);
            OpenStepView::Read(
                ByteRange { offset: offset as u64, length: length as u64 },
                AwaitBytesView { stage: StageView::Scan(scan), ..w },
            )
        },
        crate::scan::ScanOutcomeView::Done(index, compression) => after_compression(
            w,
            index,
            compression,
        ),
        crate::scan::ScanOutcomeView::Failed(e) => OpenStepView::Failed(e),
        crate::scan::ScanOutcomeView::OutOfBounds => OpenStepView::OutOfBounds,
    }
}

/// The step that follows the first tar header. A first entry that is not `index.bin` sends an
/// archive to be scanned, where that is asked for.
pub open spec fn after_first_header(w: AwaitBytesView, header: Seq<u8>) -> OpenStepView {
    if header.len() != TAR_BLOCK_SIZE {
        OpenStepView::Failed(
            crate::error::S3ErrorView::Protocol("tar header shorter than 512 bytes"@),
        )
    } else {
        match crate::index::index_range(header) {
            Ok((offset, length)) => OpenStepView::Read(
                ByteRange { offset, length },
                AwaitBytesView { stage: StageView::Index, ..w },
            ),
            Err(crate::error::TarErrorView::FirstEntryNotIndex { actual }) => if w.request.scan_index {
                after_scan(w, crate::scan::started(w.meta.size as nat))
            } else {
                OpenStepView::Failed(
                    crate::error::S3ErrorView::Tar(crate::error::TarErrorView::MissingIndexNoScan),
                )
            },
            Err(e) => OpenStepView::Failed(crate::error::S3ErrorView::Tar(e)),
        }
    }
}

/// The step that follows a reply. A failed read ends the conversation, but for the read that
/// would tell the dataset id.
pub open spec fn next_step(
    w: AwaitBytesView,
    reply: Result<Seq<u8>, crate::error::S3ErrorView>,
) -> OpenStepView {
    match (w.stage, reply) {
        (StageView::Tile(index, compression), Err(e)) => ready_detected(
            w,
            index,
            compression,
            Err(e),
        ),
        (_, Err(e)) => OpenStepView::Failed(e),
        (StageView::FirstHeader, Ok(bytes)) => after_first_header(w, bytes),
        (StageView::Index, Ok(bytes)) => match crate::index::index_of(bytes) {
            Err(e) => OpenStepView::Failed(crate::error::S3ErrorView::Tar(e)),
            Ok(index) => after_index(w, index),
        },
        (StageView::TileHeader(index), Ok(bytes)) => match crate::archive::compression_of_header(
            bytes,
        ) {
            Err(e) => OpenStepView::Failed(e),
            Ok(compression) => after_compression(w, index, compression),
        },
        (StageView::Scan(scan), Ok(bytes)) => after_scan(w, crate::scan::take_chunk(scan, bytes)),
        (StageView::Tile(index, compression), Ok(bytes)) => ready_detected(
            w,
            index,
            compression,
            crate::archive::dataset_id_of_decoded(crate::codec::decoded(bytes, compression)),
        ),
    }
}

/// Whether the first tar header sends an archive to be scanned.
pub open spec fn starts_scan(w: AwaitBytesView, header: Seq<u8>) -> bool {
    header.len() == TAR_BLOCK_SIZE && w.request.scan_index && (crate::index::index_range(
        header,
    ) matches Err(e) && e is FirstEntryNotIndex)
}

/// What a reply gives to note: that a scan starts, and what the chunks of a scan give.
pub open spec fn reply_notes(
    w: AwaitBytesView,
    reply: Result<Seq<u8>, crate::error::S3ErrorView>,
) -> Seq<crate::scan::ScanNoteView> {
    match (w.stage, reply) {
        (StageView::FirstHeader, Ok(bytes)) if starts_scan(w, bytes) => seq![
            crate::scan::ScanNoteView::Started,
        ],
        (StageView::Scan(scan), Ok(bytes)) => crate::scan::chunk_notes(scan, bytes),
        _ => Seq::empty(),
    }
}

impl S3Archive {
    /// Starts to open the archive at `url`, which has the form `s3://bucket/path/to/key`.
    ///
    /// When the first tar entry is not `index.bin` and `scan_index` is set, the tar headers are
    /// scanned to build the index, which can be slow for large archives.
    ///
    /// `dataset_id_override`, where given, is used in place of the archive's own dataset id.
    pub fn open(url: &str, scan_index: bool, dataset_id_override: Option<&str>) -> (r: Result<
        AwaitHead,
        S3Error,
    >)
        ensures
            crate::error::result_view(r) == opened(
                url@,
                scan_index,
                match dataset_id_override {
                    Some(id) => Some(id@),
                    None => None,
                },
            ),
    {
        match parse_s3_url(url) {
            None => {
                let mut text = "expected s3:// URL, got: ".to_owned();
                text.append(url);
                Err(S3Error::Protocol(text))
            },
            Some((bucket, key)) => {
                let request = OpenRequest {
                    bucket: bucket.to_owned(),
                    key: key.to_owned(),
                    scan_index,
                    dataset_id: match dataset_id_override {
                        Some(id) => Some(id.to_owned()),
                        None => None,
                    },
                };
                Ok(AwaitHead { request })
            },
        }
    }
}

fn object_meta(
    etag: Option<String>,
    last_modified: Option<String>,
    content_length: Option<i64>,
) -> (r: Result<ObjectMeta, S3Error>)
    ensures
        crate::error::result_view(r) == object_of(
            etag.deep_view(),
            last_modified.deep_view(),
            content_length,
        ),
{
    let etag = match etag {
        Some(etag) => etag,
        None => return Err(S3Error::Protocol("S3 HeadObject returned no ETag".to_owned())),
    };
    let last_modified = match last_modified {
        Some(date) => date,
        None => return Err(
            S3Error::Protocol("S3 HeadObject returned no Last-Modified".to_owned()),
        ),
    };
    let size: u64 = match content_length {
        Some(n) => #[verifier::truncate] (n as u64),
        None => return Err(
            S3Error::Protocol("S3 HeadObject returned no Content-Length".to_owned()),
        ),
    };
    Ok(ObjectMeta { etag, last_modified, size })
}

impl AwaitHead {
    /// The bucket to ask.
    pub fn bucket(&self) -> (s: &str)
        ensures
            s@ == self@.bucket,
    {
        self.request.bucket.as_str()
    }

    /// The key to ask for.
    pub fn key(&self) -> (s: &str)
        ensures
            s@ == self@.key,
    {
        self.request.key.as_str()
    }

    /// Takes what `HeadObject` replied, or the text of its error. The object's date is kept as an
    /// HTTP date.
    pub fn reply(self, reply: Result<HeadReply, String>) -> (step: OpenStep)
        ensures
            step@ == (match reply {
                Ok(head) => after_report(
                    self@,
                    head.etag.deep_view(),
                    head.last_modified,
                    head.content_length,
                ),
                Err(e) => after_refusal(self@, e@),
            }),
            reply matches Ok(head) ==> (step is Read <==> (head.etag is Some && (
            head.last_modified matches Some(seconds) && -62_135_596_800 <= seconds
                <= 253_402_300_799) && head.content_length is Some)),
    {
        let head = match reply {
            Ok(head) => head,
            Err(e) => {
                let mut text = "HeadObject failed: ".to_owned();
                text.append(e.as_str());
                return OpenStep::Failed(S3Error::Request(text));
            },
        };
        let date = match head.last_modified {
            Some(seconds) => http_date(seconds),
            None => None,
        };
        self.after_head(head.etag, date, head.content_length)
    }

    /// Goes on with what `HeadObject` reported, the date already written as an HTTP date.
    pub fn after_head(
        self,
        etag: Option<String>,
        last_modified: Option<String>,
        content_length: Option<i64>,
    ) -> (step: OpenStep)
        ensures
            step@ == after_head(
                self@,
                object_of(etag.deep_view(), last_modified.deep_view(), content_length),
            ),
    {
        match object_meta(etag, last_modified, content_length) {
            Err(e) => OpenStep::Failed(e),
            Ok(meta) => OpenStep::Read(
                ByteRange { offset: 0, length: TAR_BLOCK_SIZE as u64 },
                AwaitBytes { request: self.request, meta, stage: Stage::FirstHeader },
            ),
        }
    }
}

impl AwaitBytes {
    /// The bucket to read from.
    pub fn bucket(&self) -> (s: &str)
        ensures
            s@ == self@.request.bucket,
    {
        self.request.bucket.as_str()
    }

    /// The key to read.
    pub fn key(&self) -> (s: &str)
        ensures
            s@ == self@.request.key,
    {
        self.request.key.as_str()
    }

    /// Whether the bytes are a chunk of an archive that is being scanned. The chunks are asked for
    /// one after the other, so that the next ones can be read ahead.
    pub fn is_scanning(&self) -> (b: bool)
        ensures
            b == (self@.stage is Scan),
    {
        matches!(self.stage, Stage::Scan(_))
    }

    /// The size of the archive.
    pub fn archive_size(&self) -> (size: u64)
        ensures
            size == self@.meta.size,
    {
        self.meta.size
    }

    fn ready(
        self,
        index: TileIndex,
        compression: TileCompression,
        dataset_id: String,
        source: DatasetIdSource,
    ) -> (step: OpenStep)
        ensures
            step@ == ready(self@, index@, compression, dataset_id@, source@),
    {
        let tile_count: usize = index.len();
        let archive = S3Archive::new(self.request.bucket, self.request.key, index, compression);
        let meta = ArchiveMeta {
            etag: self.meta.etag,
            last_modified: self.meta.last_modified,
            dataset_id,
            tile_count,
        };
        OpenStep::Ready(archive, meta, source)
    }

    fn ready_detected(
        self,
        index: TileIndex,
        compression: TileCompression,
        detected: Result<u64, S3Error>,
    ) -> (step: OpenStep)
        ensures
            step@ == ready_detected(
                self@,
                index@,
                compression,
                crate::error::result_view(detected),
            ),
    {
        match detected {
            Ok(id) => {
                let mut text = String::new();
                append_decimal(&mut text, id);
                assert(text@ =~= crate::text::decimal(id as nat));
                self.ready(index, compression, text, DatasetIdSource::Detected)
            },
            Err(e) => {
                let etag = self.meta.etag.clone();
                self.ready(index, compression, etag, DatasetIdSource::Fallback(e))
            },
        }
    }

    /// Goes on when index and compression are known.
    fn after_compression(self, index: TileIndex, compression: TileCompression) -> (step: OpenStep)
        ensures
            step@ == after_compression(self@, index@, compression),
    {
        let AwaitBytes { request, meta, stage } = self;
        let OpenRequest { bucket, key, scan_index, dataset_id } = request;
        let request = OpenRequest { bucket, key, scan_index, dataset_id: None };
        match dataset_id {
            Some(id) => AwaitBytes { request, meta, stage }.ready(
                index,
                compression,
                id,
                DatasetIdSource::Given,
            ),
            None => match probe_dataset_id(index.first(), compression) {
                Ok(range) => OpenStep::Read(
                    range,
                    AwaitBytes { request, meta, stage: Stage::Tile(index, compression) },
                ),
                Err(e) => AwaitBytes { request, meta, stage }.ready_detected(
                    index,
                    compression,
                    Err(e),
                ),
            },
        }
    }

    /// Goes on when `index.bin` has been read.
    fn after_index(self, index: TileIndex) -> (step: OpenStep)
        ensures
            step@ == after_index(self@, index@),
    {
        match index.first() {
            Some(e) => match header_before(e.offset) {
                Some(range) => OpenStep::Read(
                    range,
                    AwaitBytes {
                        request: self.request,
                        meta: self.meta,
                        stage: Stage::TileHeader(index),
                    },
                ),
                None => OpenStep::OutOfBounds,
            },
            None => self.after_compression(index, TileCompression::Plain),
        }
    }

    fn after_scan(self, outcome: ScanOutcome) -> (step: OpenStep)
        ensures
            step@ == after_scan(self@, outcome@),
    {
        match outcome {
            ScanOutcome::More(scan) => OpenStep::Read(
                scan.wanted(),
                AwaitBytes { request: self.request, meta: self.meta, stage: Stage::Scan(scan) },
            ),
            ScanOutcome::Done(index, compression) => self.after_compression(index, compression),
            ScanOutcome::Failed(e) => OpenStep::Failed(e),
            ScanOutcome::OutOfBounds => OpenStep::OutOfBounds,
        }
    }

    fn after_first_header(self, header: &[u8], notes: &mut Vec<ScanNote>) -> (step: OpenStep)
        ensures
            step@ == after_first_header(self@, header@),
            crate::scan::note_list(final(notes)@) == crate::scan::note_list(old(notes)@) + (
            if starts_scan(self@, header@) {
                seq![crate::scan::ScanNoteView::Started]
            } else {
                Seq::empty()
            }),
    {
        assert(crate::scan::note_list(notes@) =~= crate::scan::note_list(notes@) + Seq::<
            crate::scan::ScanNoteView,
        >::empty());
        if header.len() != TAR_BLOCK_SIZE {
            return OpenStep::Failed(
                S3Error::Protocol("tar header shorter than 512 bytes".to_owned()),
            );
        }
        let block = to_block(header);
        match read_index_header(&block) {
            Ok((offset, length)) => OpenStep::Read(
                ByteRange { offset, length },
                AwaitBytes { request: self.request, meta: self.meta, stage: Stage::Index },
            ),
            Err(TarError::FirstEntryNotIndex { actual }) => if self.request.scan_index {
                add_note(notes, ScanNote::Started);
                let outcome = TarScan::start(self.meta.size);
                self.after_scan(outcome)
            } else {
                OpenStep::Failed(S3Error::Tar(TarError::MissingIndexNoScan))
            },
            Err(e) => OpenStep::Failed(S3Error::Tar(e)),
        }
    }

    /// Takes the bytes that were asked for, or why there are none.
    pub fn reply(self, reply: Result<Vec<u8>, S3Error>) -> (step: OpenStep)
        ensures
            step@ == next_step(self@, crate::error::result_view(reply)),
    {
        let mut notes: Vec<ScanNote> = Vec::new();
        self.reply_noting(reply, &mut notes)
    }

    /// Takes the bytes that were asked for, or why there are none, and adds to `notes` what is
    /// worth telling about them.
    pub fn reply_noting(
        self,
        reply: Result<Vec<u8>, S3Error>,
        notes: &mut Vec<ScanNote>,
    ) -> (step: OpenStep)
        ensures
            step@ == next_step(self@, crate::error::result_view(reply)),
            crate::scan::note_list(final(notes)@) == crate::scan::note_list(old(notes)@)
                + reply_notes(self@, crate::error::result_view(reply)),
    {
        let AwaitBytes { request, meta, stage } = self;
        assert(crate::scan::note_list(notes@) =~= crate::scan::note_list(notes@) + Seq::<
            crate::scan::ScanNoteView,
        >::empty());
        let bytes = match reply {
            Ok(bytes) => bytes,
            Err(e) => return match stage {
                Stage::Tile(index, compression) => AwaitBytes {
                    request,
                    meta,
                    stage: Stage::FirstHeader,
                }.ready_detected(index, compression, Err(e)),
                _ => OpenStep::Failed(e),
            },
        };
        let rest = AwaitBytes { request, meta, stage: Stage::FirstHeader };
        match stage {
            Stage::FirstHeader => rest.after_first_header(bytes.as_slice(), notes),
            Stage::Index => match parse_index(bytes.as_slice()) {
                Err(e) => OpenStep::Failed(S3Error::Tar(e)),
                Ok(index) => rest.after_index(index),
            },
            Stage::TileHeader(index) => match detect_compression(bytes.as_slice()) {
                Err(e) => OpenStep::Failed(e),
                Ok(compression) => rest.after_compression(index, compression),
            },
            Stage::Scan(scan) => {
                let outcome = scan.take_noting(bytes.as_slice(), notes);
                rest.after_scan(outcome)
            },
            Stage::Tile(index, compression) => rest.ready_detected(
                index,
                compression,
                detect_dataset_id(bytes, compression),
            ),
        }
    }
}

/// Whether an index is one that an archive can be served from: it holds tiles, finitely many, and
/// one of them is its first.
pub open spec fn serves(index: crate::index::TileIndexView) -> bool {
    index.tiles.dom().finite() && index.wf() && index.first is Some
}

/// Whether an index can become one that an archive can be served from.
pub open spec fn grows(index: crate::index::TileIndexView) -> bool {
    index.tiles.dom().finite() && index.wf()
}

/// What holds of a conversation at every stage. A dataset id is only looked for in a tile when
/// none was given.
pub open spec fn is_sound(w: AwaitBytesView) -> bool {
    match w.stage {
        StageView::FirstHeader => true,
        StageView::Index => true,
        StageView::TileHeader(index) => serves(index),
        StageView::Scan(scan) => grows(scan.entries),
        StageView::Tile(index, _) => serves(index) && w.request.dataset_id is None,
    }
}

proof fn lemma_indexed_serves(data: Seq<u8>, n: nat)
    ensures
        grows(crate::index::indexed(data, n)),
        n > 0 ==> serves(crate::index::indexed(data, n)),
    decreases n,
{
    if n > 0 {
        lemma_indexed_serves(data, (n - 1) as nat);
    }
}

proof fn lemma_walk_grows(st: crate::scan::ScanView, chunk: Seq<u8>, base: nat)
    requires
        grows(st.entries),
    ensures
        match crate::scan::walk(st, chunk, base) {
            crate::scan::ScanOutcomeView::More(next) => grows(next.entries),
            crate::scan::ScanOutcomeView::Done(index, _) => serves(index),
            _ => true,
        },
    decreases crate::scan::remaining(st),
{
    if st.pos + crate::scan::BLOCK <= st.size && base <= st.pos && st.pos + crate::scan::BLOCK
        <= base + chunk.len() && st.pos < base + crate::scan::CHUNK_SIZE {
        let block = chunk.subrange(st.pos - base, st.pos - base + crate::scan::BLOCK);
        match crate::scan::take_block(st, block) {
            crate::scan::BlockStep::Next(next) => {
                lemma_walk_grows(next, chunk, base);
            },
            _ => {},
        }
    }
}

proof fn lemma_take_chunk_grows(st: crate::scan::ScanView, chunk: Seq<u8>)
    requires
        grows(st.entries),
    ensures
        match crate::scan::take_chunk(st, chunk) {
            crate::scan::ScanOutcomeView::More(next) => grows(next.entries),
            crate::scan::ScanOutcomeView::Done(index, _) => serves(index),
            _ => true,
        },
{
    let base = st.taken * crate::scan::CHUNK_SIZE as nat;
    let now = crate::scan::ScanView { taken: st.taken + 1, partial: None, ..st };
    match st.partial {
        None => {
            lemma_walk_grows(now, chunk, base);
        },
        Some(head) => {
            let block = head + chunk.take(crate::scan::BLOCK - head.len());
            match crate::scan::take_block(now, block) {
                crate::scan::BlockStep::Next(next) => {
                    lemma_walk_grows(next, chunk, base);
                },
                _ => {},
            }
        },
    }
}

/// What a conversation asks to read next is still about the object that it was started for.
pub open spec fn continues(w: AwaitBytesView, next: AwaitBytesView) -> bool {
    next.request == w.request && next.meta == w.meta
}

/// The conversation that opens an archive starts sound, for the object that was asked for.
pub proof fn law_opening_starts_sound(
    request: OpenRequestView,
    reply: Result<ObjectMetaView, crate::error::S3ErrorView>,
)
    ensures
        after_head(request, reply) matches OpenStepView::Read(_, next) ==> is_sound(next)
            && next.request == request && reply == Ok::<ObjectMetaView, crate::error::S3ErrorView>(
            next.meta,
        ),
{
}

/// The conversation that opens an archive stays sound from step to step and keeps to the object
/// that it was started for.
pub proof fn law_opening_stays_sound(
    w: AwaitBytesView,
    reply: Result<Seq<u8>, crate::error::S3ErrorView>,
)
    requires
        is_sound(w),
    ensures
        next_step(w, reply) matches OpenStepView::Read(_, next) ==> is_sound(next) && continues(
            w,
            next,
        ),
{
    lemma_step(w, reply);
}

/// An archive that has been opened is the one that was asked for and holds at least one tile;
/// its tile count is the number of tiles.
pub proof fn law_opened_archive(
    w: AwaitBytesView,
    reply: Result<Seq<u8>, crate::error::S3ErrorView>,
)
    requires
        is_sound(w),
    ensures
        next_step(w, reply) matches OpenStepView::Ready(archive, meta, _) ==> {
            &&& archive.bucket == w.request.bucket && archive.key == w.request.key
            &&& serves(archive.index)
            &&& meta.tile_count == archive.index.tiles.dom().len() && meta.tile_count >= 1
            &&& meta.etag == w.meta.etag && meta.last_modified == w.meta.last_modified
        },
{
    lemma_step(w, reply);
    if let OpenStepView::Ready(archive, meta, _) = next_step(w, reply) {
        if archive.index.tiles.dom().len() == 0 {
            archive.index.tiles.dom().lemma_len0_is_empty();
            assert(archive.index.tiles.dom().contains(archive.index.first->0));
        }
    }
}

/// The dataset id of an opened archive is the one given when it was opened; else the one that a
/// tile holds, which is not zero; else the ETag.
pub proof fn law_dataset_id_precedence(
    w: AwaitBytesView,
    reply: Result<Seq<u8>, crate::error::S3ErrorView>,
)
    requires
        is_sound(w),
    ensures
        next_step(w, reply) matches OpenStepView::Ready(_, meta, source) ==> match w.request.dataset_id {
            Some(id) => source is Given && meta.dataset_id == id,
            None => match source {
                DatasetIdSourceView::Given => false,
                DatasetIdSourceView::Detected => exists|id: u64|
                    id != 0 && meta.dataset_id == #[trigger] crate::text::decimal(id as nat),
                DatasetIdSourceView::Fallback(_) => meta.dataset_id == meta.etag,
            },
        },
{
    lemma_step(w, reply);
}

/// What a step that is not a failure looks like.
#[verifier::rlimit(40)]
proof fn lemma_step(w: AwaitBytesView, reply: Result<Seq<u8>, crate::error::S3ErrorView>)
    requires
        is_sound(w),
    ensures
        match next_step(w, reply) {
            OpenStepView::Read(_, next) => is_sound(next) && continues(w, next),
            OpenStepView::Ready(archive, meta, source) => {
                &&& archive.bucket == w.request.bucket && archive.key == w.request.key
                &&& serves(archive.index)
                &&& meta.tile_count == archive.index.tiles.dom().len()
                &&& meta.etag == w.meta.etag && meta.last_modified == w.meta.last_modified
                &&& match w.request.dataset_id {
                    Some(id) => source is Given && meta.dataset_id == id,
                    None => match source {
                        DatasetIdSourceView::Given => false,
                        DatasetIdSourceView::Detected => exists|id: u64|
                            id != 0 && meta.dataset_id == #[trigger] crate::text::decimal(
                                id as nat,
                            ),
                        DatasetIdSourceView::Fallback(_) => meta.dataset_id == meta.etag,
                    },
                }
            },
            _ => true,
        },
{
    match (w.stage, reply) {
        (StageView::Index, Ok(bytes)) => {
            lemma_indexed_serves(
                bytes,
                bytes.len() / crate::index::TILE_INDEX_ENTRY_SIZE as nat,
            );
        },
        (StageView::Scan(scan), Ok(bytes)) => {
            lemma_take_chunk_grows(scan, bytes);
        },
        _ => {},
    }
}

/// An archive that starts with `index.bin` is opened with two reads, of its first header and of
/// the content of `index.bin`, which give the index that was written into it. The tile that
/// `index.bin` lists first then decides: the name in the tar header before its data tells the
/// compression, and its data tells the dataset id. When that tile is listed again, it has the
/// place that is listed last; entry `k` is the one that counts.
#[verifier::rlimit(40)]
pub proof fn law_first_listed_tile_decides(
    w: AwaitBytesView,
    header: Seq<u8>,
    entries: Seq<crate::index::TileIndexEntry>,
    k: int,
    tile_header: Seq<u8>,
)
    requires
        w.stage == StageView::FirstHeader,
        header.len() == 512,
        crate::tar::header_of(header) matches Ok(h) && h.name
            == "index.bin"@ && h.size == crate::index::index_bytes(
            entries,
        ).len(),
        crate::index::is_last(entries, k),
        entries[k].tile_id == entries[0].tile_id,
        entries[k].offset >= 512,
        tile_header.len() == 512,
        crate::tar::header_of(tile_header) is Ok,
    ensures
        ({
            let index = crate::index::indexed(
                crate::index::index_bytes(entries),
                entries.len(),
            );
            let index_read = AwaitBytesView { stage: StageView::Index, ..w };
            let header_read = AwaitBytesView { stage: StageView::TileHeader(index), ..w };
            let name = crate::tar::header_of(tile_header)->Ok_0.name;
            let compression = TileCompression::of_name(name);
            let e = crate::index::TileEntry { offset: entries[k].offset, size: entries[k].size };
            &&& crate::index::binds(index, entries)
            &&& next_step(w, Ok(header)) == OpenStepView::Read(
                ByteRange {
                    offset: 512u64,
                    length: crate::index::index_bytes(entries).len() as u64,
                },
                index_read,
            )
            &&& next_step(index_read, Ok(crate::index::index_bytes(entries)))
                == OpenStepView::Read(
                ByteRange {
                    offset: (e.offset - 512) as u64,
                    length: 512u64,
                },
                header_read,
            )
            &&& next_step(header_read, Ok(tile_header)) == after_compression(
                w,
                index,
                compression,
            )
            &&& index.first_tile() == Some(e)
        }),
{
    let data = crate::index::index_bytes(entries);
    crate::index::law_index_reads_back(entries);
    let index = crate::index::indexed(data, entries.len());
    assert(index.tiles[entries[k].tile_id.0] == (crate::index::TileEntry {
        offset: entries[k].offset,
        size: entries[k].size,
    }));
}

/// Whether a conversation is in the middle of scanning `archive`.
pub open spec fn scans(w: AwaitBytesView, archive: Seq<u8>) -> bool {
    w.stage matches StageView::Scan(scan) && crate::scan::follows(scan, archive)
        && crate::scan::scan_from(scan, archive) == crate::scan::scanned(archive)
}

/// An archive whose first entry is not `index.bin` is scanned from its first chunk on, when that
/// is asked for.
pub proof fn law_opening_starts_scan(w: AwaitBytesView, archive: Seq<u8>, header: Seq<u8>)
    requires
        w.stage == StageView::FirstHeader,
        w.request.scan_index,
        archive.len() == w.meta.size,
        archive.len() >= TAR_BLOCK_SIZE,
        header.len() == TAR_BLOCK_SIZE,
        crate::index::index_range(header) matches Err(e) && e is FirstEntryNotIndex,
    ensures
        next_step(w, Ok(header)) matches OpenStepView::Read(range, waiting) && scans(
            waiting,
            archive,
        ) && waiting.stage == StageView::Scan(crate::scan::fresh(archive.len())) && (
        range.offset as nat,
        range.length as nat,
    ) == crate::scan::chunk_range_of(archive.len(), 0),
{
    crate::scan::law_chunks_do_not_show(archive);
    assert(crate::scan::follows(crate::scan::fresh(archive.len()), archive));
}

/// An archive that is opened by scanning is asked for chunk by chunk, in order, and ends up with
/// what the scan of the whole archive gives: its index and compression, or its error.
pub proof fn law_opening_scans_archive(
    w: AwaitBytesView,
    archive: Seq<u8>,
    scan: crate::scan::ScanView,
)
    requires
        w.stage == StageView::Scan(scan),
        scans(w, archive),
        archive.len() <= u64::MAX,
    ensures
        ({
            let chunk = crate::scan::chunk_of(archive, scan.taken);
            let step = next_step(w, Ok(chunk));
            match crate::scan::take_chunk(scan, chunk) {
                crate::scan::ScanOutcomeView::More(next) => {
                    &&& next.taken == scan.taken + 1
                    &&& step matches OpenStepView::Read(range, waiting) && scans(waiting, archive)
                        && waiting.stage == StageView::Scan(next) && (
                    range.offset as nat,
                    range.length as nat,
                ) == crate::scan::chunk_range_of(archive.len(), next.taken)
                },
                crate::scan::ScanOutcomeView::Done(index, compression) => {
                    &&& crate::scan::scanned(archive) == crate::scan::ScanOutcomeView::Done(
                        index,
                        compression,
                    )
                    &&& step == after_compression(w, index, compression)
                },
                crate::scan::ScanOutcomeView::Failed(e) => {
                    &&& crate::scan::scanned(archive) == crate::scan::ScanOutcomeView::Failed(e)
                    &&& step == OpenStepView::Failed(e)
                },
                crate::scan::ScanOutcomeView::OutOfBounds => false,
            }
        }),
{
    crate::scan::lemma_take_chunk(scan, archive);
}

/// Opening starts with the bucket and the key of the URL and with what was asked for beside them.
pub proof fn law_opening_request(
    bucket: Seq<char>,
    key: Seq<char>,
    url: Seq<char>,
    scan_index: bool,
    dataset_id: Option<Seq<char>>,
)
    requires
        !bucket.contains('/'),
    ensures
        opened("s3://"@ + bucket + seq!['/'] + key, scan_index, dataset_id) matches Ok(request)
            && request.bucket == bucket && request.key == key && request.scan_index == scan_index
            && request.dataset_id == dataset_id,
        !"s3://"@.is_prefix_of(url) ==> (opened(url, scan_index, dataset_id) matches Err(e) && e
            == crate::error::S3ErrorView::Protocol("expected s3:// URL, got: "@ + url)),
{
    crate::archive::law_url_reads_back(bucket, key);
    crate::archive::law_url_needs_bucket_and_key(url, Seq::empty());
}

/// An object must have an ETag, a date and a length. They are kept as they are, and the first block
/// of the object is read next; where one of them is missing, opening fails.
pub proof fn law_head_reply(
    request: OpenRequestView,
    etag: Option<Seq<char>>,
    date: Option<Seq<char>>,
    length: Option<i64>,
)
    requires
        length matches Some(n) ==> n >= 0,
    ensures
        match after_head(request, object_of(etag, date, length)) {
            OpenStepView::Read(range, next) => {
                &&& range.offset == 0 && range.length == 512
                &&& next.request == request
                &&& next.stage == StageView::FirstHeader
                &&& etag == Some(next.meta.etag)
                &&& date == Some(next.meta.last_modified)
                &&& length matches Some(n) && n == next.meta.size
            },
            OpenStepView::Failed(e) => {
                &&& e is Protocol
                &&& etag is None || date is None || length is None
            },
            _ => false,
        },
        forall|e: crate::error::S3ErrorView| #[trigger]
            after_head(request, Err(e)) == OpenStepView::Failed(e),
{
}

/// The date of an object is written as an HTTP date; a report without a date that can be written so
/// is as good as none. A `HeadObject` that fails ends the opening.
pub proof fn law_head_report(
    request: OpenRequestView,
    etag: Seq<char>,
    seconds: i64,
    length: i64,
    what: Seq<char>,
)
    requires
        length >= 0,
    ensures
        match after_report(request, Some(etag), Some(seconds), Some(length)) {
            OpenStepView::Read(range, next) => {
                &&& range.offset == 0 && range.length == 512
                &&& next.request == request && next.stage == StageView::FirstHeader
                &&& next.meta.etag == etag && next.meta.size == length
                &&& crate::date::http_date_text(seconds) == Some(next.meta.last_modified)
            },
            OpenStepView::Failed(e) => e is Protocol && crate::date::http_date_text(
                seconds,
            ) is None,
            _ => false,
        },
        after_report(request, Some(etag), None, Some(length)) is Failed,
        after_report(request, None, Some(seconds), Some(length)) is Failed,
        after_report(request, Some(etag), Some(seconds), None) is Failed,
        after_refusal(request, what) == OpenStepView::Failed(
            crate::error::S3ErrorView::Request("HeadObject failed: "@ + what),
        ),
{
}

/// Where a conversation gets when so many of its reads are answered with the bytes of `archive`.
pub open spec fn answered(step: OpenStepView, archive: Seq<u8>, reads: nat) -> OpenStepView
    decreases reads,
{
    match step {
        OpenStepView::Read(range, next) => if reads > 0 {
            answered(
                next_step(
                    next,
                    Ok(archive.subrange(range.offset as int, range.offset + range.length)),
                ),
                archive,
                (reads - 1) as nat,
            )
        } else {
            step
        },
        _ => step,
    }
}

/// Whether `archive` starts with `index.bin`, which lists `entries`, and entry `k` is the place of
/// the tile that is listed first, with its tar header right before it.
pub open spec fn is_indexed_archive(
    archive: Seq<u8>,
    entries: Seq<crate::index::TileIndexEntry>,
    k: int,
) -> bool {
    let n = 16 * entries.len();
    let start = entries[k].offset as int;
    &&& 512 + n <= archive.len()
    &&& crate::tar::header_of(archive.take(512)) matches Ok(h) && h.name == "index.bin"@ && h.size
        == n
    &&& archive.subrange(512, 512 + n as int) == crate::index::index_bytes(entries)
    &&& crate::index::is_last(entries, k)
    &&& entries[k].tile_id == entries[0].tile_id
    &&& 512 <= start && start + entries[k].size <= archive.len()
    &&& crate::tar::header_of(archive.subrange(start - 512, start)) is Ok
}

/// The compression that the name before the tile tells which an indexed archive lists first.
pub open spec fn first_compression(
    archive: Seq<u8>,
    entries: Seq<crate::index::TileIndexEntry>,
    k: int,
) -> TileCompression {
    let start = entries[k].offset as int;
    TileCompression::of_name(crate::tar::header_of(archive.subrange(start - 512, start))->Ok_0.name)
}

/// Whether `step` is the opened archive, with what `HeadObject` told of it.
pub open spec fn is_opened(
    step: OpenStepView,
    request: OpenRequestView,
    meta: ObjectMetaView,
    compression: TileCompression,
    dataset_id: Seq<char>,
) -> bool {
    &&& step matches OpenStepView::Ready(archive, told, _) && archive.bucket == request.bucket
        && archive.key == request.key && archive.compression == compression && told.etag
        == meta.etag && told.last_modified == meta.last_modified && told.dataset_id == dataset_id
        && told.tile_count == archive.index.tiles.dom().len()
}

#[verifier::rlimit(40)]
proof fn lemma_three_reads(
    request: OpenRequestView,
    meta: ObjectMetaView,
    archive: Seq<u8>,
    entries: Seq<crate::index::TileIndexEntry>,
    k: int,
    more: nat,
)
    requires
        is_indexed_archive(archive, entries, k),
    ensures
        ({
            let index = crate::index::indexed(
                crate::index::index_bytes(entries),
                entries.len(),
            );
            let w = AwaitBytesView { request, meta, stage: StageView::FirstHeader };
            &&& crate::index::binds(index, entries)
            &&& index.first_tile() == Some(
                crate::index::TileEntry { offset: entries[k].offset, size: entries[k].size },
            )
            &&& answered(after_head(request, Ok(meta)), archive, 3 + more) == answered(
                after_compression(w, index, first_compression(archive, entries, k)),
                archive,
                more,
            )
        }),
{
    let w = AwaitBytesView { request, meta, stage: StageView::FirstHeader };
    let start = entries[k].offset as int;
    let header = archive.take(512);
    let tile_header = archive.subrange(start - 512, start);
    crate::index::lemma_index_bytes_len(entries);
    law_first_listed_tile_decides(w, header, entries, k, tile_header);
    assert(archive.subrange(0, 512) =~= header);
    let index = crate::index::indexed(crate::index::index_bytes(entries), entries.len());
    let index_read = AwaitBytesView { stage: StageView::Index, ..w };
    let header_read = AwaitBytesView { stage: StageView::TileHeader(index), ..w };
    let last = after_compression(w, index, first_compression(archive, entries, k));
    let second = next_step(w, Ok(header));
    let third = next_step(index_read, Ok(crate::index::index_bytes(entries)));
    assert(answered(third, archive, 1 + more) == answered(last, archive, more));
    assert(answered(second, archive, 2 + more) == answered(third, archive, 1 + more));
    assert(answered(after_head(request, Ok(meta)), archive, 3 + more) == answered(
        second,
        archive,
        2 + more,
    ));
}

/// Opening an archive with `index.bin` takes four reads, each answered with the bytes of the
/// archive, and ends with the tiles that the index lists, the compression of the tile listed first,
/// and the dataset id that this tile holds at byte 32 once it is decoded. A plain tile must be as
/// long as its header.
#[verifier::rlimit(40)]
pub proof fn law_indexed_archive_tells_dataset_id(
    request: OpenRequestView,
    meta: ObjectMetaView,
    archive: Seq<u8>,
    entries: Seq<crate::index::TileIndexEntry>,
    k: int,
    plain: Seq<u8>,
    id: u64,
)
    requires
        is_indexed_archive(archive, entries, k),
        request.dataset_id is None,
        crate::codec::restores(
            crate::codec::decoded(
                archive.subrange(
                    entries[k].offset as int,
                    entries[k].offset + entries[k].size,
                ),
                first_compression(archive, entries, k),
            ),
            plain,
        ),
        first_compression(archive, entries, k) == TileCompression::Plain ==> entries[k].size >= 272,
        plain.len() >= 40,
        plain.subrange(32, 40) == crate::index::le_bytes(id as nat, 8),
        id != 0,
    ensures
        ({
            let step = answered(after_head(request, Ok(meta)), archive, 4);
            &&& is_opened(
                step,
                request,
                meta,
                first_compression(archive, entries, k),
                crate::text::decimal(id as nat),
            )
            &&& step matches OpenStepView::Ready(opened, _, source) && crate::index::binds(
                opened.index,
                entries,
            ) && source is Detected
        }),
{
    let c = first_compression(archive, entries, k);
    let w = AwaitBytesView { request, meta, stage: StageView::FirstHeader };
    let index = crate::index::indexed(crate::index::index_bytes(entries), entries.len());
    lemma_three_reads(request, meta, archive, entries, k, 1);
    let e = crate::index::TileEntry { offset: entries[k].offset, size: entries[k].size };
    lemma_tile_read(w, archive, index, c, e, plain, id);
}

proof fn lemma_id_at_32(tile: Seq<u8>, id: u64)
    requires
        tile.len() >= 40,
        tile.subrange(32, 40) == crate::index::le_bytes(id as nat, 8),
        id != 0,
    ensures
        crate::archive::nonzero_dataset_id(tile) == Ok::<u64, crate::error::S3ErrorView>(id),
{
    assert(tile =~= tile.take(32) + tile.subrange(32, 40) + tile.skip(40));
    crate::archive::law_dataset_id_reads_back(tile.take(32), id, tile.skip(40));
}

/// The read of the first tile, when index and compression are known and no dataset id was given.
#[verifier::rlimit(40)]
proof fn lemma_tile_read(
    w: AwaitBytesView,
    archive: Seq<u8>,
    index: crate::index::TileIndexView,
    compression: TileCompression,
    e: crate::index::TileEntry,
    plain: Seq<u8>,
    id: u64,
)
    requires
        w.request.dataset_id is None,
        index.first_tile() == Some(e),
        e.offset + e.size <= archive.len(),
        crate::codec::restores(
            crate::codec::decoded(
                archive.subrange(e.offset as int, e.offset + e.size),
                compression,
            ),
            plain,
        ),
        compression == TileCompression::Plain ==> e.size >= 272,
        plain.len() >= 40,
        plain.subrange(32, 40) == crate::index::le_bytes(id as nat, 8),
        id != 0,
    ensures
        answered(after_compression(w, index, compression), archive, 1) == ready(
            w,
            index,
            compression,
            crate::text::decimal(id as nat),
            DatasetIdSourceView::Detected,
        ),
{
    reveal_with_fuel(answered, 2);
    crate::archive::law_dataset_id_read(e, compression);
    let tile = archive.subrange(e.offset as int, e.offset + e.size);
    if compression == TileCompression::Plain {
        let head = archive.subrange(e.offset as int, e.offset + 272);
        assert(head.subrange(32, 40) =~= plain.subrange(32, 40));
        lemma_id_at_32(head, id);
    } else {
        lemma_id_at_32(plain, id);
    }
}

/// A dataset id that was given is the archive's, whatever its tiles hold, and no tile is read for
/// it.
pub proof fn law_given_dataset_id_is_kept(
    request: OpenRequestView,
    meta: ObjectMetaView,
    archive: Seq<u8>,
    entries: Seq<crate::index::TileIndexEntry>,
    k: int,
)
    requires
        is_indexed_archive(archive, entries, k),
        request.dataset_id is Some,
    ensures
        ({
            let step = answered(after_head(request, Ok(meta)), archive, 3);
            &&& is_opened(
                step,
                request,
                meta,
                first_compression(archive, entries, k),
                request.dataset_id->0,
            )
            &&& step matches OpenStepView::Ready(opened, _, source) && crate::index::binds(
                opened.index,
                entries,
            ) && source is Given
        }),
{
    lemma_three_reads(request, meta, archive, entries, k, 0);
}

/// An archive whose first tile tells no dataset id, because it is too short, cannot be decoded or
/// holds zero, has its ETag for one. It is opened all the same.
#[verifier::rlimit(40)]
pub proof fn law_etag_is_last_resort(
    request: OpenRequestView,
    meta: ObjectMetaView,
    archive: Seq<u8>,
    entries: Seq<crate::index::TileIndexEntry>,
    k: int,
)
    requires
        is_indexed_archive(archive, entries, k),
        request.dataset_id is None,
        ({
            let tile = archive.subrange(
                entries[k].offset as int,
                entries[k].offset + entries[k].size,
            );
            let c = first_compression(archive, entries, k);
            if c == TileCompression::Plain {
                tile.len() < 272 || tile.subrange(32, 40) == crate::index::le_bytes(0, 8)
            } else {
                match crate::codec::decoded(tile, c) {
                    Ok(plain) => plain.len() < 40 || plain.subrange(32, 40)
                        == crate::index::le_bytes(0, 8),
                    Err(_) => true,
                }
            }
        }),
    ensures
        ({
            let step = answered(after_head(request, Ok(meta)), archive, 4);
            &&& is_opened(
                step,
                request,
                meta,
                first_compression(archive, entries, k),
                meta.etag,
            )
            &&& step matches OpenStepView::Ready(opened, _, source) && crate::index::binds(
                opened.index,
                entries,
            ) && source is Fallback
        }),
{
    reveal_with_fuel(answered, 2);
    let c = first_compression(archive, entries, k);
    let w = AwaitBytesView { request, meta, stage: StageView::FirstHeader };
    lemma_three_reads(request, meta, archive, entries, k, 1);
    let e = crate::index::TileEntry { offset: entries[k].offset, size: entries[k].size };
    crate::archive::law_dataset_id_read(e, c);
    let tile = archive.subrange(e.offset as int, e.offset + e.size);
    if c == TileCompression::Plain {
        if e.size >= 272 {
            let head = archive.subrange(e.offset as int, e.offset + 272);
            assert(head.subrange(32, 40) =~= tile.subrange(32, 40));
            lemma_zero_at_32(head);
        }
    } else if let Ok(plain) = crate::codec::decoded(tile, c) {
        if plain.len() >= 40 {
            lemma_zero_at_32(plain);
        }
    }
}

proof fn lemma_zero_at_32(tile: Seq<u8>)
    requires
        tile.len() >= 40,
        tile.subrange(32, 40) == crate::index::le_bytes(0, 8),
    ensures
        crate::archive::nonzero_dataset_id(tile) is Err,
{
    assert(tile =~= tile.take(32) + tile.subrange(32, 40) + tile.skip(40));
    crate::archive::law_dataset_id_reads_back(tile.take(32), 0, tile.skip(40));
}

proof fn lemma_answered_stays(step: OpenStepView, archive: Seq<u8>, reads: nat)
    requires
        !(step is Read),
    ensures
        answered(step, archive, reads) == step,
{
}

/// A read that is answered early leaves the rest unused.
proof fn lemma_answered_more(step: OpenStepView, archive: Seq<u8>, reads: nat, more: nat)
    requires
        !(answered(step, archive, reads) is Read),
        reads <= more,
    ensures
        answered(step, archive, more) == answered(step, archive, reads),
    decreases reads,
{
    if let OpenStepView::Read(range, next) = step {
        if reads > 0 {
            lemma_answered_more(
                next_step(
                    next,
                    Ok(archive.subrange(range.offset as int, range.offset + range.length)),
                ),
                archive,
                (reads - 1) as nat,
                (more - 1) as nat,
            );
        }
    }
}

/// A conversation that scans an archive with tiles reads no more chunks than there are, and goes on
/// with what the scan gives.
#[verifier::rlimit(60)]
#[verifier::spinoff_prover]
proof fn lemma_scan_answered(
    w: AwaitBytesView,
    scan: crate::scan::ScanView,
    archive: Seq<u8>,
    range: ByteRange,
    index: crate::index::TileIndexView,
    compression: TileCompression,
    done: OpenStepView,
)
    requires
        w.stage == StageView::Scan(scan),
        scans(w, archive),
        archive.len() <= u64::MAX,
        (range.offset as nat, range.length as nat) == crate::scan::chunk_range_of(
            archive.len(),
            scan.taken,
        ),
        crate::scan::scanned(archive) == crate::scan::ScanOutcomeView::Done(index, compression),
        answered(after_compression(w, index, compression), archive, 1) == done,
        !(done is Read),
    ensures
        answered(
            OpenStepView::Read(range, w),
            archive,
            (crate::scan::chunk_count(archive.len()) - scan.taken + 1) as nat,
        ) == done,
    decreases crate::scan::chunk_count(archive.len()) - scan.taken,
{
    law_opening_scans_archive(w, archive, scan);
    let chunk = crate::scan::chunk_of(archive, scan.taken);
    let reads = (crate::scan::chunk_count(archive.len()) - scan.taken + 1) as nat;
    assert(archive.subrange(range.offset as int, range.offset + range.length) == chunk);
    let step = next_step(w, Ok(chunk));
    match crate::scan::take_chunk(scan, chunk) {
        crate::scan::ScanOutcomeView::More(next) => {
            if let OpenStepView::Read(range2, waiting) = step {
                assert(after_compression(waiting, index, compression) == after_compression(
                    w,
                    index,
                    compression,
                ));
                lemma_scan_answered(waiting, next, archive, range2, index, compression, done);
            }
        },
        _ => {
            lemma_answered_more(step, archive, 1, (reads - 1) as nat);
        },
    }
}

/// Opening an archive without `index.bin` by scanning it ends with exactly its tiles, the
/// compression that the name of its first tile tells, and the dataset id that this tile holds at
/// byte 32 once it is decoded. Member `first` is the first tile and member `k` is where it stands
/// last; each read is answered with the bytes of the archive, and there are at most as many reads as
/// chunks and two more.
#[verifier::rlimit(40)]
pub proof fn law_scanned_archive_tells_dataset_id(
    request: OpenRequestView,
    meta: ObjectMetaView,
    members: Seq<crate::scan::Member>,
    tail: Seq<u8>,
    first: int,
    k: int,
    plain: Seq<u8>,
    id: u64,
)
    requires
        forall|i: int|
            0 <= i < members.len() ==> crate::scan::is_member(#[trigger] members[i]),
        crate::scan::is_tail(tail),
        meta.size == (crate::scan::tar_bytes(members) + tail).len(),
        request.scan_index,
        request.dataset_id is None,
        members.len() > 0,
        crate::scan::head_of(members[0]).name != "index.bin"@,
        crate::scan::is_first_tile(members, first),
        crate::scan::is_last_tile(members, k),
        crate::scan::tile_of(members[k]) == crate::scan::tile_of(members[first]),
        ({
            let c = TileCompression::of_name(crate::scan::head_of(members[first]).name);
            let size = crate::scan::head_of(members[k]).size as int;
            &&& crate::codec::restores(
                crate::codec::decoded(members[k].data.take(size), c),
                plain,
            )
            &&& c == TileCompression::Plain ==> size >= 272
        }),
        plain.len() >= 40,
        plain.subrange(32, 40) == crate::index::le_bytes(id as nat, 8),
        id != 0,
    ensures
        ({
            let archive = crate::scan::tar_bytes(members) + tail;
            let step = answered(
                after_head(request, Ok(meta)),
                archive,
                crate::scan::chunk_count(archive.len()) + 2,
            );
            &&& is_opened(
                step,
                request,
                meta,
                TileCompression::of_name(crate::scan::head_of(members[first]).name),
                crate::text::decimal(id as nat),
            )
            &&& step matches OpenStepView::Ready(opened, _, source) && crate::scan::holds_tiles(
                opened.index,
                members,
            ) && source is Detected
        }),
{
    let archive = crate::scan::tar_bytes(members) + tail;
    let c = TileCompression::of_name(crate::scan::head_of(members[first]).name);
    let w = AwaitBytesView { request, meta, stage: StageView::FirstHeader };
    assert(crate::scan::is_member(members[0]));
    assert(crate::scan::is_member(members[k]));
    crate::scan::law_scan_finds_tiles(members, tail);
    assert(crate::scan::tile_of(members[first]) is Some);
    let index = match crate::scan::scanned(archive) {
        crate::scan::ScanOutcomeView::Done(index, _) => index,
        _ => arbitrary(),
    };
    assert(crate::scan::scanned(archive) == crate::scan::ScanOutcomeView::Done(index, c));
    crate::scan::lemma_member_bytes(members, tail, k);
    crate::scan::lemma_member_bytes(members, tail, 0);
    assert(members.take(0) =~= Seq::<crate::scan::Member>::empty());
    let header = archive.subrange(0, 512);
    assert(header =~= members[0].header);
    let size = crate::scan::head_of(members[k]).size;
    let start = crate::scan::tar_bytes(members.take(k)).len() + 512;
    let e = crate::index::TileEntry { offset: start as u64, size: size as u32 };
    assert(index.first_tile() == Some(e));
    assert(archive.subrange(start as int, start + size) =~= members[k].data.take(size as int));
    law_opening_starts_scan(w, archive, header);
    if let OpenStepView::Read(range, waiting) = next_step(w, Ok(header)) {
        lemma_tile_read(waiting, archive, index, c, e, plain, id);
        let done = ready(
            waiting,
            index,
            c,
            crate::text::decimal(id as nat),
            DatasetIdSourceView::Detected,
        );
        lemma_scan_answered(
            waiting,
            crate::scan::fresh(archive.len()),
            archive,
            range,
            index,
            c,
            done,
        );
    }
}

/// Without `index.bin` and without leave to scan, an archive is not opened.
pub proof fn law_missing_index_is_refused(
    w: AwaitBytesView,
    header: Seq<u8>,
)
    requires
        w.stage == StageView::FirstHeader,
    ensures
        header.len() != 512 ==> next_step(w, Ok(header)) == OpenStepView::Failed(
            crate::error::S3ErrorView::Protocol("tar header shorter than 512 bytes"@),
        ),
        header.len() == 512 && !w.request.scan_index ==> match crate::tar::header_of(header) {
            Ok(h) => h.name != "index.bin"@ ==> next_step(w, Ok(header)) == OpenStepView::Failed(
                crate::error::S3ErrorView::Tar(crate::error::TarErrorView::MissingIndexNoScan),
            ),
            Err(e) => true,
        },
        header.len() == 512 ==> match crate::tar::header_of(header) {
            Ok(_) => true,
            Err(e) => next_step(w, Ok(header)) == OpenStepView::Failed(
                crate::error::S3ErrorView::Tar(e),
            ),
        },
{
    if header.len() == 512 {
        crate::tar::lemma_header_error(header);
    }
}

/// A failed read ends the opening with its error, but for the read of a tile for the dataset id:
/// then the ETag is the dataset id.
pub proof fn law_failed_read(w: AwaitBytesView, e: crate::error::S3ErrorView)
    ensures
        !(w.stage is Tile) ==> next_step(w, Err(e)) == OpenStepView::Failed(e),
        w.stage matches StageView::Tile(index, compression) ==> is_opened(
            next_step(w, Err(e)),
            w.request,
            w.meta,
            compression,
            w.meta.etag,
        ) && (next_step(w, Err(e)) matches OpenStepView::Ready(archive, _, source) && archive.index
            == index && source == DatasetIdSourceView::Fallback(e)),
{
}

/// What is noted beside a step: the start of a scan, and what the chunks of a scan give.
pub proof fn law_reply_notes(
    w: AwaitBytesView,
    bytes: Seq<u8>,
    e: crate::error::S3ErrorView,
)
    ensures
        reply_notes(w, Err(e)).len() == 0,
        w.stage matches StageView::Scan(scan) ==> reply_notes(w, Ok(bytes))
            == crate::scan::chunk_notes(scan, bytes),
        w.stage is FirstHeader ==> (reply_notes(w, Ok(bytes)).len() > 0 <==> bytes.len() == 512
            && w.request.scan_index && (crate::tar::header_of(bytes) matches Ok(h) && h.name
            != "index.bin"@)),
        w.stage is FirstHeader && reply_notes(w, Ok(bytes)).len() > 0 ==> reply_notes(w, Ok(bytes))
            == seq![crate::scan::ScanNoteView::Started],
        w.stage is Index || w.stage is TileHeader || w.stage is Tile ==> reply_notes(
            w,
            Ok(bytes),
        ).len() == 0,
{
    if bytes.len() == 512 {
        crate::tar::lemma_header_error(bytes);
    }
}

/// Steps, and what they hold, hold what their views say.
pub proof fn law_open_views(
    range: ByteRange,
    waiting: AwaitBytes,
    archive: S3Archive,
    meta: ArchiveMeta,
    source: DatasetIdSource,
    e: S3Error,
    request: OpenRequest,
    object: ObjectMeta,
)
    ensures
        OpenStep::Read(range, waiting)@ == OpenStepView::Read(range, waiting@),
        OpenStep::Ready(archive, meta, source)@ == OpenStepView::Ready(archive@, meta@, source@),
        OpenStep::Failed(e)@ == OpenStepView::Failed(e@),
        OpenStep::OutOfBounds@ == OpenStepView::OutOfBounds,
        DatasetIdSource::Given@ == DatasetIdSourceView::Given,
        DatasetIdSource::Detected@ == DatasetIdSourceView::Detected,
        DatasetIdSource::Fallback(e)@ == DatasetIdSourceView::Fallback(e@),
        request@.bucket == request.bucket@ && request@.key == request.key@,
        request@.scan_index == request.scan_index,
        request@.dataset_id == request.dataset_id.deep_view(),
        object@.etag == object.etag@ && object@.last_modified == object.last_modified@,
        object@.size == object.size,
{
}

} // verus!
